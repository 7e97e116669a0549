//! Track events as the sequencer reads them.

use vstd::prelude::*;

verus! {

/// What an event carries. Only the kinds that sequencing acts on keep their
/// payload; every other kind is `Other`.
#[derive(Clone, Debug, PartialEq, Eq)]
pub enum EventKind {
    /// A tempo change to the given number of microseconds per quarter note.
    Tempo(u32),
    /// The track's name, as the raw bytes found in the file.
    TrackName(Vec<u8>),
    /// The end of the track.
    EndOfTrack,
    /// A key pressed with some velocity.
    NoteOn { key: u8, vel: u8 },
    /// Any other event.
    Other,
}

/// One event of a track: the ticks that passed since the previous event of
/// the same track, and what happened.
#[derive(Clone, Debug, PartialEq, Eq)]
pub struct TrackEvent {
    pub delta: u32,
    pub kind: EventKind,
}

/// What an `EventKind` holds.
pub enum KindView {
    Tempo(u32),
    TrackName(Seq<u8>),
    EndOfTrack,
    NoteOn { key: u8, vel: u8 },
    Other,
}

impl View for EventKind {
    type V = KindView;

    open spec fn view(&self) -> KindView {
        match self {
            EventKind::Tempo(t) => KindView::Tempo(*t),
            EventKind::TrackName(bytes) => KindView::TrackName(bytes@),
            EventKind::EndOfTrack => KindView::EndOfTrack,
            EventKind::NoteOn { key, vel } => KindView::NoteOn { key: *key, vel: *vel },
            EventKind::Other => KindView::Other,
        }
    }
}

/// What a `TrackEvent` holds.
pub struct EventView {
    pub delta: u32,
    pub kind: KindView,
}

impl View for TrackEvent {
    type V = EventView;

    open spec fn view(&self) -> EventView {
        EventView { delta: self.delta, kind: self.kind@ }
    }
}

/// How a file counts time.
#[derive(Clone, Copy, Debug, PartialEq, Eq, Structural)]
pub enum Timing {
    /// Ticks per quarter note.
    Metrical(u16),
    /// Ticks per second; not supported by the time mapper.
    Timecode,
}

/// The ticks that a run of events spans: the sum of their delta times.
pub open spec fn total_delta(events: Seq<TrackEvent>) -> nat
    decreases events.len(),
{
    if events.len() == 0 {
        0
    } else {
        total_delta(events.drop_last()) + events.last().delta as nat
    }
}

/// Splitting off the first event instead of the last gives the same sum.
pub proof fn lemma_total_delta_first(events: Seq<TrackEvent>)
    requires
        events.len() > 0,
    ensures
        total_delta(events) == events[0].delta as nat + total_delta(events.drop_first()),
    decreases events.len(),
{
    if events.len() == 1 {
        assert(events.drop_last() =~= Seq::<TrackEvent>::empty());
        assert(events.drop_first() =~= Seq::<TrackEvent>::empty());
    } else {
        lemma_total_delta_first(events.drop_last());
        assert(events.drop_last().drop_first() =~= events.drop_first().drop_last());
        assert(events.drop_first().last() == events.last());
        assert(events.drop_last()[0] == events[0]);
    }
}

} // verus!
