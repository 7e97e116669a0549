//! The time mapper: places the merged event stream on a microsecond time
//! line under a changing tempo and sorts the notes into per-track lists.

use vstd::prelude::*;
use vstd::utf8::{decode_utf8, valid_utf8};
use crate::event::{EventKind, Timing};
use crate::sequencer::{
    all_exhausted, front, lemma_selected_exists, lemma_step_bounded, lemma_step_remaining,
    merged, remaining, selected, step, Cursor, Merged, Sequencer, SequencerEvent,
};

verus! {

/// The tempo in force before the first tempo change, in microseconds per
/// quarter note.
pub const DEFAULT_TEMPO: u32 = 500_000;

/// A note with its absolute time in microseconds.
#[derive(Clone, Copy, Debug, PartialEq, Eq, Structural)]
pub struct PlayerEvent {
    pub time: u64,
    pub note: u8,
    pub velocity: u8,
}

/// The notes of one track on the time line, with the track's name and its
/// length in microseconds.
#[derive(Clone, Debug, PartialEq, Eq)]
pub struct PlayerTrack {
    pub name: Option<String>,
    pub length: u64,
    pub events: Vec<PlayerEvent>,
}

/// What a `PlayerTrack` holds.
pub struct PlayerTrackView {
    pub name: Option<Seq<char>>,
    pub length: nat,
    pub events: Seq<PlayerEvent>,
}

impl View for PlayerTrack {
    type V = PlayerTrackView;

    open spec fn view(&self) -> PlayerTrackView {
        PlayerTrackView {
            name: match self.name {
                Some(s) => Some(s@),
                None => None,
            },
            length: self.length as nat,
            events: self.events@,
        }
    }
}

impl PlayerTrack {
    /// A track without name, length or notes.
    pub fn new() -> (r: PlayerTrack)
        ensures
            r@ == empty_track(),
    {
        PlayerTrack { name: None, length: 0, events: Vec::new() }
    }
}

/// The track that nothing was recorded on yet.
pub open spec fn empty_track() -> PlayerTrackView {
    PlayerTrackView { name: None, length: 0, events: Seq::empty() }
}

/// What a run of player tracks holds.
pub open spec fn tracks_view(tracks: Seq<PlayerTrack>) -> Seq<PlayerTrackView> {
    Seq::new(tracks.len(), |i: int| tracks[i]@)
}

/// The text that a run of bytes encodes, if it is valid UTF-8.
pub open spec fn text_of(bytes: Seq<u8>) -> Option<Seq<char>> {
    if valid_utf8(bytes) {
        Some(decode_utf8(bytes))
    } else {
        None
    }
}

/// `String::from_utf8`, with the error dropped: the bytes as text where they
/// are valid UTF-8, and nothing where they are not.
#[verifier::external_body]
fn decode_text(bytes: Vec<u8>) -> (r: Option<String>)
    ensures
        r is Some <==> valid_utf8(bytes@),
        r matches Some(s) ==> s@ == decode_utf8(bytes@),
{
    String::from_utf8(bytes).ok()
}

/// The tempo in force and the point from which it counts.
pub struct Tempo {
    pub ticks_per_quarter: nat,
    pub tempo: nat,
    pub anchor_tick: nat,
    pub anchor_time: nat,
}

impl Tempo {
    /// The time of `tick` in microseconds: the anchor's time plus the ticks
    /// since the anchor at the tempo in force, rounded down.
    pub open spec fn time_at(self, tick: nat) -> nat
        recommends
            self.anchor_tick <= tick,
            self.ticks_per_quarter > 0,
    {
        self.anchor_time + ((tick - self.anchor_tick) * self.tempo / self.ticks_per_quarter as int) as nat
    }

    /// The state after a change to `tempo` at `tick`: the anchor moves to
    /// that tick, at the time that the old tempo gives it.
    pub open spec fn retime(self, tick: nat, tempo: nat) -> Tempo {
        Tempo {
            ticks_per_quarter: self.ticks_per_quarter,
            tempo,
            anchor_tick: tick,
            anchor_time: self.time_at(tick),
        }
    }

    /// The state at the start of a file with the given ticks per quarter
    /// note.
    pub open spec fn initial(ticks_per_quarter: nat) -> Tempo {
        Tempo { ticks_per_quarter, tempo: DEFAULT_TEMPO as nat, anchor_tick: 0, anchor_time: 0 }
    }
}

/// The tempo state as the time mapper keeps it.
#[derive(Clone, Copy, Debug)]
pub struct TempoState {
    pub ticks_per_quarter: u16,
    pub tempo: u32,
    pub anchor_tick: u32,
    pub anchor_time: u64,
}

impl View for TempoState {
    type V = Tempo;

    open spec fn view(&self) -> Tempo {
        Tempo {
            ticks_per_quarter: self.ticks_per_quarter as nat,
            tempo: self.tempo as nat,
            anchor_tick: self.anchor_tick as nat,
            anchor_time: self.anchor_time as nat,
        }
    }
}

impl TempoState {
    /// There are ticks in a quarter note, and the anchor's time is one that
    /// its tick can have.
    pub open spec fn wf(&self) -> bool {
        &&& self.ticks_per_quarter > 0
        &&& self.anchor_time <= self.anchor_tick * u32::MAX
    }

    /// The state at the start of a file.
    pub fn new(ticks_per_quarter: u16) -> (r: TempoState)
        requires
            ticks_per_quarter > 0,
        ensures
            r.wf(),
            r@ == Tempo::initial(ticks_per_quarter as nat),
    {
        TempoState { ticks_per_quarter, tempo: DEFAULT_TEMPO, anchor_tick: 0, anchor_time: 0 }
    }

    /// The time of `tick` in microseconds.
    pub fn time_at(&self, tick: u32) -> (time: u64)
        requires
            self.wf(),
            self.anchor_tick <= tick,
        ensures
            time == self@.time_at(tick as nat),
            time <= tick * u32::MAX,
            self.anchor_time <= time,
    {
        let elapsed: u64 = (tick - self.anchor_tick) as u64;
        let tempo: u64 = self.tempo as u64;
        let per_quarter: u64 = self.ticks_per_quarter as u64;
        assert(elapsed * tempo <= elapsed * 0xffff_ffff) by (nonlinear_arith)
            requires
                tempo <= 0xffff_ffff,
                elapsed >= 0,
        ;
        assert(elapsed * 0xffff_ffff <= 0xffff_ffff * 0xffff_ffff) by (nonlinear_arith)
            requires
                elapsed <= 0xffff_ffff,
        ;
        let scaled: u64 = elapsed * tempo;
        let delta: u64 = scaled / per_quarter;
        assert(delta <= scaled) by (nonlinear_arith)
            requires
                delta == scaled / per_quarter,
                per_quarter >= 1,
                scaled >= 0,
        ;
        assert(self.anchor_tick * 0xffff_ffff + elapsed * 0xffff_ffff == tick * 0xffff_ffff)
            by (nonlinear_arith)
            requires
                elapsed == tick - self.anchor_tick,
        ;
        assert(tick * 0xffff_ffff <= 0xffff_ffff * 0xffff_ffff) by (nonlinear_arith)
            requires
                tick <= 0xffff_ffff,
        ;
        self.anchor_time + delta
    }

    /// Changes the tempo at `tick`: the anchor moves to that tick, at the time
    /// that the old tempo gives it, and the new tempo counts from there.
    pub fn retime(&mut self, tick: u32, tempo: u32)
        requires
            old(self).wf(),
            old(self).anchor_tick <= tick,
        ensures
            final(self).wf(),
            final(self)@ == old(self)@.retime(tick as nat, tempo as nat),
    {
        let time = self.time_at(tick);
        self.anchor_tick = tick;
        self.anchor_time = time;
        self.tempo = tempo;
    }
}

/// The timing that a file declares is not in ticks per quarter note.
#[derive(Clone, Copy, Debug, PartialEq, Eq, Structural)]
pub struct UnsupportedTiming;

/// What the time mapper has built up: the tempo state and the tracks.
pub struct Performance {
    pub tempo: Tempo,
    pub tracks: Seq<PlayerTrackView>,
}

impl Performance {
    /// The state before any event: the default tempo anchored at tick 0, and
    /// `count` empty tracks.
    pub open spec fn initial(ticks_per_quarter: nat, count: nat) -> Performance {
        Performance {
            tempo: Tempo::initial(ticks_per_quarter),
            tracks: Seq::new(count, |i: int| empty_track()),
        }
    }

    /// The state after one more event of the merged stream. A tempo change
    /// moves the anchor; a track name, an end of track and a note are
    /// recorded on the event's track at the event's time; any other event
    /// leaves the state as it is.
    pub open spec fn apply(self, e: Merged) -> Performance
        recommends
            0 <= e.track < self.tracks.len(),
            self.tempo.anchor_tick <= e.tick,
    {
        let time = self.tempo.time_at(e.tick);
        let track = self.tracks[e.track];
        match e.event.kind {
            EventKind::Tempo(t) => Performance {
                tempo: self.tempo.retime(e.tick, t as nat),
                tracks: self.tracks,
            },
            EventKind::TrackName(bytes) => Performance {
                tempo: self.tempo,
                tracks: self.tracks.update(
                    e.track,
                    PlayerTrackView { name: text_of(bytes@), ..track },
                ),
            },
            EventKind::EndOfTrack => Performance {
                tempo: self.tempo,
                tracks: self.tracks.update(e.track, PlayerTrackView { length: time, ..track }),
            },
            EventKind::NoteOn { key, vel } => Performance {
                tempo: self.tempo,
                tracks: self.tracks.update(
                    e.track,
                    PlayerTrackView {
                        events: track.events.push(
                            PlayerEvent { time: time as u64, note: key, velocity: vel },
                        ),
                        ..track
                    },
                ),
            },
            EventKind::Other => self,
        }
    }

    /// The state after a run of events, taken in order.
    pub open spec fn play(self, events: Seq<Merged>) -> Performance
        decreases events.len(),
    {
        if events.len() == 0 {
            self
        } else {
            self.play(events.drop_last()).apply(events.last())
        }
    }
}

/// Events on the tracks that there are change what the tracks hold, never
/// how many tracks there are.
pub proof fn lemma_play_keeps_tracks(start: Performance, events: Seq<Merged>)
    requires
        forall|i: int| 0 <= i < events.len() ==> 0 <= (#[trigger] events[i]).track < start.tracks.len(),
    ensures
        start.play(events).tracks.len() == start.tracks.len(),
    decreases events.len(),
{
    if events.len() > 0 {
        let before = events.drop_last();
        assert forall|i: int| 0 <= i < before.len() implies 0 <= (#[trigger] before[i]).track
            < start.tracks.len() by {
            assert(before[i] == events[i]);
        }
        lemma_play_keeps_tracks(start, before);
        assert(0 <= events[events.len() - 1].track < start.tracks.len());
    }
}

/// The notes are in the order of their times.
pub open spec fn time_sorted(events: Seq<PlayerEvent>) -> bool {
    forall|i: int, j: int| 0 <= i <= j < events.len() ==> events[i].time <= events[j].time
}

/// No note is later than `bound`.
pub open spec fn events_until(events: Seq<PlayerEvent>, bound: nat) -> bool {
    forall|i: int| 0 <= i < events.len() ==> (#[trigger] events[i]).time <= bound
}

/// The notes of every track are in the order of their times.
pub open spec fn all_sorted(tracks: Seq<PlayerTrackView>) -> bool {
    forall|t: int| 0 <= t < tracks.len() ==> time_sorted((#[trigger] tracks[t]).events)
}

/// Under one tempo state a later tick has no earlier time.
pub proof fn lemma_time_monotone(tempo: Tempo, a: nat, b: nat)
    requires
        tempo.ticks_per_quarter > 0,
        tempo.anchor_tick <= a <= b,
    ensures
        tempo.time_at(a) <= tempo.time_at(b),
{
    let x = (a - tempo.anchor_tick) * tempo.tempo;
    let y = (b - tempo.anchor_tick) * tempo.tempo;
    let d = tempo.ticks_per_quarter as int;
    assert(0 <= x <= y) by (nonlinear_arith)
        requires
            x == (a - tempo.anchor_tick) * tempo.tempo,
            y == (b - tempo.anchor_tick) * tempo.tempo,
            0 <= a - tempo.anchor_tick <= b - tempo.anchor_tick,
    ;
    assert(0 <= x / d <= y / d) by (nonlinear_arith)
        requires
            0 <= x <= y,
            d > 0,
    ;
}

/// No cursor has its next event before `tick`.
pub open spec fn not_before(cursors: Seq<Cursor>, tick: nat) -> bool {
    forall|j: int|
        0 <= j < cursors.len() && !(#[trigger] cursors[j]).exhausted() ==> tick
            <= cursors[j].tick()
}

/// A sequencer together with the tempo state and the tracks built from the
/// events taken from it so far.
pub struct TimeMapper {
    seq: Sequencer,
    tempo: TempoState,
    tracks: Vec<PlayerTrack>,
    /// The tick of the event recorded last.
    last: Ghost<nat>,
}

impl TimeMapper {
    /// The cursors of the sequencer that the mapper reads from.
    pub closed spec fn cursors(&self) -> Seq<Cursor> {
        self.seq@
    }

    /// What the mapper has built up so far.
    pub closed spec fn state(&self) -> Performance {
        Performance { tempo: self.tempo@, tracks: tracks_view(self.tracks@) }
    }

    /// The parts are well-formed, there is one track for each cursor, no
    /// cursor is behind the event recorded last, which is not behind the
    /// tempo anchor, and the notes of each track are in the order of their
    /// times, none later than the event recorded last.
    pub closed spec fn wf(&self) -> bool {
        &&& self.seq.wf()
        &&& self.tempo.wf()
        &&& self.tracks@.len() == self.seq@.len()
        &&& self.tempo.anchor_tick <= self.last@ <= u32::MAX
        &&& not_before(self.seq@, self.last@)
        &&& forall|t: int|
            0 <= t < self.tracks@.len() ==> time_sorted((#[trigger] self.tracks@[t]).events@)
                && events_until(self.tracks@[t].events@, self.tempo@.time_at(self.last@))
    }

    /// In a well-formed mapper there is one track for each cursor, and the
    /// notes of every track are in the order of their times.
    pub proof fn lemma_sorted(&self)
        requires
            self.wf(),
        ensures
            self.state().tracks.len() == self.cursors().len(),
            all_sorted(self.state().tracks),
    {
        assert forall|t: int| 0 <= t < self.state().tracks.len() implies time_sorted(
            (#[trigger] self.state().tracks[t]).events,
        ) by {
            assert(time_sorted(self.tracks@[t].events@));
        }
    }

    /// A mapper at the start of the time line, reading from `seq`. Only
    /// timing in ticks per quarter note is supported.
    pub fn new(seq: Sequencer, timing: Timing) -> (r: Result<TimeMapper, UnsupportedTiming>)
        requires
            seq.wf(),
            timing matches Timing::Metrical(n) ==> n > 0,
        ensures
            r is Ok <==> timing is Metrical,
            r matches Ok(m) ==> {
                &&& m.wf()
                &&& m.cursors() == seq@
                &&& timing matches Timing::Metrical(n)
                &&& m.state() == Performance::initial(n as nat, seq@.len())
                &&& m.state().tracks.len() == seq@.len()
            },
    {
        match timing {
            Timing::Metrical(n) => {
                let count = seq.len();
                let mut tracks: Vec<PlayerTrack> = Vec::new();
                let mut i: usize = 0;
                while i < count
                    invariant
                        i <= count,
                        tracks@.len() == i,
                        forall|j: int| 0 <= j < i ==> (#[trigger] tracks@[j])@ == empty_track(),
                    decreases count - i,
                {
                    tracks.push(PlayerTrack::new());
                    i = i + 1;
                }
                let m = TimeMapper { seq, tempo: TempoState::new(n), tracks, last: Ghost(0) };
                assert(m.state().tracks =~= Performance::initial(n as nat, seq@.len()).tracks);
                Ok(m)
            },
            Timing::Timecode => Err(UnsupportedTiming),
        }
    }

    /// Takes the next event of the merged stream and records it. Gives
    /// `false`, and changes nothing, once the stream has ended.
    pub fn step(&mut self) -> (r: bool)
        requires
            old(self).wf(),
        ensures
            final(self).wf(),
            final(self).cursors().len() == old(self).cursors().len(),
            final(self).state().tracks.len() == old(self).state().tracks.len(),
            r == !all_exhausted(old(self).cursors()),
            !r ==> final(self).cursors() == old(self).cursors()
                && final(self).state() == old(self).state(),
            r ==> final(self).cursors() == step(old(self).cursors())
                && final(self).state() == old(self).state().apply(front(old(self).cursors())),
    {
        let ghost before = self.seq@;
        let next = self.seq.next();
        match next {
            None => false,
            Some(e) => {
                proof {
                    lemma_selected_exists(before);
                    lemma_step_bounded(before);
                    let k = selected(before);
                    assert(!before[k].exhausted());
                    assert forall|j: int|
                        0 <= j < self.seq@.len() && !(#[trigger] self.seq@[j]).exhausted() implies e.ticks as nat
                        <= self.seq@[j].tick() by {
                        assert(front(before).tick < self.seq@[j].tick() || (front(before).tick
                            == self.seq@[j].tick() && k <= j));
                    }
                }
                let SequencerEvent { idx, ticks, event } = e;
                let time = self.tempo.time_at(ticks);
                let ghost tracks = self.tracks@;
                let ghost bound = self.tempo@.time_at(self.last@);
                proof {
                    assert(self.last@ <= ticks);
                    lemma_time_monotone(self.tempo@, self.last@, ticks as nat);
                    assert(bound <= time);
                }
                match event.kind {
                    EventKind::Tempo(t) => {
                        self.tempo.retime(ticks, t);
                        assert(self.tempo@.time_at(ticks as nat) == time) by {
                            assert(0 * (t as int) / (self.tempo.ticks_per_quarter as int) == 0)
                                by (nonlinear_arith)
                                requires
                                    self.tempo.ticks_per_quarter > 0,
                            ;
                        }
                    },
                    EventKind::TrackName(bytes) => {
                        self.tracks[idx].name = decode_text(bytes);
                        assert(tracks_view(self.tracks@) =~= tracks_view(tracks).update(
                            idx as int,
                            self.tracks@[idx as int]@,
                        ));
                    },
                    EventKind::EndOfTrack => {
                        self.tracks[idx].length = time;
                        assert(tracks_view(self.tracks@) =~= tracks_view(tracks).update(
                            idx as int,
                            self.tracks@[idx as int]@,
                        ));
                    },
                    EventKind::NoteOn { key, vel } => {
                        self.tracks[idx].events.push(
                            PlayerEvent { time, note: key, velocity: vel },
                        );
                        assert(tracks_view(self.tracks@) =~= tracks_view(tracks).update(
                            idx as int,
                            self.tracks@[idx as int]@,
                        ));
                    },
                    EventKind::Other => {},
                }
                self.last = Ghost(ticks as nat);
                proof {
                    assert(self.tempo@.time_at(ticks as nat) == time);
                    assert forall|t: int| 0 <= t < self.tracks@.len() implies time_sorted(
                        (#[trigger] self.tracks@[t]).events@,
                    ) && events_until(self.tracks@[t].events@, time as nat) by {
                        assert(time_sorted(tracks[t].events@));
                        assert(events_until(tracks[t].events@, bound));
                        let events = self.tracks@[t].events@;
                        if events != tracks[t].events@ {
                            assert(events == tracks[t].events@.push(events.last()));
                            assert(events.last().time == time);
                            assert forall|i: int, j: int| 0 <= i <= j < events.len() implies events[i].time
                                <= events[j].time by {
                                if i < events.len() - 1 {
                                    assert(tracks[t].events@[i].time <= bound);
                                }
                                if j < events.len() - 1 {
                                    assert(events[j] == tracks[t].events@[j]);
                                }
                            }
                            assert forall|i: int| 0 <= i < events.len() implies (
                            #[trigger] events[i]).time <= time by {
                                if i < events.len() - 1 {
                                    assert(tracks[t].events@[i].time <= bound);
                                }
                            }
                        } else {
                            assert forall|i: int| 0 <= i < events.len() implies (
                            #[trigger] events[i]).time <= time by {
                                assert(tracks[t].events@[i].time <= bound);
                            }
                        }
                    }
                }
                true
            },
        }
    }

    /// Ends the mapping and hands out the sequencer and the tracks, one for
    /// each cursor of the sequencer. The notes of each track are in the
    /// order of their times.
    pub fn finish(self) -> (r: (Sequencer, Vec<PlayerTrack>))
        requires
            self.wf(),
        ensures
            r.0.wf(),
            r.0@ == self.cursors(),
            r.1@.len() == self.cursors().len(),
            tracks_view(r.1@) == self.state().tracks,
            all_sorted(tracks_view(r.1@)),
    {
        proof {
            self.lemma_sorted();
        }
        (self.seq, self.tracks)
    }
}

impl Sequencer {
    /// Maps the whole merged stream onto the time line and gives one player
    /// track for each track of the sequencer, which is left exhausted. On
    /// each track the notes come in the order of their times. Only
    /// timing in ticks per quarter note is supported; with any other the
    /// sequencer stays as it is.
    pub fn play_all(&mut self, timing: Timing) -> (r: Result<Vec<PlayerTrack>, UnsupportedTiming>)
        requires
            old(self).wf(),
            timing matches Timing::Metrical(n) ==> n > 0,
        ensures
            final(self).wf(),
            r is Ok <==> timing is Metrical,
            r is Err ==> final(self)@ == old(self)@,
            r matches Ok(tracks) ==> {
                &&& timing matches Timing::Metrical(n)
                &&& tracks@.len() == old(self)@.len()
                &&& tracks_view(tracks@) == Performance::initial(n as nat, old(self)@.len()).play(
                    merged(old(self)@),
                ).tracks
                &&& all_sorted(tracks_view(tracks@))
                &&& final(self)@.len() == old(self)@.len()
                &&& all_exhausted(final(self)@)
            },
    {
        if let Timing::Timecode = timing {
            return Err(UnsupportedTiming);
        }
        let mut seq = Sequencer::new(Vec::new());
        std::mem::swap(self, &mut seq);
        let mut mapper = match TimeMapper::new(seq, timing) {
            Ok(m) => m,
            Err(e) => {
                return Err(e);
            },
        };
        let ghost all = merged(old(self)@);
        let ghost start = mapper.state();
        let ghost mut done: Seq<Merged> = Seq::empty();
        loop
            invariant
                mapper.wf(),
                mapper.cursors().len() == old(self)@.len(),
                done + merged(mapper.cursors()) == all,
                mapper.state() == start.play(done),
            ensures
                all_exhausted(mapper.cursors()),
            decreases remaining(mapper.cursors()),
        {
            let ghost cursors = mapper.cursors();
            let ghost before = done;
            if !mapper.step() {
                break ;
            }
            proof {
                lemma_selected_exists(cursors);
                lemma_step_remaining(cursors);
                done = before.push(front(cursors));
                assert(done.drop_last() =~= before);
                assert(done + merged(step(cursors)) =~= before + merged(cursors));
            }
        }
        assert(done =~= all);
        let (seq, tracks) = mapper.finish();
        *self = seq;
        Ok(tracks)
    }
}

} // verus!
