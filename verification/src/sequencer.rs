//! The sequencer: one cursor per track, merged by absolute tick.

use vstd::prelude::*;
use crate::event::{total_delta, lemma_total_delta_first, TrackEvent};

verus! {

/// The state of one track's cursor: the ticks consumed so far and the events
/// still to come, the lookahead event first.
pub struct Cursor {
    pub elapsed: nat,
    pub pending: Seq<TrackEvent>,
}

impl Cursor {
    /// No event is left.
    pub open spec fn exhausted(self) -> bool {
        self.pending.len() == 0
    }

    /// The absolute tick of the lookahead event.
    pub open spec fn tick(self) -> nat
        recommends
            !self.exhausted(),
    {
        self.elapsed + self.pending[0].delta as nat
    }

    /// The cursor after its lookahead event was taken.
    pub open spec fn advance(self) -> Cursor
        recommends
            !self.exhausted(),
    {
        Cursor { elapsed: self.tick(), pending: self.pending.drop_first() }
    }
}

/// A track with its cursor.
pub struct SequencedTrack {
    /// The events behind the lookahead event, the nearest one last.
    track: Vec<TrackEvent>,
    next: Option<TrackEvent>,
    /// The absolute tick of `next`, or of the last event once exhausted.
    ticks: u32,
    count: usize,
}

impl View for SequencedTrack {
    type V = Cursor;

    closed spec fn view(&self) -> Cursor {
        match self.next {
            Some(e) => Cursor {
                elapsed: (self.ticks - e.delta) as nat,
                pending: seq![e] + self.track@.reverse(),
            },
            None => Cursor { elapsed: self.ticks as nat, pending: Seq::empty() },
        }
    }
}

impl SequencedTrack {
    /// The cursor is consistent and every tick still to come fits in `u32`.
    pub closed spec fn wf(&self) -> bool {
        match self.next {
            Some(e) => e.delta <= self.ticks && self.ticks + total_delta(self.track@.reverse())
                <= u32::MAX,
            None => self.track@.len() == 0,
        }
    }

    /// The number of events the track had when the cursor was made.
    pub closed spec fn spec_count(&self) -> nat {
        self.count as nat
    }

    /// Puts a cursor on the first event of `track`. There is none where the
    /// track's ticks do not fit in `u32`.
    pub fn create(track: Vec<TrackEvent>) -> (r: Option<SequencedTrack>)
        ensures
            r is Some <==> total_delta(track@) <= u32::MAX,
            r matches Some(t) ==> t.wf() && t@ == (Cursor { elapsed: 0, pending: track@ })
                && t.spec_count() == track@.len(),
    {
        let count = track.len();
        let mut sum: u32 = 0;
        let mut i: usize = 0;
        while i < count
            invariant
                count == track@.len(),
                i <= count,
                sum == total_delta(track@.subrange(0, i as int)),
            decreases count - i,
        {
            assert(track@.subrange(0, i + 1).drop_last() =~= track@.subrange(0, i as int));
            match sum.checked_add(track[i].delta) {
                Some(s) => {
                    sum = s;
                },
                None => {
                    proof {
                        lemma_total_delta_prefix(track@, i + 1);
                    }
                    return None;
                },
            }
            i = i + 1;
        }
        assert(track@.subrange(0, count as int) =~= track@);
        let ghost all = track@;
        let stack = reversed(track);
        assert(stack@.reverse() =~= all);
        let mut t = SequencedTrack { track: stack, next: None, ticks: 0, count };
        let next = t.track.pop();
        match &next {
            Some(e) => {
                t.ticks = e.delta;
                proof {
                    lemma_total_delta_first(all);
                    assert(t.track@.reverse() =~= all.drop_first());
                    assert(seq![*e] + t.track@.reverse() =~= all);
                }
            },
            None => {
                assert(all =~= Seq::<TrackEvent>::empty());
            },
        }
        t.next = next;
        Some(t)
    }

    /// The number of events the track had when the cursor was made.
    pub fn count(&self) -> (n: usize)
        ensures
            n == self.spec_count(),
    {
        self.count
    }

    /// The absolute tick of the lookahead event, if one is left.
    pub fn tick(&self) -> (r: Option<u32>)
        requires
            self.wf(),
        ensures
            r is None <==> self@.exhausted(),
            r matches Some(t) ==> t == self@.tick(),
    {
        match &self.next {
            Some(_) => Some(self.ticks),
            None => None,
        }
    }

    /// Takes the lookahead event and moves the cursor to the event behind it,
    /// adding that event's delta time to the running tick. An exhausted
    /// cursor stays as it is and gives nothing.
    pub fn advance(&mut self) -> (r: Option<TrackEvent>)
        requires
            old(self).wf(),
        ensures
            final(self).wf(),
            final(self).spec_count() == old(self).spec_count(),
            old(self)@.exhausted() ==> r is None && final(self)@ == old(self)@,
            !old(self)@.exhausted() ==> r == Some(old(self)@.pending[0])
                && final(self)@ == old(self)@.advance(),
    {
        let taken = self.next.take();
        if taken.is_some() {
            let ghost before = self.track@;
            let next = self.track.pop();
            proof {
                if before.len() > 0 {
                    lemma_reverse_pop(before);
                }
                assert((seq![taken.unwrap()] + before.reverse()).drop_first() =~= before.reverse());
            }
            match &next {
                Some(e) => {
                    self.ticks = self.ticks + e.delta;
                },
                None => {},
            }
            self.next = next;
        }
        taken
    }
}

/// Popping a stack takes the first event of the queue that the stack holds
/// in reverse.
proof fn lemma_reverse_pop(stack: Seq<TrackEvent>)
    requires
        stack.len() > 0,
    ensures
        stack.reverse() == seq![stack.last()] + stack.drop_last().reverse(),
        stack.reverse().drop_first() == stack.drop_last().reverse(),
        (seq![stack.last()] + stack.drop_last().reverse()).drop_first() == stack.drop_last().reverse(),
        total_delta(stack.reverse()) == stack.last().delta as nat + total_delta(
            stack.drop_last().reverse(),
        ),
{
    let queue = stack.reverse();
    assert(queue =~= seq![stack.last()] + stack.drop_last().reverse());
    assert(queue.drop_first() =~= stack.drop_last().reverse());
    lemma_total_delta_first(queue);
}

/// The first `to` events span no more ticks than the whole run.
pub proof fn lemma_total_delta_prefix(events: Seq<TrackEvent>, to: int)
    requires
        0 <= to <= events.len(),
    ensures
        total_delta(events.subrange(0, to)) <= total_delta(events),
    decreases events.len() - to,
{
    if to == events.len() {
        assert(events.subrange(0, to) =~= events);
    } else {
        lemma_total_delta_prefix(events, to + 1);
        assert(events.subrange(0, to + 1).drop_last() =~= events.subrange(0, to));
    }
}

/// The same items in the opposite order.
pub fn reversed<T>(items: Vec<T>) -> (r: Vec<T>)
    ensures
        r@ == items@.reverse(),
{
    let mut rest = items;
    let mut stack: Vec<T> = Vec::new();
    while rest.len() > 0
        invariant
            rest@.len() + stack@.len() == items@.len(),
            rest@ =~= items@.subrange(0, rest@.len() as int),
            forall|i: int| 0 <= i < stack@.len() ==> stack@[i] == items@[items@.len() - 1 - i],
        decreases rest@.len(),
    {
        let e = rest.pop().unwrap();
        stack.push(e);
    }
    assert(stack@ =~= items@.reverse());
    stack
}

/// One event of the merged stream: the track it belongs to, its absolute
/// tick, and the event itself.
pub struct Merged {
    pub track: int,
    pub tick: nat,
    pub event: TrackEvent,
}

/// Every cursor has run out of events.
pub open spec fn all_exhausted(cursors: Seq<Cursor>) -> bool {
    forall|j: int| 0 <= j < cursors.len() ==> (#[trigger] cursors[j]).exhausted()
}

/// Cursor `k` is the one the merge takes from: it has an event, no cursor
/// has one at an earlier tick, and no cursor before it has one at the same
/// tick.
pub open spec fn selects(cursors: Seq<Cursor>, k: int) -> bool {
    &&& 0 <= k < cursors.len()
    &&& !cursors[k].exhausted()
    &&& forall|j: int|
        0 <= j < cursors.len() && !(#[trigger] cursors[j]).exhausted() ==> cursors[k].tick()
            <= cursors[j].tick()
    &&& forall|j: int|
        0 <= j < k && !(#[trigger] cursors[j]).exhausted() ==> cursors[k].tick()
            < cursors[j].tick()
}

/// The index of the cursor that the merge takes from.
pub open spec fn selected(cursors: Seq<Cursor>) -> int {
    choose|k: int| selects(cursors, k)
}

/// The event that the merge gives next.
pub open spec fn front(cursors: Seq<Cursor>) -> Merged
    recommends
        !all_exhausted(cursors),
{
    let k = selected(cursors);
    Merged { track: k, tick: cursors[k].tick(), event: cursors[k].pending[0] }
}

/// The cursors after the merge gave its next event.
pub open spec fn step(cursors: Seq<Cursor>) -> Seq<Cursor>
    recommends
        !all_exhausted(cursors),
{
    let k = selected(cursors);
    cursors.update(k, cursors[k].advance())
}

/// The number of events that the cursors still hold.
pub open spec fn remaining(cursors: Seq<Cursor>) -> nat
    decreases cursors.len(),
{
    if cursors.len() == 0 {
        0
    } else {
        remaining(cursors.drop_last()) + cursors.last().pending.len()
    }
}

/// The whole merged stream that the cursors give, in the order in which the
/// sequencer hands it out.
pub open spec fn merged(cursors: Seq<Cursor>) -> Seq<Merged>
    decreases remaining(cursors),
{
    if all_exhausted(cursors) {
        Seq::empty()
    } else {
        proof {
            lemma_step_remaining(cursors);
        }
        seq![front(cursors)] + merged(step(cursors))
    }
}

/// Replacing one cursor changes the number of events held by the difference
/// between the two.
pub proof fn lemma_remaining_update(cursors: Seq<Cursor>, k: int, c: Cursor)
    requires
        0 <= k < cursors.len(),
    ensures
        remaining(cursors.update(k, c)) + cursors[k].pending.len() == remaining(cursors)
            + c.pending.len(),
    decreases cursors.len(),
{
    let after = cursors.update(k, c);
    if k == cursors.len() - 1 {
        assert(after.drop_last() =~= cursors.drop_last());
    } else {
        lemma_remaining_update(cursors.drop_last(), k, c);
        assert(after.drop_last() =~= cursors.drop_last().update(k, c));
    }
}

/// Where no cursor holds an event, none is held at all, and the other way
/// round.
pub proof fn lemma_remaining_zero(cursors: Seq<Cursor>)
    ensures
        remaining(cursors) == 0 <==> all_exhausted(cursors),
    decreases cursors.len(),
{
    if cursors.len() > 0 {
        let init = cursors.drop_last();
        lemma_remaining_zero(init);
        if all_exhausted(cursors) {
            assert forall|j: int| 0 <= j < init.len() implies (#[trigger] init[j]).exhausted() by {
                assert(cursors[j].exhausted());
            }
            assert(cursors[cursors.len() - 1].exhausted());
        }
        if remaining(cursors) == 0 {
            assert forall|j: int| 0 <= j < cursors.len() implies (
            #[trigger] cursors[j]).exhausted() by {
                if j < init.len() {
                    assert(init[j].exhausted());
                }
            }
        }
    }
}

/// While some cursor holds an event, one cursor is selected.
pub proof fn lemma_selected_exists(cursors: Seq<Cursor>)
    requires
        !all_exhausted(cursors),
    ensures
        selects(cursors, selected(cursors)),
    decreases cursors.len(),
{
    let n = cursors.len() as int;
    let init = cursors.drop_last();
    let last = cursors[n - 1];
    if all_exhausted(init) {
        let w = choose|j: int| 0 <= j < cursors.len() && !(#[trigger] cursors[j]).exhausted();
        if w < n - 1 {
            assert(init[w].exhausted());
        }
        assert(!last.exhausted());
        assert forall|j: int| 0 <= j < n - 1 implies (#[trigger] cursors[j]).exhausted() by {
            assert(init[j].exhausted());
        }
        assert(selects(cursors, n - 1));
    } else {
        lemma_selected_exists(init);
        let k = selected(init);
        assert(init[k] == cursors[k]);
        if !last.exhausted() && last.tick() < init[k].tick() {
            assert forall|j: int| 0 <= j < n && !(#[trigger] cursors[j]).exhausted() implies last.tick()
                <= cursors[j].tick() by {
                if j < n - 1 {
                    assert(init[j] == cursors[j]);
                }
            }
            assert forall|j: int| 0 <= j < n - 1 && !(#[trigger] cursors[j]).exhausted() implies last.tick()
                < cursors[j].tick() by {
                assert(init[j] == cursors[j]);
            }
            assert(selects(cursors, n - 1));
        } else {
            assert forall|j: int| 0 <= j < n && !(#[trigger] cursors[j]).exhausted() implies cursors[k].tick()
                <= cursors[j].tick() by {
                if j < n - 1 {
                    assert(init[j] == cursors[j]);
                }
            }
            assert forall|j: int| 0 <= j < k && !(#[trigger] cursors[j]).exhausted() implies cursors[k].tick()
                < cursors[j].tick() by {
                assert(init[j] == cursors[j]);
            }
            assert(selects(cursors, k));
        }
    }
}

/// At most one cursor is selected.
pub proof fn lemma_selects_unique(cursors: Seq<Cursor>, a: int, b: int)
    requires
        selects(cursors, a),
        selects(cursors, b),
    ensures
        a == b,
{
    if a < b {
        assert(!cursors[a].exhausted());
    } else if b < a {
        assert(!cursors[b].exhausted());
    }
}

/// One step of the scan for the selected cursor. Among the first `i + 1`
/// cursors the selected one is cursor `i`, where it has an event and the
/// first `i` cursors have none or only later ones; otherwise it is the one
/// selected among the first `i`; and none is selected where none of them has
/// an event.
pub proof fn lemma_scan(cursors: Seq<Cursor>, i: int)
    requires
        0 <= i < cursors.len(),
    ensures
        all_exhausted(cursors.subrange(0, i)) && cursors[i].exhausted() ==> all_exhausted(
            cursors.subrange(0, i + 1),
        ),
        all_exhausted(cursors.subrange(0, i)) && !cursors[i].exhausted() ==> selects(
            cursors.subrange(0, i + 1),
            i,
        ),
        forall|k: int|
            #[trigger] selects(cursors.subrange(0, i), k) ==> selects(
                cursors.subrange(0, i + 1),
                if !cursors[i].exhausted() && cursors[i].tick() < cursors[k].tick() {
                    i
                } else {
                    k
                },
            ),
{
    let seen = cursors.subrange(0, i);
    let more = cursors.subrange(0, i + 1);
    assert(more[i] == cursors[i]);
    assert forall|j: int| 0 <= j < i implies seen[j] == #[trigger] more[j] by {}
    if all_exhausted(seen) {
        assert forall|j: int| 0 <= j < i implies (#[trigger] more[j]).exhausted() by {
            assert(seen[j].exhausted());
        }
    }
    assert forall|k: int| #[trigger] selects(seen, k) implies selects(
        more,
        if !cursors[i].exhausted() && cursors[i].tick() < cursors[k].tick() {
            i
        } else {
            k
        },
    ) by {
        assert(seen[k] == more[k]);
        assert forall|j: int| 0 <= j < i && !(#[trigger] more[j]).exhausted() implies seen[k].tick()
            <= more[j].tick() by {
            assert(!seen[j].exhausted());
        }
        assert forall|j: int| 0 <= j < k && !(#[trigger] more[j]).exhausted() implies seen[k].tick()
            < more[j].tick() by {
            assert(!seen[j].exhausted());
        }
    }
}

/// Each step of the merge takes one event from the cursors.
pub proof fn lemma_step_remaining(cursors: Seq<Cursor>)
    requires
        !all_exhausted(cursors),
    ensures
        remaining(step(cursors)) + 1 == remaining(cursors),
{
    lemma_selected_exists(cursors);
    let k = selected(cursors);
    lemma_remaining_update(cursors, k, cursors[k].advance());
}

/// Event `a` comes no later than event `b` in the order of the merged
/// stream: by tick, and by track number within one tick.
pub open spec fn in_order(a: Merged, b: Merged) -> bool {
    a.tick < b.tick || (a.tick == b.tick && a.track <= b.track)
}

/// Every event that the cursors still hold comes at `m` or later.
pub open spec fn bounded_below(cursors: Seq<Cursor>, m: Merged) -> bool {
    forall|j: int|
        0 <= j < cursors.len() && !(#[trigger] cursors[j]).exhausted() ==> m.tick
            < cursors[j].tick() || (m.tick == cursors[j].tick() && m.track <= j)
}

/// After a step, nothing that is left comes before the event just given.
pub proof fn lemma_step_bounded(cursors: Seq<Cursor>)
    requires
        !all_exhausted(cursors),
    ensures
        bounded_below(step(cursors), front(cursors)),
{
    lemma_selected_exists(cursors);
    let k = selected(cursors);
    let first = front(cursors);
    let after = step(cursors);
    assert forall|j: int| 0 <= j < after.len() && !(#[trigger] after[j]).exhausted() implies first.tick
        < after[j].tick() || (first.tick == after[j].tick() && k <= j) by {
        if j != k {
            assert(after[j] == cursors[j]);
            assert(!cursors[j].exhausted());
        }
    }
}

/// Of two events that the sequencer hands out one after the other, the
/// second is not at an earlier tick, nor at the same tick on an earlier
/// track.
pub proof fn lemma_next_in_order(cursors: Seq<Cursor>)
    requires
        !all_exhausted(cursors),
        !all_exhausted(step(cursors)),
    ensures
        in_order(front(cursors), front(step(cursors))),
{
    lemma_step_bounded(cursors);
    lemma_selected_exists(step(cursors));
    let after = step(cursors);
    assert(!after[selected(after)].exhausted());
}

/// Where nothing that the cursors hold comes before `m`, nothing in their
/// merged stream does.
pub proof fn lemma_merged_bounded(cursors: Seq<Cursor>, m: Merged)
    requires
        bounded_below(cursors, m),
    ensures
        forall|i: int| 0 <= i < merged(cursors).len() ==> in_order(m, #[trigger] merged(cursors)[i]),
    decreases remaining(cursors),
{
    if !all_exhausted(cursors) {
        lemma_selected_exists(cursors);
        lemma_step_remaining(cursors);
        lemma_step_bounded(cursors);
        let k = selected(cursors);
        let first = front(cursors);
        let after = step(cursors);
        let stream = merged(cursors);
        let rest = merged(after);
        assert(!cursors[k].exhausted());
        assert(in_order(m, first));
        assert forall|j: int| 0 <= j < after.len() && !(#[trigger] after[j]).exhausted() implies m.tick
            < after[j].tick() || (m.tick == after[j].tick() && m.track <= j) by {
            assert(first.tick < after[j].tick() || (first.tick == after[j].tick() && k <= j));
        }
        lemma_merged_bounded(after, m);
        assert forall|i: int| 0 <= i < stream.len() implies in_order(m, #[trigger] stream[i]) by {
            if i > 0 {
                assert(stream[i] == rest[i - 1]);
            }
        }
    }
}

/// The merged stream is ordered by tick, and by track number within one
/// tick.
pub proof fn lemma_merged_ordered(cursors: Seq<Cursor>)
    ensures
        ({
            let stream = merged(cursors);
            forall|i: int, j: int|
                0 <= i < j < stream.len() ==> in_order(#[trigger] stream[i], #[trigger] stream[j])
        }),
    decreases remaining(cursors),
{
    if !all_exhausted(cursors) {
        lemma_step_remaining(cursors);
        lemma_step_bounded(cursors);
        let after = step(cursors);
        let stream = merged(cursors);
        let rest = merged(after);
        lemma_merged_bounded(after, front(cursors));
        lemma_merged_ordered(after);
        assert forall|i: int, j: int| 0 <= i < j < stream.len() implies in_order(
            #[trigger] stream[i],
            #[trigger] stream[j],
        ) by {
            assert(stream[j] == rest[j - 1]);
            if i > 0 {
                assert(stream[i] == rest[i - 1]);
            }
        }
    }
}

/// The ticks of the merged stream never decrease, whatever the tracks hold.
pub proof fn lemma_merged_ticks_nondecreasing(cursors: Seq<Cursor>)
    ensures
        ({
            let stream = merged(cursors);
            forall|i: int, j: int|
                0 <= i <= j < stream.len() ==> (#[trigger] stream[i]).tick <= (
                #[trigger] stream[j]).tick
        }),
{
    lemma_merged_ordered(cursors);
    let stream = merged(cursors);
    assert forall|i: int, j: int| 0 <= i <= j < stream.len() implies (#[trigger] stream[i]).tick <= (
    #[trigger] stream[j]).tick by {
        if i < j {
            assert(in_order(stream[i], stream[j]));
        }
    }
}

/// Where two tracks have their next events at the same tick, the merge
/// takes the one of the lower track number first: the higher track is not
/// the selected one, and an event given at that tick belongs to the lower
/// track or to one before it.
pub proof fn lemma_tie_goes_to_lower_track(cursors: Seq<Cursor>, low: int, high: int)
    requires
        0 <= low < high < cursors.len(),
        !cursors[low].exhausted(),
        !cursors[high].exhausted(),
        cursors[low].tick() == cursors[high].tick(),
    ensures
        selects(cursors, selected(cursors)),
        selected(cursors) != high,
        front(cursors).tick == cursors[low].tick() ==> front(cursors).track <= low,
{
    lemma_selected_exists(cursors);
}

/// Within one tick the merged stream goes by track number: of two events at
/// the same tick, the one given first belongs to the track of the lower or
/// the same number.
pub proof fn lemma_merged_ties_by_track(cursors: Seq<Cursor>)
    ensures
        ({
            let stream = merged(cursors);
            forall|i: int, j: int|
                0 <= i < j < stream.len() && (#[trigger] stream[i]).tick == (
                #[trigger] stream[j]).tick ==> stream[i].track <= stream[j].track
        }),
{
    lemma_merged_ordered(cursors);
    let stream = merged(cursors);
    assert forall|i: int, j: int|
        0 <= i < j < stream.len() && (#[trigger] stream[i]).tick == (
        #[trigger] stream[j]).tick implies stream[i].track <= stream[j].track by {
        assert(in_order(stream[i], stream[j]));
    }
}

/// The merged stream holds every event of every cursor: it is as long as the
/// number of events held.
pub proof fn lemma_merged_len(cursors: Seq<Cursor>)
    ensures
        merged(cursors).len() == remaining(cursors),
    decreases remaining(cursors),
{
    lemma_remaining_zero(cursors);
    if !all_exhausted(cursors) {
        lemma_step_remaining(cursors);
        lemma_merged_len(step(cursors));
    }
}

/// Every event of the merged stream belongs to one of the tracks.
pub proof fn lemma_merged_tracks(cursors: Seq<Cursor>)
    ensures
        forall|i: int|
            0 <= i < merged(cursors).len() ==> 0 <= (#[trigger] merged(cursors)[i]).track
                < cursors.len(),
    decreases remaining(cursors),
{
    if !all_exhausted(cursors) {
        lemma_selected_exists(cursors);
        lemma_step_remaining(cursors);
        let stream = merged(cursors);
        let rest = merged(step(cursors));
        lemma_merged_tracks(step(cursors));
        assert forall|i: int| 0 <= i < stream.len() implies 0 <= (#[trigger] stream[i]).track
            < cursors.len() by {
            if i > 0 {
                assert(stream[i] == rest[i - 1]);
            }
        }
    }
}

/// The events of one track in a stream, in the order of the stream.
pub open spec fn events_of(stream: Seq<Merged>, track: int) -> Seq<TrackEvent>
    decreases stream.len(),
{
    if stream.len() == 0 {
        Seq::empty()
    } else if stream[0].track == track {
        seq![stream[0].event] + events_of(stream.drop_first(), track)
    } else {
        events_of(stream.drop_first(), track)
    }
}

/// The merge neither drops, adds nor reorders the events of a track: taken
/// track by track, the merged stream is what each cursor holds.
pub proof fn lemma_merged_keeps_tracks(cursors: Seq<Cursor>, track: int)
    requires
        0 <= track < cursors.len(),
    ensures
        events_of(merged(cursors), track) == cursors[track].pending,
    decreases remaining(cursors),
{
    let stream = merged(cursors);
    if all_exhausted(cursors) {
        assert(cursors[track].exhausted());
        assert(cursors[track].pending =~= Seq::<TrackEvent>::empty());
    } else {
        lemma_selected_exists(cursors);
        lemma_step_remaining(cursors);
        let k = selected(cursors);
        let after = step(cursors);
        lemma_merged_keeps_tracks(after, track);
        assert(stream.drop_first() =~= merged(after));
        assert(stream[0] == front(cursors));
        if k == track {
            let pending = cursors[track].pending;
            assert(seq![pending[0]] + pending.drop_first() =~= pending);
        } else {
            assert(after[track] == cursors[track]);
        }
    }
}

/// One event as the sequencer hands it out.
#[derive(Clone, Debug, PartialEq, Eq)]
pub struct SequencerEvent {
    pub idx: usize,
    pub ticks: u32,
    pub event: TrackEvent,
}

impl View for SequencerEvent {
    type V = Merged;

    open spec fn view(&self) -> Merged {
        Merged { track: self.idx as int, tick: self.ticks as nat, event: self.event }
    }
}

/// The cursors of all tracks, indexed by track number.
pub struct Sequencer {
    tracks: Vec<SequencedTrack>,
}

impl View for Sequencer {
    type V = Seq<Cursor>;

    closed spec fn view(&self) -> Seq<Cursor> {
        cursors_of(self.tracks@)
    }
}

/// The cursor states of a run of tracks.
pub open spec fn cursors_of(tracks: Seq<SequencedTrack>) -> Seq<Cursor> {
    Seq::new(tracks.len(), |i: int| tracks[i]@)
}

/// The sum of a run of numbers.
pub open spec fn sum_of(numbers: Seq<nat>) -> nat
    decreases numbers.len(),
{
    if numbers.len() == 0 {
        0
    } else {
        sum_of(numbers.drop_last()) + numbers.last()
    }
}

/// Fresh cursors on a run of tracks.
pub open spec fn fresh_cursors(tracks: Seq<Vec<TrackEvent>>) -> Seq<Cursor> {
    Seq::new(tracks.len(), |i: int| Cursor { elapsed: 0, pending: tracks[i]@ })
}

impl Sequencer {
    /// Every cursor is well-formed.
    pub closed spec fn wf(&self) -> bool {
        forall|i: int| 0 <= i < self.tracks@.len() ==> (#[trigger] self.tracks@[i]).wf()
    }

    /// For each track, the number of events it had when its cursor was made.
    pub closed spec fn counts(&self) -> Seq<nat> {
        Seq::new(self.tracks@.len(), |i: int| self.tracks@[i].spec_count())
    }

    /// A sequencer over the given cursors, in their order.
    pub fn new(tracks: Vec<SequencedTrack>) -> (r: Sequencer)
        requires
            forall|i: int| 0 <= i < tracks@.len() ==> (#[trigger] tracks@[i]).wf(),
        ensures
            r.wf(),
            r@ == cursors_of(tracks@),
            r.counts() == Seq::new(tracks@.len(), |i: int| tracks@[i].spec_count()),
    {
        Sequencer { tracks }
    }

    /// The number of events that all tracks together had when their cursors
    /// were made, or `usize::MAX` where the number is larger.
    pub fn event_count(&self) -> (n: usize)
        ensures
            n == if sum_of(self.counts()) <= usize::MAX {
                sum_of(self.counts())
            } else {
                usize::MAX as nat
            },
    {
        let ghost counts = self.counts();
        let mut total: usize = 0;
        let mut i: usize = 0;
        while i < self.tracks.len()
            invariant
                counts == self.counts(),
                i <= self.tracks@.len(),
                total == if sum_of(counts.subrange(0, i as int)) <= usize::MAX {
                    sum_of(counts.subrange(0, i as int))
                } else {
                    usize::MAX as nat
                },
            decreases self.tracks@.len() - i,
        {
            assert(counts.subrange(0, i + 1).drop_last() =~= counts.subrange(0, i as int));
            assert(counts.subrange(0, i + 1).last() == self.tracks@[i as int].spec_count());
            total = total.saturating_add(self.tracks[i].count());
            i = i + 1;
        }
        assert(counts.subrange(0, i as int) =~= counts);
        total
    }

    /// A sequencer with a fresh cursor on each of the given tracks. There is
    /// none where the ticks of some track do not fit in `u32`.
    pub fn from_tracks(tracks: Vec<Vec<TrackEvent>>) -> (r: Option<Sequencer>)
        ensures
            r is Some <==> forall|i: int|
                0 <= i < tracks@.len() ==> total_delta((#[trigger] tracks@[i])@) <= u32::MAX,
            r matches Some(s) ==> s.wf() && s@ == fresh_cursors(tracks@) && s.counts() == Seq::new(
                tracks@.len(),
                |i: int| tracks@[i]@.len(),
            ),
    {
        let ghost all = tracks@;
        let mut stack = reversed(tracks);
        let mut cursors: Vec<SequencedTrack> = Vec::new();
        while stack.len() > 0
            invariant
                all == tracks@,
                cursors@.len() + stack@.len() == all.len(),
                forall|i: int|
                    0 <= i < stack@.len() ==> stack@[i] == all[all.len() - 1 - i],
                forall|i: int|
                    0 <= i < cursors@.len() ==> (#[trigger] cursors@[i]).wf() && cursors@[i]@ == (
                    Cursor { elapsed: 0, pending: all[i]@ }) && cursors@[i].spec_count()
                        == all[i]@.len(),
                forall|i: int|
                    0 <= i < cursors@.len() ==> total_delta((#[trigger] all[i])@) <= u32::MAX,
            decreases stack@.len(),
        {
            let ghost at = cursors@.len() as int;
            let t = stack.pop().unwrap();
            assert(t == all[at]);
            match SequencedTrack::create(t) {
                Some(c) => {
                    cursors.push(c);
                },
                None => {
                    return None;
                },
            }
        }
        let s = Sequencer { tracks: cursors };
        assert(s@ =~= fresh_cursors(tracks@));
        assert(s.counts() =~= Seq::new(tracks@.len(), |i: int| tracks@[i]@.len()));
        Some(s)
    }

    /// The number of tracks.
    pub fn len(&self) -> (n: usize)
        ensures
            n == self@.len(),
    {
        self.tracks.len()
    }

    /// Hands out the next event of the merged stream, from the cursor at the
    /// least tick, the first such cursor where several share it, and moves
    /// that cursor on. Gives nothing once every cursor is exhausted.
    pub fn next(&mut self) -> (r: Option<SequencerEvent>)
        requires
            old(self).wf(),
        ensures
            final(self).wf(),
            final(self)@.len() == old(self)@.len(),
            final(self).counts() == old(self).counts(),
            all_exhausted(old(self)@) ==> r is None && final(self)@ == old(self)@,
            !all_exhausted(old(self)@) ==> r is Some && r.unwrap()@ == front(old(self)@)
                && final(self)@ == step(old(self)@),
            r matches Some(e) ==> e.idx < old(self)@.len() && selects(old(self)@, e.idx as int),
    {
        let n = self.tracks.len();
        let mut best: Option<(usize, u32)> = None;
        let mut i: usize = 0;
        while i < n
            invariant
                self.wf(),
                n == self.tracks@.len(),
                i <= n,
                best is None ==> all_exhausted(self@.subrange(0, i as int)),
                best matches Some((k, t)) ==> k < i && selects(self@.subrange(0, i as int), k as int)
                    && t == self@[k as int].tick(),
            decreases n - i,
        {
            proof {
                lemma_scan(self@, i as int);
            }
            match self.tracks[i].tick() {
                Some(t) => {
                    let earlier = match best {
                        Some((_, least)) => t < least,
                        None => true,
                    };
                    if earlier {
                        best = Some((i, t));
                    }
                },
                None => {},
            }
            i = i + 1;
        }
        assert(self@.subrange(0, n as int) =~= self@);
        match best {
            Some((idx, ticks)) => {
                proof {
                    assert(!self@[idx as int].exhausted());
                    lemma_selected_exists(self@);
                    lemma_selects_unique(self@, idx as int, selected(self@));
                }
                let ghost before = self.tracks@;
                let event = self.tracks[idx].advance().unwrap();
                assert(self.tracks@ =~= before.update(idx as int, self.tracks@[idx as int]));
                assert(self@ =~= step(old(self)@));
                assert(self.counts() =~= old(self).counts());
                Some(SequencerEvent { idx, ticks, event })
            },
            None => {
                assert(all_exhausted(self@));
                None
            },
        }
    }
}

} // verus!
