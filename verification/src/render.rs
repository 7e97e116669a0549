//! The note scheduler: for one track and one instrument, the blocks of
//! samples to render and the notes that the synthesizer must receive before
//! each of them.

use vstd::prelude::*;
use crate::config::InstrumentSetting;
use crate::player::{time_sorted, PlayerEvent, PlayerTrack};

verus! {

/// Microseconds in a second.
pub const MICROS_PER_SECOND: u64 = 1_000_000;

/// The status byte of a controller change.
pub const CONTROL_CHANGE: u8 = 0xb0;

/// The status byte of a program change.
pub const PROGRAM_CHANGE: u8 = 0xc0;

/// The controller that selects the bank.
pub const BANK_SELECT: u8 = 0x00;

/// A message for the synthesizer's first channel.
#[derive(Clone, Copy, Debug, PartialEq, Eq, Structural)]
pub struct ControlMessage {
    pub command: u8,
    pub data1: u8,
    pub data2: u8,
}

/// A note for the synthesizer's first channel.
#[derive(Clone, Copy, Debug, PartialEq, Eq, Structural)]
pub struct Note {
    pub key: u8,
    pub velocity: u8,
}

/// One block to render: where it starts in the output, and the notes to
/// hand to the synthesizer before rendering it, in this order.
#[derive(Clone, Debug, PartialEq, Eq)]
pub struct Block {
    pub offset: usize,
    pub notes: Vec<Note>,
}

/// So many samples at `sample_rate` samples per second last no less than
/// `length + padding` microseconds.
pub open spec fn covers(samples: nat, length: nat, padding: nat, sample_rate: nat) -> bool {
    (length + padding) * sample_rate <= samples * MICROS_PER_SECOND
}

/// The least number of samples that covers `length + padding` microseconds
/// at `sample_rate` samples per second: what they take, rounded up to a
/// whole sample.
pub open spec fn samples_needed(length: nat, padding: nat, sample_rate: nat) -> nat {
    (((length + padding) * sample_rate + (MICROS_PER_SECOND - 1)) / (MICROS_PER_SECOND as int)) as nat
}

/// `samples_needed` covers the track and its padding.
pub proof fn lemma_samples_needed(length: nat, padding: nat, sample_rate: nat)
    ensures
        covers(samples_needed(length, padding, sample_rate), length, padding, sample_rate),
{
    let scaled = (length + padding) * sample_rate;
    assert(scaled >= 0) by (nonlinear_arith)
        requires
            scaled == (length + padding) * sample_rate,
    ;
    assert(scaled <= ((scaled + 999_999) / 1_000_000) * 1_000_000) by (nonlinear_arith)
        requires
            scaled >= 0,
    ;
}

/// No number of samples that covers the track and its padding is less than
/// `samples_needed`.
pub proof fn lemma_samples_needed_least(length: nat, padding: nat, sample_rate: nat, samples: nat)
    requires
        covers(samples, length, padding, sample_rate),
    ensures
        samples_needed(length, padding, sample_rate) <= samples,
{
    let scaled = (length + padding) * sample_rate;
    assert(scaled >= 0) by (nonlinear_arith)
        requires
            scaled == (length + padding) * sample_rate,
    ;
    assert((scaled + 999_999) / 1_000_000 <= samples) by (nonlinear_arith)
        requires
            0 <= scaled <= samples * 1_000_000,
    ;
}

/// The least multiple of `block_size` that is no less than `needed`.
pub open spec fn round_up(needed: nat, block_size: nat) -> nat
    recommends
        block_size > 0,
{
    if needed % block_size == 0 {
        needed
    } else {
        (needed + block_size - needed % block_size) as nat
    }
}

/// `round_up` gives a multiple of the block size, no less than what is
/// needed, and less than one block more.
pub proof fn lemma_round_up(needed: nat, block_size: nat)
    requires
        block_size > 0,
    ensures
        round_up(needed, block_size) % block_size == 0,
        needed <= round_up(needed, block_size) < needed + block_size,
{
    let r = round_up(needed, block_size);
    let q = needed / block_size;
    assert(needed == q * block_size + needed % block_size) by (nonlinear_arith)
        requires
            block_size > 0,
            q == needed / block_size,
    ;
    let rem = needed % block_size;
    assert(0 <= rem < block_size);
    if rem != 0 {
        assert(r == needed + block_size - rem);
        assert(r == (q + 1) * block_size) by (nonlinear_arith)
            requires
                r == needed + block_size - rem,
                needed == q * block_size + rem,
        ;
        assert(((q + 1) * block_size) % block_size == 0) by (nonlinear_arith)
            requires
                block_size > 0,
                q >= 0,
        ;
    }
}

/// No multiple of the block size that covers what is needed is less than
/// what `round_up` gives.
pub proof fn lemma_round_up_least(needed: nat, block_size: nat, multiple: nat)
    requires
        block_size > 0,
        multiple % block_size == 0,
        needed <= multiple,
    ensures
        round_up(needed, block_size) <= multiple,
{
    if needed % block_size != 0 {
        let q = needed / block_size;
        let p = multiple / block_size;
        assert(needed == q * block_size + needed % block_size) by (nonlinear_arith)
            requires
                block_size > 0,
                q == needed / block_size,
        ;
        assert(multiple == p * block_size) by (nonlinear_arith)
            requires
                block_size > 0,
                p == multiple / block_size,
                multiple % block_size == 0,
        ;
        assert(p >= q + 1) by (nonlinear_arith)
            requires
                p * block_size >= q * block_size + needed % block_size,
                needed % block_size > 0,
                block_size > 0,
        ;
        assert(p * block_size >= (q + 1) * block_size) by (nonlinear_arith)
            requires
                p >= q + 1,
                block_size > 0,
        ;
        assert((q + 1) * block_size == q * block_size + block_size) by (nonlinear_arith);
    }
}

/// The number of samples to render for a track: what its length and the
/// padding behind it need, rounded up to whole blocks.
pub open spec fn sample_count(length: nat, padding: nat, sample_rate: nat, block_size: nat) -> nat {
    round_up(samples_needed(length, padding, sample_rate), block_size)
}

/// The sample count is a whole number of blocks that covers the track and
/// its padding.
pub proof fn lemma_sample_count(length: nat, padding: nat, sample_rate: nat, block_size: nat)
    requires
        block_size > 0,
    ensures
        sample_count(length, padding, sample_rate, block_size) % block_size == 0,
        covers(
            sample_count(length, padding, sample_rate, block_size),
            length,
            padding,
            sample_rate,
        ),
{
    let needed = samples_needed(length, padding, sample_rate);
    let count = sample_count(length, padding, sample_rate, block_size);
    lemma_round_up(needed, block_size);
    lemma_samples_needed(length, padding, sample_rate);
    assert(needed * 1_000_000 <= count * 1_000_000) by (nonlinear_arith)
        requires
            needed <= count,
    ;
}

/// No whole number of blocks that covers the track and its padding is less
/// than the sample count.
pub proof fn lemma_sample_count_least(
    length: nat,
    padding: nat,
    sample_rate: nat,
    block_size: nat,
    samples: nat,
)
    requires
        block_size > 0,
        samples % block_size == 0,
        covers(samples, length, padding, sample_rate),
    ensures
        sample_count(length, padding, sample_rate, block_size) <= samples,
{
    lemma_samples_needed_least(length, padding, sample_rate, samples);
    lemma_round_up_least(samples_needed(length, padding, sample_rate), block_size, samples);
}

/// The time in microseconds at which the sample at `offset` starts, rounded
/// down to a whole microsecond. Note times are whole microseconds, so the
/// rounding moves no note to another block.
pub open spec fn block_start(offset: nat, sample_rate: nat) -> nat
    recommends
        sample_rate > 0,
{
    offset * (MICROS_PER_SECOND as nat) / sample_rate
}

/// A note is at or before the rounded start of a block just when it is at or
/// before the start itself: when the samples up to its time are no more than
/// the block's offset.
pub proof fn lemma_block_start(time: nat, offset: nat, sample_rate: nat)
    requires
        sample_rate > 0,
    ensures
        time <= block_start(offset, sample_rate) <==> time * sample_rate <= offset
            * MICROS_PER_SECOND,
{
    let scaled: int = (offset * 1_000_000) as int;
    let rate: int = sample_rate as int;
    let at: int = time as int;
    assert(scaled >= 0) by (nonlinear_arith)
        requires
            scaled == offset * 1_000_000,
    ;
    assert(at <= scaled / rate <==> at * rate <= scaled) by (nonlinear_arith)
        requires
            rate > 0,
            scaled >= 0,
            at >= 0,
    ;
}

/// The position behind the notes that are due at time `t`, going on from
/// position `from`: the first position from there whose note comes later
/// than `t`, or the end where there is none.
pub open spec fn due_end(events: Seq<PlayerEvent>, from: nat, t: nat) -> nat
    decreases events.len() - from,
{
    if from < events.len() && events[from as int].time <= t {
        due_end(events, from + 1, t)
    } else {
        from
    }
}

/// A note number shifted by some semitones, kept within the range of the
/// type: it stops at 0 and at 255.
pub open spec fn spec_transposed(note: u8, transpose: i8) -> u8 {
    if note + transpose < 0 {
        0
    } else if note + transpose > 255 {
        255
    } else {
        (note + transpose) as u8
    }
}

/// The notes at the positions from `from` up to `to`, transposed.
pub open spec fn notes_between(
    events: Seq<PlayerEvent>,
    from: nat,
    to: nat,
    transpose: i8,
) -> Seq<Note> {
    Seq::new(
        (to - from) as nat,
        |i: int|
            Note {
                key: spec_transposed(events[from + i].note, transpose),
                velocity: events[from + i].velocity,
            },
    )
}

/// A note number shifted by some semitones, kept within the range of the
/// type.
pub fn transposed(note: u8, transpose: i8) -> (r: u8)
    ensures
        r == spec_transposed(note, transpose),
{
    let shifted: i16 = note as i16 + transpose as i16;
    if shifted < 0 {
        0
    } else if shifted > 255 {
        255
    } else {
        shifted as u8
    }
}

/// The messages that select an instrument's sound: the bank, then the
/// preset.
pub fn setup_messages(instr: &InstrumentSetting) -> (r: [ControlMessage; 2])
    ensures
        r[0] == (ControlMessage { command: CONTROL_CHANGE, data1: BANK_SELECT, data2: instr.bank }),
        r[1] == (ControlMessage { command: PROGRAM_CHANGE, data1: instr.preset, data2: 0 }),
{
    [
        ControlMessage { command: CONTROL_CHANGE, data1: BANK_SELECT, data2: instr.bank },
        ControlMessage { command: PROGRAM_CHANGE, data1: instr.preset, data2: 0 },
    ]
}

/// The number of samples to render for a track of `length` microseconds with
/// `padding` microseconds behind it: the least whole number of blocks that
/// lasts no less than both together. There is none where the rate or the
/// block size is zero or the number does not fit in `usize`.
pub fn count_samples(
    length: u64,
    padding: u64,
    sample_rate: u32,
    block_size: usize,
) -> (r: Option<usize>)
    ensures
        r is Some <==> sample_rate > 0 && block_size > 0 && sample_count(
            length as nat,
            padding as nat,
            sample_rate as nat,
            block_size as nat,
        ) <= usize::MAX,
        r matches Some(n) ==> n == sample_count(
            length as nat,
            padding as nat,
            sample_rate as nat,
            block_size as nat,
        ),
        r matches Some(n) ==> n % block_size == 0,
        r matches Some(n) ==> (length + padding) * sample_rate <= n * MICROS_PER_SECOND,
        r matches Some(n) ==> forall|samples: nat|
            samples % (block_size as nat) == 0 && #[trigger] covers(
                samples,
                length as nat,
                padding as nat,
                sample_rate as nat,
            ) ==> n <= samples,
{
    if sample_rate == 0 || block_size == 0 {
        return None;
    }
    proof {
        let count = sample_count(
            length as nat,
            padding as nat,
            sample_rate as nat,
            block_size as nat,
        );
        lemma_sample_count(length as nat, padding as nat, sample_rate as nat, block_size as nat);
        assert forall|samples: nat|
            samples % (block_size as nat) == 0 && #[trigger] covers(
                samples,
                length as nat,
                padding as nat,
                sample_rate as nat,
            ) implies count <= samples by {
            lemma_sample_count_least(
                length as nat,
                padding as nat,
                sample_rate as nat,
                block_size as nat,
                samples,
            );
        }
    }
    let span: u128 = length as u128 + padding as u128;
    assert(span * sample_rate <= 0x2_0000_0000_0000_0000 * 0x1_0000_0000) by (nonlinear_arith)
        requires
            span <= 0x2_0000_0000_0000_0000,
            sample_rate <= 0x1_0000_0000,
    ;
    let scaled: u128 = span * (sample_rate as u128);
    let needed: u128 = (scaled + (MICROS_PER_SECOND as u128 - 1)) / (MICROS_PER_SECOND as u128);
    let size: u128 = block_size as u128;
    let over: u128 = needed % size;
    let total: u128 = if over == 0 {
        needed
    } else {
        needed + size - over
    };
    if total > usize::MAX as u128 {
        None
    } else {
        Some(total as usize)
    }
}

/// The notes that are due lie between `from` and `due_end`; each of them is
/// at or before `t`, and the note behind them, if there is one, is later.
pub proof fn lemma_due_end(events: Seq<PlayerEvent>, from: nat, t: nat)
    requires
        from <= events.len(),
    ensures
        from <= due_end(events, from, t) <= events.len(),
        forall|i: int| from <= i < due_end(events, from, t) ==> (#[trigger] events[i]).time <= t,
        due_end(events, from, t) < events.len() ==> events[due_end(events, from, t) as int].time
            > t,
    decreases events.len() - from,
{
    if from < events.len() && events[from as int].time <= t {
        lemma_due_end(events, from + 1, t);
    }
}

/// No note is handed over late: where the notes are in the order of their
/// times, every note that is not due yet at time `t` is later than `t`. So a
/// note at or before the start of a block reaches the synthesizer before
/// that block is rendered.
pub proof fn lemma_due_end_complete(events: Seq<PlayerEvent>, from: nat, t: nat)
    requires
        from <= events.len(),
        time_sorted(events),
    ensures
        forall|i: int|
            due_end(events, from, t) <= i < events.len() ==> (#[trigger] events[i]).time > t,
{
    lemma_due_end(events, from, t);
    let end = due_end(events, from, t) as int;
    assert forall|i: int| end <= i < events.len() implies (#[trigger] events[i]).time > t by {
        assert(events[end].time <= events[i].time);
    }
}

/// The state of a scheduler: the notes of the track, the settings, the start
/// of the next block, and the position of the first note not handed out yet.
pub struct Schedule {
    pub events: Seq<PlayerEvent>,
    pub transpose: i8,
    pub sample_rate: nat,
    pub block_size: nat,
    pub sample_count: nat,
    pub offset: nat,
    pub cursor: nat,
}

impl Schedule {
    /// The time at which the next block starts.
    pub open spec fn start(self) -> nat {
        block_start(self.offset, self.sample_rate)
    }

    /// The position behind the notes that go before the next block.
    pub open spec fn due(self) -> nat {
        due_end(self.events, self.cursor, self.start())
    }

    /// The notes that go before the next block.
    pub open spec fn notes(self) -> Seq<Note> {
        notes_between(self.events, self.cursor, self.due(), self.transpose)
    }

    /// The state after the next block.
    pub open spec fn next(self) -> Schedule {
        Schedule { offset: self.offset + self.block_size, cursor: self.due(), ..self }
    }

    /// All blocks were handed out.
    pub open spec fn done(self) -> bool {
        self.offset >= self.sample_count
    }
}

/// Schedules the notes of one track for one instrument, block by block.
pub struct Renderer {
    track: PlayerTrack,
    transpose: i8,
    sample_rate: u32,
    block_size: usize,
    sample_count: usize,
    offset: usize,
    cursor: usize,
}

impl View for Renderer {
    type V = Schedule;

    closed spec fn view(&self) -> Schedule {
        Schedule {
            events: self.track.events@,
            transpose: self.transpose,
            sample_rate: self.sample_rate as nat,
            block_size: self.block_size as nat,
            sample_count: self.sample_count as nat,
            offset: self.offset as nat,
            cursor: self.cursor as nat,
        }
    }
}

impl Renderer {
    /// The rate and the block size are not zero, the blocks handed out and
    /// the blocks to come are whole ones, and the position is within the
    /// notes.
    pub closed spec fn wf(&self) -> bool {
        &&& self.sample_rate > 0
        &&& self.block_size > 0
        &&& self.sample_count % self.block_size == 0
        &&& self.offset % self.block_size == 0
        &&& self.offset <= self.sample_count
        &&& self.cursor <= self.track.events@.len()
    }

    /// What a well-formed scheduler keeps to: the rate and the block size are
    /// not zero, the samples are a whole number of blocks, the next block
    /// starts at a whole number of blocks and not behind the last sample, and
    /// the position lies within the notes.
    pub proof fn lemma_wf(&self)
        requires
            self.wf(),
        ensures
            self@.sample_rate > 0,
            self@.block_size > 0,
            self@.sample_count % self@.block_size == 0,
            self@.offset % self@.block_size == 0,
            self@.offset <= self@.sample_count,
            self@.cursor <= self@.events.len(),
            self@.cursor <= self@.due() <= self@.events.len(),
    {
        lemma_due_end(self@.events, self@.cursor, self@.start());
    }

    /// A scheduler at the first block of `track`, for the instrument `instr`,
    /// with `padding` microseconds of silence behind the track. Its samples
    /// are a whole number of blocks and last no less than the track and the
    /// padding together. There is none
    /// where the rate or the block size is zero or the number of samples does
    /// not fit in `usize`.
    pub fn new(
        track: PlayerTrack,
        instr: &InstrumentSetting,
        padding: u64,
        sample_rate: u32,
        block_size: usize,
    ) -> (r: Option<Renderer>)
        ensures
            r is Some <==> sample_rate > 0 && block_size > 0 && sample_count(
                track.length as nat,
                padding as nat,
                sample_rate as nat,
                block_size as nat,
            ) <= usize::MAX,
            r matches Some(x) ==> x.wf() && x@ == (Schedule {
                events: track.events@,
                transpose: match instr.transpose {
                    Some(t) => t,
                    None => 0i8,
                },
                sample_rate: sample_rate as nat,
                block_size: block_size as nat,
                sample_count: sample_count(
                    track.length as nat,
                    padding as nat,
                    sample_rate as nat,
                    block_size as nat,
                ),
                offset: 0,
                cursor: 0,
            }),
            r matches Some(x) ==> x@.sample_count % (block_size as nat) == 0 && (track.length
                + padding) * sample_rate <= x@.sample_count * MICROS_PER_SECOND,
    {
        match count_samples(track.length, padding, sample_rate, block_size) {
            Some(sample_count) => {
                proof {
                    lemma_round_up(
                        samples_needed(track.length as nat, padding as nat, sample_rate as nat),
                        block_size as nat,
                    );
                    assert(0usize % block_size == 0) by (nonlinear_arith)
                        requires
                            block_size > 0,
                    ;
                }
                let transpose = match instr.transpose {
                    Some(t) => t,
                    None => 0,
                };
                Some(
                    Renderer {
                        track,
                        transpose,
                        sample_rate,
                        block_size,
                        sample_count,
                        offset: 0,
                        cursor: 0,
                    },
                )
            },
            None => None,
        }
    }

    /// The number of samples in each channel of the output.
    pub fn sample_count(&self) -> (n: usize)
        ensures
            n == self@.sample_count,
    {
        self.sample_count
    }

    /// The number of samples in a block.
    pub fn block_size(&self) -> (n: usize)
        ensures
            n == self@.block_size,
    {
        self.block_size
    }

    /// The next block to render, with the notes to hand to the synthesizer
    /// before it: every note not handed out yet whose time is at or before
    /// the block's start, in the order of the track, transposed. Gives
    /// nothing, and changes nothing, once all blocks were handed out.
    pub fn next_block(&mut self) -> (r: Option<Block>)
        requires
            old(self).wf(),
        ensures
            final(self).wf(),
            r is None <==> old(self)@.done(),
            r is None ==> final(self)@ == old(self)@,
            r matches Some(b) ==> {
                &&& b.offset == old(self)@.offset
                &&& b.offset + old(self)@.block_size <= old(self)@.sample_count
                &&& b.notes@ == old(self)@.notes()
                &&& final(self)@ == old(self)@.next()
            },
    {
        if self.offset >= self.sample_count {
            return None;
        }
        let offset = self.offset;
        assert(offset + self.block_size <= self.sample_count) by (nonlinear_arith)
            requires
                self.block_size > 0,
                self.sample_count % self.block_size == 0,
                offset % self.block_size == 0,
                offset < self.sample_count,
        ;
        assert((offset + self.block_size) % (self.block_size as int) == 0) by (nonlinear_arith)
            requires
                self.block_size > 0,
                offset % self.block_size == 0,
        ;
        let start: u128 = (offset as u128) * (MICROS_PER_SECOND as u128) / (self.sample_rate as u128);
        let from = self.cursor;
        let mut notes: Vec<Note> = Vec::new();
        let n = self.track.events.len();
        while self.cursor < n && self.track.events[self.cursor].time as u128 <= start
            invariant
                self.track == old(self).track,
                self.transpose == old(self).transpose,
                self.sample_rate == old(self).sample_rate,
                self.block_size == old(self).block_size,
                self.sample_count == old(self).sample_count,
                self.offset == old(self).offset,
                n == self.track.events@.len(),
                from == old(self).cursor,
                from <= self.cursor <= n,
                due_end(self.track.events@, self.cursor as nat, start as nat) == due_end(
                    self.track.events@,
                    from as nat,
                    start as nat,
                ),
                notes@ == notes_between(
                    self.track.events@,
                    from as nat,
                    self.cursor as nat,
                    self.transpose,
                ),
            decreases n - self.cursor,
        {
            let e = self.track.events[self.cursor];
            notes.push(Note { key: transposed(e.note, self.transpose), velocity: e.velocity });
            self.cursor = self.cursor + 1;
            assert(notes@ =~= notes_between(
                self.track.events@,
                from as nat,
                self.cursor as nat,
                self.transpose,
            ));
        }
        self.offset = offset + self.block_size;
        Some(Block { offset, notes })
    }
}

} // verus!
