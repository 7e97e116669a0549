//! Reading a Standard MIDI File into tracks of events.

use vstd::prelude::*;
use crate::event::{EventKind, EventView, Timing, TrackEvent};

verus! {

#[verifier::external_type_specification]
#[verifier::external_body]
pub struct ExSmf<'a>(midly::Smf<'a>);

#[verifier::external_type_specification]
#[verifier::external_body]
pub struct ExSmfError(midly::Error);

/// What a MIDI file holds: how it counts time, and the events of each
/// track.
pub struct MidiView {
    pub timing: Timing,
    pub tracks: Seq<Seq<EventView>>,
}

/// What a parsed file holds.
pub uninterp spec fn smf_model(smf: midly::Smf) -> MidiView;

/// What the bytes of a file hold, if they are a MIDI file.
pub uninterp spec fn parsed_midi(raw: Seq<u8>) -> Option<MidiView>;

/// `midly::Smf::parse`: the parsed file where the bytes are a MIDI file, or
/// the parser's error. The parser negates the frame rate byte of each header
/// chunk that it reads: bytes in which it reads a header with the byte 0x80
/// there are kept from it.
#[verifier::external_body]
fn smf_parse<'a>(raw: &'a [u8]) -> (r: Result<midly::Smf<'a>, midly::Error>)
    requires
        !invalid_timecode(raw@),
    ensures
        match r {
            Ok(smf) => parsed_midi(raw@) == Some(smf_model(smf)),
            Err(_) => parsed_midi(raw@) is None,
        },
{
    midly::Smf::parse(raw)
}

/// The field `header.timing` of a `midly::Smf`: ticks per quarter note for
/// metrical timing, with the number that `u15::as_int` gives.
#[verifier::external_body]
fn smf_timing(smf: &midly::Smf) -> (r: Timing)
    ensures
        r == smf_model(*smf).timing,
{
    match smf.header.timing {
        midly::Timing::Metrical(ticks) => Timing::Metrical(ticks.as_int()),
        midly::Timing::Timecode(..) => Timing::Timecode,
    }
}

/// `Vec::len` of the field `tracks` of a `midly::Smf`: the number of
/// tracks.
#[verifier::external_body]
fn smf_track_count(smf: &midly::Smf) -> (r: usize)
    ensures
        r == smf_model(*smf).tracks.len(),
{
    smf.tracks.len()
}

/// `Vec::len` of one track of a `midly::Smf`: the number of its events.
#[verifier::external_body]
fn smf_track_len(smf: &midly::Smf, track: usize) -> (r: usize)
    requires
        track < smf_model(*smf).tracks.len(),
    ensures
        r == smf_model(*smf).tracks[track as int].len(),
{
    smf.tracks[track].len()
}

/// One `midly::TrackEvent` of a `midly::Smf`, with its delta time and, for
/// a tempo change, a track name, an end of track and a note-on, its kind and
/// payload; every other kind becomes `Other`.
#[verifier::external_body]
fn smf_event(smf: &midly::Smf, track: usize, index: usize) -> (r: TrackEvent)
    requires
        track < smf_model(*smf).tracks.len(),
        index < smf_model(*smf).tracks[track as int].len(),
    ensures
        r@ == smf_model(*smf).tracks[track as int][index as int],
{
    let event = &smf.tracks[track][index];
    let kind = match event.kind {
        midly::TrackEventKind::Meta(midly::MetaMessage::Tempo(t)) => EventKind::Tempo(t.as_int()),
        midly::TrackEventKind::Meta(midly::MetaMessage::TrackName(n)) => EventKind::TrackName(
            n.to_vec(),
        ),
        midly::TrackEventKind::Meta(midly::MetaMessage::EndOfTrack) => EventKind::EndOfTrack,
        midly::TrackEventKind::Midi { message: midly::MidiMessage::NoteOn { key, vel }, .. } => {
            EventKind::NoteOn { key: key.as_int(), vel: vel.as_int() }
        },
        _ => EventKind::Other,
    };
    TrackEvent { delta: event.delta.as_int(), kind }
}

/// A MIDI file: how it counts time, and its tracks.
#[derive(Clone, Debug, PartialEq, Eq)]
pub struct MidiFile {
    pub timing: Timing,
    pub tracks: Vec<Vec<TrackEvent>>,
}

/// What a run of events holds.
pub open spec fn events_view(events: Seq<TrackEvent>) -> Seq<EventView> {
    Seq::new(events.len(), |i: int| events[i]@)
}

impl View for MidiFile {
    type V = MidiView;

    open spec fn view(&self) -> MidiView {
        MidiView {
            timing: self.timing,
            tracks: Seq::new(self.tracks@.len(), |t: int| events_view(self.tracks@[t]@)),
        }
    }
}

/// Why bytes are not read as a MIDI file.
#[derive(Debug)]
pub enum MidiError {
    /// A header chunk declares timecode timing with the frame rate byte
    /// 0x80, which stands for no number of frames.
    InvalidTimecode,
    /// The parser refuses the bytes.
    Parse(midly::Error),
}

/// The four bytes from `at` on are `a`, `b`, `c`, `d`.
pub open spec fn tag_at(raw: Seq<u8>, at: int, a: u8, b: u8, c: u8, d: u8) -> bool {
    raw[at] == a && raw[at + 1] == b && raw[at + 2] == c && raw[at + 3] == d
}

/// The number that the four bytes from `at` on hold, the highest byte first.
pub open spec fn be32(raw: Seq<u8>, at: int) -> int {
    raw[at] * 0x100_0000 + raw[at + 1] * 0x1_0000 + raw[at + 2] * 0x100 + raw[at + 3]
}

/// The number that the four bytes from `at` on hold, the lowest byte first.
pub open spec fn le32(raw: Seq<u8>, at: int) -> int {
    raw[at + 3] * 0x100_0000 + raw[at + 2] * 0x1_0000 + raw[at + 1] * 0x100 + raw[at]
}

/// Where the data of a chunk ends: `len` bytes behind `data`, or at `end`
/// where fewer bytes are left.
pub open spec fn chunk_end(data: int, len: int, end: int) -> int {
    if len <= end - data {
        data + len
    } else {
        end
    }
}

/// What reading the timing of a header chunk comes to.
#[derive(Clone, Copy, Debug, PartialEq, Eq, Structural)]
pub enum HeaderTiming {
    /// The header is too short, its format is none of 0, 1 and 2, or its
    /// frame rate is none of 24, 25, 29 and 30: reading stops.
    Unreadable,
    /// The frame rate byte is 0x80.
    Invalid,
    /// The header is read.
    Readable,
}

/// The byte is the higher byte of a timecode timing with a frame rate that
/// there is: 256 less the byte is 24, 25, 29 or 30.
pub open spec fn is_frame_rate(byte: u8) -> bool {
    byte == 0xe8 || byte == 0xe7 || byte == 0xe3 || byte == 0xe2
}

/// What reading the timing of the header chunk with its data between `data`
/// and `stop` comes to. The format is read first, then the number of tracks,
/// then the timing; with timecode timing the frame rate is 256 less the
/// higher byte of the timing.
pub open spec fn header_timing(raw: Seq<u8>, data: int, stop: int) -> HeaderTiming {
    if stop - data < 6 || raw[data] != 0 || raw[data + 1] > 2 {
        HeaderTiming::Unreadable
    } else if raw[data + 4] == 0x80 {
        HeaderTiming::Invalid
    } else if raw[data + 4] < 0x80 || is_frame_rate(raw[data + 4]) {
        HeaderTiming::Readable
    } else {
        HeaderTiming::Unreadable
    }
}

/// Reading the chunks between `pos` and `end` comes to a header with an
/// invalid timecode. Each chunk is a tag of four bytes, a length of four
/// bytes and its data. Reading stops where no tag and length are left, at a
/// header that is unreadable, and at a track chunk that comes before any
/// header; chunks with other tags are passed over.
pub open spec fn chunks_invalid(raw: Seq<u8>, pos: int, end: int, seen: bool) -> bool
    decreases end - pos,
{
    if end - pos < 8 {
        false
    } else {
        let stop = chunk_end(pos + 8, be32(raw, pos + 4), end);
        if tag_at(raw, pos, 0x4d, 0x54, 0x68, 0x64) {
            match header_timing(raw, pos + 8, stop) {
                HeaderTiming::Unreadable => false,
                HeaderTiming::Invalid => true,
                HeaderTiming::Readable => chunks_invalid(raw, stop, end, true),
            }
        } else if tag_at(raw, pos, 0x4d, 0x54, 0x72, 0x6b) && !seen {
            false
        } else {
            chunks_invalid(raw, stop, end, seen)
        }
    }
}

/// The data of the first `data` chunk among the RIFF chunks between `pos`
/// and `end`. A chunk of odd length has one byte of padding behind it.
pub open spec fn riff_data(raw: Seq<u8>, pos: int, end: int) -> Option<(int, int)>
    decreases end - pos,
{
    if end - pos < 8 {
        None
    } else {
        let len = le32(raw, pos + 4);
        let stop = chunk_end(pos + 8, len, end);
        if tag_at(raw, pos, 0x64, 0x61, 0x74, 0x61) {
            Some((pos + 8, stop))
        } else if len % 2 == 1 && stop < end {
            riff_data(raw, stop + 1, end)
        } else {
            riff_data(raw, stop, end)
        }
    }
}

/// The part of the bytes that holds the chunks of a MIDI file: all of them
/// where they begin with `MThd`, and the data chunk of an `RMID` form where
/// they begin with `RIFF`.
pub open spec fn chunk_span(raw: Seq<u8>) -> Option<(int, int)> {
    if raw.len() < 4 {
        None
    } else if tag_at(raw, 0, 0x4d, 0x54, 0x68, 0x64) {
        Some((0, raw.len() as int))
    } else if tag_at(raw, 0, 0x52, 0x49, 0x46, 0x46) && raw.len() >= 8 {
        let end = chunk_end(8, le32(raw, 4), raw.len() as int);
        if end - 8 >= 4 && tag_at(raw, 8, 0x52, 0x4d, 0x49, 0x44) {
            riff_data(raw, 12, end)
        } else {
            None
        }
    } else {
        None
    }
}

/// Reading the bytes as a MIDI file comes to a header chunk that declares
/// timecode timing with the frame rate byte 0x80.
pub open spec fn invalid_timecode(raw: Seq<u8>) -> bool {
    match chunk_span(raw) {
        Some((start, end)) => chunks_invalid(raw, start, end, false),
        None => false,
    }
}

/// Whether the four bytes from `at` on are `a`, `b`, `c`, `d`.
fn has_tag(raw: &[u8], at: usize, a: u8, b: u8, c: u8, d: u8) -> (r: bool)
    requires
        at + 4 <= raw@.len(),
    ensures
        r == tag_at(raw@, at as int, a, b, c, d),
{
    raw[at] == a && raw[at + 1] == b && raw[at + 2] == c && raw[at + 3] == d
}

/// Where the data of a chunk ends whose length stands in the four bytes from
/// `at` on, the highest byte first or the lowest, and whose data begins
/// behind them.
fn data_end(raw: &[u8], at: usize, end: usize, highest_first: bool) -> (r: (usize, bool))
    requires
        at + 4 <= end <= raw@.len(),
    ensures
        r.0 == chunk_end(
            at + 4,
            if highest_first {
                be32(raw@, at as int)
            } else {
                le32(raw@, at as int)
            },
            end as int,
        ),
        at + 4 <= r.0 <= end,
        r.1 == ((if highest_first {
            be32(raw@, at as int)
        } else {
            le32(raw@, at as int)
        }) % 2 == 1),
{
    let b0: u64 = raw[at] as u64;
    let b1: u64 = raw[at + 1] as u64;
    let b2: u64 = raw[at + 2] as u64;
    let b3: u64 = raw[at + 3] as u64;
    let len: u64 = if highest_first {
        b0 * 0x100_0000 + b1 * 0x1_0000 + b2 * 0x100 + b3
    } else {
        b3 * 0x100_0000 + b2 * 0x1_0000 + b1 * 0x100 + b0
    };
    let left: usize = end - (at + 4);
    let stop: usize = if len <= left as u64 {
        at + 4 + len as usize
    } else {
        end
    };
    (stop, len % 2 == 1)
}

/// What reading the timing of the header chunk with its data between `data`
/// and `stop` comes to.
fn read_header_timing(raw: &[u8], data: usize, stop: usize) -> (r: HeaderTiming)
    requires
        data <= stop <= raw@.len(),
    ensures
        r == header_timing(raw@, data as int, stop as int),
{
    if stop - data < 6 || raw[data] != 0 || raw[data + 1] > 2 {
        HeaderTiming::Unreadable
    } else {
        let rate: u8 = raw[data + 4];
        if rate == 0x80 {
            HeaderTiming::Invalid
        } else if rate < 0x80 || rate == 0xe8 || rate == 0xe7 || rate == 0xe3 || rate == 0xe2 {
            HeaderTiming::Readable
        } else {
            HeaderTiming::Unreadable
        }
    }
}

/// The part of the bytes that holds the chunks of a MIDI file.
fn find_chunk_span(raw: &[u8]) -> (r: Option<(usize, usize)>)
    ensures
        match r {
            Some((start, end)) => chunk_span(raw@) == Some((start as int, end as int)) && start
                <= end <= raw@.len(),
            None => chunk_span(raw@) is None,
        },
{
    let n = raw.len();
    if n < 4 {
        return None;
    }
    if has_tag(raw, 0, 0x4d, 0x54, 0x68, 0x64) {
        return Some((0, n));
    }
    if !has_tag(raw, 0, 0x52, 0x49, 0x46, 0x46) || n < 8 {
        return None;
    }
    let (end, _) = data_end(raw, 4, n, false);
    if end - 8 < 4 || !has_tag(raw, 8, 0x52, 0x4d, 0x49, 0x44) {
        return None;
    }
    let mut pos: usize = 12;
    while end - pos >= 8
        invariant
            12 <= pos <= end <= raw@.len(),
            chunk_span(raw@) == riff_data(raw@, pos as int, end as int),
        decreases end - pos,
    {
        let (stop, odd) = data_end(raw, pos + 4, end, false);
        if has_tag(raw, pos, 0x64, 0x61, 0x74, 0x61) {
            return Some((pos + 8, stop));
        }
        pos = if odd && stop < end {
            stop + 1
        } else {
            stop
        };
    }
    None
}

/// Whether reading the bytes as a MIDI file comes to a header chunk that
/// declares timecode timing with the frame rate byte 0x80.
pub fn has_invalid_timecode(raw: &[u8]) -> (r: bool)
    ensures
        r == invalid_timecode(raw@),
{
    let (start, end) = match find_chunk_span(raw) {
        Some(span) => span,
        None => {
            return false;
        },
    };
    let mut pos: usize = start;
    let mut seen: bool = false;
    while end - pos >= 8
        invariant
            pos <= end <= raw@.len(),
            invalid_timecode(raw@) == chunks_invalid(raw@, pos as int, end as int, seen),
        decreases end - pos,
    {
        let (stop, _) = data_end(raw, pos + 4, end, true);
        if has_tag(raw, pos, 0x4d, 0x54, 0x68, 0x64) {
            match read_header_timing(raw, pos + 8, stop) {
                HeaderTiming::Unreadable => {
                    return false;
                },
                HeaderTiming::Invalid => {
                    return true;
                },
                HeaderTiming::Readable => {
                    seen = true;
                },
            }
        } else if has_tag(raw, pos, 0x4d, 0x54, 0x72, 0x6b) && !seen {
            return false;
        }
        pos = stop;
    }
    false
}

impl MidiFile {
    /// Takes the timing and the events of a parsed file.
    pub fn from_smf(smf: &midly::Smf) -> (r: MidiFile)
        ensures
            r@ == smf_model(*smf),
    {
        let ghost model = smf_model(*smf);
        let timing = smf_timing(smf);
        let count = smf_track_count(smf);
        let mut tracks: Vec<Vec<TrackEvent>> = Vec::new();
        let mut track: usize = 0;
        while track < count
            invariant
                model == smf_model(*smf),
                count == model.tracks.len(),
                track <= count,
                tracks@.len() == track,
                forall|t: int|
                    0 <= t < track ==> events_view((#[trigger] tracks@[t])@) == model.tracks[t],
            decreases count - track,
        {
            let len = smf_track_len(smf, track);
            let mut events: Vec<TrackEvent> = Vec::new();
            let mut index: usize = 0;
            while index < len
                invariant
                    model == smf_model(*smf),
                    track < model.tracks.len(),
                    len == model.tracks[track as int].len(),
                    index <= len,
                    events@.len() == index,
                    forall|i: int|
                        0 <= i < index ==> (#[trigger] events@[i])@ == model.tracks[track as int][i],
                decreases len - index,
            {
                events.push(smf_event(smf, track, index));
                index = index + 1;
            }
            assert(events_view(events@) =~= model.tracks[track as int]);
            tracks.push(events);
            track = track + 1;
        }
        let file = MidiFile { timing, tracks };
        assert(file@.tracks =~= model.tracks);
        file
    }

    /// Reads a MIDI file from its bytes. Bytes with an invalid timecode are
    /// refused before they reach the parser.
    pub fn parse(raw: &[u8]) -> (r: Result<MidiFile, MidiError>)
        ensures
            match r {
                Ok(file) => !invalid_timecode(raw@) && parsed_midi(raw@) == Some(file@),
                Err(MidiError::InvalidTimecode) => invalid_timecode(raw@),
                Err(MidiError::Parse(_)) => !invalid_timecode(raw@) && parsed_midi(raw@) is None,
            },
    {
        if has_invalid_timecode(raw) {
            return Err(MidiError::InvalidTimecode);
        }
        match smf_parse(raw) {
            Ok(smf) => Ok(MidiFile::from_smf(&smf)),
            Err(cause) => Err(MidiError::Parse(cause)),
        }
    }
}

} // verus!
