use midisynth::event::{EventKind, Timing, TrackEvent};
use midisynth::midi::{has_invalid_timecode, MidiError, MidiFile};
use midisynth::player::PlayerEvent;
use midisynth::sequencer::Sequencer;

fn chunk(tag: &[u8; 4], body: &[u8]) -> Vec<u8> {
    let mut out = tag.to_vec();
    out.extend_from_slice(&(body.len() as u32).to_be_bytes());
    out.extend_from_slice(body);
    out
}

fn file(division: [u8; 2], tracks: &[&[u8]]) -> Vec<u8> {
    let mut header = vec![0, 1];
    header.extend_from_slice(&(tracks.len() as u16).to_be_bytes());
    header.extend_from_slice(&division);
    let mut out = chunk(b"MThd", &header);
    for t in tracks {
        out.extend_from_slice(&chunk(b"MTrk", t));
    }
    out
}

fn two_tracks() -> Vec<u8> {
    let conductor: &[u8] = &[0x00, 0xff, 0x51, 0x03, 0x07, 0xa1, 0x20, 0x00, 0xff, 0x2f, 0x00];
    let piano: &[u8] = &[
        0x00, 0xff, 0x03, 0x05, b'P', b'i', b'a', b'n', b'o', // name
        0x00, 0x90, 0x3c, 0x40, // note on 60
        0x83, 0x60, 0x80, 0x3c, 0x00, // 480 ticks on: note off 60
        0x00, 0x90, 0x3e, 0x41, // note on 62
        0x83, 0x60, 0x90, 0x40, 0x42, // 480 ticks on: note on 64
        0x83, 0x60, 0xff, 0x2f, 0x00, // 480 ticks on: end of track
    ];
    file([0x01, 0xe0], &[conductor, piano])
}

#[test]
fn midi_file_is_read_into_tracks_of_events() {
    let f = MidiFile::parse(&two_tracks()).unwrap();
    assert_eq!(f.timing, Timing::Metrical(480));
    assert_eq!(
        f.tracks,
        vec![
            vec![
                TrackEvent { delta: 0, kind: EventKind::Tempo(500_000) },
                TrackEvent { delta: 0, kind: EventKind::EndOfTrack },
            ],
            vec![
                TrackEvent { delta: 0, kind: EventKind::TrackName(b"Piano".to_vec()) },
                TrackEvent { delta: 0, kind: EventKind::NoteOn { key: 60, vel: 0x40 } },
                TrackEvent { delta: 480, kind: EventKind::Other },
                TrackEvent { delta: 0, kind: EventKind::NoteOn { key: 62, vel: 0x41 } },
                TrackEvent { delta: 480, kind: EventKind::NoteOn { key: 64, vel: 0x42 } },
                TrackEvent { delta: 480, kind: EventKind::EndOfTrack },
            ],
        ]
    );
}

#[test]
fn midi_file_with_timecode_keeps_no_ticks_per_quarter() {
    let f = MidiFile::parse(&file([0xe7, 0x28], &[&[0x00, 0xff, 0x2f, 0x00]])).unwrap();
    assert_eq!(f.timing, Timing::Timecode);
    assert_eq!(f.tracks.len(), 1);
}

#[test]
fn midi_file_without_tracks_is_read() {
    let f = MidiFile::parse(&file([0x00, 0x60], &[])).unwrap();
    assert_eq!(f.timing, Timing::Metrical(96));
    assert!(f.tracks.is_empty());
}

#[test]
fn bytes_that_are_no_midi_file_are_refused() {
    assert!(MidiFile::parse(b"not a midi file").is_err());
    assert!(MidiFile::parse(&[]).is_err());
}

#[test]
fn midi_file_plays_from_bytes_to_notes() {
    let f = MidiFile::parse(&two_tracks()).unwrap();
    let mut seq = Sequencer::from_tracks(f.tracks).unwrap();
    let tracks = seq.play_all(f.timing).unwrap();
    assert_eq!(tracks[0].name, None);
    assert_eq!(tracks[0].length, 0);
    assert_eq!(tracks[1].name.as_deref(), Some("Piano"));
    assert_eq!(tracks[1].length, 1_500_000);
    assert_eq!(
        tracks[1].events,
        vec![
            PlayerEvent { time: 0, note: 60, velocity: 0x40 },
            PlayerEvent { time: 500_000, note: 62, velocity: 0x41 },
            PlayerEvent { time: 1_000_000, note: 64, velocity: 0x42 },
        ]
    );
}

#[test]
fn parsed_file_is_taken_event_by_event() {
    let name: &[u8] = b"Lead";
    let meta = |delta: u32, m: midly::MetaMessage<'static>| midly::TrackEvent {
        delta: midly::num::u28::new(delta),
        kind: midly::TrackEventKind::Meta(m),
    };
    let midi = |delta: u32, message: midly::MidiMessage| midly::TrackEvent {
        delta: midly::num::u28::new(delta),
        kind: midly::TrackEventKind::Midi { channel: midly::num::u4::new(3), message },
    };
    let key = midly::num::u7::new(61);
    let vel = midly::num::u7::new(99);
    let smf = midly::Smf {
        header: midly::Header::new(
            midly::Format::Parallel,
            midly::Timing::Metrical(midly::num::u15::new(192)),
        ),
        tracks: vec![
            vec![
                meta(0, midly::MetaMessage::TrackName(name)),
                meta(1, midly::MetaMessage::Tempo(midly::num::u24::new(400_000))),
                meta(2, midly::MetaMessage::Text(name)),
                midi(3, midly::MidiMessage::NoteOn { key, vel }),
                midi(4, midly::MidiMessage::NoteOff { key, vel }),
                midi(5, midly::MidiMessage::Aftertouch { key, vel }),
                midly::TrackEvent {
                    delta: midly::num::u28::new(6),
                    kind: midly::TrackEventKind::SysEx(name),
                },
                meta(0x0fff_ffff, midly::MetaMessage::EndOfTrack),
            ],
            vec![],
        ],
    };
    let f = MidiFile::from_smf(&smf);
    assert_eq!(f.timing, Timing::Metrical(192));
    assert_eq!(
        f.tracks,
        vec![
            vec![
                TrackEvent { delta: 0, kind: EventKind::TrackName(b"Lead".to_vec()) },
                TrackEvent { delta: 1, kind: EventKind::Tempo(400_000) },
                TrackEvent { delta: 2, kind: EventKind::Other },
                TrackEvent { delta: 3, kind: EventKind::NoteOn { key: 61, vel: 99 } },
                TrackEvent { delta: 4, kind: EventKind::Other },
                TrackEvent { delta: 5, kind: EventKind::Other },
                TrackEvent { delta: 6, kind: EventKind::Other },
                TrackEvent { delta: 0x0fff_ffff, kind: EventKind::EndOfTrack },
            ],
            vec![],
        ]
    );
}

#[test]
fn parsed_file_with_timecode_has_no_ticks_per_quarter() {
    let smf = midly::Smf::new(midly::Header::new(
        midly::Format::SingleTrack,
        midly::Timing::Timecode(midly::Fps::Fps25, 40),
    ));
    let f = MidiFile::from_smf(&smf);
    assert_eq!(f.timing, Timing::Timecode);
    assert!(f.tracks.is_empty());
}

fn header(format: u16, division: [u8; 2]) -> Vec<u8> {
    let mut body = format.to_be_bytes().to_vec();
    body.extend_from_slice(&[0, 0]);
    body.extend_from_slice(&division);
    chunk(b"MThd", &body)
}

fn riff(chunks: &[(&[u8; 4], &[u8])]) -> Vec<u8> {
    let mut form = b"RMID".to_vec();
    for (tag, body) in chunks {
        form.extend_from_slice(&tag[..]);
        form.extend_from_slice(&(body.len() as u32).to_le_bytes());
        form.extend_from_slice(body);
        if body.len() % 2 == 1 {
            form.push(0);
        }
    }
    let mut out = b"RIFF".to_vec();
    out.extend_from_slice(&(form.len() as u32).to_le_bytes());
    out.extend_from_slice(&form);
    out
}

const END: &[u8] = &[0x00, 0xff, 0x2f, 0x00];

#[test]
fn frame_rate_byte_0x80_is_refused_before_parsing() {
    let bytes = [0x4d, 0x54, 0x68, 0x64, 0, 0, 0, 6, 0, 1, 0, 0, 0x80, 0];
    assert!(has_invalid_timecode(&bytes));
    assert!(matches!(MidiFile::parse(&bytes), Err(MidiError::InvalidTimecode)));
    assert_eq!(header(1, [0x80, 0x00]), bytes.to_vec());
    for format in 0..3 {
        for low in [0x00, 0x28, 0xff] {
            let bytes = header(format, [0x80, low]);
            assert!(matches!(MidiFile::parse(&bytes), Err(MidiError::InvalidTimecode)));
        }
    }
}

#[test]
fn frame_rate_byte_0x80_is_found_in_a_later_header() {
    let mut bytes = file([0x01, 0xe0], &[END]);
    assert!(!has_invalid_timecode(&bytes));
    bytes.extend_from_slice(&chunk(b"junk", &[1, 2, 3]));
    bytes.extend_from_slice(&header(0, [0xe7, 0x28]));
    assert!(!has_invalid_timecode(&bytes));
    assert_eq!(MidiFile::parse(&bytes).unwrap().tracks.len(), 1);
    bytes.extend_from_slice(&header(2, [0x80, 0x01]));
    bytes.extend_from_slice(&chunk(b"MTrk", END));
    assert!(has_invalid_timecode(&bytes));
    assert!(matches!(MidiFile::parse(&bytes), Err(MidiError::InvalidTimecode)));
}

#[test]
fn frame_rate_byte_0x80_is_found_in_a_header_cut_short() {
    // A header that says it is longer than the bytes that are left.
    let mut bytes = b"MThd".to_vec();
    bytes.extend_from_slice(&[0xff, 0xff, 0xff, 0xff, 0, 2, 0, 7, 0x80, 9]);
    assert!(has_invalid_timecode(&bytes));
    assert!(matches!(MidiFile::parse(&bytes), Err(MidiError::InvalidTimecode)));
    // Without the lower byte of the timing the higher one is not read.
    bytes.truncate(13);
    assert!(!has_invalid_timecode(&bytes));
    assert!(matches!(MidiFile::parse(&bytes), Err(MidiError::Parse(_))));
    // Bytes that begin with neither tag are not walked at all.
    let mut bytes = chunk(b"MThx", &[9; 5]);
    bytes.extend_from_slice(&header(1, [0x80, 0]));
    assert!(!has_invalid_timecode(&bytes));
    assert!(matches!(MidiFile::parse(&bytes), Err(MidiError::Parse(_))));
    assert!(!has_invalid_timecode(b"MThd"));
    assert!(!has_invalid_timecode(b"MTh"));
    assert!(!has_invalid_timecode(b""));
}

#[test]
fn frame_rate_byte_0x80_is_found_in_a_riff_file() {
    let smf = header(1, [0x80, 0x00]);
    let odd: &[u8] = &[1, 2, 3];
    let bytes = riff(&[(b"LIST", odd), (b"data", &smf), (b"data", &two_tracks())]);
    assert!(has_invalid_timecode(&bytes));
    assert!(matches!(MidiFile::parse(&bytes), Err(MidiError::InvalidTimecode)));
    let bytes = riff(&[(b"LIST", odd), (b"data", &two_tracks()), (b"data", &smf)]);
    assert!(!has_invalid_timecode(&bytes));
    assert_eq!(MidiFile::parse(&bytes).unwrap(), MidiFile::parse(&two_tracks()).unwrap());
    let bytes = riff(&[(b"LIST", &smf)]);
    assert!(!has_invalid_timecode(&bytes));
    assert!(matches!(MidiFile::parse(&bytes), Err(MidiError::Parse(_))));
    let mut bytes = riff(&[(b"data", &smf)]);
    bytes[8] = b'X';
    assert!(!has_invalid_timecode(&bytes));
    assert!(matches!(MidiFile::parse(&bytes), Err(MidiError::Parse(_))));
    // A form that says it is shorter than it is ends before the header.
    let mut bytes = riff(&[(b"data", &smf)]);
    bytes[4] = 20;
    assert!(!has_invalid_timecode(&bytes));
    assert!(matches!(MidiFile::parse(&bytes), Err(MidiError::Parse(_))));
    // Within the data the header may stand behind chunks with other tags.
    let mut inner = chunk(b"junk", &[7; 3]);
    inner.extend_from_slice(&two_tracks());
    let bytes = riff(&[(b"data", &inner)]);
    assert!(!has_invalid_timecode(&bytes));
    assert_eq!(MidiFile::parse(&bytes).unwrap(), MidiFile::parse(&two_tracks()).unwrap());
    inner.extend_from_slice(&smf);
    let bytes = riff(&[(b"data", &inner)]);
    assert!(has_invalid_timecode(&bytes));
    assert!(matches!(MidiFile::parse(&bytes), Err(MidiError::InvalidTimecode)));
}

#[test]
fn reading_stops_before_a_header_it_does_not_reach() {
    // A track before any header.
    let mut inner = chunk(b"MTrk", END);
    inner.extend_from_slice(&header(1, [0x80, 0]));
    let bytes = riff(&[(b"data", &inner)]);
    assert!(!has_invalid_timecode(&bytes));
    assert!(matches!(MidiFile::parse(&bytes), Err(MidiError::Parse(_))));
    // An unreadable header behind the first one: of an unknown format, too
    // short, or with a frame rate that there is not.
    let short = chunk(b"MThd", &[0, 1, 0, 0, 0x80]);
    for stop in [header(3, [0x80, 0]), header(0x0100, [0x80, 0]), short, header(1, [0x81, 0])] {
        let mut bytes = file([0x00, 0x60], &[END]);
        bytes.extend_from_slice(&stop);
        bytes.extend_from_slice(&header(1, [0x80, 0]));
        bytes.extend_from_slice(&chunk(b"MTrk", END));
        assert!(!has_invalid_timecode(&bytes));
        let f = MidiFile::parse(&bytes).unwrap();
        assert_eq!(f.timing, Timing::Metrical(96));
        assert_eq!(f.tracks.len(), 1);
    }
    // The same headers in the first place.
    for first in [header(3, [0x80, 0]), header(1, [0x81, 0]), header(1, [0xff, 0])] {
        assert!(!has_invalid_timecode(&first));
        assert!(matches!(MidiFile::parse(&first), Err(MidiError::Parse(_))));
    }
}

#[test]
fn every_frame_rate_there_is_is_read() {
    for rate in [0xe8u8, 0xe7, 0xe3, 0xe2] {
        let mut bytes = header(1, [rate, 40]);
        bytes.extend_from_slice(&chunk(b"MTrk", END));
        bytes.extend_from_slice(&header(1, [0x80, 0]));
        assert!(has_invalid_timecode(&bytes));
        bytes.truncate(14 + 12);
        assert!(!has_invalid_timecode(&bytes));
        assert_eq!(MidiFile::parse(&bytes).unwrap().timing, Timing::Timecode);
    }
}
