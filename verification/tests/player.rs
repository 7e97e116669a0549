use midisynth::event::{EventKind, Timing, TrackEvent};
use midisynth::player::{PlayerEvent, PlayerTrack, TempoState, TimeMapper, UnsupportedTiming};
use midisynth::sequencer::Sequencer;

fn ev(delta: u32, kind: EventKind) -> TrackEvent {
    TrackEvent { delta, kind }
}

fn on(delta: u32, key: u8, vel: u8) -> TrackEvent {
    ev(delta, EventKind::NoteOn { key, vel })
}

fn play(tracks: Vec<Vec<TrackEvent>>, ticks_per_quarter: u16) -> Vec<PlayerTrack> {
    let mut seq = Sequencer::from_tracks(tracks).unwrap();
    seq.play_all(Timing::Metrical(ticks_per_quarter)).unwrap()
}

#[test]
fn tempo_state_starts_at_default_tempo() {
    let t = TempoState::new(480);
    assert_eq!(t.ticks_per_quarter, 480);
    assert_eq!(t.tempo, 500_000);
    assert_eq!(t.anchor_tick, 0);
    assert_eq!(t.anchor_time, 0);
    assert_eq!(t.time_at(0), 0);
    assert_eq!(t.time_at(480), 500_000);
    assert_eq!(t.time_at(1), 1041);
}

#[test]
fn tempo_anchor_arithmetic() {
    let mut t = TempoState::new(480);
    assert_eq!(t.time_at(960), 1_000_000);
    t.retime(960, 1_000_000);
    assert_eq!(t.anchor_tick, 960);
    assert_eq!(t.anchor_time, 1_000_000);
    assert_eq!(t.tempo, 1_000_000);
    assert_eq!(t.ticks_per_quarter, 480);
    assert_eq!(t.time_at(1440), 2_000_000);
}

#[test]
fn tempo_change_moves_later_notes_only() {
    let tracks = play(
        vec![
            vec![ev(960, EventKind::Tempo(1_000_000)), ev(0, EventKind::EndOfTrack)],
            vec![on(480, 60, 90), on(960, 62, 91), ev(480, EventKind::EndOfTrack)],
        ],
        480,
    );
    assert_eq!(tracks.len(), 2);
    assert_eq!(tracks[0].length, 1_000_000);
    assert!(tracks[0].events.is_empty());
    assert_eq!(
        tracks[1].events,
        vec![
            PlayerEvent { time: 500_000, note: 60, velocity: 90 },
            PlayerEvent { time: 2_000_000, note: 62, velocity: 91 },
        ]
    );
    assert_eq!(tracks[1].length, 3_000_000);
}

#[test]
fn time_stays_exact_at_the_largest_values() {
    let t = TempoState { ticks_per_quarter: 1, tempo: u32::MAX, anchor_tick: 0, anchor_time: 0 };
    assert_eq!(t.time_at(u32::MAX), 18_446_744_065_119_617_025);
}

#[test]
fn track_name_is_decoded_as_text() {
    let tracks = play(
        vec![
            vec![ev(0, EventKind::TrackName(b"Piano".to_vec()))],
            vec![ev(0, EventKind::TrackName(vec![0xc3, 0x9c, 0x62]))],
            vec![ev(0, EventKind::TrackName(Vec::new()))],
        ],
        96,
    );
    assert_eq!(tracks[0].name.as_deref(), Some("Piano"));
    assert_eq!(tracks[1].name.as_deref(), Some("\u{dc}b"));
    assert_eq!(tracks[2].name.as_deref(), Some(""));
}

#[test]
fn track_name_that_is_no_text_leaves_the_track_unnamed() {
    let tracks = play(
        vec![vec![
            ev(0, EventKind::TrackName(b"Bass".to_vec())),
            ev(1, EventKind::TrackName(vec![0xff, 0xfe])),
        ]],
        96,
    );
    assert_eq!(tracks[0].name, None);
}

#[test]
fn other_events_leave_no_trace() {
    let tracks = play(vec![vec![ev(10, EventKind::Other), ev(10, EventKind::Other)]], 96);
    assert_eq!(tracks, vec![PlayerTrack { name: None, length: 0, events: Vec::new() }]);
}

#[test]
fn play_all_leaves_the_sequencer_exhausted() {
    let mut seq = Sequencer::from_tracks(vec![vec![on(1, 2, 3)], vec![on(1, 4, 5)]]).unwrap();
    let tracks = seq.play_all(Timing::Metrical(1)).unwrap();
    assert_eq!(tracks[0].events, vec![PlayerEvent { time: 500_000, note: 2, velocity: 3 }]);
    assert_eq!(tracks[1].events, vec![PlayerEvent { time: 500_000, note: 4, velocity: 5 }]);
    assert_eq!(seq.len(), 2);
    assert!(seq.next().is_none());
}

#[test]
fn timecode_is_not_supported() {
    let mut seq = Sequencer::from_tracks(vec![vec![on(1, 2, 3)]]).unwrap();
    assert_eq!(seq.play_all(Timing::Timecode), Err(UnsupportedTiming));
    let e = seq.next().unwrap();
    assert_eq!((e.idx, e.ticks), (0, 1));
    let seq = Sequencer::from_tracks(vec![vec![on(1, 2, 3)]]).unwrap();
    assert!(TimeMapper::new(seq, Timing::Timecode).is_err());
}

#[test]
fn mapper_steps_one_event_at_a_time() {
    let seq = Sequencer::from_tracks(vec![
        vec![on(96, 60, 1), ev(96, EventKind::EndOfTrack)],
        vec![on(48, 61, 2)],
    ])
    .unwrap();
    let mut mapper = TimeMapper::new(seq, Timing::Metrical(96)).unwrap();
    let mut steps = 0;
    while mapper.step() {
        steps += 1;
    }
    assert_eq!(steps, 3);
    assert!(!mapper.step());
    let (mut seq, tracks) = mapper.finish();
    assert!(seq.next().is_none());
    assert_eq!(tracks[0].events, vec![PlayerEvent { time: 500_000, note: 60, velocity: 1 }]);
    assert_eq!(tracks[0].length, 1_000_000);
    assert_eq!(tracks[1].events, vec![PlayerEvent { time: 250_000, note: 61, velocity: 2 }]);
}

#[test]
fn notes_of_a_track_come_in_the_order_of_their_times() {
    let tracks = play(
        vec![
            vec![ev(100, EventKind::Tempo(250_000)), ev(100, EventKind::Tempo(1_000_000))],
            vec![on(50, 1, 1), on(100, 2, 1), on(100, 3, 1), on(0, 4, 1)],
        ],
        100,
    );
    let times: Vec<u64> = tracks[1].events.iter().map(|e| e.time).collect();
    assert_eq!(times, vec![250_000, 625_000, 1_250_000, 1_250_000]);
}

#[test]
fn new_player_track_is_empty() {
    assert_eq!(PlayerTrack::new(), PlayerTrack { name: None, length: 0, events: Vec::new() });
}
