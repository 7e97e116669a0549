//! Rendering of multi-track note performances.
//!
//! A MIDI file is read into tracks of delta-timed events (`midi`, `event`).
//! The sequencer merges the tracks into one stream ordered by absolute tick
//! (`sequencer`), and the time mapper places that stream on a microsecond
//! time line under a changing tempo, which gives the notes of each track
//! (`player`). A configuration names the instruments that play each track
//! (`config`); matching the two gives the renderings to make (`plan`). For
//! each rendering the note scheduler decides which notes a synthesizer must
//! receive before each block of samples (`render`). The mix of the rendered
//! tracks is as long as the longest of them (`mixer`).

pub mod event;
pub mod midi;
pub mod sequencer;
pub mod player;
pub mod config;
pub mod render;
pub mod plan;
pub mod mixer;
