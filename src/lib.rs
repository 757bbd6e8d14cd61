//! Sample-accurate scheduling core of a step-pattern drum sequencer.
pub mod transport;
pub mod pattern;
pub mod schedule;
pub mod track;
pub mod engine;
