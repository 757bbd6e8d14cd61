use vstd::prelude::*;
use crate::schedule::{step_offset, step_position};

verus! {

/// Why a session configuration was refused.
#[derive(Debug, Clone, Copy, PartialEq, Eq, Structural)]
pub enum ConfigError {
    InvalidSampleRate,
    InvalidTempo,
    InvalidTimeSignature,
    /// The tempo gives a beat or a bar of zero samples, or one too long to count in `u32`.
    TempoOutOfRange,
    EmptyPattern,
    /// A pattern has more steps than the bar has samples.
    PatternTooFine,
    InvalidNoteOffDelay,
}

/// A tempo in beats per minute, as the exact fraction `numer / denom`.
#[derive(Debug, Clone, Copy, PartialEq, Eq, Structural)]
pub struct Tempo {
    pub numer: u32,
    pub denom: u32,
}

#[derive(Debug, Clone, Copy, PartialEq, Eq, Structural)]
pub struct TimeSignature {
    pub beats_per_bar: u32,
    pub beat_unit: u32,
}

/// Sample-domain constants of a session: fixed tempo, meter and sample rate.
#[derive(Debug, Clone, Copy, PartialEq, Eq, Structural)]
pub struct Transport {
    pub sample_rate: u32,
    pub samples_per_beat: u64,
    pub samples_per_bar: u64,
}

/// `a / b` rounded to the nearest integer, halves rounded up.
pub open spec fn round_half_up(a: int, b: int) -> int {
    (2 * a + b) / (2 * b)
}

/// Samples in one beat: `sample_rate * 60 / bpm`, rounded.
pub open spec fn beat_len(sample_rate: nat, bpm: Tempo) -> int {
    round_half_up(sample_rate * 60 * bpm.denom, bpm.numer as int)
}

/// Samples in one bar: `sample_rate * 60 / bpm * beats_per_bar * 4 / beat_unit`,
/// rounded once from the exact value.
pub open spec fn bar_len(sample_rate: nat, bpm: Tempo, ts: TimeSignature) -> int {
    round_half_up(
        sample_rate * 60 * bpm.denom * ts.beats_per_bar * 4,
        bpm.numer as int * ts.beat_unit,
    )
}

/// The error that `Transport::new` reports, if any.
pub open spec fn transport_error(sample_rate: nat, bpm: Tempo, ts: TimeSignature) -> Option<
    ConfigError,
> {
    if sample_rate == 0 {
        Some(ConfigError::InvalidSampleRate)
    } else if bpm.numer == 0 || bpm.denom == 0 {
        Some(ConfigError::InvalidTempo)
    } else if ts.beats_per_bar == 0 || ts.beat_unit == 0 {
        Some(ConfigError::InvalidTimeSignature)
    } else if beat_len(sample_rate, bpm) == 0 || beat_len(sample_rate, bpm) > u32::MAX || bar_len(sample_rate, bpm, ts) == 0 || bar_len(
        sample_rate,
        bpm,
        ts,
    ) > u32::MAX {
        Some(ConfigError::TempoOutOfRange)
    } else {
        None
    }
}

impl Transport {
    /// Well formed: the bar is a positive number of samples that fits in `u32`.
    pub open spec fn wf(&self) -> bool {
        &&& 0 < self.samples_per_bar <= u32::MAX
        &&& 0 < self.samples_per_beat <= u32::MAX
    }

    pub fn new(sample_rate: u32, bpm: Tempo, time_signature: TimeSignature) -> (r: Result<
        Transport,
        ConfigError,
    >)
        ensures
            match transport_error(sample_rate as nat, bpm, time_signature) {
                Some(e) => r == Err::<Transport, ConfigError>(e),
                None => r is Ok && r->Ok_0.wf() && r->Ok_0.sample_rate == sample_rate
                    && r->Ok_0.samples_per_beat == beat_len(sample_rate as nat, bpm)
                    && r->Ok_0.samples_per_bar == bar_len(sample_rate as nat, bpm, time_signature),
            },
    {
        if sample_rate == 0 {
            return Err(ConfigError::InvalidSampleRate);
        }
        if bpm.numer == 0 || bpm.denom == 0 {
            return Err(ConfigError::InvalidTempo);
        }
        if time_signature.beats_per_bar == 0 || time_signature.beat_unit == 0 {
            return Err(ConfigError::InvalidTimeSignature);
        }
        let sr = sample_rate as u128;
        let den = bpm.denom as u128;
        let num = bpm.numer as u128;
        let bpb = time_signature.beats_per_bar as u128;
        let unit = time_signature.beat_unit as u128;
        assert(sr * 60 * den <= 0xffff_ffff * 60 * 0xffff_ffff) by (nonlinear_arith)
            requires sr <= 0xffff_ffff, den <= 0xffff_ffff;
        let beat_num = sr * 60 * den;
        assert(beat_num * bpb * 4 <= 0xffff_ffff * 60 * 0xffff_ffff * 0xffff_ffff * 4)
            by (nonlinear_arith)
            requires beat_num <= 0xffff_ffff * 60 * 0xffff_ffff, bpb <= 0xffff_ffff;
        let bar_num = beat_num * bpb * 4;
        assert(num * unit <= 0xffff_ffff * 0xffff_ffff) by (nonlinear_arith)
            requires num <= 0xffff_ffff, unit <= 0xffff_ffff;
        let bar_den = num * unit;
        assert(1 <= bar_den) by (nonlinear_arith)
            requires 1 <= num, 1 <= unit, bar_den == num * unit;
        let beat = (2 * beat_num + num) / (2 * num);
        let bar = (2 * bar_num + bar_den) / (2 * bar_den);
        assert(beat_num == sample_rate * 60 * bpm.denom);
        assert(bar_num == sample_rate * 60 * bpm.denom * time_signature.beats_per_bar * 4);
        assert(bar_den == bpm.numer * time_signature.beat_unit);
        if beat == 0 || beat > 0xffff_ffff || bar == 0 || bar > 0xffff_ffff {
            return Err(ConfigError::TempoOutOfRange);
        }
        Ok(Transport { sample_rate, samples_per_beat: beat as u64, samples_per_bar: bar as u64 })
    }

    /// Length of the first step of a `steps_per_bar`-step grid: the bar
    /// divided by the step count, rounded half up. The customary note-off delay.
    pub fn samples_per_step(&self, steps_per_bar: usize) -> (r: u64)
        requires
            self.wf(),
            0 < steps_per_bar <= self.samples_per_bar,
        ensures
            r == step_offset(self.samples_per_bar as int, steps_per_bar as int, 1),
            r == round_half_up(self.samples_per_bar as int, steps_per_bar as int),
    {
        step_position(self.samples_per_bar, steps_per_bar, 1)
    }
}

} // verus!
