use drum_sequencer::engine::Engine;
use drum_sequencer::pattern::Pattern;
use drum_sequencer::schedule::{scan_note_ons, step_position};
use drum_sequencer::track::{EventKind, TimedEvent, Track};
use drum_sequencer::transport::{ConfigError, Tempo, TimeSignature, Transport};

fn transport_48k_120() -> Transport {
    Transport::new(
        48000,
        Tempo { numer: 120, denom: 1 },
        TimeSignature { beats_per_bar: 4, beat_unit: 4 },
    )
    .unwrap()
}

fn engine(transport: Transport, patterns: Vec<(Vec<u8>, u8)>, delay: u32, capacity: usize) -> Engine {
    let tracks = patterns
        .into_iter()
        .map(|(steps, note)| Track::new(Pattern::new(steps, note).unwrap()))
        .collect();
    Engine::new(transport, tracks, delay, capacity).unwrap()
}

/// Runs blocks of the given lengths; each event is given with its absolute sample time.
fn run(e: &mut Engine, blocks: &[u32]) -> Vec<(u64, TimedEvent)> {
    let mut out = Vec::new();
    let mut at: u64 = 0;
    for &len in blocks {
        e.process(len);
        for ev in e.events() {
            assert!(ev.offset_in_block < len);
            out.push((at + ev.offset_in_block as u64, *ev));
        }
        at += len as u64;
    }
    out
}

fn on_times(evs: &[(u64, TimedEvent)]) -> Vec<u64> {
    evs.iter().filter(|(_, e)| e.kind == EventKind::NoteOn).map(|(t, _)| *t).collect()
}

fn blocks_of(len: u32, total: u64) -> Vec<u32> {
    let mut v = Vec::new();
    let mut done = 0u64;
    while done < total {
        let l = std::cmp::min(len as u64, total - done) as u32;
        v.push(l);
        done += l as u64;
    }
    v
}

#[test]
fn transport_example_values() {
    let t = transport_48k_120();
    assert_eq!(t.samples_per_beat, 24000);
    assert_eq!(t.samples_per_bar, 96000);
    assert_eq!(t.samples_per_step(4), 24000);
}

#[test]
fn transport_rounds_half_up() {
    // 1000 Hz at 7 bpm: a beat is 8571.43 samples, a bar 34285.71.
    let t = Transport::new(1000, Tempo { numer: 7, denom: 1 }, TimeSignature { beats_per_bar: 4, beat_unit: 4 })
        .unwrap();
    assert_eq!(t.samples_per_beat, 8571);
    assert_eq!(t.samples_per_bar, 34286);
    // half a sample rounds up to one; a quarter rounds down to none
    let h = Transport::new(1, Tempo { numer: 120, denom: 1 }, TimeSignature { beats_per_bar: 1, beat_unit: 4 })
        .unwrap();
    assert_eq!((h.samples_per_beat, h.samples_per_bar), (1, 1));
    let z = Transport::new(1, Tempo { numer: 240, denom: 1 }, TimeSignature { beats_per_bar: 1, beat_unit: 4 });
    assert_eq!(z.unwrap_err(), ConfigError::TempoOutOfRange);
    let h = Transport::new(3, Tempo { numer: 120, denom: 1 }, TimeSignature { beats_per_bar: 1, beat_unit: 4 })
        .unwrap();
    assert_eq!(h.samples_per_beat, 2);
    // fractional tempo: 90.5 bpm at 44100 Hz in 3/4
    let f = Transport::new(44100, Tempo { numer: 181, denom: 2 }, TimeSignature { beats_per_bar: 3, beat_unit: 4 })
        .unwrap();
    assert_eq!(f.samples_per_beat, 29238);
    assert_eq!(f.samples_per_bar, 87713);
}

#[test]
fn transport_errors() {
    let ts = TimeSignature { beats_per_bar: 4, beat_unit: 4 };
    let bpm = Tempo { numer: 120, denom: 1 };
    assert_eq!(Transport::new(0, bpm, ts).unwrap_err(), ConfigError::InvalidSampleRate);
    assert_eq!(
        Transport::new(48000, Tempo { numer: 0, denom: 1 }, ts).unwrap_err(),
        ConfigError::InvalidTempo
    );
    assert_eq!(
        Transport::new(48000, Tempo { numer: 120, denom: 0 }, ts).unwrap_err(),
        ConfigError::InvalidTempo
    );
    assert_eq!(
        Transport::new(48000, bpm, TimeSignature { beats_per_bar: 0, beat_unit: 4 }).unwrap_err(),
        ConfigError::InvalidTimeSignature
    );
    assert_eq!(
        Transport::new(48000, bpm, TimeSignature { beats_per_bar: 4, beat_unit: 0 }).unwrap_err(),
        ConfigError::InvalidTimeSignature
    );
    assert_eq!(
        Transport::new(u32::MAX, Tempo { numer: 1, denom: 1 }, ts).unwrap_err(),
        ConfigError::TempoOutOfRange
    );
}

#[test]
fn pattern_construction_and_scan() {
    assert_eq!(Pattern::new(vec![], 36).unwrap_err(), ConfigError::EmptyPattern);
    let p = Pattern::new(vec![0, 90, 0, 0, 127], 38).unwrap();
    assert_eq!(p.steps_per_bar(), 5);
    assert_eq!(p.note(), 38);
    assert_eq!(p.next_triggered_step(0), Some((1, 90)));
    assert_eq!(p.next_triggered_step(1), Some((1, 90)));
    assert_eq!(p.next_triggered_step(2), Some((4, 127)));
    assert_eq!(p.next_triggered_step(5), None);
    let silent = Pattern::new(vec![0, 0], 38).unwrap();
    assert_eq!(silent.next_triggered_step(0), None);
}

#[test]
fn engine_config_errors() {
    let t = Transport::new(10, Tempo { numer: 60, denom: 1 }, TimeSignature { beats_per_bar: 1, beat_unit: 4 })
        .unwrap();
    assert_eq!(t.samples_per_bar, 10);
    let fine = vec![Track::new(Pattern::new(vec![1; 11], 36).unwrap())];
    assert_eq!(Engine::new(t, fine, 1, 16).unwrap_err(), ConfigError::PatternTooFine);
    let ok = vec![Track::new(Pattern::new(vec![1; 10], 36).unwrap())];
    assert_eq!(Engine::new(t, ok, 0, 16).unwrap_err(), ConfigError::InvalidNoteOffDelay);
}

#[test]
fn kick_pattern_in_blocks_of_1024() {
    let mut e = engine(transport_48k_120(), vec![(vec![127, 0, 0, 127], 36)], 24000, 64);
    let evs = run(&mut e, &blocks_of(1024, 4 * 96000));
    assert_eq!(
        on_times(&evs),
        vec![0, 72000, 96000, 168000, 192000, 264000, 288000, 360000]
    );
    for (_, ev) in evs.iter().filter(|(_, e)| e.kind == EventKind::NoteOn) {
        assert_eq!(ev.velocity, 127);
        assert_eq!(ev.note, 36);
    }
}

#[test]
fn coverage_over_one_bar_any_block_size() {
    let t = Transport::new(1000, Tempo { numer: 240, denom: 1 }, TimeSignature { beats_per_bar: 4, beat_unit: 4 })
        .unwrap();
    assert_eq!(t.samples_per_bar, 1000);
    let steps: Vec<u8> = vec![100, 0, 0, 80, 0, 60, 0, 0, 0, 0, 0, 1, 0, 0, 0, 127];
    let expected: Vec<u64> = (0..16u64)
        .filter(|s| steps[*s as usize] > 0)
        .map(|s| (2 * s * 1000 + 16) / 32)
        .collect();
    for len in [1u32, 7, 62, 63, 100, 333, 999, 1000] {
        let mut e = engine(t, vec![(steps.clone(), 42)], 10, 64);
        let evs = run(&mut e, &blocks_of(len, 1000));
        assert_eq!(on_times(&evs), expected, "block length {}", len);
    }
}

#[test]
fn boundary_step_goes_to_the_block_that_starts_there() {
    let t = transport_48k_120();
    let pattern = vec![127, 0, 127, 0];
    let mut whole = engine(t, vec![(pattern.clone(), 36)], 100, 64);
    let mut halves = engine(t, vec![(pattern, 36)], 100, 64);
    whole.process(96000);
    let whole_ons: Vec<u32> = whole
        .events()
        .iter()
        .filter(|e| e.kind == EventKind::NoteOn)
        .map(|e| e.offset_in_block)
        .collect();
    assert_eq!(whole_ons, vec![0, 48000]);
    halves.process(48000);
    let first: Vec<(u32, EventKind)> = halves.events().iter().map(|e| (e.offset_in_block, e.kind)).collect();
    assert_eq!(first, vec![(0, EventKind::NoteOn), (100, EventKind::NoteOff)]);
    halves.process(48000);
    let second: Vec<(u32, EventKind)> = halves.events().iter().map(|e| (e.offset_in_block, e.kind)).collect();
    assert_eq!(second, vec![(0, EventKind::NoteOn), (100, EventKind::NoteOff)]);
}

#[test]
fn split_blocks_reassemble_to_one_block() {
    let t = Transport::new(1000, Tempo { numer: 240, denom: 1 }, TimeSignature { beats_per_bar: 4, beat_unit: 4 })
        .unwrap();
    let patterns = vec![(vec![127, 0, 90, 0, 0, 70, 0], 36), (vec![0, 50, 0, 50], 38)];
    let absolute = |evs: Vec<(u64, TimedEvent)>| -> Vec<(u64, u8, u8, EventKind)> {
        evs.into_iter().map(|(t, e)| (t, e.note, e.velocity, e.kind)).collect()
    };
    let mut one = engine(t, patterns.clone(), 180, 256);
    let single = absolute(run(&mut one, &[2500]));
    assert_eq!(single.len(), 26);
    for split in [vec![1000, 1500], vec![1, 2499], vec![333, 333, 334, 1500], vec![999, 2, 1499]] {
        let mut e = engine(t, patterns.clone(), 180, 256);
        assert_eq!(absolute(run(&mut e, &split)), single, "split {:?}", split);
    }
}

#[test]
fn choke_releases_before_next_note() {
    let t = Transport::new(1000, Tempo { numer: 240, denom: 1 }, TimeSignature { beats_per_bar: 4, beat_unit: 4 })
        .unwrap();
    // steps every 250 samples, note-offs due 400 samples after each note-on
    let mut e = engine(t, vec![(vec![127, 100, 0, 0], 36)], 400, 64);
    e.process(1000);
    let got: Vec<(u32, EventKind, u8)> = e.events().iter().map(|x| (x.offset_in_block, x.kind, x.velocity)).collect();
    assert_eq!(
        got,
        vec![
            (0, EventKind::NoteOn, 127),
            (250, EventKind::NoteOff, 0),
            (250, EventKind::NoteOn, 100),
            (650, EventKind::NoteOff, 0),
        ]
    );
}

#[test]
fn choke_across_blocks() {
    let t = Transport::new(1000, Tempo { numer: 240, denom: 1 }, TimeSignature { beats_per_bar: 4, beat_unit: 4 })
        .unwrap();
    let mut e = engine(t, vec![(vec![127, 100, 0, 0], 36)], 400, 64);
    e.process(100);
    e.process(200);
    let got: Vec<(u32, EventKind)> = e.events().iter().map(|x| (x.offset_in_block, x.kind)).collect();
    assert_eq!(got, vec![(150, EventKind::NoteOff), (150, EventKind::NoteOn)]);
}

#[test]
fn same_configuration_same_events() {
    let t = transport_48k_120();
    let patterns = vec![(vec![127, 127, 127, 127], 36), (vec![0, 127, 0, 127], 37)];
    let blocks = [512u32, 1024, 300, 4096, 96000, 7];
    let mut a = engine(t, patterns.clone(), 12000, 32);
    let mut b = engine(t, patterns, 12000, 32);
    assert_eq!(run(&mut a, &blocks), run(&mut b, &blocks));
}

#[test]
fn ties_follow_track_order_then_note_off_first() {
    let t = Transport::new(1000, Tempo { numer: 240, denom: 1 }, TimeSignature { beats_per_bar: 4, beat_unit: 4 })
        .unwrap();
    let mut e = engine(t, vec![(vec![127, 127], 36), (vec![90, 90], 38)], 500, 64);
    e.process(1000);
    let got: Vec<(u32, u8, EventKind)> = e.events().iter().map(|x| (x.offset_in_block, x.note, x.kind)).collect();
    assert_eq!(
        got,
        vec![
            (0, 36, EventKind::NoteOn),
            (0, 38, EventKind::NoteOn),
            (500, 36, EventKind::NoteOff),
            (500, 36, EventKind::NoteOn),
            (500, 38, EventKind::NoteOff),
            (500, 38, EventKind::NoteOn),
        ]
    );
}

#[test]
fn overflow_drops_and_counts() {
    let t = Transport::new(1000, Tempo { numer: 240, denom: 1 }, TimeSignature { beats_per_bar: 4, beat_unit: 4 })
        .unwrap();
    let mut e = engine(t, vec![(vec![127, 127, 127, 127], 36)], 10, 3);
    e.process(1000);
    assert_eq!(e.events().len(), 3);
    assert_eq!(e.dropped_events(), 5);
    assert_eq!(e.events()[2].offset_in_block, 250);
    e.process(1000);
    assert_eq!(e.dropped_events(), 10);
}

#[test]
fn disabled_track_only_releases() {
    let t = Transport::new(1000, Tempo { numer: 240, denom: 1 }, TimeSignature { beats_per_bar: 4, beat_unit: 4 })
        .unwrap();
    let mut e = engine(t, vec![(vec![127, 0, 0, 0], 36)], 300, 8);
    e.process(100);
    e.set_track_enabled(0, false);
    e.process(1000);
    let got: Vec<(u32, EventKind)> = e.events().iter().map(|x| (x.offset_in_block, x.kind)).collect();
    assert_eq!(got, vec![(200, EventKind::NoteOff)]);
    assert_eq!(e.position_in_bar(), 100);
}

#[test]
fn uneven_grid_positions_round_half_up() {
    let t = Transport::new(25, Tempo { numer: 60, denom: 1 }, TimeSignature { beats_per_bar: 1, beat_unit: 1 })
        .unwrap();
    assert_eq!(t.samples_per_bar, 100);
    assert_eq!(t.samples_per_step(3), 33);
    let mut e = engine(t, vec![(vec![1, 1, 1], 36)], 1, 16);
    let evs = run(&mut e, &[100, 100]);
    assert_eq!(on_times(&evs), vec![0, 33, 67, 100, 133, 167]);
}

#[test]
fn next_triggered_step_examples() {
    let p = Pattern::new(vec![127, 0, 0, 127], 36).unwrap();
    assert_eq!(p.next_triggered_step(0), Some((0, 127)));
    assert_eq!(p.next_triggered_step(1), Some((3, 127)));
    assert_eq!(p.next_triggered_step(4), None);
    let q = Pattern::new(vec![0, 0, 127, 0], 38).unwrap();
    assert_eq!(q.next_triggered_step(0), Some((2, 127)));
    assert_eq!(q.next_triggered_step(3), None);
    let r = Pattern::new(vec![0, 127, 0, 127], 37).unwrap();
    assert_eq!(r.next_triggered_step(0), Some((1, 127)));
    assert_eq!(r.next_triggered_step(1), Some((1, 127)));
    assert_eq!(r.next_triggered_step(2), Some((3, 127)));
    assert_eq!(r.next_triggered_step(4), None);
}

#[test]
fn half_bar_windows_split_steps() {
    let t = transport_48k_120();
    let q = Pattern::new(vec![0, 0, 127, 0], 38).unwrap();
    let mut ons = Vec::new();
    scan_note_ons(&q, t.samples_per_bar, 0, 48000, &mut ons);
    assert_eq!(ons, vec![]);
    scan_note_ons(&q, t.samples_per_bar, 48000, 48000, &mut ons);
    assert_eq!(ons, vec![(0, 127)]);
    let p = Pattern::new(vec![127, 0, 0, 127], 36).unwrap();
    scan_note_ons(&p, t.samples_per_bar, 71680, 1024, &mut ons);
    assert_eq!(ons, vec![(320, 127)]);
    assert_eq!(step_position(t.samples_per_bar, 4, 3), 72000);
}

#[test]
fn setup_example() {
    let t = transport_48k_120();
    let p = Pattern::new(vec![127, 0, 0, 127], 36).unwrap();
    assert_eq!(t.samples_per_step(p.steps_per_bar()), 24000);
    let e = Engine::new(t, vec![Track::new(p)], 24000, 16).unwrap();
    assert_eq!(e.position_in_bar(), 0);
    assert_eq!(e.track_count(), 1);
    assert_eq!(e.events().len(), 0);
    assert_eq!(e.dropped_events(), 0);
}
