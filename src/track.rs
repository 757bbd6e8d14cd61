use vstd::prelude::*;
use crate::pattern::Pattern;
use crate::schedule::{
    grid_fits,
    note_ons,
    scan_note_ons,
    shift_ons,
    lemma_note_ons_facts,
    lemma_note_ons_split,
};

verus! {

#[derive(Debug, Clone, Copy, PartialEq, Eq, Structural)]
pub enum EventKind {
    NoteOff,
    NoteOn,
}

/// One event of a block, at a sample offset from the start of the block.
#[derive(Debug, Clone, Copy, PartialEq, Eq, Structural)]
pub struct TimedEvent {
    pub offset_in_block: u32,
    pub note: u8,
    pub velocity: u8,
    pub kind: EventKind,
}

pub open spec fn note_off_at(t: int, note: u8) -> TimedEvent {
    TimedEvent { offset_in_block: t as u32, note, velocity: 0, kind: EventKind::NoteOff }
}

pub open spec fn note_on_at(t: int, note: u8, velocity: u8) -> TimedEvent {
    TimedEvent { offset_in_block: t as u32, note, velocity, kind: EventKind::NoteOn }
}

/// The events of one voice for the note-ons `ons`, given the note-off still
/// due `pending` samples into the block, and the note-off now due.
/// Each note-on schedules its note-off `delay` samples later; a note-on that
/// comes while a note-off is still due first releases the sounding note
/// at its own offset.
pub open spec fn voice(ons: Seq<(u32, u8)>, pending: Option<nat>, note: u8, delay: nat) -> (Seq<
    TimedEvent,
>, Option<nat>)
    decreases ons.len(),
{
    if ons.len() == 0 {
        (seq![], pending)
    } else {
        let prev = voice(ons.drop_last(), pending, note, delay);
        let t = ons.last().0 as int;
        let offs = match prev.1 {
            Some(q) => seq![note_off_at(if q < t { q as int } else { t }, note)],
            None => seq![],
        };
        (prev.0 + offs + seq![note_on_at(t, note, ons.last().1)], Some((t + delay) as nat))
    }
}

/// Ends a block of `len` samples: a note-off due inside it is emitted, a later
/// one is carried over, counted from the start of the next block.
pub open spec fn close_block(r: (Seq<TimedEvent>, Option<nat>), note: u8, len: nat) -> (Seq<
    TimedEvent,
>, Option<nat>) {
    match r.1 {
        Some(q) => if q < len {
            (r.0.push(note_off_at(q as int, note)), None)
        } else {
            (r.0, Some((q - len) as nat))
        },
        None => r,
    }
}

/// When a note-on follows another on one voice, the earlier note is released
/// right before the later one sounds: at the earlier note's due time, or at
/// the later note-on's own offset when the two are closer than the delay.
pub proof fn lemma_choke(ons: Seq<(u32, u8)>, pending: Option<nat>, note: u8, delay: nat)
    requires
        ons.len() >= 2,
        ons[ons.len() - 2].0 < ons[ons.len() - 1].0,
    ensures
        ({
            let r = voice(ons, pending, note, delay).0;
            let t0 = ons[ons.len() - 2].0 as int;
            let t1 = ons[ons.len() - 1].0 as int;
            &&& r.len() >= 3
            &&& r[r.len() - 3] == note_on_at(t0, note, ons[ons.len() - 2].1)
            &&& r[r.len() - 1] == note_on_at(t1, note, ons[ons.len() - 1].1)
            &&& r[r.len() - 2] == note_off_at(
                if t0 + delay < t1 {
                    t0 + delay
                } else {
                    t1
                },
                note,
            )
            &&& t1 - t0 < delay ==> r[r.len() - 2].offset_in_block == t1
            &&& r[r.len() - 2].offset_in_block <= r[r.len() - 1].offset_in_block
        }),
{
    let prev = ons.drop_last();
    assert(prev.drop_last().len() + 1 == prev.len());
    assert(prev.last() == ons[ons.len() - 2]);
    assert(voice(prev, pending, note, delay).1 == Some((ons[ons.len() - 2].0 + delay) as nat));
    let vp = voice(prev, pending, note, delay).0;
    assert(vp[vp.len() - 1] == note_on_at(ons[ons.len() - 2].0 as int, note, ons[ons.len() - 2].1));
}

/// A voice run over the first `m` note-ons is the start of the run over all of them.
proof fn lemma_voice_prefix(ons: Seq<(u32, u8)>, m: int, p: Option<nat>, note: u8, delay: nat)
    requires
        0 <= m <= ons.len(),
    ensures
        voice(ons.take(m), p, note, delay).0.len() <= voice(ons, p, note, delay).0.len(),
        voice(ons, p, note, delay).0.take(voice(ons.take(m), p, note, delay).0.len() as int)
            == voice(ons.take(m), p, note, delay).0,
    decreases ons.len(),
{
    let v = voice(ons, p, note, delay).0;
    if m == ons.len() {
        assert(ons.take(m) =~= ons);
        assert(v.take(v.len() as int) =~= v);
    } else {
        let d = ons.drop_last();
        assert(d.take(m) =~= ons.take(m));
        lemma_voice_prefix(d, m, p, note, delay);
        let l = voice(ons.take(m), p, note, delay).0.len() as int;
        let vd = voice(d, p, note, delay).0;
        assert(v.take(l) =~= vd.take(l));
    }
}

/// Between note-ons `j - 1` and `j` of `ons`, the events `r` release the
/// earlier note exactly once, right before the later note-on and at no later
/// offset: when the earlier note is due, or at the later note-on's own offset
/// when the two are closer than `delay`.
pub open spec fn released_before(r: Seq<TimedEvent>, ons: Seq<(u32, u8)>, note: u8, delay: nat, j: int) -> bool {
    let t0 = ons[j - 1].0 as int;
    let t1 = ons[j].0 as int;
            exists|k: int|
                1 <= k && k + 1 < r.len() && #[trigger] r[k] == note_off_at(
                    if t0 + delay < t1 {
                        t0 + delay
                    } else {
                        t1
                    },
                    note,
                ) && r[k - 1] == note_on_at(t0, note, ons[j - 1].1) && r[k + 1] == note_on_at(
                    t1,
                    note,
                    ons[j].1,
                ) && r[k].offset_in_block <= r[k + 1].offset_in_block && (t1 - t0 < delay
                    ==> r[k].offset_in_block == t1)
}

/// Closing a block only appends to a voice run.
proof fn lemma_close_prefix(v: (Seq<TimedEvent>, Option<nat>), note: u8, len: nat)
    ensures
        close_block(v, note, len).0.len() >= v.0.len(),
        close_block(v, note, len).0.take(v.0.len() as int) == v.0,
{
    let r = close_block(v, note, len).0;
    assert(r.take(v.0.len() as int) =~= v.0);
}

/// Reads the choke off the end of a run `vp` that starts `r`.
proof fn lemma_choke_in_prefix(
    r: Seq<TimedEvent>,
    vp: Seq<TimedEvent>,
    ons: Seq<(u32, u8)>,
    note: u8,
    delay: nat,
    j: int,
)
    requires
        0 < j < ons.len(),
        vp.len() >= 3,
        r.len() >= vp.len(),
        r.take(vp.len() as int) == vp,
        vp[vp.len() - 3] == note_on_at(ons[j - 1].0 as int, note, ons[j - 1].1),
        vp[vp.len() - 1] == note_on_at(ons[j].0 as int, note, ons[j].1),
        vp[vp.len() - 2] == note_off_at(
            if ons[j - 1].0 + delay < ons[j].0 {
                ons[j - 1].0 + delay
            } else {
                ons[j].0 as int
            },
            note,
        ),
        ons[j].0 - ons[j - 1].0 < delay ==> vp[vp.len() - 2].offset_in_block == ons[j].0,
        vp[vp.len() - 2].offset_in_block <= vp[vp.len() - 1].offset_in_block,
    ensures
        released_before(r, ons, note, delay, j),
{
    let k = vp.len() - 2;
    assert(r[k - 1] == vp[k - 1] && r[k] == vp[k] && r[k + 1] == vp[k + 1]);
}

/// The choke over any two consecutive note-ons of a closed voice run.
proof fn lemma_voice_choke(ons: Seq<(u32, u8)>, p: Option<nat>, note: u8, delay: nat, len: nat, j: int)
    requires
        0 < j < ons.len(),
        ons[j - 1].0 < ons[j].0,
    ensures
        released_before(close_block(voice(ons, p, note, delay), note, len).0, ons, note, delay, j),
{
    let pre = ons.take(j + 1);
    assert(pre[pre.len() - 2] == ons[j - 1] && pre[pre.len() - 1] == ons[j]);
    lemma_choke(pre, p, note, delay);
    lemma_voice_prefix(ons, j + 1, p, note, delay);
    let vv = voice(ons, p, note, delay);
    let vp = voice(pre, p, note, delay).0;
    lemma_close_prefix(vv, note, len);
    let r = close_block(vv, note, len).0;
    assert(r.take(vp.len() as int) =~= vp);
    lemma_choke_in_prefix(r, vp, ons, note, delay, j);
}

/// Choke over a track's events in a block: between any two consecutive
/// note-ons of the track, the earlier note is released exactly once, right
/// before the later one sounds and at no later offset; at the later note-on's
/// own offset when the two are closer than the note-off delay.
pub proof fn lemma_track_choke(
    tr: TrackView,
    p: Option<nat>,
    bar: int,
    start: int,
    len: nat,
    delay: nat,
    j: int,
)
    requires
        tr.enabled,
        len <= u32::MAX,
        0 < j < note_ons(tr.steps, bar, start, len).len(),
    ensures
        released_before(
            track_block(tr, p, bar, start, len, delay).0,
            note_ons(tr.steps, bar, start, len),
            tr.note,
            delay,
            j,
        ),
{
    let ons = note_ons(tr.steps, bar, start, len);
    assert(ons[j - 1].0 < ons[j].0) by {
        lemma_note_ons_facts(tr.steps, bar, start, len);
    }
    lemma_voice_choke(ons, p, tr.note, delay, len, j);
    assert(track_block(tr, p, bar, start, len, delay).0 == close_block(
        voice(ons, p, tr.note, delay),
        tr.note,
        len,
    ).0);
}

/// Events moved `by` samples later.
pub open spec fn shift_events(evs: Seq<TimedEvent>, by: int) -> Seq<TimedEvent> {
    evs.map_values(
        |e: TimedEvent| TimedEvent { offset_in_block: (e.offset_in_block + by) as u32, ..e },
    )
}

pub open spec fn shift_pending(p: Option<nat>, by: int) -> Option<nat> {
    match p {
        Some(q) => Some((q + by) as nat),
        None => None,
    }
}

proof fn lemma_shift_concat(a: Seq<TimedEvent>, b: Seq<TimedEvent>, by: int)
    ensures
        shift_events(a + b, by) == shift_events(a, by) + shift_events(b, by),
{
    assert(shift_events(a + b, by) =~= shift_events(a, by) + shift_events(b, by));
}

/// A voice run over note-ons that a block cut splits in two, the second part
/// non-empty, is the first part's run closed at the cut, followed by the
/// second part's run from what the first left pending.
proof fn lemma_voice_split(
    a: Seq<(u32, u8)>,
    b: Seq<(u32, u8)>,
    p: Option<nat>,
    note: u8,
    delay: nat,
    l1: nat,
    l2: nat,
)
    requires
        b.len() > 0,
        l1 + l2 <= u32::MAX,
        forall|i: int| 0 <= i < a.len() ==> (#[trigger] a[i]).0 < l1,
        forall|i: int| 0 <= i < b.len() ==> (#[trigger] b[i]).0 < l2,
    ensures
        ({
            let c = close_block(voice(a, p, note, delay), note, l1);
            let v = voice(b, c.1, note, delay);
            voice(a + shift_ons(b, l1 as int), p, note, delay) == (
                c.0 + shift_events(v.0, l1 as int),
                shift_pending(v.1, l1 as int),
            )
        }),
    decreases b.len(),
{
    let c = close_block(voice(a, p, note, delay), note, l1);
    let ab = a + shift_ons(b, l1 as int);
    let bl = b.drop_last();
    let t = b.last().0 as int;
    let vel = b.last().1;
    assert(ab.last() == ((t + l1) as u32, vel));
    assert(t < l2);
    if b.len() == 1 {
        assert(ab.drop_last() =~= a);
        assert(bl.len() == 0);
        let va = voice(a, p, note, delay);
        let vb = voice(b, c.1, note, delay);
        match va.1 {
            Some(q) => {
                if q < l1 {
                    assert(vb.0 =~= seq![note_on_at(t, note, vel)]);
                    assert(shift_events(vb.0, l1 as int) =~= seq![note_on_at((t + l1) as int, note, vel)]);
                    assert(voice(ab, p, note, delay).0 =~= c.0 + shift_events(vb.0, l1 as int));
                } else {
                    let m = if (q - l1) < t { (q - l1) as int } else { t };
                    assert(vb.0 =~= seq![note_off_at(m, note), note_on_at(t, note, vel)]);
                    assert(shift_events(vb.0, l1 as int) =~= seq![
                        note_off_at((m + l1) as int, note),
                        note_on_at((t + l1) as int, note, vel),
                    ]);
                    assert(voice(ab, p, note, delay).0 =~= c.0 + shift_events(vb.0, l1 as int));
                }
            },
            None => {
                assert(vb.0 =~= seq![note_on_at(t, note, vel)]);
                assert(shift_events(vb.0, l1 as int) =~= seq![note_on_at((t + l1) as int, note, vel)]);
                assert(voice(ab, p, note, delay).0 =~= c.0 + shift_events(vb.0, l1 as int));
            },
        }
    } else {
        assert(ab.drop_last() =~= a + shift_ons(bl, l1 as int));
        assert forall|i: int| 0 <= i < bl.len() implies (#[trigger] bl[i]).0 < l2 by {
            assert(bl[i] == b[i]);
        }
        lemma_voice_split(a, bl, p, note, delay, l1, l2);
        let vbl = voice(bl, c.1, note, delay);
        let q = (bl.last().0 + delay) as nat;
        assert(bl.drop_last().len() + 1 == bl.len());
        assert(vbl.1 == Some(q));
        let m = if q < t { q as int } else { t };
        let vb = voice(b, c.1, note, delay);
        assert(vb.0 == vbl.0 + seq![note_off_at(m, note)] + seq![note_on_at(t, note, vel)]);
        lemma_shift_concat(vbl.0 + seq![note_off_at(m, note)], seq![note_on_at(t, note, vel)], l1 as int);
        lemma_shift_concat(vbl.0, seq![note_off_at(m, note)], l1 as int);
        assert(shift_events(seq![note_off_at(m, note)], l1 as int) =~= seq![note_off_at((m + l1) as int, note)]);
        assert(shift_events(seq![note_on_at(t, note, vel)], l1 as int) =~= seq![note_on_at((t + l1) as int, note, vel)]);
        assert(voice(ab, p, note, delay).0 =~= c.0 + shift_events(vb.0, l1 as int));
    }
}

/// Playing a track over one block, or over the same samples cut into two
/// consecutive blocks, gives the same events at the same times and leaves
/// the same note-off pending.
pub proof fn lemma_track_block_split(
    tr: TrackView,
    p: Option<nat>,
    bar: int,
    start: int,
    l1: nat,
    l2: nat,
    delay: nat,
)
    requires
        0 < bar,
        0 <= start,
        l1 + l2 <= u32::MAX,
    ensures
        ({
            let first = track_block(tr, p, bar, start, l1, delay);
            let second = track_block(tr, first.1, bar, (start + l1) % bar, l2, delay);
            track_block(tr, p, bar, start, l1 + l2, delay) == (
                first.0 + shift_events(second.0, l1 as int),
                second.1,
            )
        }),
{
    let st2 = (start + l1) % bar;
    let (ons1, ons2) = if tr.enabled {
        (note_ons(tr.steps, bar, start, l1), note_ons(tr.steps, bar, st2, l2))
    } else {
        (Seq::<(u32, u8)>::empty(), Seq::<(u32, u8)>::empty())
    };
    let ons = if tr.enabled {
        note_ons(tr.steps, bar, start, l1 + l2)
    } else {
        seq![]
    };
    if tr.enabled {
        lemma_note_ons_split(tr.steps, bar, start, l1, l2);
        lemma_note_ons_facts(tr.steps, bar, start, l1);
        lemma_note_ons_facts(tr.steps, bar, st2, l2);
    } else {
        assert(ons =~= ons1 + shift_ons(ons2, l1 as int));
    }
    assert(ons == ons1 + shift_ons(ons2, l1 as int));
    let note = tr.note;
    let c = close_block(voice(ons1, p, note, delay), note, l1);
    let first = track_block(tr, p, bar, start, l1, delay);
    assert(first == c);
    if ons2.len() > 0 {
        lemma_voice_split(ons1, ons2, p, note, delay, l1, l2);
        let v = voice(ons2, c.1, note, delay);
        assert(ons2.drop_last().len() + 1 == ons2.len());
        let q = (ons2.last().0 + delay) as nat;
        assert(v.1 == Some(q));
        if q < l2 {
            lemma_shift_concat(v.0, seq![note_off_at(q as int, note)], l1 as int);
            assert(shift_events(seq![note_off_at(q as int, note)], l1 as int) =~= seq![
                note_off_at((q + l1) as int, note),
            ]);
            assert(c.0 + shift_events(v.0, l1 as int) + seq![note_off_at((q + l1) as int, note)] =~= c.0
                + shift_events(v.0.push(note_off_at(q as int, note)), l1 as int));
        }
    } else {
        assert(ons =~= ons1);
        assert(shift_events(Seq::<TimedEvent>::empty(), l1 as int) =~= Seq::<TimedEvent>::empty());
        let va = voice(ons1, p, note, delay);
        match va.1 {
            Some(q) => {
                if q >= l1 && q < l1 + l2 {
                    assert(shift_events(seq![note_off_at((q - l1) as int, note)], l1 as int) =~= seq![
                        note_off_at(q as int, note),
                    ]);
                    assert(va.0.push(note_off_at(q as int, note)) =~= va.0 + shift_events(
                        seq![note_off_at((q - l1) as int, note)],
                        l1 as int,
                    ));
                    assert(Seq::<TimedEvent>::empty().push(note_off_at((q - l1) as int, note)) =~= seq![
                        note_off_at((q - l1) as int, note),
                    ]);
                } else {
                    assert(c.0 + Seq::<TimedEvent>::empty() =~= c.0);
                }
            },
            None => {
                assert(c.0 + Seq::<TimedEvent>::empty() =~= c.0);
            },
        }
    }
}

/// Every event of a voice run whose note-ons lie inside a block lies inside it too.
pub proof fn lemma_voice_in_block(ons: Seq<(u32, u8)>, p: Option<nat>, note: u8, delay: nat, len: nat)
    requires
        len <= u32::MAX,
        forall|i: int| 0 <= i < ons.len() ==> (#[trigger] ons[i]).0 < len,
    ensures
        forall|i: int|
            0 <= i < voice(ons, p, note, delay).0.len() ==> (#[trigger] voice(
                ons,
                p,
                note,
                delay,
            ).0[i]).offset_in_block < len,
    decreases ons.len(),
{
    if ons.len() > 0 {
        let bl = ons.drop_last();
        assert forall|i: int| 0 <= i < bl.len() implies (#[trigger] bl[i]).0 < len by {
            assert(bl[i] == ons[i]);
        }
        lemma_voice_in_block(bl, p, note, delay, len);
        assert(ons.last().0 < len);
    }
}

/// Every event a track plays in a block lies inside the block.
pub proof fn lemma_track_block_in_block(
    tr: TrackView,
    p: Option<nat>,
    bar: int,
    start: int,
    len: nat,
    delay: nat,
)
    requires
        len <= u32::MAX,
    ensures
        forall|i: int|
            0 <= i < track_block(tr, p, bar, start, len, delay).0.len() ==> (#[trigger] track_block(
                tr,
                p,
                bar,
                start,
                len,
                delay,
            ).0[i]).offset_in_block < len,
{
    let ons = if tr.enabled {
        note_ons(tr.steps, bar, start, len)
    } else {
        seq![]
    };
    if tr.enabled {
        lemma_note_ons_facts(tr.steps, bar, start, len);
    }
    lemma_voice_in_block(ons, p, tr.note, delay, len);
}

/// Offsets never decrease along the sequence.
pub open spec fn in_time_order(evs: Seq<TimedEvent>) -> bool {
    forall|i: int, j: int|
        0 <= i < j < evs.len() ==> (#[trigger] evs[i]).offset_in_block <= (#[trigger] evs[j]).offset_in_block
}

/// A voice run over note-ons in strictly increasing order is in time order,
/// ends with the last note-on, and leaves its note-off due `delay` after it.
proof fn lemma_voice_in_time_order(ons: Seq<(u32, u8)>, p: Option<nat>, note: u8, delay: nat)
    requires
        forall|i: int, j: int| 0 <= i < j < ons.len() ==> (#[trigger] ons[i]).0 < (#[trigger] ons[j]).0,
    ensures
        in_time_order(voice(ons, p, note, delay).0),
        ons.len() > 0 ==> voice(ons, p, note, delay).1 == Some((ons.last().0 + delay) as nat),
        ons.len() > 0 ==> forall|i: int|
            0 <= i < voice(ons, p, note, delay).0.len() ==> (#[trigger] voice(
                ons,
                p,
                note,
                delay,
            ).0[i]).offset_in_block <= ons.last().0,
        ons.len() == 0 ==> voice(ons, p, note, delay).0.len() == 0,
    decreases ons.len(),
{
    if ons.len() > 0 {
        let bl = ons.drop_last();
        assert forall|i: int, j: int| 0 <= i < j < bl.len() implies (#[trigger] bl[i]).0 < (
        #[trigger] bl[j]).0 by {
            assert(bl[i] == ons[i] && bl[j] == ons[j]);
        }
        lemma_voice_in_time_order(bl, p, note, delay);
        if bl.len() > 0 {
            assert(bl.last() == ons[ons.len() - 2]);
        }
    }
}

/// A track's events in a block are in time order.
pub proof fn lemma_track_block_in_time_order(
    tr: TrackView,
    p: Option<nat>,
    bar: int,
    start: int,
    len: nat,
    delay: nat,
)
    requires
        len <= u32::MAX,
    ensures
        in_time_order(track_block(tr, p, bar, start, len, delay).0),
{
    let ons = if tr.enabled {
        note_ons(tr.steps, bar, start, len)
    } else {
        seq![]
    };
    if tr.enabled {
        lemma_note_ons_facts(tr.steps, bar, start, len);
    }
    lemma_voice_in_time_order(ons, p, tr.note, delay);
    lemma_voice_in_block(ons, p, tr.note, delay, len);
}

/// What a track holds, as plain values.
pub struct TrackView {
    pub steps: Seq<u8>,
    pub note: u8,
    pub enabled: bool,
}

/// The events of one track over a block of `len` samples starting at bar position
/// `start`, and the note-off it leaves pending. A disabled track plays no note-on
/// but still releases its sounding note.
pub open spec fn track_block(
    tr: TrackView,
    pending: Option<nat>,
    bar: int,
    start: int,
    len: nat,
    delay: nat,
) -> (Seq<
    TimedEvent,
>, Option<nat>) {
    let ons = if tr.enabled {
        note_ons(tr.steps, bar, start, len)
    } else {
        seq![]
    };
    close_block(voice(ons, pending, tr.note, delay), tr.note, len)
}

/// The pending note-off of a voice, in samples from the start of the next block.
pub open spec fn pending_view(p: Option<u32>) -> Option<nat> {
    match p {
        Some(q) => Some(q as nat),
        None => None,
    }
}

/// A pattern bound to playback.
#[derive(Debug)]
pub struct Track {
    pattern: Pattern,
    enabled: bool,
}

impl View for Track {
    type V = TrackView;

    closed spec fn view(&self) -> TrackView {
        TrackView {
            steps: self.pattern@,
            note: self.pattern.spec_note(),
            enabled: self.enabled,
        }
    }
}

impl Track {
    pub fn new(pattern: Pattern) -> (r: Track)
        ensures
            r@.steps == pattern@,
            r@.note == pattern.spec_note(),
            r@.enabled,
    {
        Track { pattern, enabled: true }
    }

    pub fn pattern(&self) -> (r: &Pattern)
        ensures
            r@ == self@.steps,
            r.spec_note() == self@.note,
    {
        &self.pattern
    }

    pub fn is_enabled(&self) -> (r: bool)
        ensures
            r == self@.enabled,
    {
        self.enabled
    }

    pub fn set_enabled(&mut self, enabled: bool)
        ensures
            final(self)@ == (TrackView { enabled, ..old(self)@ }),
    {
        self.enabled = enabled;
    }

    /// Plays one block, given the note-off that was pending at its start:
    /// puts the events in time order in `out`, and returns the note-off left
    /// pending. `ons` and `out` are scratch space, cleared before use.
    pub fn play_block(
        &self,
        pending_off: Option<u32>,
        bar: u64,
        start: u64,
        len: u32,
        delay: u32,
        ons: &mut Vec<(u32, u8)>,
        out: &mut Vec<TimedEvent>,
    ) -> (r: Option<u32>)
        requires
            grid_fits(bar as int, self@.steps.len() as int),
            start < bar,
        ensures
            (final(out)@, pending_view(r)) == track_block(
                self@,
                pending_view(pending_off),
                bar as int,
                start as int,
                len as nat,
                delay as nat,
            ),
    {
        if self.enabled {
            scan_note_ons(&self.pattern, bar, start, len, ons);
        } else {
            ons.clear();
        }
        let note = self.pattern.note();

        proof {
            if self.enabled {
                lemma_note_ons_facts(self.pattern@, bar as int, start as int, len as nat);
            }
        }
        out.clear();
        let mut pending: Option<u64> = match pending_off {
            Some(q) => Some(q as u64),
            None => None,
        };
        let mut i: usize = 0;
        while i < ons.len()
            invariant
                i <= ons@.len(),
                ons@.len() <= len,
                forall|k: int| 0 <= k < ons@.len() ==> #[trigger] ons@[k].0 < len,
                match pending {
                    Some(q) => q <= u32::MAX || q < len + delay,
                    None => true,
                },
                (out@, match pending {
                    Some(q) => Some(q as nat),
                    None => None,
                }) == voice(ons@.take(i as int), pending_view(pending_off), note, delay as nat),
            decreases ons@.len() - i,
        {
            let (t, v) = ons[i];
            match pending {
                Some(q) => {
                    let at: u32 = if q < t as u64 {
                        q as u32
                    } else {
                        t
                    };
                    out.push(TimedEvent { offset_in_block: at, note, velocity: 0, kind: EventKind::NoteOff });
                },
                None => {},
            }
            out.push(TimedEvent { offset_in_block: t, note, velocity: v, kind: EventKind::NoteOn });
            pending = Some(t as u64 + delay as u64);
            proof {
                assert(ons@.take(i + 1).drop_last() == ons@.take(i as int));
            }
            i += 1;
        }
        proof {
            assert(ons@.take(ons@.len() as int) == ons@);
        }
        let next = match pending {
            Some(q) => if q < len as u64 {
                out.push(TimedEvent { offset_in_block: q as u32, note, velocity: 0, kind: EventKind::NoteOff });
                None
            } else {
                Some((q - len as u64) as u32)
            },
            None => None,
        };
        next
    }
}

} // verus!
