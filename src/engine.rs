use vstd::prelude::*;
use vstd::arithmetic::div_mod::{lemma_add_mod_noop, lemma_mod_pos_bound, lemma_small_mod};
use crate::schedule::grid_fits;
use crate::track::{
    pending_view,
    shift_events,
    in_time_order,
    track_block,
    lemma_track_block_in_time_order,
    TimedEvent,
    Track,
    TrackView,
    lemma_track_block_in_block,
    lemma_track_block_split,
};
use crate::transport::{ConfigError, Transport};

verus! {

/// Play-head position within the current bar, in samples.
#[derive(Debug, Clone, Copy, PartialEq, Eq, Structural)]
pub struct Cursor {
    pub position_in_bar: u64,
}

impl Cursor {
    pub fn new() -> (r: Cursor)
        ensures
            r.position_in_bar == 0,
    {
        Cursor { position_in_bar: 0 }
    }

    /// Moves the play-head `len` samples on, wrapping at the end of the bar.
    pub fn advance(&mut self, bar: u64, len: u32)
        requires
            0 < bar <= u32::MAX,
            old(self).position_in_bar < bar,
        ensures
            final(self).position_in_bar == (old(self).position_in_bar + len) % (bar as int),
            final(self).position_in_bar < bar,
    {
        self.position_in_bar = (self.position_in_bar + len as u64) % bar;
    }
}

/// Merges two event sequences, each in time order, into one in time order;
/// at equal offsets the events of `a` come first.
pub open spec fn merge(a: Seq<TimedEvent>, b: Seq<TimedEvent>) -> Seq<TimedEvent>
    decreases a.len() + b.len(),
{
    if a.len() == 0 {
        b
    } else if b.len() == 0 {
        a
    } else if a[0].offset_in_block <= b[0].offset_in_block {
        seq![a[0]] + merge(a.drop_first(), b)
    } else {
        seq![b[0]] + merge(a, b.drop_first())
    }
}

/// The events of all tracks over one block, merged in time order with earlier
/// tracks first at equal offsets, and the note-off each track leaves pending.
pub open spec fn all_tracks(
    tracks: Seq<TrackView>,
    pending: Seq<Option<nat>>,
    bar: int,
    start: int,
    len: nat,
    delay: nat,
) -> (Seq<TimedEvent>, Seq<Option<nat>>)
    decreases tracks.len(),
{
    if tracks.len() == 0 {
        (seq![], seq![])
    } else {
        let prev = all_tracks(tracks.drop_last(), pending.drop_last(), bar, start, len, delay);
        let tb = track_block(tracks.last(), pending.last(), bar, start, len, delay);
        (merge(prev.0, tb.0), prev.1.push(tb.1))
    }
}

pub open spec fn track_views(tracks: Seq<Track>) -> Seq<TrackView> {
    tracks.map_values(|t: Track| t@)
}

/// All offsets lie below `len`.
pub open spec fn all_in_block(evs: Seq<TimedEvent>, len: nat) -> bool {
    forall|i: int| 0 <= i < evs.len() ==> (#[trigger] evs[i]).offset_in_block < len
}

proof fn lemma_merge_in_block(a: Seq<TimedEvent>, b: Seq<TimedEvent>, len: nat)
    requires
        all_in_block(a, len),
        all_in_block(b, len),
    ensures
        all_in_block(merge(a, b), len),
        merge(a, b).len() == a.len() + b.len(),
    decreases a.len() + b.len(),
{
    if a.len() > 0 && b.len() > 0 {
        if a[0].offset_in_block <= b[0].offset_in_block {
            lemma_merge_in_block(a.drop_first(), b, len);
        } else {
            lemma_merge_in_block(a, b.drop_first(), len);
        }
    }
}

proof fn lemma_merge_empty_right(a: Seq<TimedEvent>)
    ensures
        merge(a, Seq::<TimedEvent>::empty()) == a,
{
}

/// Moving both inputs of a merge by the same amount moves its result.
proof fn lemma_merge_shift(a: Seq<TimedEvent>, b: Seq<TimedEvent>, by: nat, len: nat)
    requires
        by + len <= u32::MAX,
        all_in_block(a, len),
        all_in_block(b, len),
    ensures
        merge(shift_events(a, by as int), shift_events(b, by as int)) == shift_events(
            merge(a, b),
            by as int,
        ),
    decreases a.len() + b.len(),
{
    let sa = shift_events(a, by as int);
    let sb = shift_events(b, by as int);
    if a.len() == 0 {
        assert(sa.len() == 0);
    } else if b.len() == 0 {
        assert(sb.len() == 0);
    } else {
        if a[0].offset_in_block <= b[0].offset_in_block {
            assert(sa.drop_first() =~= shift_events(a.drop_first(), by as int));
            lemma_merge_shift(a.drop_first(), b, by, len);
            assert(shift_events(seq![a[0]] + merge(a.drop_first(), b), by as int) =~= seq![sa[0]]
                + shift_events(merge(a.drop_first(), b), by as int));
        } else {
            assert(sb.drop_first() =~= shift_events(b.drop_first(), by as int));
            lemma_merge_shift(a, b.drop_first(), by, len);
            assert(shift_events(seq![b[0]] + merge(a, b.drop_first()), by as int) =~= seq![sb[0]]
                + shift_events(merge(a, b.drop_first()), by as int));
        }
    }
}

/// Merging two sequences that are each cut at the same time is merging the
/// parts before the cut, then the parts after it.
proof fn lemma_merge_split(
    a1: Seq<TimedEvent>,
    a2: Seq<TimedEvent>,
    b1: Seq<TimedEvent>,
    b2: Seq<TimedEvent>,
    l1: nat,
    l2: nat,
)
    requires
        l1 + l2 <= u32::MAX,
        all_in_block(a1, l1),
        all_in_block(b1, l1),
        all_in_block(a2, l2),
        all_in_block(b2, l2),
    ensures
        merge(a1 + shift_events(a2, l1 as int), b1 + shift_events(b2, l1 as int)) == merge(a1, b1)
            + shift_events(merge(a2, b2), l1 as int),
    decreases a1.len() + b1.len(),
{
    let sa2 = shift_events(a2, l1 as int);
    let sb2 = shift_events(b2, l1 as int);
    let x = a1 + sa2;
    let y = b1 + sb2;
    if a1.len() == 0 && b1.len() == 0 {
        assert(x =~= sa2);
        assert(y =~= sb2);
        lemma_merge_shift(a2, b2, l1, l2);
        assert(merge(a1, b1) + shift_events(merge(a2, b2), l1 as int) =~= shift_events(
            merge(a2, b2),
            l1 as int,
        ));
    } else if a1.len() > 0 && (b1.len() == 0 || a1[0].offset_in_block <= b1[0].offset_in_block) {
        if b1.len() == 0 && sb2.len() == 0 {
            assert(y =~= Seq::<TimedEvent>::empty());
            lemma_merge_empty_right(x);
            lemma_merge_empty_right(a1);
            lemma_merge_empty_right(a2);
            assert(b2.len() == 0);
            assert(merge(a2, b2) == a2);
        } else {
            assert(x[0] == a1[0]);
            assert(y[0].offset_in_block >= a1[0].offset_in_block);
            assert(x.drop_first() =~= a1.drop_first() + sa2);
            lemma_merge_split(a1.drop_first(), a2, b1, b2, l1, l2);
            if b1.len() == 0 {
                lemma_merge_empty_right(a1);
                lemma_merge_empty_right(a1.drop_first());
                assert(a1 =~= seq![a1[0]] + a1.drop_first());
            }
            assert(merge(a1, b1) == seq![a1[0]] + merge(a1.drop_first(), b1));
            assert(merge(x, y) == seq![x[0]] + merge(x.drop_first(), y));
            assert(merge(x, y) =~= merge(a1, b1) + shift_events(merge(a2, b2), l1 as int));
        }
    } else {
        if a1.len() == 0 && sa2.len() == 0 {
            assert(x =~= Seq::<TimedEvent>::empty());
            assert(a2.len() == 0);
            assert(merge(a2, b2) == b2);
            assert(merge(a1, b1) == b1);
        } else {
            assert(y[0] == b1[0]);
            assert(x[0].offset_in_block > b1[0].offset_in_block);
            assert(y.drop_first() =~= b1.drop_first() + sb2);
            lemma_merge_split(a1, a2, b1.drop_first(), b2, l1, l2);
            if a1.len() == 0 {
                assert(merge(a1, b1) == b1);
                assert(merge(a1, b1.drop_first()) == b1.drop_first());
                assert(b1 =~= seq![b1[0]] + b1.drop_first());
            }
            assert(merge(a1, b1) == seq![b1[0]] + merge(a1, b1.drop_first()));
            assert(merge(x, y) == seq![y[0]] + merge(x, y.drop_first()));
            assert(merge(x, y) =~= merge(a1, b1) + shift_events(merge(a2, b2), l1 as int));
        }
    }
}

proof fn lemma_all_tracks_in_block(
    tracks: Seq<TrackView>,
    pending: Seq<Option<nat>>,
    bar: int,
    start: int,
    len: nat,
    delay: nat,
)
    requires
        len <= u32::MAX,
    ensures
        all_in_block(all_tracks(tracks, pending, bar, start, len, delay).0, len),
        all_tracks(tracks, pending, bar, start, len, delay).1.len() == tracks.len(),
    decreases tracks.len(),
{
    if tracks.len() > 0 {
        lemma_all_tracks_in_block(tracks.drop_last(), pending.drop_last(), bar, start, len, delay);
        lemma_track_block_in_block(tracks.last(), pending.last(), bar, start, len, delay);
        let prev = all_tracks(tracks.drop_last(), pending.drop_last(), bar, start, len, delay);
        let tb = track_block(tracks.last(), pending.last(), bar, start, len, delay);
        lemma_merge_in_block(prev.0, tb.0, len);
    }
}

/// All tracks over one block, or over the same samples cut into two
/// consecutive blocks, give the same events at the same times and leave the
/// same note-offs pending.
proof fn lemma_all_tracks_split(
    tracks: Seq<TrackView>,
    pending: Seq<Option<nat>>,
    bar: int,
    start: int,
    l1: nat,
    l2: nat,
    delay: nat,
)
    requires
        0 < bar,
        0 <= start,
        l1 + l2 <= u32::MAX,
        pending.len() == tracks.len(),
    ensures
        ({
            let first = all_tracks(tracks, pending, bar, start, l1, delay);
            let second = all_tracks(tracks, first.1, bar, (start + l1) % bar, l2, delay);
            all_tracks(tracks, pending, bar, start, l1 + l2, delay) == (
                first.0 + shift_events(second.0, l1 as int),
                second.1,
            )
        }),
    decreases tracks.len(),
{
    let st2 = (start + l1) % bar;
    let first = all_tracks(tracks, pending, bar, start, l1, delay);
    if tracks.len() == 0 {
        assert(shift_events(Seq::<TimedEvent>::empty(), l1 as int) =~= Seq::<TimedEvent>::empty());
        assert(first.0 + Seq::<TimedEvent>::empty() =~= first.0);
    } else {
        let tl = tracks.drop_last();
        let pl = pending.drop_last();
        lemma_all_tracks_split(tl, pl, bar, start, l1, l2, delay);
        let f1 = all_tracks(tl, pl, bar, start, l1, delay);
        let tb1 = track_block(tracks.last(), pending.last(), bar, start, l1, delay);
        lemma_all_tracks_in_block(tl, pl, bar, start, l1, delay);
        assert(first.1.drop_last() =~= f1.1);
        assert(first.1.last() == tb1.1);
        let s1 = all_tracks(tl, f1.1, bar, st2, l2, delay);
        let tb2 = track_block(tracks.last(), tb1.1, bar, st2, l2, delay);
        lemma_track_block_split(tracks.last(), pending.last(), bar, start, l1, l2, delay);
        lemma_all_tracks_in_block(tl, f1.1, bar, st2, l2, delay);
        lemma_track_block_in_block(tracks.last(), pending.last(), bar, start, l1, delay);
        lemma_track_block_in_block(tracks.last(), tb1.1, bar, st2, l2, delay);
        lemma_merge_split(f1.0, s1.0, tb1.0, tb2.0, l1, l2);
    }
}

/// Cutting a block in two changes nothing: as long as no event is dropped,
/// the events of two consecutive blocks, the second moved by the first's
/// length, are the events of one block as long as both, and the engine ends
/// in the same state.
pub proof fn lemma_blocks_reassemble(e: EngineView, l1: nat, l2: nat)
    requires
        engine_wf(e),
        l1 + l2 <= u32::MAX,
        all_tracks(
            e.tracks,
            e.pending,
            e.samples_per_bar as int,
            e.position as int,
            l1 + l2,
            e.note_off_delay,
        ).0.len() <= e.capacity,
    ensures
        ({
            let e1 = process_block(e, l1);
            let e2 = process_block(e1, l2);
            let whole = process_block(e, l1 + l2);
            &&& whole.events == e1.events + shift_events(e2.events, l1 as int)
            &&& whole == (EngineView { events: whole.events, ..e2 })
        }),
{
    let bar = e.samples_per_bar as int;
    let start = e.position as int;
    lemma_all_tracks_split(e.tracks, e.pending, bar, start, l1, l2, e.note_off_delay);
    let first = all_tracks(e.tracks, e.pending, bar, start, l1, e.note_off_delay);
    let second = all_tracks(e.tracks, first.1, bar, (start + l1) % bar, l2, e.note_off_delay);
    let e1 = process_block(e, l1);
    let e2 = process_block(e1, l2);
    assert(first.0.take(first.0.len() as int) =~= first.0);
    assert(second.0.take(second.0.len() as int) =~= second.0);
    let whole = all_tracks(e.tracks, e.pending, bar, start, l1 + l2, e.note_off_delay);
    assert(whole.0.take(whole.0.len() as int) =~= whole.0);
    lemma_add_mod_noop(start + l1, l2 as int, bar);
    lemma_mod_pos_bound(start + l1, bar);
    lemma_small_mod(((start + l1) % bar) as nat, bar as nat);
    lemma_add_mod_noop((start + l1) % bar, l2 as int, bar);
    lemma_mod_pos_bound(l2 as int, bar);
    lemma_small_mod((l2 as int % bar) as nat, bar as nat);
    assert((start + l1 + l2) % bar == ((start + l1) % bar + l2) % bar);
}

proof fn lemma_merge_lower_bound(a: Seq<TimedEvent>, b: Seq<TimedEvent>, m: int)
    requires
        forall|i: int| 0 <= i < a.len() ==> m <= (#[trigger] a[i]).offset_in_block,
        forall|i: int| 0 <= i < b.len() ==> m <= (#[trigger] b[i]).offset_in_block,
    ensures
        forall|i: int| 0 <= i < merge(a, b).len() ==> m <= (#[trigger] merge(a, b)[i]).offset_in_block,
    decreases a.len() + b.len(),
{
    if a.len() > 0 && b.len() > 0 {
        if a[0].offset_in_block <= b[0].offset_in_block {
            lemma_merge_lower_bound(a.drop_first(), b, m);
        } else {
            lemma_merge_lower_bound(a, b.drop_first(), m);
        }
    }
}

proof fn lemma_merge_in_time_order(a: Seq<TimedEvent>, b: Seq<TimedEvent>)
    requires
        in_time_order(a),
        in_time_order(b),
    ensures
        in_time_order(merge(a, b)),
    decreases a.len() + b.len(),
{
    if a.len() > 0 && b.len() > 0 {
        if a[0].offset_in_block <= b[0].offset_in_block {
            let r = a.drop_first();
            lemma_merge_in_time_order(r, b);
            lemma_merge_lower_bound(r, b, a[0].offset_in_block as int);
            let m = merge(r, b);
            assert forall|i: int, j: int| 0 <= i < j < (seq![a[0]] + m).len() implies (#[trigger] (
            seq![a[0]] + m)[i]).offset_in_block <= (#[trigger] (seq![a[0]] + m)[j]).offset_in_block by {
                if i > 0 {
                    assert((seq![a[0]] + m)[i] == m[i - 1]);
                }
                assert((seq![a[0]] + m)[j] == m[j - 1]);
            }
        } else {
            let r = b.drop_first();
            lemma_merge_in_time_order(a, r);
            lemma_merge_lower_bound(a, r, b[0].offset_in_block as int);
            let m = merge(a, r);
            assert forall|i: int, j: int| 0 <= i < j < (seq![b[0]] + m).len() implies (#[trigger] (
            seq![b[0]] + m)[i]).offset_in_block <= (#[trigger] (seq![b[0]] + m)[j]).offset_in_block by {
                if i > 0 {
                    assert((seq![b[0]] + m)[i] == m[i - 1]);
                }
                assert((seq![b[0]] + m)[j] == m[j - 1]);
            }
        }
    }
}

proof fn lemma_all_tracks_in_time_order(
    tracks: Seq<TrackView>,
    pending: Seq<Option<nat>>,
    bar: int,
    start: int,
    len: nat,
    delay: nat,
)
    requires
        len <= u32::MAX,
    ensures
        in_time_order(all_tracks(tracks, pending, bar, start, len, delay).0),
    decreases tracks.len(),
{
    if tracks.len() > 0 {
        lemma_all_tracks_in_time_order(tracks.drop_last(), pending.drop_last(), bar, start, len, delay);
        lemma_track_block_in_time_order(tracks.last(), pending.last(), bar, start, len, delay);
        let prev = all_tracks(tracks.drop_last(), pending.drop_last(), bar, start, len, delay);
        let tb = track_block(tracks.last(), pending.last(), bar, start, len, delay);
        lemma_merge_in_time_order(prev.0, tb.0);
    }
}

/// The events of a block lie inside it, in time order, and the buffer never
/// holds more than its capacity.
pub proof fn lemma_block_in_time_order(e: EngineView, len: nat)
    requires
        len <= u32::MAX,
    ensures
        in_time_order(process_block(e, len).events),
        all_in_block(process_block(e, len).events, len),
        process_block(e, len).events.len() <= e.capacity,
{
    let r = all_tracks(
        e.tracks,
        e.pending,
        e.samples_per_bar as int,
        e.position as int,
        len,
        e.note_off_delay,
    );
    lemma_all_tracks_in_time_order(
        e.tracks,
        e.pending,
        e.samples_per_bar as int,
        e.position as int,
        len,
        e.note_off_delay,
    );
    lemma_all_tracks_in_block(
        e.tracks,
        e.pending,
        e.samples_per_bar as int,
        e.position as int,
        len,
        e.note_off_delay,
    );
    let ev = process_block(e, len).events;
    assert forall|i: int, j: int| 0 <= i < j < ev.len() implies (#[trigger] ev[i]).offset_in_block
        <= (#[trigger] ev[j]).offset_in_block by {
        assert(ev[i] == r.0[i] && ev[j] == r.0[j]);
    }
    assert forall|i: int| 0 <= i < ev.len() implies (#[trigger] ev[i]).offset_in_block < len by {
        assert(ev[i] == r.0[i]);
    }
}

/// What an engine holds, as plain values.
pub struct EngineView {
    pub tracks: Seq<TrackView>,
    pub pending: Seq<Option<nat>>,
    pub samples_per_bar: nat,
    pub position: nat,
    pub note_off_delay: nat,
    pub capacity: nat,
    pub dropped: nat,
    pub events: Seq<TimedEvent>,
}

/// The engine after processing one block of `len` samples: the first
/// `capacity` events of the block, the rest counted as dropped (the count
/// saturates), the new pending note-offs, and the play-head moved on.
pub open spec fn process_block(e: EngineView, len: nat) -> EngineView {
    let r = all_tracks(
        e.tracks,
        e.pending,
        e.samples_per_bar as int,
        e.position as int,
        len,
        e.note_off_delay,
    );
    let kept = if r.0.len() <= e.capacity {
        r.0.len()
    } else {
        e.capacity
    };
    let dropped = e.dropped + (r.0.len() - kept);
    EngineView {
        pending: r.1,
        position: ((e.position + len) as int % (e.samples_per_bar as int)) as nat,
        dropped: if dropped <= u64::MAX {
            dropped as nat
        } else {
            u64::MAX as nat
        },
        events: r.0.take(kept as int),
        ..e
    }
}

/// Processing depends on nothing but the engine's values and the block
/// length: two engines that hold the same values give the same events and
/// end in the same state, block after block.
pub proof fn lemma_deterministic(a: EngineView, b: EngineView, len: nat)
    requires
        a == b,
    ensures
        process_block(a, len) == process_block(b, len),
{
}

pub open spec fn config_error(
    transport: Transport,
    tracks: Seq<TrackView>,
    note_off_delay: u32,
) -> Option<ConfigError> {
    if note_off_delay == 0 {
        Some(ConfigError::InvalidNoteOffDelay)
    } else if exists|i: int|
        0 <= i < tracks.len() && #[trigger] tracks[i].steps.len() > transport.samples_per_bar {
        Some(ConfigError::PatternTooFine)
    } else {
        None
    }
}

/// The scheduling engine: a transport, a play-head, tracks in priority order,
/// their pending note-offs, and the event buffer of the last block.
#[derive(Debug)]
pub struct Engine {
    transport: Transport,
    cursor: Cursor,
    tracks: Vec<Track>,
    pending_offs: Vec<Option<u32>>,
    note_off_delay: u32,
    capacity: usize,
    dropped: u64,
    events: Vec<TimedEvent>,
    // scratch space of `process`, reused from block to block
    ons_buf: Vec<(u32, u8)>,
    track_buf: Vec<TimedEvent>,
    merged: Vec<TimedEvent>,
    merge_tmp: Vec<TimedEvent>,
}

impl View for Engine {
    type V = EngineView;

    closed spec fn view(&self) -> EngineView {
        EngineView {
            tracks: track_views(self.tracks@),
            pending: self.pending_offs@.map_values(|p: Option<u32>| pending_view(p)),
            samples_per_bar: self.transport.samples_per_bar as nat,
            position: self.cursor.position_in_bar as nat,
            note_off_delay: self.note_off_delay as nat,
            capacity: self.capacity as nat,
            dropped: self.dropped as nat,
            events: self.events@,
        }
    }
}

/// Every track's grid fits the bar, and each track has one pending slot.
pub open spec fn engine_wf(e: EngineView) -> bool {
    &&& 0 < e.samples_per_bar <= u32::MAX
    &&& e.position < e.samples_per_bar
    &&& e.pending.len() == e.tracks.len()
    &&& forall|i: int|
        0 <= i < e.tracks.len() ==> grid_fits(
            e.samples_per_bar as int,
            #[trigger] e.tracks[i].steps.len() as int,
        )
    &&& e.note_off_delay <= u32::MAX
    &&& forall|i: int|
        0 <= i < e.pending.len() ==> match #[trigger] e.pending[i] {
            Some(q) => q <= u32::MAX,
            None => true,
        }
}

/// Merges two event sequences as `merge` states.
/// `out` is cleared first, so its storage is reused.
pub fn merge_events(a: &Vec<TimedEvent>, b: &Vec<TimedEvent>, out: &mut Vec<TimedEvent>)
    ensures
        final(out)@ == merge(a@, b@),
{
    out.clear();
    let mut i: usize = 0;
    let mut j: usize = 0;
    proof {
        assert(a@.subrange(0, a@.len() as int) =~= a@);
        assert(b@.subrange(0, b@.len() as int) =~= b@);
        assert(out@ + merge(a@, b@) =~= merge(a@, b@));
    }
    while i < a.len() || j < b.len()
        invariant
            i <= a@.len(),
            j <= b@.len(),
            out@ + merge(a@.subrange(i as int, a@.len() as int), b@.subrange(j as int, b@.len() as int))
                == merge(a@, b@),
        decreases a@.len() - i + b@.len() - j,
    {
        let ghost ra = a@.subrange(i as int, a@.len() as int);
        let ghost rb = b@.subrange(j as int, b@.len() as int);
        if j == b.len() || (i < a.len() && a[i].offset_in_block <= b[j].offset_in_block) {
            proof {
                let rest = a@.subrange(i + 1, a@.len() as int);
                assert(ra.drop_first() =~= rest);
                if rb.len() == 0 {
                    assert(merge(rest, rb) == rest);
                    assert(ra =~= seq![ra[0]] + rest);
                }
                assert(merge(ra, rb) == seq![ra[0]] + merge(rest, rb));
                assert(out@.push(a@[i as int]) + merge(rest, rb) =~= out@ + merge(ra, rb));
            }
            out.push(a[i]);
            i += 1;
        } else {
            proof {
                let rest = b@.subrange(j + 1, b@.len() as int);
                assert(rb.drop_first() =~= rest);
                assert(merge(ra, rb) == seq![rb[0]] + merge(ra, rest));
                assert(out@.push(b@[j as int]) + merge(ra, rest) =~= out@ + merge(ra, rb));
            }
            out.push(b[j]);
            j += 1;
        }
    }
    proof {
        assert(a@.subrange(i as int, a@.len() as int) =~= Seq::<TimedEvent>::empty());
        assert(b@.subrange(j as int, b@.len() as int) =~= Seq::<TimedEvent>::empty());
        assert(out@ + Seq::<TimedEvent>::empty() =~= out@);
    }
}

impl Engine {
    pub closed spec fn wf(&self) -> bool {
        engine_wf(self@)
    }

    /// An engine over `tracks`, in priority order, with its play-head at the
    /// start of the bar, no note sounding, and room for `capacity` events a block.
    pub fn new(transport: Transport, tracks: Vec<Track>, note_off_delay: u32, capacity: usize) -> (r:
        Result<Engine, ConfigError>)
        requires
            transport.wf(),
        ensures
            match config_error(transport, track_views(tracks@), note_off_delay) {
                Some(e) => r == Err::<Engine, ConfigError>(e),
                None => r is Ok && r->Ok_0.wf() && r->Ok_0@ == (EngineView {
                    tracks: track_views(tracks@),
                    pending: Seq::new(tracks@.len(), |i: int| None),
                    samples_per_bar: transport.samples_per_bar as nat,
                    position: 0,
                    note_off_delay: note_off_delay as nat,
                    capacity: capacity as nat,
                    dropped: 0,
                    events: seq![],
                }),
            },
    {
        if note_off_delay == 0 {
            return Err(ConfigError::InvalidNoteOffDelay);
        }
        let mut i: usize = 0;
        while i < tracks.len()
            invariant
                note_off_delay != 0,
                i <= tracks@.len(),
                forall|k: int|
                    0 <= k < i ==> 0 < #[trigger] tracks@[k]@.steps.len() <= transport.samples_per_bar,
            decreases tracks@.len() - i,
        {
            if tracks[i].pattern().steps_per_bar() as u64 > transport.samples_per_bar {
                proof {
                    let views = track_views(tracks@);
                    assert(views[i as int].steps.len() > transport.samples_per_bar);
                    assert(exists|j: int|
                        0 <= j < views.len() && #[trigger] views[j].steps.len()
                            > transport.samples_per_bar);
                }
                return Err(ConfigError::PatternTooFine);
            }
            i += 1;
        }
        let mut pending_offs: Vec<Option<u32>> = Vec::new();
        let mut k: usize = 0;
        while k < tracks.len()
            invariant
                k <= tracks@.len(),
                pending_offs@ == Seq::new(k as nat, |i: int| None::<u32>),
            decreases tracks@.len() - k,
        {
            pending_offs.push(None);
            k += 1;
            proof {
                assert(pending_offs@ =~= Seq::new(k as nat, |i: int| None::<u32>));
            }
        }
        let e = Engine {
            transport,
            cursor: Cursor::new(),
            tracks,
            pending_offs,
            note_off_delay,
            capacity,
            dropped: 0,
            events: Vec::with_capacity(capacity),
            ons_buf: Vec::new(),
            track_buf: Vec::new(),
            merged: Vec::with_capacity(capacity),
            merge_tmp: Vec::with_capacity(capacity),
        };
        proof {
            assert(e@.pending =~= Seq::new(e.tracks@.len(), |i: int| None));
            assert forall|i: int| 0 <= i < e@.tracks.len() implies grid_fits(
                e@.samples_per_bar as int,
                #[trigger] e@.tracks[i].steps.len() as int,
            ) by {
                assert(0 < e.tracks@[i]@.steps.len() <= transport.samples_per_bar);
            }
        }
        Ok(e)
    }

    /// Plays one block of `block_length` samples: fills the event buffer with
    /// the block's events in time order, moves the play-head on, and counts
    /// the events that did not fit.
    pub fn process(&mut self, block_length: u32)
        requires
            old(self).wf(),
        ensures
            final(self).wf(),
            final(self)@ == process_block(old(self)@, block_length as nat),
    {
        let ghost v0 = self@;
        let bar = self.transport.samples_per_bar;
        let start = self.cursor.position_in_bar;
        let delay = self.note_off_delay;
        self.merged.clear();
        let mut i: usize = 0;
        while i < self.tracks.len()
            invariant
                engine_wf(v0),
                v0.tracks == track_views(self.tracks@),
                self.cursor.position_in_bar == start,
                self.transport.samples_per_bar == bar,
                self.note_off_delay == delay,
                self.capacity == v0.capacity,
                self.dropped == v0.dropped,
                bar == v0.samples_per_bar,
                start == v0.position,
                delay == v0.note_off_delay,
                i <= self.tracks@.len(),
                self.pending_offs@.len() == self.tracks@.len(),
                forall|k: int|
                    i <= k < self.pending_offs@.len() ==> #[trigger] pending_view(
                        self.pending_offs@[k],
                    ) == v0.pending[k],
                (self.merged@, self.pending_offs@.take(i as int).map_values(
                    |p: Option<u32>| pending_view(p),
                )) == all_tracks(
                    v0.tracks.take(i as int),
                    v0.pending.take(i as int),
                    bar as int,
                    start as int,
                    block_length as nat,
                    delay as nat,
                ),
            decreases self.tracks@.len() - i,
        {
            proof {
                assert(v0.tracks[i as int] == self.tracks@[i as int]@);
                assert(grid_fits(bar as int, v0.tracks[i as int].steps.len() as int));
            }
            let p = self.tracks[i].play_block(
                self.pending_offs[i],
                bar,
                start,
                block_length,
                delay,
                &mut self.ons_buf,
                &mut self.track_buf,
            );
            merge_events(&self.merged, &self.track_buf, &mut self.merge_tmp);
            std::mem::swap(&mut self.merged, &mut self.merge_tmp);
            let ghost before = self.pending_offs@;
            self.pending_offs.set(i, p);
            proof {
                let ti = v0.tracks.take(i + 1);
                let pi = v0.pending.take(i + 1);
                assert(ti.drop_last() =~= v0.tracks.take(i as int));
                assert(pi.drop_last() =~= v0.pending.take(i as int));
                assert(self.pending_offs@.take(i + 1).map_values(|p: Option<u32>| pending_view(p))
                    =~= before.take(i as int).map_values(|p: Option<u32>| pending_view(p)).push(
                    pending_view(p),
                ));
            }
            i += 1;
        }
        proof {
            assert(v0.tracks.take(i as int) =~= v0.tracks);
            assert(v0.pending.take(i as int) =~= v0.pending);
            assert(self.pending_offs@.take(i as int) =~= self.pending_offs@);
        }
        let ghost r = all_tracks(
            v0.tracks,
            v0.pending,
            bar as int,
            start as int,
            block_length as nat,
            delay as nat,
        );
        assert(self.merged@ == r.0);
        assert(self.pending_offs@.map_values(|p: Option<u32>| pending_view(p)) == r.1);
        self.events.clear();
        let kept: usize = if self.merged.len() <= self.capacity {
            self.merged.len()
        } else {
            self.capacity
        };
        let mut k: usize = 0;
        while k < kept
            invariant
                engine_wf(v0),
                v0.tracks == track_views(self.tracks@),
                self.cursor.position_in_bar == start,
                self.transport.samples_per_bar == bar,
                self.note_off_delay == delay,
                self.capacity == v0.capacity,
                self.dropped == v0.dropped,
                bar == v0.samples_per_bar,
                start == v0.position,
                self.pending_offs@.map_values(|p: Option<u32>| pending_view(p)) == r.1,
                self.merged@ == r.0,
                k <= kept,
                kept <= self.merged@.len(),
                self.events@ == self.merged@.take(k as int),
            decreases kept - k,
        {
            self.events.push(self.merged[k]);
            k += 1;
            proof {
                assert(self.events@ =~= self.merged@.take(k as int));
            }
        }
        let excess = (self.merged.len() - kept) as u64;
        self.dropped = self.dropped.saturating_add(excess);
        self.cursor.advance(bar, block_length);
        proof {
            assert(self@.pending =~= process_block(v0, block_length as nat).pending);
            assert(self@ == process_block(v0, block_length as nat));
        }
    }

    /// The events of the last block, in time order.
    pub fn events(&self) -> (r: &[TimedEvent])
        ensures
            r@ == self@.events,
    {
        self.events.as_slice()
    }

    /// Events dropped so far because a block had more than the buffer holds.
    pub fn dropped_events(&self) -> (r: u64)
        ensures
            r == self@.dropped,
    {
        self.dropped
    }

    pub fn position_in_bar(&self) -> (r: u64)
        ensures
            r == self@.position,
    {
        self.cursor.position_in_bar
    }

    pub fn track_count(&self) -> (r: usize)
        ensures
            r == self@.tracks.len(),
    {
        self.tracks.len()
    }

    /// Turns a track on or off; it takes effect from the next block.
    pub fn set_track_enabled(&mut self, track: usize, enabled: bool)
        requires
            old(self).wf(),
            track < old(self)@.tracks.len(),
        ensures
            final(self).wf(),
            final(self)@ == (EngineView {
                tracks: old(self)@.tracks.update(
                    track as int,
                    TrackView { enabled, ..old(self)@.tracks[track as int] },
                ),
                ..old(self)@
            }),
    {
        let ghost v0 = self@;
        let mut tracks = Vec::new();
        std::mem::swap(&mut tracks, &mut self.tracks);
        let mut t = tracks.remove(track);
        t.set_enabled(enabled);
        tracks.insert(track, t);
        self.tracks = tracks;
        proof {
            assert(self@.tracks =~= v0.tracks.update(
                track as int,
                TrackView { enabled, ..v0.tracks[track as int] },
            ));
        }
    }
}

} // verus!
