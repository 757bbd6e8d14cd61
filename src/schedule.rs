use vstd::prelude::*;
use vstd::arithmetic::div_mod::{
    lemma_fundamental_div_mod,
    lemma_fundamental_div_mod_converse,
    lemma_div_is_ordered,
    lemma_div_plus_one,
    lemma_mod_pos_bound,
    lemma_small_mod,
    lemma_add_mod_noop,
};
use crate::pattern::Pattern;

verus! {

/// Bar position of step `s` of an `n`-step grid over a bar of `bar` samples:
/// `s * bar / n`, rounded half up. Computed from the step index alone, so no
/// rounding error accumulates from one step to the next.
pub open spec fn step_offset(bar: int, n: int, s: int) -> int {
    (2 * s * bar + n) / (2 * n)
}

/// A grid fits its bar when it has at least one step and no more steps than samples.
pub open spec fn grid_fits(bar: int, n: int) -> bool {
    0 < n <= bar <= u32::MAX
}

pub proof fn lemma_step_offset_bounds(bar: int, n: int, s: int)
    requires
        grid_fits(bar, n),
        0 <= s <= n,
    ensures
        0 <= step_offset(bar, n, s) <= bar,
        s == 0 ==> step_offset(bar, n, s) == 0,
        s == n ==> step_offset(bar, n, s) == bar,
        s < n ==> step_offset(bar, n, s) < bar,
{
    let x = 2 * s * bar + n;
    assert(0 <= x) by (nonlinear_arith)
        requires x == 2 * s * bar + n, 0 <= s, 0 < n, 0 < bar;
    lemma_fundamental_div_mod(x, 2 * n);
    if s == 0 {
        assert(x == 0 * (2 * n) + n) by (nonlinear_arith)
            requires x == 2 * s * bar + n, s == 0;
        lemma_fundamental_div_mod_converse(x, 2 * n, 0, n);
    }
    if s == n {
        assert(x == bar * (2 * n) + n) by (nonlinear_arith)
            requires x == 2 * s * bar + n, s == n;
        lemma_fundamental_div_mod_converse(x, 2 * n, bar, n);
    }
    if s < n {
        assert(x < bar * (2 * n)) by (nonlinear_arith)
            requires x == 2 * s * bar + n, s < n, 0 < n <= bar, 0 <= s;
        assert(x / (2 * n) < bar) by (nonlinear_arith)
            requires x < bar * (2 * n), 0 < n, x == (2 * n) * (x / (2 * n)) + x % (2 * n),
                0 <= x % (2 * n);
    }
    assert(x / (2 * n) <= bar) by (nonlinear_arith)
        requires x <= bar * (2 * n) + n, 0 < n, x == (2 * n) * (x / (2 * n)) + x % (2 * n),
            0 <= x % (2 * n);
}

/// Steps of a grid that fits its bar lie at strictly increasing positions.
pub proof fn lemma_step_offset_strict(bar: int, n: int, i: int, j: int)
    requires
        grid_fits(bar, n),
        0 <= i < j,
    ensures
        step_offset(bar, n, i) < step_offset(bar, n, j),
{
    let d = 2 * n;
    let x = 2 * i * bar + n;
    let y = 2 * j * bar + n;
    assert(y - x == 2 * ((j - i) * bar)) by (nonlinear_arith)
        requires x == 2 * i * bar + n, y == 2 * j * bar + n;
    assert((j - i) * bar >= bar) by (nonlinear_arith)
        requires j - i >= 1, bar >= 0;
    assert(x + d <= y);
    lemma_div_is_ordered(x + d, y, d);
    lemma_div_plus_one(x, d);
}

pub proof fn lemma_step_offset_monotone(bar: int, n: int)
    requires
        grid_fits(bar, n),
    ensures
        forall|i: int, j: int|
            #![trigger step_offset(bar, n, i), step_offset(bar, n, j)]
            0 <= i < j ==> step_offset(bar, n, i) < step_offset(bar, n, j),
{
    assert forall|i: int, j: int|
        #![trigger step_offset(bar, n, i), step_offset(bar, n, j)]
        0 <= i < j implies step_offset(bar, n, i) < step_offset(bar, n, j) by {
        lemma_step_offset_strict(bar, n, i, j);
    }
}

/// Bar position of step `s`, as `step_offset` states it.
pub fn step_position(bar: u64, n: usize, s: usize) -> (r: u64)
    requires
        grid_fits(bar as int, n as int),
        s <= n,
    ensures
        r == step_offset(bar as int, n as int, s as int),
{
    proof {
        lemma_step_offset_bounds(bar as int, n as int, s as int);
    }
    let sw = s as u128;
    let bw = bar as u128;
    assert(2 * sw * bw <= 2 * 0xffff_ffff * 0xffff_ffff) by (nonlinear_arith)
        requires sw <= 0xffff_ffff, bw <= 0xffff_ffff;
    let num = 2 * sw * bw + n as u128;
    (num / (2 * n as u128)) as u64
}

/// Step `s` sounds, and lies at bar position `pos`.
pub open spec fn sounds_at(steps: Seq<u8>, bar: int, pos: int, s: int) -> bool {
    0 <= s < steps.len() && steps[s] > 0 && step_offset(bar, steps.len() as int, s) == pos
}

/// Velocity of the note-on at bar position `pos`; 0 where no sounding step lies.
pub open spec fn velocity_at(steps: Seq<u8>, bar: int, pos: int) -> u8 {
    if exists|s: int| sounds_at(steps, bar, pos, s) {
        steps[choose|s: int| sounds_at(steps, bar, pos, s)]
    } else {
        0
    }
}

/// Velocity of the note-on `t` samples into a window that starts at bar position `start`.
pub open spec fn window_velocity(steps: Seq<u8>, bar: int, start: int, t: int) -> u8 {
    velocity_at(steps, bar, (start + t) % bar)
}

/// The note-ons of a pattern over the first `len` samples of a window that
/// starts at bar position `start`: each offset into the window at which a
/// sounding step lies, with its velocity, in time order. The window wraps to
/// the start of the bar as often as it needs to.
pub open spec fn note_ons(steps: Seq<u8>, bar: int, start: int, len: nat) -> Seq<(u32, u8)>
    decreases len,
{
    if len == 0 {
        seq![]
    } else {
        let prev = note_ons(steps, bar, start, (len - 1) as nat);
        let v = window_velocity(steps, bar, start, len - 1);
        if v > 0 {
            prev.push(((len - 1) as u32, v))
        } else {
            prev
        }
    }
}

pub proof fn lemma_velocity_at_step(steps: Seq<u8>, bar: int, k: int)
    requires
        grid_fits(bar, steps.len() as int),
        0 <= k < steps.len(),
        steps[k] > 0,
    ensures
        velocity_at(steps, bar, step_offset(bar, steps.len() as int, k)) == steps[k],
{
    let n = steps.len() as int;
    let pos = step_offset(bar, n, k);
    assert(sounds_at(steps, bar, pos, k));
    let c = choose|s: int| sounds_at(steps, bar, pos, s);
    if c != k {
        if c < k {
            lemma_step_offset_strict(bar, n, c, k);
        } else {
            lemma_step_offset_strict(bar, n, k, c);
        }
    }
}

/// Extending a window over samples where no step sounds adds no note-on.
pub proof fn lemma_note_ons_silent(steps: Seq<u8>, bar: int, start: int, a: nat, b: nat)
    requires
        a <= b,
        forall|t: int| a <= t < b ==> #[trigger] window_velocity(steps, bar, start, t) == 0,
    ensures
        note_ons(steps, bar, start, b) == note_ons(steps, bar, start, a),
    decreases b - a,
{
    if a < b {
        lemma_note_ons_silent(steps, bar, start, a, (b - 1) as nat);
    }
}

/// Within one bar, a window position `d` samples after bar position `(start + done) % bar`
/// lies at that bar position plus `d`.
pub proof fn lemma_window_pos(start: int, done: int, d: int, bar: int)
    requires
        0 < bar,
        0 <= start,
        0 <= done,
        0 <= d,
        (start + done) % bar + d < bar,
    ensures
        (start + done + d) % bar == (start + done) % bar + d,
{
    lemma_fundamental_div_mod(start + done, bar);
    lemma_mod_pos_bound(start + done, bar);
    let q = (start + done) / bar;
    let r = (start + done) % bar;
    assert(start + done + d == q * bar + (r + d)) by (nonlinear_arith)
        requires start + done == bar * q + r;
    lemma_fundamental_div_mod_converse(start + done + d, bar, q, r + d);
}

/// The note-ons of a window lie inside it, in strictly increasing order, each
/// with the velocity of the step that sounds there; and every offset at which
/// a step sounds is among them.
pub proof fn lemma_note_ons_facts(steps: Seq<u8>, bar: int, start: int, len: nat)
    requires
        len <= u32::MAX,
    ensures
        note_ons(steps, bar, start, len).len() <= len,
        forall|i: int|
            0 <= i < note_ons(steps, bar, start, len).len() ==> {
                let e = #[trigger] note_ons(steps, bar, start, len)[i];
                &&& e.0 < len
                &&& e.1 > 0
                &&& e.1 == window_velocity(steps, bar, start, e.0 as int)
            },
        forall|i: int, j: int|
            0 <= i < j < note_ons(steps, bar, start, len).len() ==> (#[trigger] note_ons(
                steps,
                bar,
                start,
                len,
            )[i]).0 < (#[trigger] note_ons(steps, bar, start, len)[j]).0,
        forall|t: int|
            0 <= t < len && #[trigger] window_velocity(steps, bar, start, t) > 0 ==> exists|i: int|
                0 <= i < note_ons(steps, bar, start, len).len() && (#[trigger] note_ons(
                    steps,
                    bar,
                    start,
                    len,
                )[i]).0 == t,
    decreases len,
{
    if len > 0 {
        let l1 = (len - 1) as nat;
        lemma_note_ons_facts(steps, bar, start, l1);
        let prev = note_ons(steps, bar, start, l1);
        let cur = note_ons(steps, bar, start, len);
        assert forall|t: int|
            0 <= t < len && #[trigger] window_velocity(steps, bar, start, t) > 0 implies exists|
            i: int,
        |
            0 <= i < cur.len() && (#[trigger] cur[i]).0 == t by {
            if t < l1 {
                let i = choose|i: int| 0 <= i < prev.len() && (#[trigger] prev[i]).0 == t;
                assert(cur[i] == prev[i]);
            } else {
                assert(cur[cur.len() - 1].0 == t);
            }
        }
    }
}

/// Within one bar of a window, a stretch of bar positions `[lo, hi)` where no
/// sounding step lies adds no note-on.
pub proof fn lemma_note_ons_gap(
    steps: Seq<u8>,
    bar: int,
    start: int,
    done: int,
    lo: int,
    hi: int,
)
    requires
        grid_fits(bar, steps.len() as int),
        0 <= start,
        0 <= done,
        (start + done) % bar <= lo <= hi <= bar,
        forall|k: int|
            0 <= k < steps.len() && steps[k] > 0 ==> #[trigger] step_offset(
                bar,
                steps.len() as int,
                k,
            ) < lo || step_offset(bar, steps.len() as int, k) >= hi,
    ensures
        note_ons(steps, bar, start, (done + hi - (start + done) % bar) as nat) == note_ons(
            steps,
            bar,
            start,
            (done + lo - (start + done) % bar) as nat,
        ),
{
    let bp = (start + done) % bar;
    assert forall|t: int|
        done + lo - bp <= t < done + hi - bp implies #[trigger] window_velocity(
        steps,
        bar,
        start,
        t,
    ) == 0 by {
        lemma_window_pos(start, done, t - done, bar);
        let pos = bp + t - done;
        assert((start + t) % bar == pos);
        if exists|k: int| sounds_at(steps, bar, pos, k) {
            let k = choose|k: int| sounds_at(steps, bar, pos, k);
            assert(step_offset(bar, steps.len() as int, k) == pos);
        }
    }
    lemma_note_ons_silent(
        steps,
        bar,
        start,
        (done + lo - bp) as nat,
        (done + hi - bp) as nat,
    );
}

/// The note-ons of `pattern` over a block of `len` samples that starts at bar
/// position `start`. The block is cut at each bar boundary; within each span the
/// pattern is asked for its next sounding step until one lies past the span.
/// `out` is cleared first and then filled, so its storage is reused.
pub fn scan_note_ons(pattern: &Pattern, bar: u64, start: u64, len: u32, out: &mut Vec<(u32, u8)>)
    requires
        grid_fits(bar as int, pattern@.len() as int),
        start < bar,
    ensures
        final(out)@ == note_ons(pattern@, bar as int, start as int, len as nat),
{
    let ghost steps = pattern@;
    let ghost b = bar as int;
    let n = pattern.steps_per_bar();
    let ghost ni = n as int;
    proof {
        lemma_step_offset_monotone(b, ni);
        lemma_small_mod(start as nat, bar as nat);
    }
    out.clear();
    let mut done: u32 = 0;
    let mut bar_pos: u64 = start;
    while done < len
        invariant
            steps == pattern@,
            ni == n,
            n == steps.len(),
            b == bar,
            grid_fits(b, ni),
            forall|i: int, j: int|
                #![trigger step_offset(b, ni, i), step_offset(b, ni, j)]
                0 <= i < j ==> step_offset(b, ni, i) < step_offset(b, ni, j),
            done <= len,
            start < bar,
            bar_pos < bar,
            bar_pos == (start + done) % b,
            out@ == note_ons(steps, b, start as int, done as nat),
        decreases len - done,
    {
        let remaining = len - done;
        let space = bar - bar_pos;
        let span: u32 = if (remaining as u64) < space {
            remaining
        } else {
            space as u32
        };
        let end = bar_pos + span as u64;
        let mut s: usize = 0;
        while s < n && step_position(bar, n, s) < bar_pos
            invariant
                grid_fits(b, ni),
                ni == n,
                b == bar,
                s <= n,
                forall|k: int| 0 <= k < s ==> #[trigger] step_offset(b, ni, k) < bar_pos,
            decreases n - s,
        {
            s += 1;
        }
        proof {
            lemma_step_offset_bounds(b, ni, s as int);
            let fs = step_offset(b, ni, s as int);
            let hi = if fs < end { fs } else { end as int };
            assert forall|k: int|
                0 <= k < steps.len() && steps[k] > 0 implies #[trigger] step_offset(b, ni, k)
                < bar_pos || step_offset(b, ni, k) >= hi by {
                if k >= s {
                    if k > s {
                        assert(step_offset(b, ni, s as int) < step_offset(b, ni, k));
                    }
                }
            }
            lemma_note_ons_gap(steps, b, start as int, done as int, bar_pos as int, hi);
        }
        loop
            invariant
                steps == pattern@,
                ni == n,
                n == steps.len(),
                b == bar,
                grid_fits(b, ni),
                forall|i: int, j: int|
                    #![trigger step_offset(b, ni, i), step_offset(b, ni, j)]
                    0 <= i < j ==> step_offset(b, ni, i) < step_offset(b, ni, j),
                done < len,
                start < bar,
                bar_pos < bar,
                bar_pos == (start + done) % b,
                end == bar_pos + span,
                end <= bar,
                done + span <= len,
                s <= n,
                bar_pos <= step_offset(b, ni, s as int),
                out@ == note_ons(
                    steps,
                    b,
                    start as int,
                    (done + (if step_offset(b, ni, s as int) < end {
                        step_offset(b, ni, s as int)
                    } else {
                        end as int
                    }) - bar_pos) as nat,
                ),
            ensures
                out@ == note_ons(steps, b, start as int, (done + span) as nat),
            decreases n - s,
        {
            let ghost fs = step_offset(b, ni, s as int);
            let ghost lo = if fs < end {
                fs
            } else {
                end as int
            };
            match pattern.next_triggered_step(s) {
                None => {
                    proof {
                        assert forall|k: int|
                            0 <= k < steps.len() && steps[k] > 0 implies #[trigger] step_offset(
                            b,
                            ni,
                            k,
                        ) < lo || step_offset(b, ni, k) >= end by {
                            if k > s {
                                assert(step_offset(b, ni, s as int) < step_offset(b, ni, k));
                            }
                        }
                        lemma_note_ons_gap(steps, b, start as int, done as int, lo, end as int);
                    }
                    break ;
                },
                Some((k, v)) => {
                    let pos = step_position(bar, n, k);
                    if pos >= end {
                        proof {
                            assert forall|j: int|
                                0 <= j < steps.len() && steps[j] > 0 implies #[trigger] step_offset(
                                b,
                                ni,
                                j,
                            ) < lo || step_offset(b, ni, j) >= end by {
                                if j > s && j < k {
                                    assert(step_offset(b, ni, s as int) < step_offset(b, ni, j));
                                }
                                if j > k {
                                    assert(step_offset(b, ni, k as int) < step_offset(b, ni, j));
                                }
                            }
                            lemma_note_ons_gap(steps, b, start as int, done as int, lo, end as int);
                        }
                        break ;
                    }
                    proof {
                        if k > s {
                            assert(step_offset(b, ni, s as int) < step_offset(b, ni, k as int));
                        }
                        assert forall|j: int|
                            0 <= j < steps.len() && steps[j] > 0 implies #[trigger] step_offset(
                            b,
                            ni,
                            j,
                        ) < lo || step_offset(b, ni, j) >= pos by {
                            if j > s && j < k {
                                assert(step_offset(b, ni, s as int) < step_offset(b, ni, j));
                            }
                            if j > k {
                                assert(step_offset(b, ni, k as int) < step_offset(b, ni, j));
                            }
                        }
                        lemma_note_ons_gap(steps, b, start as int, done as int, lo, pos as int);
                        let t = done + pos - bar_pos;
                        lemma_window_pos(start as int, done as int, pos - bar_pos, b);
                        lemma_velocity_at_step(steps, b, k as int);
                        assert(window_velocity(steps, b, start as int, t) == v);
                        lemma_step_offset_bounds(b, ni, k as int + 1);
                        let f1 = step_offset(b, ni, k as int + 1);
                        let hi = if f1 < end { f1 } else { end as int };
                        assert(pos < f1);
                        assert forall|j: int|
                            0 <= j < steps.len() && steps[j] > 0 implies #[trigger] step_offset(
                            b,
                            ni,
                            j,
                        ) < pos + 1 || step_offset(b, ni, j) >= hi by {
                            if j > k as int + 1 {
                                assert(step_offset(b, ni, k as int + 1) < step_offset(b, ni, j));
                            }
                            if j < k {
                                assert(step_offset(b, ni, j) < step_offset(b, ni, k as int));
                            }
                        }
                        lemma_note_ons_gap(
                            steps,
                            b,
                            start as int,
                            done as int,
                            pos + 1,
                            hi,
                        );
                    }
                    out.push(((done as u64 + pos - bar_pos) as u32, v));
                    s = k + 1;
                },
            }
        }
        done = done + span;
        bar_pos = if end == bar {
            0
        } else {
            end
        };
        proof {
            if end < bar {
                lemma_window_pos(start as int, (done - span) as int, span as int, b);
            } else {
                lemma_fundamental_div_mod(start + done - span, b);
                lemma_mod_pos_bound(start + done - span, b);
                let q = (start + done - span) / b;
                assert(start + done == (q + 1) * b + 0) by (nonlinear_arith)
                    requires start + done - span == b * q + (start + done - span) % b,
                        (start + done - span) % b + span == b;
                lemma_fundamental_div_mod_converse(start + done, b, q + 1, 0);
            }
        }
    }
}

/// Over one bar played from its start, every sounding step fires exactly once,
/// at its own position and with its own velocity, and nothing else fires.
#[verifier::spinoff_prover]
pub proof fn lemma_one_bar_coverage(steps: Seq<u8>, bar: int)
    requires
        grid_fits(bar, steps.len() as int),
    ensures
        forall|s: int|
            0 <= s < steps.len() && steps[s] > 0 ==> exists|i: int|
                0 <= i < note_ons(steps, bar, 0, bar as nat).len() && #[trigger] note_ons(
                    steps,
                    bar,
                    0,
                    bar as nat,
                )[i] == (step_offset(bar, steps.len() as int, s) as u32, steps[s]),
        forall|i: int|
            0 <= i < note_ons(steps, bar, 0, bar as nat).len() ==> exists|s: int|
                0 <= s < steps.len() && steps[s] > 0 && #[trigger] note_ons(
                    steps,
                    bar,
                    0,
                    bar as nat,
                )[i] == (step_offset(bar, steps.len() as int, s) as u32, steps[s]),
        forall|i: int, j: int|
            0 <= i < j < note_ons(steps, bar, 0, bar as nat).len() ==> (#[trigger] note_ons(
                steps,
                bar,
                0,
                bar as nat,
            )[i]).0 < (#[trigger] note_ons(steps, bar, 0, bar as nat)[j]).0,
{
    let n = steps.len() as int;
    let ons = note_ons(steps, bar, 0, bar as nat);
    lemma_note_ons_facts(steps, bar, 0, bar as nat);
    assert forall|s: int| 0 <= s < steps.len() && steps[s] > 0 implies exists|i: int|
        0 <= i < ons.len() && #[trigger] ons[i] == (step_offset(bar, n, s) as u32, steps[s]) by {
        lemma_step_offset_bounds(bar, n, s);
        lemma_velocity_at_step(steps, bar, s);
        let t = step_offset(bar, n, s);
        lemma_small_mod(t as nat, bar as nat);
        assert(window_velocity(steps, bar, 0, t) > 0);
        let i = choose|i: int| 0 <= i < ons.len() && (#[trigger] ons[i]).0 == t;
        assert(ons[i] == (t as u32, steps[s]));
    }
    assert forall|i: int| 0 <= i < ons.len() implies exists|s: int|
        0 <= s < steps.len() && steps[s] > 0 && #[trigger] ons[i] == (
            step_offset(bar, n, s) as u32,
            steps[s],
        ) by {
        let t = ons[i].0 as int;
        lemma_small_mod(t as nat, bar as nat);
        assert(window_velocity(steps, bar, 0, t) == ons[i].1);
        assert(velocity_at(steps, bar, t) > 0);
        let s = choose|s: int| sounds_at(steps, bar, t, s);
        lemma_velocity_at_step(steps, bar, s);
    }
}

/// Note-ons moved `by` samples later.
pub open spec fn shift_ons(ons: Seq<(u32, u8)>, by: int) -> Seq<(u32, u8)> {
    ons.map_values(|e: (u32, u8)| ((e.0 + by) as u32, e.1))
}

/// A window cut in two gives the note-ons of its first part followed by those
/// of the second part, which starts where the first ended, moved by the first
/// part's length: how a window is cut into blocks does not change what fires.
pub proof fn lemma_note_ons_split(steps: Seq<u8>, bar: int, start: int, l1: nat, l2: nat)
    requires
        0 < bar,
        0 <= start,
        l1 + l2 <= u32::MAX,
    ensures
        note_ons(steps, bar, start, l1 + l2) == note_ons(steps, bar, start, l1) + shift_ons(
            note_ons(steps, bar, (start + l1) % bar, l2),
            l1 as int,
        ),
    decreases l2,
{
    if l2 > 0 {
        let k = (l2 - 1) as nat;
        lemma_note_ons_split(steps, bar, start, l1, k);
        lemma_add_mod_noop(start + l1, k as int, bar);
        lemma_mod_pos_bound(k as int, bar);
        lemma_small_mod(k as nat % bar as nat, bar as nat);
        assert((start + l1 + k) % bar == ((start + l1) % bar + k) % bar) by {
            lemma_add_mod_noop((start + l1) % bar, k as int, bar);
            lemma_mod_pos_bound(start + l1, bar);
            lemma_small_mod(((start + l1) % bar) as nat, bar as nat);
        }
        assert(window_velocity(steps, bar, start, (l1 + k) as int) == window_velocity(
            steps,
            bar,
            (start + l1) % bar,
            k as int,
        ));
        let a = note_ons(steps, bar, start, l1);
        let b = note_ons(steps, bar, (start + l1) % bar, k);
        let v = window_velocity(steps, bar, start, (l1 + k) as int);
        if v > 0 {
            assert(shift_ons(b.push((k as u32, v)), l1 as int) =~= shift_ons(b, l1 as int).push(
                ((l1 + k) as u32, v),
            ));
            assert(a + shift_ons(b, l1 as int).push(((l1 + k) as u32, v)) =~= (a + shift_ons(
                b,
                l1 as int,
            )).push(((l1 + k) as u32, v)));
        }
    }
}

/// A sounding step that lies exactly where a block ends belongs to the next
/// block, which plays it first, at offset 0; the ending block has no note-on
/// at or past its end.
pub proof fn lemma_boundary_step(
    steps: Seq<u8>,
    bar: int,
    start: int,
    len: nat,
    next_len: nat,
    s: int,
)
    requires
        grid_fits(bar, steps.len() as int),
        0 <= start < bar,
        0 < next_len,
        len + next_len <= u32::MAX,
        0 <= s < steps.len(),
        steps[s] > 0,
        (start + len) % bar == step_offset(bar, steps.len() as int, s),
    ensures
        forall|i: int|
            0 <= i < note_ons(steps, bar, start, len).len() ==> (#[trigger] note_ons(
                steps,
                bar,
                start,
                len,
            )[i]).0 < len,
        note_ons(steps, bar, (start + len) % bar, next_len)[0] == (0u32, steps[s]),
{
    lemma_note_ons_facts(steps, bar, start, len);
    let st = (start + len) % bar;
    lemma_mod_pos_bound(start + len, bar);
    lemma_note_ons_split(steps, bar, st, 1, (next_len - 1) as nat);
    lemma_small_mod(st as nat, bar as nat);
    lemma_velocity_at_step(steps, bar, s);
    assert(window_velocity(steps, bar, st, 0) == steps[s]);
    assert(note_ons(steps, bar, st, 0) == Seq::<(u32, u8)>::empty());
    assert(note_ons(steps, bar, st, 1) =~= seq![(0u32, steps[s])]);
}

} // verus!
