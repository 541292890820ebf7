//! The circle outline tracer: from the top of the circle, each step
//! advances the tracking point toward the center's row, choosing among
//! the three candidate moves the one whose distance to the center is
//! closest to the radius; every visited offset is written four times,
//! reflected about the center's row and column.

use vstd::prelude::*;

verus! {

pub open spec fn sq(n: int) -> int {
    n * n
}

/// Whether the position at squared distance `d1` from the center is at
/// least as close to the target radius `r` as the one at squared
/// distance `d2`: `|sqrt(d1) - r| <= |sqrt(d2) - r|`, stated without
/// square roots. Squaring the inequality reduces it to the sign of
/// `sqrt(d1*d2)` terms, and squaring once more eliminates those.
pub open spec fn closer(d1: int, d2: int, r: int) -> bool {
    if d1 == d2 {
        true
    } else if d1 < d2 {
        // here equivalent to sqrt(d1) + sqrt(d2) >= 2r
        4 * r * r <= d1 + d2 || 4 * d1 * d2 >= sq(4 * r * r - d1 - d2)
    } else {
        // here equivalent to sqrt(d1) + sqrt(d2) <= 2r
        4 * r * r >= d1 + d2 && 4 * d1 * d2 <= sq(4 * r * r - d1 - d2)
    }
}

/// Squared distance from the center to the candidate right of the
/// tracking point at offset `(u, v)`.
pub open spec fn cand_a(u: int, v: int) -> int {
    sq(u + 1) + sq(v)
}

/// Squared distance to the candidate below.
pub open spec fn cand_b(u: int, v: int) -> int {
    sq(u) + sq(v + 1)
}

/// Squared distance to the diagonal candidate.
pub open spec fn cand_c(u: int, v: int) -> int {
    sq(u + 1) + sq(v + 1)
}

/// The step moves right alone: candidate a is closest, ties preferring
/// a over b and over c.
pub open spec fn picks_a(r: int, u: int, v: int) -> bool {
    closer(cand_a(u, v), cand_b(u, v), r) && closer(cand_a(u, v), cand_c(u, v), r)
}

/// The step moves down alone: a loses, and b beats c, ties preferring b.
pub open spec fn picks_b(r: int, u: int, v: int) -> bool {
    !picks_a(r, u, v) && closer(cand_b(u, v), cand_c(u, v), r)
}

/// The column offset after one step.
pub open spec fn step_u(r: int, u: int, v: int) -> int {
    if picks_b(r, u, v) {
        u
    } else {
        u + 1
    }
}

/// The row offset after one step.
pub open spec fn step_v(r: int, u: int, v: int) -> int {
    if picks_a(r, u, v) {
        v
    } else {
        v + 1
    }
}

/// At the rightmost reachable column (`u >= r`) of the upper half, the
/// step always moves down alone: every candidate lies at or beyond the
/// radius, so the nearest one is b, strictly nearer than a. This bounds
/// the tracking point's column and with it the number of steps.
pub proof fn lemma_rim_picks_b(r: int, u: int, v: int)
    requires
        1 <= r,
        r <= u,
        -r <= v <= 0,
    ensures
        !picks_a(r, u, v),
        picks_b(r, u, v),
{
    let a = cand_a(u, v);
    let b = cand_b(u, v);
    let c = cand_c(u, v);
    assert(a == (u + 1) * (u + 1) + v * v);
    assert(b == u * u + (v + 1) * (v + 1));
    assert(c == (u + 1) * (u + 1) + (v + 1) * (v + 1));
    assert(b < a && b < c && r * r <= b && (r + 1) * (r + 1) <= a && (r + 1) * (r + 1) <= c)
        by (nonlinear_arith)
        requires
            1 <= r,
            r <= u,
            -r <= v <= 0,
            a == (u + 1) * (u + 1) + v * v,
            b == u * u + (v + 1) * (v + 1),
            c == (u + 1) * (u + 1) + (v + 1) * (v + 1),
    ;
    // candidate a never wins against b here
    assert(!closer(a, b, r)) by {
        if 4 * r * r >= a + b {
            lemma_round_beats_inner(r, b, a);
            assert(4 * b * a == 4 * a * b) by (nonlinear_arith);
            assert(sq(4 * r * r - b - a) == sq(4 * r * r - a - b));
            assert(4 * a * b > sq(4 * r * r - a - b));
        }
        assert(b < a);
    }
    // candidate b beats c
    assert(closer(b, c, r)) by {
        if !(4 * r * r <= b + c) {
            lemma_round_beats_inner(r, b, c);
        }
    }
}

/// For `r*r <= b < far`, `far >= (r+1)^2` and `b + far <= 4r^2`, the
/// doubly-squared comparison comes out strictly on the side of `b`:
/// `4*b*far > sq(4r^2 - b - far)`.
proof fn lemma_round_beats_inner(r: int, b: int, far: int)
    requires
        1 <= r,
        r * r <= b,
        b < far,
        (r + 1) * (r + 1) <= far,
        b + far <= 4 * r * r,
    ensures
        4 * b * far > sq(4 * r * r - b - far),
{
    let t = far - r * r;
    let s = 4 * r * r - b - far;
    assert(4 * b * far - s * s == -((far - b) * (far - b)) + 8 * (r * r) * (b + far) - 16 * ((r
        * r) * (r * r))) by (nonlinear_arith)
        requires
            s == 4 * r * r - b - far,
    ;
    assert(2 * r + 1 <= t && t <= 3 * (r * r)) by (nonlinear_arith)
        requires
            (r + 1) * (r + 1) <= far,
            b + far <= 4 * r * r,
            r * r <= b,
            t == far - r * r,
    ;
    assert((far - b) * (far - b) <= t * t) by (nonlinear_arith)
        requires
            r * r <= b,
            b < far,
            t == far - r * r,
    ;
    assert(8 * (r * r) * (b + far) - 16 * ((r * r) * (r * r)) >= 8 * (r * r) * t)
        by (nonlinear_arith)
        requires
            r * r <= b,
            t == far - r * r,
    ;
    assert(8 * (r * r) * t - t * t > 0) by (nonlinear_arith)
        requires
            1 <= r,
            2 * r + 1 <= t,
            t <= 3 * (r * r),
    ;
    assert(4 * b * far > s * s);
    assert(sq(s) == s * s);
}

/// The pixels the tracer writes from offset `(u, v)` on: four
/// reflections of each visited offset, until the row passes the center.
pub open spec fn ring_pixels(cx: int, cy: int, r: int, u: int, v: int) -> Seq<(int, int)>
    decreases 2 * (1 - v) + (r - u)
        when 1 <= r && 0 <= u <= r && -r <= v
        via ring_pixels_decreases
{
    if v > 0 {
        Seq::empty()
    } else {
        seq![(cx + u, cy + v), (cx - u, cy + v), (cx + u, cy - v), (cx - u, cy - v)]
            + ring_pixels(cx, cy, r, step_u(r, u, v), step_v(r, u, v))
    }
}

#[via_fn]
proof fn ring_pixels_decreases(cx: int, cy: int, r: int, u: int, v: int) {
    if v <= 0 && u == r {
        lemma_rim_picks_b(r, u, v);
    }
}

/// Decides `closer` on machine integers.
pub(crate) fn closer_exec(d1: i64, d2: i64, r: i64) -> (res: bool)
    requires
        0 <= d1 <= 0x4000_0000_0000_0000,
        0 <= d2 <= 0x4000_0000_0000_0000,
        0 <= r <= 0x4000_0000,
    ensures
        res == closer(d1 as int, d2 as int, r as int),
{
    let a: i128 = d1 as i128;
    let b: i128 = d2 as i128;
    let rr: i128 = r as i128;
    proof {
        assert((4 * (rr as int)) * (rr as int) <= 0x4000_0000_0000_0000 && (4 * (a as int)) * (
        b as int) <= 0x4000_0000_0000_0000_0000_0000_0000_0000) by (nonlinear_arith)
            requires
                0 <= a as int <= 0x4000_0000_0000_0000,
                0 <= b as int <= 0x4000_0000_0000_0000,
                0 <= rr as int <= 0x4000_0000,
        ;
    }
    let s4: i128 = 4 * rr * rr - a - b;
    proof {
        assert((s4 as int) * (s4 as int) <= 0x4000_0000_0000_0000_0000_0000_0000_0000)
            by (nonlinear_arith)
            requires
                -0x8000_0000_0000_0000 <= s4 as int <= 0x4000_0000_0000_0000,
        ;
    }
    if d1 == d2 {
        true
    } else if d1 < d2 {
        4 * rr * rr <= a + b || 4 * a * b >= s4 * s4
    } else {
        4 * rr * rr >= a + b && 4 * a * b <= s4 * s4
    }
}

/// The writes of the tracer come in groups of four that are symmetric
/// about the center: each group holds an offset and its reflections
/// about the center's column, row, and both.
pub open spec fn symmetric_groups(s: Seq<(int, int)>, cx: int, cy: int) -> bool {
    &&& s.len() % 4 == 0
    &&& forall|k: int|
        0 <= k && 4 * k + 3 < s.len() ==> {
            &&& (#[trigger] s[4 * k + 1]) == ((2 * cx - s[4 * k].0, s[4 * k].1))
            &&& s[4 * k + 2] == ((s[4 * k].0, 2 * cy - s[4 * k].1))
            &&& s[4 * k + 3] == ((2 * cx - s[4 * k].0, 2 * cy - s[4 * k].1))
        }
}

/// The four reflected writes of each tracer step are symmetric about
/// the center.
pub proof fn lemma_ring_pixels_symmetric(cx: int, cy: int, r: int, u: int, v: int)
    requires
        1 <= r,
        0 <= u <= r,
        -r <= v,
    ensures
        symmetric_groups(ring_pixels(cx, cy, r, u, v), cx, cy),
    decreases 2 * (1 - v) + (r - u),
{
    let s = ring_pixels(cx, cy, r, u, v);
    if v > 0 {
        assert(s.len() == 0);
    } else {
        let u2 = step_u(r, u, v);
        let v2 = step_v(r, u, v);
        if u == r {
            lemma_rim_picks_b(r, u, v);
        }
        lemma_ring_pixels_symmetric(cx, cy, r, u2, v2);
        let rest = ring_pixels(cx, cy, r, u2, v2);
        let g = seq![(cx + u, cy + v), (cx - u, cy + v), (cx + u, cy - v), (cx - u, cy - v)];
        assert(s == g + rest);
        assert(s.len() == 4 + rest.len());
        assert forall|k: int| 0 <= k && 4 * k + 3 < s.len() implies {
            &&& (#[trigger] s[4 * k + 1]) == ((2 * cx - s[4 * k].0, s[4 * k].1))
            &&& s[4 * k + 2] == ((s[4 * k].0, 2 * cy - s[4 * k].1))
            &&& s[4 * k + 3] == ((2 * cx - s[4 * k].0, 2 * cy - s[4 * k].1))
        } by {
            if k == 0 {
                assert(s[0] == g[0] && s[1] == g[1] && s[2] == g[2] && s[3] == g[3]);
            } else {
                let k1 = k - 1;
                assert(0 <= k1 && 4 * k1 + 3 < rest.len());
                assert(s[4 * k] == rest[4 * k1]);
                assert(s[4 * k + 1] == rest[4 * k1 + 1]);
                assert(s[4 * k + 2] == rest[4 * k1 + 2]);
                assert(s[4 * k + 3] == rest[4 * k1 + 3]);
                assert(rest[4 * k1 + 1] == ((2 * cx - rest[4 * k1].0, rest[4 * k1].1)));
            }
        }
    }
}

/// A squared distance within one unit of the radius: the pixel lies on
/// the rasterized ring.
pub open spec fn on_ring(r: int, d: int) -> bool {
    (r - 1) * (r - 1) <= d <= (r + 1) * (r + 1)
}

/// The closeness comparison is total: of two squared distances, one is
/// always at least as close to the radius as the other.
proof fn lemma_closer_total(d1: int, d2: int, r: int)
    ensures
        closer(d1, d2, r) || closer(d2, d1, r),
{
    if d1 != d2 {
        assert(4 * d1 * d2 == 4 * d2 * d1) by (nonlinear_arith);
        assert(sq(4 * r * r - d1 - d2) == sq(4 * r * r - d2 - d1));
    }
}

/// Whatever is at least as close to the radius as something on the ring
/// is itself on the ring.
proof fn lemma_closer_on_ring(dq: int, dw: int, r: int)
    requires
        1 <= r,
        0 <= dq,
        0 <= dw,
        closer(dq, dw, r),
        on_ring(r, dw),
    ensures
        on_ring(r, dq),
{
    let s = 4 * r * r - dq - dw;
    if dq < dw {
        // upper bound is inherited from dw; for the lower bound the
        // comparison says sqrt(dq) + sqrt(dw) >= 2r
        if 4 * r * r <= dq + dw {
            assert((r - 1) * (r - 1) <= dq) by (nonlinear_arith)
                requires
                    4 * r * r <= dq + dw,
                    dw <= (r + 1) * (r + 1),
                    1 <= r,
            ;
        } else {
            assert(4 * dq * dw >= sq(s));
            if dq < (r - 1) * (r - 1) {
                let e = (r - 1) * (r - 1) - dq;
                let w = (r + 1) * (r + 1);
                let p = sq(s) - 4 * dq * dw;
                assert(r >= 2) by (nonlinear_arith)
                    requires
                        dq >= 0 && dq < (r - 1) * (r - 1) && r >= 1,
                ;
                assert(p == 16 * ((r * r) * (r * r)) - 8 * (r * r) * (dq + dw) + (dw - dq) * (dw
                    - dq)) by (nonlinear_arith)
                    requires
                        s == 4 * r * r - dq - dw && p == sq(s) - 4 * dq * dw,
                ;
                let p2 = 16 * ((r * r) * (r * r)) - 8 * (r * r) * (dq + w) + (w - dq) * (w - dq);
                assert(p - p2 == (dw - w) * (dw + w - 2 * dq - 8 * (r * r))) by (nonlinear_arith)
                    requires
                        p == 16 * ((r * r) * (r * r)) - 8 * (r * r) * (dq + dw) + (dw - dq) * (dw
                            - dq),
                        p2 == 16 * ((r * r) * (r * r)) - 8 * (r * r) * (dq + w) + (w - dq) * (w
                            - dq),
                ;
                assert(dw - w <= 0 && dw + w - 2 * dq - 8 * (r * r) <= 0) by (nonlinear_arith)
                    requires
                        dw <= w && w == (r + 1) * (r + 1) && 0 <= dq && 1 <= r,
                ;
                assert(p >= p2) by (nonlinear_arith)
                    requires
                        p - p2 == (dw - w) * (dw + w - 2 * dq - 8 * (r * r)),
                        dw - w <= 0,
                        dw + w - 2 * dq - 8 * (r * r) <= 0,
                ;
                assert(p2 == e * e + 8 * (r * r) * e + 8 * r * e) by (nonlinear_arith)
                    requires
                        e == (r - 1) * (r - 1) - dq,
                        w == (r + 1) * (r + 1),
                        p2 == 16 * ((r * r) * (r * r)) - 8 * (r * r) * (dq + w) + (w - dq) * (w
                            - dq),
                ;
                assert(p2 > 0) by (nonlinear_arith)
                    requires
                        p2 == e * e + 8 * (r * r) * e + 8 * r * e && e >= 1 && r >= 1,
                ;
                assert(false);
            }
        }
    } else if dq > dw {
        // the lower bound is inherited from dw; for the upper bound the
        // comparison says sqrt(dq) + sqrt(dw) <= 2r
        assert(4 * r * r >= dq + dw && 4 * dq * dw <= sq(s));
        if r == 1 {
            assert(dq <= 4 * r * r - dw <= (r + 1) * (r + 1)) by (nonlinear_arith)
                requires
                    r == 1 && 4 * r * r >= dq + dw && dw >= 0,
            ;
        } else if dq > (r + 1) * (r + 1) {
            let e = dq - (r + 1) * (r + 1);
            let w = (r - 1) * (r - 1);
            let p = sq(s) - 4 * dq * dw;
            assert(p == 16 * ((r * r) * (r * r)) - 8 * (r * r) * (dq + dw) + (dq - dw) * (dq
                - dw)) by (nonlinear_arith)
                requires
                    s == 4 * r * r - dq - dw && p == sq(s) - 4 * dq * dw,
            ;
            let p3 = 16 * ((r * r) * (r * r)) - 8 * (r * r) * (dq + w) + (dq - w) * (dq - w);
            assert(p - p3 == -((dw - w) * (8 * (r * r) + 2 * dq - dw - w))) by (nonlinear_arith)
                requires
                    p == 16 * ((r * r) * (r * r)) - 8 * (r * r) * (dq + dw) + (dq - dw) * (dq
                        - dw),
                    p3 == 16 * ((r * r) * (r * r)) - 8 * (r * r) * (dq + w) + (dq - w) * (dq
                        - w),
            ;
            assert(dw - w >= 0 && 8 * (r * r) + 2 * dq - dw - w > 0) by (nonlinear_arith)
                requires
                    dw >= w && w == (r - 1) * (r - 1) && dq > dw && 1 <= r,
            ;
            assert(p <= p3) by (nonlinear_arith)
                requires
                    p - p3 == -((dw - w) * (8 * (r * r) + 2 * dq - dw - w)),
                    dw - w >= 0,
                    8 * (r * r) + 2 * dq - dw - w > 0,
            ;
            assert(p3 == e * (e + 8 * r - 8 * (r * r))) by (nonlinear_arith)
                requires
                    e == dq - (r + 1) * (r + 1),
                    w == (r - 1) * (r - 1),
                    p3 == 16 * ((r * r) * (r * r)) - 8 * (r * r) * (dq + w) + (dq - w) * (dq
                        - w),
            ;
            assert(e <= 2 * r * r - 2) by (nonlinear_arith)
                requires
                    e == dq - (r + 1) * (r + 1),
                    4 * r * r >= dq + dw,
                    dw >= (r - 1) * (r - 1),
            ;
            assert(p3 < 0) by (nonlinear_arith)
                requires
                    p3 == e * (e + 8 * r - 8 * (r * r)),
                    1 <= e,
                    e <= 2 * r * r - 2,
                    2 <= r,
            ;
            assert(false);
        }
    }
}

/// From a tracking offset on the ring, at least one of the three
/// candidate moves stays on the ring.
proof fn lemma_candidate_on_ring(r: int, u: int, v: int)
    requires
        1 <= r,
        0 <= u <= r,
        -r <= v <= 0,
        on_ring(r, sq(u) + sq(v)),
    ensures
        on_ring(r, cand_a(u, v)) || on_ring(r, cand_b(u, v)) || on_ring(r, cand_c(u, v)),
{
    let d = sq(u) + sq(v);
    let a = cand_a(u, v);
    let b = cand_b(u, v);
    let c = cand_c(u, v);
    assert(a == d + 2 * u + 1 && b == d + 2 * v + 1 && c == d + 2 * u + 2 * v + 2)
        by (nonlinear_arith)
        requires
            d == u * u + v * v,
            a == (u + 1) * (u + 1) + v * v,
            b == u * u + (v + 1) * (v + 1),
            c == (u + 1) * (u + 1) + (v + 1) * (v + 1),
    ;
    assert((r + 1) * (r + 1) == r * r + 2 * r + 1 && (r - 1) * (r - 1) == r * r - 2 * r + 1)
        by (nonlinear_arith);
    if a <= (r + 1) * (r + 1) {
        assert(on_ring(r, a));
    } else if b >= (r - 1) * (r - 1) {
        if v == 0 {
            assert(d <= r * r) by (nonlinear_arith)
                requires
                    d == u * u + v * v && v == 0 && 0 <= u <= r,
            ;
        }
        assert(on_ring(r, b));
    } else {
        assert(on_ring(r, c));
    }
}

/// Each step of the tracer stays on the ring: the chosen candidate is
/// at least as close to the radius as one that lies on it.
proof fn lemma_step_on_ring(r: int, u: int, v: int)
    requires
        1 <= r,
        0 <= u <= r,
        -r <= v <= 0,
        on_ring(r, sq(u) + sq(v)),
    ensures
        on_ring(r, sq(step_u(r, u, v)) + sq(step_v(r, u, v))),
{
    let a = cand_a(u, v);
    let b = cand_b(u, v);
    let c = cand_c(u, v);
    lemma_candidate_on_ring(r, u, v);
    assert(0 <= a && 0 <= b && 0 <= c) by (nonlinear_arith)
        requires
            a == (u + 1) * (u + 1) + v * v,
            b == u * u + (v + 1) * (v + 1),
            c == (u + 1) * (u + 1) + (v + 1) * (v + 1),
    ;
    if picks_a(r, u, v) {
        assert(sq(step_u(r, u, v)) + sq(step_v(r, u, v)) == a);
        if on_ring(r, b) {
            lemma_closer_on_ring(a, b, r);
        } else if on_ring(r, c) {
            lemma_closer_on_ring(a, c, r);
        }
    } else if picks_b(r, u, v) {
        assert(sq(step_u(r, u, v)) + sq(step_v(r, u, v)) == b);
        if on_ring(r, c) {
            lemma_closer_on_ring(b, c, r);
        } else if on_ring(r, a) && !on_ring(r, b) {
            if !closer(a, b, r) {
                lemma_closer_total(a, b, r);
                lemma_closer_on_ring(b, a, r);
            } else {
                lemma_closer_total(a, c, r);
                lemma_closer_on_ring(c, a, r);
                lemma_closer_on_ring(b, c, r);
            }
        }
    } else {
        assert(sq(step_u(r, u, v)) + sq(step_v(r, u, v)) == c);
        lemma_closer_total(b, c, r);
        if on_ring(r, b) {
            lemma_closer_on_ring(c, b, r);
        } else if on_ring(r, a) && !on_ring(r, c) {
            if !closer(a, c, r) {
                lemma_closer_total(a, c, r);
                lemma_closer_on_ring(c, a, r);
            } else {
                lemma_closer_total(a, b, r);
                lemma_closer_on_ring(b, a, r);
                lemma_closer_on_ring(c, b, r);
            }
        }
    }
}

/// Bounded rasterization error: every pixel the tracer writes has its
/// squared distance to the center within `[(r-1)^2, (r+1)^2]`, i.e. its
/// distance within one unit of the radius.
pub proof fn lemma_ring_pixels_on_ring(cx: int, cy: int, r: int, u: int, v: int)
    requires
        1 <= r,
        0 <= u <= r,
        -r <= v,
        v <= 0 ==> on_ring(r, sq(u) + sq(v)),
    ensures
        forall|j: int|
            0 <= j < ring_pixels(cx, cy, r, u, v).len() ==> on_ring(
                r,
                sq((#[trigger] ring_pixels(cx, cy, r, u, v)[j]).0 - cx) + sq(
                    ring_pixels(cx, cy, r, u, v)[j].1 - cy,
                ),
            ),
    decreases 2 * (1 - v) + (r - u),
{
    let s = ring_pixels(cx, cy, r, u, v);
    if v <= 0 {
        let u2 = step_u(r, u, v);
        let v2 = step_v(r, u, v);
        if u == r {
            lemma_rim_picks_b(r, u, v);
        }
        lemma_step_on_ring(r, u, v);
        lemma_ring_pixels_on_ring(cx, cy, r, u2, v2);
        let rest = ring_pixels(cx, cy, r, u2, v2);
        let g = seq![(cx + u, cy + v), (cx - u, cy + v), (cx + u, cy - v), (cx - u, cy - v)];
        assert(s == g + rest);
        assert((-u) * (-u) == u * u && (-v) * (-v) == v * v) by (nonlinear_arith);
        assert forall|j: int| 0 <= j < s.len() implies on_ring(
            r,
            sq((#[trigger] s[j]).0 - cx) + sq(s[j].1 - cy),
        ) by {
            if j < 4 {
                assert(s[j] == g[j]);
            } else {
                assert(s[j] == rest[j - 4]);
                assert(on_ring(r, sq(rest[j - 4].0 - cx) + sq(rest[j - 4].1 - cy)));
            }
        }
    }
}

} // verus!
