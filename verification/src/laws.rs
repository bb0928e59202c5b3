//! Laws of the bleeding pass, proved over [`crate::model`].
//!
//! The central tool is [`state_inv`], the shape every propagation state
//! keeps between rounds, established by the classification sweep
//! ([`lemma_seed_inv`]) and preserved by every round
//! ([`lemma_round_preserves_inv`]).

use crate::model::BleedState;
use crate::model::RingStep;
use crate::model::bleed_spec;
use crate::model::clear_pixel;
use crate::model::flat;
use crate::model::has_opaque_neighbor;
use crate::model::in_grid;
use crate::model::is_frontier;
use crate::model::is_opaque;
use crate::model::item_step;
use crate::model::lemma_flat_coords;
use crate::model::mark_ring;
use crate::model::nbr_in;
use crate::model::off_x;
use crate::model::off_y;
use crate::model::resolved_pixel;
use crate::model::ring_in_grid;
use crate::model::round_step;
use crate::model::run_ring;
use crate::model::run_rounds;
use crate::model::scan_nbrs;
use crate::model::seed_can;
use crate::model::seed_pixels;
use crate::model::seed_ring;
use crate::model::seed_state;
use crate::model::seed_visited;
use crate::model::within_reach;
use crate::raster::Rgba;
use crate::raster::lemma_flat_index_in_range;
use vstd::prelude::*;

verus! {

/// Flat index of the `q`-th queued pixel.
pub open spec fn ring_flat(w: int, ring: Seq<(usize, usize)>, q: int) -> int {
    flat(w, ring[q].0 as int, ring[q].1 as int)
}

/// `e` is one of the eight unclipped neighbors of (x, y).
pub open spec fn pushed_from(w: int, h: int, x: int, y: int, e: (usize, usize)) -> bool {
    exists|kk: int|
        0 <= kk < 8 && #[trigger] nbr_in(w, h, x, y, kk) && e.0 as int == x + off_x(kk)
            && e.1 as int == y + off_y(kk)
}

/// The shape a propagation state keeps between rounds, relative to the
/// original buffer `s`: opaque pixels are untouched, visited and
/// sampleable; transparent pixels keep alpha zero and, until they become
/// sampleable, stay cleared; and the queue holds only in-grid transparent
/// pixels that are visited but not yet sampleable.
pub open spec fn state_inv(s: Seq<Rgba>, w: int, h: int, st: BleedState) -> bool {
    &&& s.len() == w * h
    &&& st.px.len() == w * h
    &&& st.visited.len() == w * h
    &&& st.can.len() == w * h
    &&& forall|i: int|
        0 <= i < w * h && is_opaque(#[trigger] s[i]) ==> st.px[i] == s[i] && st.visited[i]
            && st.can[i]
    &&& forall|i: int| 0 <= i < w * h && !is_opaque(#[trigger] s[i]) ==> st.px[i].a == 0
    &&& forall|i: int|
        0 <= i < w * h && !is_opaque(#[trigger] s[i]) && !st.can[i] ==> st.px[i] == clear_pixel()
    &&& ring_in_grid(st.ring, w, h)
    &&& forall|q: int|
        0 <= q < st.ring.len() ==> 0 <= #[trigger] ring_flat(w, st.ring, q) < w * h && !is_opaque(
            s[ring_flat(w, st.ring, q)],
        ) && st.visited[ring_flat(w, st.ring, q)] && !st.can[ring_flat(w, st.ring, q)]
}

/// What one neighbor scan does to the visited flags and the queue: both
/// only grow, and everything newly queued is an unclipped neighbor of
/// (x, y) that was neither sampleable nor visited before.
proof fn lemma_scan_props(
    px: Seq<Rgba>,
    can: Seq<bool>,
    v0: Seq<bool>,
    r0: Seq<(usize, usize)>,
    w: int,
    h: int,
    x: int,
    y: int,
    k: int,
)
    requires
        0 <= k <= 8,
        can.len() == w * h,
        v0.len() == w * h,
        in_grid(w, h, x, y),
        0 <= w <= usize::MAX,
        0 <= h <= usize::MAX,
    ensures
        ({
            let sc = scan_nbrs(px, can, v0, r0, w, h, x, y, k);
            &&& sc.visited.len() == w * h
            &&& forall|i: int| 0 <= i < w * h && v0[i] ==> sc.visited[i]
            &&& sc.ring.len() >= r0.len()
            &&& forall|q: int| 0 <= q < r0.len() ==> sc.ring[q] == r0[q]
            &&& forall|q: int|
                r0.len() <= q < sc.ring.len() ==> in_grid(
                    w,
                    h,
                    (#[trigger] sc.ring[q]).0 as int,
                    sc.ring[q].1 as int,
                ) && 0 <= ring_flat(w, sc.ring, q) < w * h && !can[ring_flat(w, sc.ring, q)]
                    && !v0[ring_flat(w, sc.ring, q)] && sc.visited[ring_flat(w, sc.ring, q)]
                    && pushed_from(w, h, x, y, sc.ring[q])
        }),
    decreases k,
{
    if k > 0 {
        lemma_scan_props(px, can, v0, r0, w, h, x, y, k - 1);
        let prev = scan_nbrs(px, can, v0, r0, w, h, x, y, k - 1);
        let sc = scan_nbrs(px, can, v0, r0, w, h, x, y, k);
        if nbr_in(w, h, x, y, k - 1) {
            let nx = x + off_x(k - 1);
            let ny = y + off_y(k - 1);
            let ni = flat(w, nx, ny);
            lemma_flat_index_in_range(w, h, nx, ny);
            if !can[ni] && !prev.visited[ni] {
                assert forall|q: int| r0.len() <= q < sc.ring.len() implies in_grid(
                    w,
                    h,
                    (#[trigger] sc.ring[q]).0 as int,
                    sc.ring[q].1 as int,
                ) && 0 <= ring_flat(w, sc.ring, q) < w * h && !can[ring_flat(w, sc.ring, q)]
                    && !v0[ring_flat(w, sc.ring, q)] && sc.visited[ring_flat(w, sc.ring, q)]
                    && pushed_from(w, h, x, y, sc.ring[q]) by {
                    if q < prev.ring.len() {
                        assert(sc.ring[q] == prev.ring[q]);
                        assert(ring_flat(w, sc.ring, q) == ring_flat(w, prev.ring, q));
                    } else {
                        assert(sc.ring[q] == ((nx as usize, ny as usize)));
                        assert(ring_flat(w, sc.ring, q) == ni);
                        assert(nbr_in(w, h, x, y, k - 1));
                        assert(pushed_from(w, h, x, y, sc.ring[q]));
                    }
                }
            }
        }
    }
}

/// What resolving the first `j` queued pixels of a round does: opaque
/// pixels and visited flags are preserved, resolved pixels keep alpha
/// zero, only queued pixels are rewritten, and the queue built for the
/// next round holds fresh unclipped neighbors of processed pixels.
proof fn lemma_run_ring_props(
    s: Seq<Rgba>,
    can: Seq<bool>,
    px0: Seq<Rgba>,
    v0: Seq<bool>,
    w: int,
    h: int,
    rv: Seq<(usize, usize)>,
    j: int,
)
    requires
        0 <= j <= rv.len(),
        s.len() == w * h,
        px0.len() == w * h,
        v0.len() == w * h,
        can.len() == w * h,
        0 <= w <= usize::MAX,
        0 <= h <= usize::MAX,
        forall|i: int|
            0 <= i < w * h && is_opaque(#[trigger] s[i]) ==> can[i] && v0[i] && px0[i] == s[i],
        forall|i: int| 0 <= i < w * h && !is_opaque(#[trigger] s[i]) ==> px0[i].a == 0,
        ring_in_grid(rv, w, h),
        forall|q: int|
            0 <= q < rv.len() ==> 0 <= #[trigger] ring_flat(w, rv, q) < w * h && v0[ring_flat(
                w,
                rv,
                q,
            )] && !is_opaque(s[ring_flat(w, rv, q)]),
    ensures
        ({
            let out = run_ring(
                can,
                RingStep { px: px0, visited: v0, ring: Seq::empty() },
                w,
                h,
                rv,
                j,
            );
            &&& out.px.len() == w * h
            &&& out.visited.len() == w * h
            &&& forall|i: int| 0 <= i < w * h && is_opaque(#[trigger] s[i]) ==> out.px[i] == s[i]
            &&& forall|i: int| 0 <= i < w * h && !is_opaque(#[trigger] s[i]) ==> out.px[i].a == 0
            &&& forall|i: int| 0 <= i < w * h && v0[i] ==> out.visited[i]
            &&& ring_in_grid(out.ring, w, h)
            &&& forall|q: int|
                0 <= q < out.ring.len() ==> 0 <= #[trigger] ring_flat(w, out.ring, q) < w * h
                    && !can[ring_flat(w, out.ring, q)] && !v0[ring_flat(w, out.ring, q)]
                    && out.visited[ring_flat(w, out.ring, q)] && (exists|jj: int|
                    0 <= jj < j && pushed_from(
                        w,
                        h,
                        rv[jj].0 as int,
                        rv[jj].1 as int,
                        #[trigger] out.ring[q],
                    ))
            &&& forall|i: int|
                0 <= i < w * h && #[trigger] out.px[i] != px0[i] ==> exists|qq: int|
                    0 <= qq < j && ring_flat(w, rv, qq) == i
        }),
    decreases j,
{
    if j > 0 {
        lemma_run_ring_props(s, can, px0, v0, w, h, rv, j - 1);
        let prev = run_ring(can, RingStep { px: px0, visited: v0, ring: Seq::empty() }, w, h, rv, j - 1);
        let out = run_ring(can, RingStep { px: px0, visited: v0, ring: Seq::empty() }, w, h, rv, j);
        let x = rv[j - 1].0 as int;
        let y = rv[j - 1].1 as int;
        let fi = ring_flat(w, rv, j - 1);
        lemma_scan_props(prev.px, can, prev.visited, prev.ring, w, h, x, y, 8);
        let sc = scan_nbrs(prev.px, can, prev.visited, prev.ring, w, h, x, y, 8);
        assert(out == item_step(can, prev, w, h, x, y));
        assert(out.px == prev.px.update(fi, resolved_pixel(sc)));
        assert forall|q: int| 0 <= q < out.ring.len() implies 0 <= #[trigger] ring_flat(
            w,
            out.ring,
            q,
        ) < w * h && !can[ring_flat(w, out.ring, q)] && !v0[ring_flat(w, out.ring, q)]
            && out.visited[ring_flat(w, out.ring, q)] && (exists|jj: int|
            0 <= jj < j && pushed_from(
                w,
                h,
                rv[jj].0 as int,
                rv[jj].1 as int,
                #[trigger] out.ring[q],
            )) by {
            if q < prev.ring.len() {
                assert(out.ring[q] == prev.ring[q]);
                assert(ring_flat(w, out.ring, q) == ring_flat(w, prev.ring, q));
                let jj = choose|jj: int|
                    0 <= jj < j - 1 && pushed_from(
                        w,
                        h,
                        rv[jj].0 as int,
                        rv[jj].1 as int,
                        prev.ring[q],
                    );
                assert(pushed_from(w, h, rv[jj].0 as int, rv[jj].1 as int, out.ring[q]));
            } else {
                assert(ring_flat(w, out.ring, q) == flat(
                    w,
                    out.ring[q].0 as int,
                    out.ring[q].1 as int,
                ));
                assert(!prev.visited[ring_flat(w, out.ring, q)]);
                assert(pushed_from(w, h, x, y, out.ring[q]));
            }
        }
        assert forall|q: int| 0 <= q < out.ring.len() implies in_grid(
            w,
            h,
            (#[trigger] out.ring[q]).0 as int,
            out.ring[q].1 as int,
        ) by {
            if q < prev.ring.len() {
                assert(out.ring[q] == prev.ring[q]);
                assert(in_grid(w, h, prev.ring[q].0 as int, prev.ring[q].1 as int));
            }
        }
        assert forall|i: int| 0 <= i < w * h && #[trigger] out.px[i] != px0[i] implies exists|qq: int|
            0 <= qq < j && ring_flat(w, rv, qq) == i by {
            if i != fi {
                assert(out.px[i] == prev.px[i]);
            } else {
                assert(ring_flat(w, rv, j - 1) == i);
            }
        }
    }
}

/// What promoting a finished round does to the sampleable flags: a pixel
/// is sampleable afterwards iff it was before or it sits in the round.
proof fn lemma_mark_ring_char(can0: Seq<bool>, w: int, rv: Seq<(usize, usize)>, j: int)
    requires
        0 <= j <= rv.len(),
        forall|q: int| 0 <= q < rv.len() ==> 0 <= #[trigger] ring_flat(w, rv, q) < can0.len(),
    ensures
        ({
            let mc = mark_ring(can0, w, rv, j);
            &&& mc.len() == can0.len()
            &&& forall|i: int|
                0 <= i < can0.len() ==> ((#[trigger] mc[i]) <==> (can0[i] || exists|q: int|
                    0 <= q < j && ring_flat(w, rv, q) == i))
        }),
    decreases j,
{
    if j > 0 {
        lemma_mark_ring_char(can0, w, rv, j - 1);
        let pm = mark_ring(can0, w, rv, j - 1);
        let mc = mark_ring(can0, w, rv, j);
        let fi = ring_flat(w, rv, j - 1);
        assert(mc == pm.update(fi, true));
        assert forall|i: int| 0 <= i < can0.len() implies ((#[trigger] mc[i]) <==> (can0[i]
            || exists|q: int| 0 <= q < j && ring_flat(w, rv, q) == i)) by {
            if i == fi {
                assert(ring_flat(w, rv, j - 1) == i);
            } else {
                assert(mc[i] == pm[i]);
                if pm[i] && !can0[i] {
                    let q = choose|q: int| 0 <= q < j - 1 && ring_flat(w, rv, q) == i;
                    assert(0 <= q < j && ring_flat(w, rv, q) == i);
                }
            }
        }
    }
}

/// One round preserves the state shape, and sampleable flags only grow.
proof fn lemma_round_preserves_inv(s: Seq<Rgba>, w: int, h: int, st: BleedState)
    requires
        state_inv(s, w, h, st),
        0 <= w <= usize::MAX,
        0 <= h <= usize::MAX,
    ensures
        state_inv(s, w, h, round_step(st, w, h)),
        forall|i: int| 0 <= i < w * h && st.can[i] ==> #[trigger] round_step(st, w, h).can[i],
{
    let rv = st.ring;
    let jn = rv.len() as int;
    lemma_run_ring_props(s, st.can, st.px, st.visited, w, h, rv, jn);
    lemma_mark_ring_char(st.can, w, rv, jn);
    let out = run_ring(
        st.can,
        RingStep { px: st.px, visited: st.visited, ring: Seq::empty() },
        w,
        h,
        rv,
        jn,
    );
    let mc = mark_ring(st.can, w, rv, jn);
    let ns = round_step(st, w, h);
    assert(ns == BleedState { px: out.px, visited: out.visited, can: mc, ring: out.ring });
    assert forall|i: int|
        0 <= i < w * h && !is_opaque(#[trigger] s[i]) && !mc[i] implies out.px[i]
        == clear_pixel() by {
        assert(!st.can[i]);
        assert(forall|q: int| 0 <= q < jn ==> #[trigger] ring_flat(w, rv, q) != i);
        assert(out.px[i] == st.px[i]);
    }
    assert forall|q: int| 0 <= q < ns.ring.len() implies 0 <= #[trigger] ring_flat(
        w,
        ns.ring,
        q,
    ) < w * h && !is_opaque(s[ring_flat(w, ns.ring, q)]) && ns.visited[ring_flat(w, ns.ring, q)]
        && !ns.can[ring_flat(w, ns.ring, q)] by {
        let fi = ring_flat(w, ns.ring, q);
        assert(!st.can[fi] && !st.visited[fi]);
        assert(!is_opaque(s[fi]));
        assert(forall|qq: int| 0 <= qq < jn ==> #[trigger] ring_flat(w, rv, qq) != fi);
        assert(!mc[fi]);
    }
}

/// Any number of rounds preserves the state shape.
proof fn lemma_rounds_preserve_inv(s: Seq<Rgba>, w: int, h: int, st: BleedState, t: int)
    requires
        state_inv(s, w, h, st),
        0 <= w <= usize::MAX,
        0 <= h <= usize::MAX,
    ensures
        state_inv(s, w, h, run_rounds(st, w, h, t)),
    decreases t,
{
    if t <= 0 || st.ring.len() == 0 {
    } else {
        lemma_round_preserves_inv(s, w, h, st);
        lemma_rounds_preserve_inv(s, w, h, round_step(st, w, h), t - 1);
    }
}

/// Every queued seed pixel is a frontier pixel of the grid.
proof fn lemma_seed_ring_elems(s: Seq<Rgba>, w: int, h: int, n: int)
    requires
        0 <= n <= w * h,
        s.len() == w * h,
        0 <= w <= usize::MAX,
        0 <= h <= usize::MAX,
    ensures
        ({
            let rg = seed_ring(s, w, h, n);
            &&& ring_in_grid(rg, w, h)
            &&& forall|q: int|
                0 <= q < rg.len() ==> is_frontier(
                    s,
                    w,
                    h,
                    (#[trigger] rg[q]).0 as int,
                    rg[q].1 as int,
                ) && 0 <= ring_flat(w, rg, q) < n
        }),
    decreases n,
{
    if n > 0 {
        lemma_seed_ring_elems(s, w, h, n - 1);
        let i = n - 1;
        assert(w > 0) by (nonlinear_arith)
            requires
                0 < n <= w * h,
                0 <= h,
        ;
        assert(0 <= i % w < w && 0 <= i / w < h && (i / w) * w + i % w == i) by (nonlinear_arith)
            requires
                w > 0,
                0 <= i < w * h,
                0 <= h,
        ;
        let rg = seed_ring(s, w, h, n);
        let pr = seed_ring(s, w, h, n - 1);
        if is_frontier(s, w, h, i % w, i / w) {
            assert forall|q: int| 0 <= q < rg.len() implies is_frontier(
                s,
                w,
                h,
                (#[trigger] rg[q]).0 as int,
                rg[q].1 as int,
            ) && 0 <= ring_flat(w, rg, q) < n by {
                if q < pr.len() {
                    assert(rg[q] == pr[q]);
                    assert(ring_flat(w, rg, q) == ring_flat(w, pr, q));
                } else {
                    assert(rg[q] == (((i % w) as usize, (i / w) as usize)));
                    assert(ring_flat(w, rg, q) == i);
                }
            }
        }
    }
}

/// The classification sweep establishes the state shape.
proof fn lemma_seed_inv(s: Seq<Rgba>, w: int, h: int)
    requires
        s.len() == w * h,
        0 <= w <= usize::MAX,
        0 <= h <= usize::MAX,
    ensures
        state_inv(s, w, h, seed_state(s, w, h)),
{
    lemma_seed_ring_elems(s, w, h, s.len() as int);
    let st = seed_state(s, w, h);
    assert forall|q: int| 0 <= q < st.ring.len() implies 0 <= #[trigger] ring_flat(
        w,
        st.ring,
        q,
    ) < w * h && !is_opaque(s[ring_flat(w, st.ring, q)]) && st.visited[ring_flat(w, st.ring, q)]
        && !st.can[ring_flat(w, st.ring, q)] by {
        let x = st.ring[q].0 as int;
        let y = st.ring[q].1 as int;
        assert(is_frontier(s, w, h, x, y));
        lemma_flat_coords(w, h, x, y);
        let fi = ring_flat(w, st.ring, q);
        assert(fi == flat(w, x, y));
        assert(fi % w == x && fi / w == y);
        assert(seed_visited(s, w, h)[fi] == (is_opaque(s[fi]) || is_frontier(
            s,
            w,
            h,
            fi % w,
            fi / w,
        )));
    }
}

/// Law: bleeding leaves every originally opaque pixel byte-for-byte
/// unchanged, and every other pixel ends with alpha exactly zero.
pub proof fn lemma_alpha_invariant(s: Seq<Rgba>, w: int, h: int, t: int)
    requires
        s.len() == w * h,
        0 <= w <= usize::MAX,
        0 <= h <= usize::MAX,
    ensures
        bleed_spec(s, w, h, t).len() == s.len(),
        forall|i: int|
            0 <= i < s.len() && is_opaque(#[trigger] s[i]) ==> bleed_spec(s, w, h, t)[i] == s[i],
        forall|i: int|
            0 <= i < s.len() && !is_opaque(#[trigger] s[i]) ==> bleed_spec(s, w, h, t)[i].a == 0,
{
    lemma_seed_inv(s, w, h);
    lemma_rounds_preserve_inv(s, w, h, seed_state(s, w, h), t);
}

/// Running `a + b` rounds is running `a` rounds, then `b` more.
proof fn lemma_rounds_compose(st: BleedState, w: int, h: int, a: int, b: int)
    requires
        0 <= a,
        0 <= b,
    ensures
        run_rounds(st, w, h, a + b) == run_rounds(run_rounds(st, w, h, a), w, h, b),
    decreases a,
{
    if st.ring.len() == 0 {
    } else if a > 0 {
        lemma_rounds_compose(round_step(st, w, h), w, h, a - 1, b);
    }
}

/// A pixel sampleable now is still sampleable any number of rounds later.
proof fn lemma_rounds_can_grow(s: Seq<Rgba>, w: int, h: int, st: BleedState, t: int)
    requires
        state_inv(s, w, h, st),
        0 <= w <= usize::MAX,
        0 <= h <= usize::MAX,
    ensures
        forall|i: int|
            0 <= i < w * h && #[trigger] st.can[i] ==> run_rounds(st, w, h, t).can[i],
    decreases t,
{
    if t <= 0 || st.ring.len() == 0 {
    } else {
        lemma_round_preserves_inv(s, w, h, st);
        lemma_rounds_can_grow(s, w, h, round_step(st, w, h), t - 1);
        assert forall|i: int| 0 <= i < w * h && #[trigger] st.can[i] implies run_rounds(
            st,
            w,
            h,
            t,
        ).can[i] by {
            assert(round_step(st, w, h).can[i]);
            assert(run_rounds(round_step(st, w, h), w, h, t - 1).can[i]);
        }
    }
}

/// Law: the set of sampleable pixels after round `k` contains the set
/// after round `k - 1`.
pub proof fn lemma_sampleable_monotonic(s: Seq<Rgba>, w: int, h: int, k: int)
    requires
        s.len() == w * h,
        0 <= w <= usize::MAX,
        0 <= h <= usize::MAX,
        1 <= k,
    ensures
        forall|i: int|
            0 <= i < w * h && #[trigger] run_rounds(seed_state(s, w, h), w, h, k - 1).can[i]
                ==> run_rounds(seed_state(s, w, h), w, h, k).can[i],
{
    let st = seed_state(s, w, h);
    let mid = run_rounds(st, w, h, k - 1);
    lemma_seed_inv(s, w, h);
    lemma_rounds_preserve_inv(s, w, h, st, k - 1);
    lemma_rounds_compose(st, w, h, k - 1, 1);
    lemma_rounds_can_grow(s, w, h, mid, 1);
}

/// Law: zero thickness performs the classification sweep alone: every
/// opaque pixel is kept, every transparent pixel is cleared, and no
/// propagation happens.
pub proof fn lemma_zero_thickness(s: Seq<Rgba>, w: int, h: int)
    ensures
        bleed_spec(s, w, h, 0) == seed_pixels(s),
        forall|i: int|
            0 <= i < s.len() ==> bleed_spec(s, w, h, 0)[i] == (if is_opaque(#[trigger] s[i]) {
                s[i]
            } else {
                clear_pixel()
            }),
{
}

/// Whether a pixel is on the frontier depends only on the opacity pattern.
proof fn lemma_frontier_congruent(s1: Seq<Rgba>, s2: Seq<Rgba>, w: int, h: int, x: int, y: int)
    requires
        s1.len() == w * h,
        s2.len() == w * h,
        forall|i: int| 0 <= i < w * h ==> is_opaque(#[trigger] s1[i]) == is_opaque(s2[i]),
        in_grid(w, h, x, y),
    ensures
        is_frontier(s1, w, h, x, y) == is_frontier(s2, w, h, x, y),
{
    lemma_flat_index_in_range(w, h, x, y);
    if has_opaque_neighbor(s1, w, h, x, y) {
        let kk = choose|kk: int|
            0 <= kk < 8 && #[trigger] nbr_in(w, h, x, y, kk) && is_opaque(
                s1[flat(w, x + off_x(kk), y + off_y(kk))],
            );
        lemma_flat_index_in_range(w, h, x + off_x(kk), y + off_y(kk));
        assert(is_opaque(s2[flat(w, x + off_x(kk), y + off_y(kk))]));
        assert(has_opaque_neighbor(s2, w, h, x, y));
    }
    if has_opaque_neighbor(s2, w, h, x, y) {
        let kk = choose|kk: int|
            0 <= kk < 8 && #[trigger] nbr_in(w, h, x, y, kk) && is_opaque(
                s2[flat(w, x + off_x(kk), y + off_y(kk))],
            );
        lemma_flat_index_in_range(w, h, x + off_x(kk), y + off_y(kk));
        assert(is_opaque(s1[flat(w, x + off_x(kk), y + off_y(kk))]));
        assert(has_opaque_neighbor(s1, w, h, x, y));
    }
}

/// The seed queue depends only on the opacity pattern.
proof fn lemma_seed_ring_congruent(s1: Seq<Rgba>, s2: Seq<Rgba>, w: int, h: int, n: int)
    requires
        0 <= n <= w * h,
        0 <= h,
        s1.len() == w * h,
        s2.len() == w * h,
        forall|i: int| 0 <= i < w * h ==> is_opaque(#[trigger] s1[i]) == is_opaque(s2[i]),
    ensures
        seed_ring(s1, w, h, n) == seed_ring(s2, w, h, n),
    decreases n,
{
    if n > 0 {
        lemma_seed_ring_congruent(s1, s2, w, h, n - 1);
        let i = n - 1;
        assert(w > 0) by (nonlinear_arith)
            requires
                0 < n <= w * h,
                0 <= h,
        ;
        assert(0 <= i % w < w && 0 <= i / w < h) by (nonlinear_arith)
            requires
                w > 0,
                0 <= i < w * h,
                0 <= h,
        ;
        lemma_frontier_congruent(s1, s2, w, h, i % w, i / w);
    }
}

/// Law (congruence): the bleed result is a function of the dimensions,
/// the thickness, and the opaque pixels alone.
pub proof fn lemma_opaque_congruence(s1: Seq<Rgba>, s2: Seq<Rgba>, w: int, h: int, t: int)
    requires
        s1.len() == w * h,
        s2.len() == w * h,
        0 <= w <= usize::MAX,
        0 <= h <= usize::MAX,
        forall|i: int| 0 <= i < w * h ==> is_opaque(#[trigger] s1[i]) == is_opaque(s2[i]),
        forall|i: int| 0 <= i < w * h && is_opaque(#[trigger] s1[i]) ==> s1[i] == s2[i],
    ensures
        bleed_spec(s1, w, h, t) == bleed_spec(s2, w, h, t),
{
    assert(seed_pixels(s1) =~= seed_pixels(s2));
    assert(seed_can(s1) =~= seed_can(s2));
    assert forall|i: int| 0 <= i < w * h implies seed_visited(s1, w, h)[i] == seed_visited(
        s2,
        w,
        h,
    )[i] by {
        assert(w > 0) by (nonlinear_arith)
            requires
                0 <= i < w * h,
                0 <= h,
        ;
        assert(0 <= i % w < w && 0 <= i / w < h) by (nonlinear_arith)
            requires
                w > 0,
                0 <= i < w * h,
                0 <= h,
        ;
        lemma_frontier_congruent(s1, s2, w, h, i % w, i / w);
    }
    assert(seed_visited(s1, w, h) =~= seed_visited(s2, w, h));
    lemma_seed_ring_congruent(s1, s2, w, h, s1.len() as int);
    assert(seed_state(s1, w, h) == seed_state(s2, w, h));
}

/// Law: bleeding an already-bled buffer again, with the same thickness,
/// changes nothing.
pub proof fn lemma_bleed_idempotent(s: Seq<Rgba>, w: int, h: int, t: int)
    requires
        s.len() == w * h,
        0 <= w <= usize::MAX,
        0 <= h <= usize::MAX,
    ensures
        bleed_spec(bleed_spec(s, w, h, t), w, h, t) == bleed_spec(s, w, h, t),
{
    let b = bleed_spec(s, w, h, t);
    lemma_alpha_invariant(s, w, h, t);
    assert forall|i: int| 0 <= i < w * h implies is_opaque(#[trigger] b[i]) == is_opaque(s[i]) by {
        if is_opaque(s[i]) {
            assert(b[i] == s[i]);
        } else {
            assert(b[i].a == 0);
        }
    }
    lemma_opaque_congruence(b, s, w, h, t);
}

/// Reachability within `d1` steps implies reachability within any `d2 >= d1`.
proof fn lemma_within_reach_mono(s: Seq<Rgba>, w: int, h: int, x: int, y: int, d1: int, d2: int)
    requires
        within_reach(s, w, h, x, y, d1),
        d1 <= d2,
    ensures
        within_reach(s, w, h, x, y, d2),
    decreases (if d1 > 0 { d1 } else { 0 }),
{
    if !is_opaque(s[flat(w, x, y)]) {
        let kk = choose|kk: int|
            0 <= kk < 8 && #[trigger] nbr_in(w, h, x, y, kk) && within_reach(
                s,
                w,
                h,
                x + off_x(kk),
                y + off_y(kk),
                d1 - 1,
            );
        lemma_within_reach_mono(s, w, h, x + off_x(kk), y + off_y(kk), d1 - 1, d2 - 1);
        assert(nbr_in(w, h, x, y, kk));
    }
}

/// The eight neighbor offsets come in opposite pairs.
proof fn lemma_offset_symmetry(k: int)
    requires
        0 <= k < 8,
    ensures
        off_x(7 - k) == -off_x(k),
        off_y(7 - k) == -off_y(k),
{
}

/// Stepping to a neighbor costs one unit of reach.
proof fn lemma_reach_step(s: Seq<Rgba>, w: int, h: int, x: int, y: int, k: int, d: int)
    requires
        in_grid(w, h, x, y),
        0 <= k < 8,
        nbr_in(w, h, x, y, k),
        within_reach(s, w, h, x, y, d),
        0 <= d,
    ensures
        within_reach(s, w, h, x + off_x(k), y + off_y(k), d + 1),
{
    lemma_offset_symmetry(k);
    let nx = x + off_x(k);
    let ny = y + off_y(k);
    assert(nx + off_x(7 - k) == x && ny + off_y(7 - k) == y);
    assert(nbr_in(w, h, nx, ny, 7 - k));
    assert(within_reach(s, w, h, nx + off_x(7 - k), ny + off_y(7 - k), d));
}

/// Distance accounting across rounds: after `k` rounds every sampleable
/// pixel lies within `k` steps of the opaque region, and every queued
/// pixel within `k + 1`.
pub open spec fn reach_inv(s: Seq<Rgba>, w: int, h: int, k: int, st: BleedState) -> bool {
    &&& forall|i: int|
        0 <= i < w * h && #[trigger] st.can[i] ==> within_reach(s, w, h, i % w, i / w, k)
    &&& forall|q: int|
        0 <= q < st.ring.len() ==> within_reach(
            s,
            w,
            h,
            (#[trigger] st.ring[q]).0 as int,
            st.ring[q].1 as int,
            k + 1,
        )
}

/// Weakening the distance bound keeps the accounting valid.
proof fn lemma_reach_inv_mono(s: Seq<Rgba>, w: int, h: int, k1: int, k2: int, st: BleedState)
    requires
        reach_inv(s, w, h, k1, st),
        k1 <= k2,
    ensures
        reach_inv(s, w, h, k2, st),
{
    assert forall|i: int| 0 <= i < w * h && #[trigger] st.can[i] implies within_reach(
        s,
        w,
        h,
        i % w,
        i / w,
        k2,
    ) by {
        lemma_within_reach_mono(s, w, h, i % w, i / w, k1, k2);
    }
    assert forall|q: int| 0 <= q < st.ring.len() implies within_reach(
        s,
        w,
        h,
        (#[trigger] st.ring[q]).0 as int,
        st.ring[q].1 as int,
        k2 + 1,
    ) by {
        lemma_within_reach_mono(s, w, h, st.ring[q].0 as int, st.ring[q].1 as int, k1 + 1, k2 + 1);
    }
}

/// The classification sweep establishes the distance accounting at zero.
proof fn lemma_seed_reach(s: Seq<Rgba>, w: int, h: int)
    requires
        s.len() == w * h,
        0 <= w <= usize::MAX,
        0 <= h <= usize::MAX,
    ensures
        reach_inv(s, w, h, 0, seed_state(s, w, h)),
{
    let st = seed_state(s, w, h);
    lemma_seed_ring_elems(s, w, h, s.len() as int);
    assert forall|i: int| 0 <= i < w * h && #[trigger] st.can[i] implies within_reach(
        s,
        w,
        h,
        i % w,
        i / w,
        0,
    ) by {
        assert(w > 0 && 0 <= i % w < w && 0 <= i / w < h && (i / w) * w + i % w == i)
            by (nonlinear_arith)
            requires
                0 <= i < w * h,
                0 <= h,
        ;
        assert(flat(w, i % w, i / w) == i);
        assert(is_opaque(s[i]));
    }
    assert forall|q: int| 0 <= q < st.ring.len() implies within_reach(
        s,
        w,
        h,
        (#[trigger] st.ring[q]).0 as int,
        st.ring[q].1 as int,
        1,
    ) by {
        let x = st.ring[q].0 as int;
        let y = st.ring[q].1 as int;
        assert(is_frontier(s, w, h, x, y));
        let kk = choose|kk: int|
            0 <= kk < 8 && #[trigger] nbr_in(w, h, x, y, kk) && is_opaque(
                s[flat(w, x + off_x(kk), y + off_y(kk))],
            );
        assert(within_reach(s, w, h, x + off_x(kk), y + off_y(kk), 0));
        assert(nbr_in(w, h, x, y, kk));
    }
}

/// One round advances the distance accounting by one step.
proof fn lemma_round_reach(s: Seq<Rgba>, w: int, h: int, k: int, st: BleedState)
    requires
        state_inv(s, w, h, st),
        reach_inv(s, w, h, k, st),
        0 <= k,
        0 <= w <= usize::MAX,
        0 <= h <= usize::MAX,
    ensures
        reach_inv(s, w, h, k + 1, round_step(st, w, h)),
{
    let rv = st.ring;
    let jn = rv.len() as int;
    lemma_run_ring_props(s, st.can, st.px, st.visited, w, h, rv, jn);
    lemma_mark_ring_char(st.can, w, rv, jn);
    let ns = round_step(st, w, h);
    assert forall|i: int| 0 <= i < w * h && #[trigger] ns.can[i] implies within_reach(
        s,
        w,
        h,
        i % w,
        i / w,
        k + 1,
    ) by {
        if st.can[i] {
            lemma_within_reach_mono(s, w, h, i % w, i / w, k, k + 1);
        } else {
            let q = choose|q: int| 0 <= q < jn && #[trigger] ring_flat(w, rv, q) == i;
            let x = rv[q].0 as int;
            let y = rv[q].1 as int;
            lemma_flat_coords(w, h, x, y);
            assert(i % w == x && i / w == y);
        }
    }
    assert forall|q: int| 0 <= q < ns.ring.len() implies within_reach(
        s,
        w,
        h,
        (#[trigger] ns.ring[q]).0 as int,
        ns.ring[q].1 as int,
        k + 2,
    ) by {
        let fi = ring_flat(w, ns.ring, q);
        assert(0 <= fi < w * h);
        let jj = choose|jj: int|
            0 <= jj < jn && pushed_from(w, h, rv[jj].0 as int, rv[jj].1 as int, ns.ring[q]);
        let x = rv[jj].0 as int;
        let y = rv[jj].1 as int;
        let kk = choose|kk: int|
            0 <= kk < 8 && #[trigger] nbr_in(w, h, x, y, kk) && ns.ring[q].0 as int == x + off_x(
                kk,
            ) && ns.ring[q].1 as int == y + off_y(kk);
        lemma_reach_step(s, w, h, x, y, kk, k + 1);
    }
}

/// `t` rounds advance the distance accounting by at most `t` steps.
proof fn lemma_rounds_reach(s: Seq<Rgba>, w: int, h: int, st: BleedState, k: int, t: int)
    requires
        state_inv(s, w, h, st),
        reach_inv(s, w, h, k, st),
        0 <= k,
        0 <= t,
        0 <= w <= usize::MAX,
        0 <= h <= usize::MAX,
    ensures
        state_inv(s, w, h, run_rounds(st, w, h, t)),
        reach_inv(s, w, h, k + t, run_rounds(st, w, h, t)),
    decreases t,
{
    if t <= 0 || st.ring.len() == 0 {
        lemma_reach_inv_mono(s, w, h, k, k + t, st);
    } else {
        lemma_round_preserves_inv(s, w, h, st);
        lemma_round_reach(s, w, h, k, st);
        lemma_rounds_reach(s, w, h, round_step(st, w, h), k + 1, t - 1);
    }
}

/// Law: a pixel farther than `t` 8-connected steps from every opaque
/// pixel stays exactly cleared: its output is (0, 0, 0, 0).
pub proof fn lemma_bounded_spread(s: Seq<Rgba>, w: int, h: int, t: int)
    requires
        s.len() == w * h,
        0 <= t,
        0 <= w <= usize::MAX,
        0 <= h <= usize::MAX,
    ensures
        forall|x: int, y: int|
            in_grid(w, h, x, y) && !within_reach(s, w, h, x, y, t) ==> bleed_spec(
                s,
                w,
                h,
                t,
            )[#[trigger] flat(w, x, y)] == clear_pixel(),
{
    let st = seed_state(s, w, h);
    lemma_seed_inv(s, w, h);
    lemma_seed_reach(s, w, h);
    lemma_rounds_reach(s, w, h, st, 0, t);
    let fin = run_rounds(st, w, h, t);
    assert forall|x: int, y: int|
        in_grid(w, h, x, y) && !within_reach(s, w, h, x, y, t) implies bleed_spec(
        s,
        w,
        h,
        t,
    )[#[trigger] flat(w, x, y)] == clear_pixel() by {
        lemma_flat_coords(w, h, x, y);
        let i = flat(w, x, y);
        assert(!is_opaque(s[i]));
        if fin.can[i] {
            assert(within_reach(s, w, h, i % w, i / w, t));
        }
        assert(!fin.can[i]);
    }
}

} // verus!
