//! The mathematical model of alpha bleeding.
//!
//! [`bleed_spec`] gives the exact value of the raster after a bleed: a
//! classification sweep ([`seed_state`]) followed by up to `t` breadth-first
//! rounds ([`run_rounds`]). The executable code in [`crate::bleed`] is proved
//! to compute precisely this function, and the laws in [`crate::laws`] are
//! proved about it.

use crate::raster::Rgba;
use vstd::prelude::*;

verus! {

/// A pixel is a color source for its neighborhood iff its alpha is nonzero.
pub open spec fn is_opaque(p: Rgba) -> bool {
    p.a != 0
}

/// The cleared value written over every transparent cell.
pub open spec fn clear_pixel() -> Rgba {
    Rgba { r: 0, g: 0, b: 0, a: 0 }
}

/// Row-major flat index of column `x`, row `y`.
pub open spec fn flat(w: int, x: int, y: int) -> int {
    y * w + x
}

/// The coordinate pair lies inside a `w` x `h` grid.
pub open spec fn in_grid(w: int, h: int, x: int, y: int) -> bool {
    0 <= x < w && 0 <= y < h
}

/// Column offset of the `k`-th of the eight neighbors, scanned row-major
/// over the 3x3 block around a pixel, the pixel itself skipped.
pub open spec fn off_x(k: int) -> int {
    if k == 0 {
        -1
    } else if k == 1 {
        0
    } else if k == 2 {
        1
    } else if k == 3 {
        -1
    } else if k == 4 {
        1
    } else if k == 5 {
        -1
    } else if k == 6 {
        0
    } else {
        1
    }
}

/// Row offset of the `k`-th of the eight neighbors.
pub open spec fn off_y(k: int) -> int {
    if k == 0 {
        -1
    } else if k == 1 {
        -1
    } else if k == 2 {
        -1
    } else if k == 3 {
        0
    } else if k == 4 {
        0
    } else {
        1
    }
}

/// The `k`-th neighbor of (x, y) is not clipped away by the grid border.
pub open spec fn nbr_in(w: int, h: int, x: int, y: int, k: int) -> bool {
    in_grid(w, h, x + off_x(k), y + off_y(k))
}

/// Some unclipped neighbor of (x, y) is opaque.
pub open spec fn has_opaque_neighbor(s: Seq<Rgba>, w: int, h: int, x: int, y: int) -> bool {
    exists|k: int|
        0 <= k < 8 && #[trigger] nbr_in(w, h, x, y, k) && is_opaque(
            s[flat(w, x + off_x(k), y + off_y(k))],
        )
}

/// A transparent pixel that touches the opaque region: the seed frontier.
pub open spec fn is_frontier(s: Seq<Rgba>, w: int, h: int, x: int, y: int) -> bool {
    !is_opaque(s[flat(w, x, y)]) && has_opaque_neighbor(s, w, h, x, y)
}

/// Pixel buffer after the classification sweep: opaque pixels are kept,
/// every transparent pixel is cleared.
pub open spec fn seed_pixels(s: Seq<Rgba>) -> Seq<Rgba> {
    Seq::new(s.len(), |i: int| if is_opaque(s[i]) { s[i] } else { clear_pixel() })
}

/// Visited flags after the sweep: opaque pixels and the frontier.
pub open spec fn seed_visited(s: Seq<Rgba>, w: int, h: int) -> Seq<bool> {
    Seq::new(s.len(), |i: int| is_opaque(s[i]) || is_frontier(s, w, h, i % w, i / w))
}

/// Color-source flags after the sweep: exactly the opaque pixels.
pub open spec fn seed_can(s: Seq<Rgba>) -> Seq<bool> {
    Seq::new(s.len(), |i: int| is_opaque(s[i]))
}

/// The frontier pixels among flat indices `0..n`, in row-major order: the
/// queue contents when the first round begins.
pub open spec fn seed_ring(s: Seq<Rgba>, w: int, h: int, n: int) -> Seq<(usize, usize)>
    decreases n,
{
    if n <= 0 {
        Seq::empty()
    } else {
        let prev = seed_ring(s, w, h, n - 1);
        let i = n - 1;
        if is_frontier(s, w, h, i % w, i / w) {
            prev.push(((i % w) as usize, (i / w) as usize))
        } else {
            prev
        }
    }
}

/// Accumulator of one pixel's neighbor scan.
pub struct ScanAcc {
    /// Sum of red channels of the sampleable neighbors seen so far.
    pub sr: int,
    /// Sum of green channels of the sampleable neighbors seen so far.
    pub sg: int,
    /// Sum of blue channels of the sampleable neighbors seen so far.
    pub sb: int,
    /// How many sampleable neighbors contributed.
    pub cnt: int,
    /// Visited flags, updated as unvisited neighbors are queued.
    pub visited: Seq<bool>,
    /// The queue being built for the next round.
    pub ring: Seq<(usize, usize)>,
}

/// Effect of considering neighbors `0..k` of (x, y): a sampleable neighbor
/// adds its channels to the sums; one neither sampleable nor visited is
/// marked visited and queued for the next round.
pub open spec fn scan_nbrs(
    px: Seq<Rgba>,
    can: Seq<bool>,
    v0: Seq<bool>,
    r0: Seq<(usize, usize)>,
    w: int,
    h: int,
    x: int,
    y: int,
    k: int,
) -> ScanAcc
    decreases k,
{
    if k <= 0 {
        ScanAcc { sr: 0, sg: 0, sb: 0, cnt: 0, visited: v0, ring: r0 }
    } else {
        let prev = scan_nbrs(px, can, v0, r0, w, h, x, y, k - 1);
        if !nbr_in(w, h, x, y, k - 1) {
            prev
        } else {
            let nx = x + off_x(k - 1);
            let ny = y + off_y(k - 1);
            let ni = flat(w, nx, ny);
            if can[ni] {
                ScanAcc {
                    sr: prev.sr + px[ni].r,
                    sg: prev.sg + px[ni].g,
                    sb: prev.sb + px[ni].b,
                    cnt: prev.cnt + 1,
                    visited: prev.visited,
                    ring: prev.ring,
                }
            } else if !prev.visited[ni] {
                ScanAcc {
                    sr: prev.sr,
                    sg: prev.sg,
                    sb: prev.sb,
                    cnt: prev.cnt,
                    visited: prev.visited.update(ni, true),
                    ring: prev.ring.push((nx as usize, ny as usize)),
                }
            } else {
                prev
            }
        }
    }
}

/// The color a scanned pixel resolves to: the truncated per-channel average
/// of its sampleable neighbors, alpha fixed at zero. A pixel with no
/// contribution divides by one and so stays cleared.
pub open spec fn resolved_pixel(sc: ScanAcc) -> Rgba {
    let den = if sc.cnt < 1 { 1 } else { sc.cnt };
    Rgba {
        r: ((sc.sr / den) % 256) as u8,
        g: ((sc.sg / den) % 256) as u8,
        b: ((sc.sb / den) % 256) as u8,
        a: 0,
    }
}

/// The parts of the propagation state a single round rewrites while its
/// color-source flags stay frozen.
pub struct RingStep {
    /// The pixel buffer.
    pub px: Seq<Rgba>,
    /// Visited flags.
    pub visited: Seq<bool>,
    /// The queue being built for the next round.
    pub ring: Seq<(usize, usize)>,
}

/// Resolve one queued pixel against the frozen color-source flags `can`.
pub open spec fn item_step(can: Seq<bool>, st: RingStep, w: int, h: int, x: int, y: int) -> RingStep {
    let sc = scan_nbrs(st.px, can, st.visited, st.ring, w, h, x, y, 8);
    RingStep { px: st.px.update(flat(w, x, y), resolved_pixel(sc)), visited: sc.visited, ring: sc.ring }
}

/// Resolve the first `j` queued pixels of the round, in queue order.
pub open spec fn run_ring(
    can: Seq<bool>,
    st0: RingStep,
    w: int,
    h: int,
    ring: Seq<(usize, usize)>,
    j: int,
) -> RingStep
    decreases j,
{
    if j <= 0 {
        st0
    } else {
        let prev = run_ring(can, st0, w, h, ring, j - 1);
        item_step(can, prev, w, h, ring[j - 1].0 as int, ring[j - 1].1 as int)
    }
}

/// Promote the first `j` pixels of a finished round to color sources.
pub open spec fn mark_ring(can: Seq<bool>, w: int, ring: Seq<(usize, usize)>, j: int) -> Seq<bool>
    decreases j,
{
    if j <= 0 {
        can
    } else {
        mark_ring(can, w, ring, j - 1).update(
            flat(w, ring[j - 1].0 as int, ring[j - 1].1 as int),
            true,
        )
    }
}

/// The whole propagation state between rounds.
pub struct BleedState {
    /// The pixel buffer.
    pub px: Seq<Rgba>,
    /// Pixels ever queued or recognized as opaque; never queued again.
    pub visited: Seq<bool>,
    /// Pixels whose color may be read as an average input.
    pub can: Seq<bool>,
    /// The pixels awaiting resolution in the coming round.
    pub ring: Seq<(usize, usize)>,
}

/// One breadth-first round: every queued pixel is resolved against the
/// round-entry color sources, and only then does the whole batch itself
/// become a color source.
pub open spec fn round_step(st: BleedState, w: int, h: int) -> BleedState {
    let done = run_ring(
        st.can,
        RingStep { px: st.px, visited: st.visited, ring: Seq::empty() },
        w,
        h,
        st.ring,
        st.ring.len() as int,
    );
    BleedState {
        px: done.px,
        visited: done.visited,
        can: mark_ring(st.can, w, st.ring, st.ring.len() as int),
        ring: done.ring,
    }
}

/// Up to `t` rounds, stopping early once the queue is empty.
pub open spec fn run_rounds(st: BleedState, w: int, h: int, t: int) -> BleedState
    decreases t,
{
    if t <= 0 || st.ring.len() == 0 {
        st
    } else {
        run_rounds(round_step(st, w, h), w, h, t - 1)
    }
}

/// The state when the first round begins.
pub open spec fn seed_state(s: Seq<Rgba>, w: int, h: int) -> BleedState {
    BleedState {
        px: seed_pixels(s),
        visited: seed_visited(s, w, h),
        can: seed_can(s),
        ring: seed_ring(s, w, h, s.len() as int),
    }
}

/// What `alpha_bleed` computes on a buffer `s` of a `w` x `h` raster:
/// classification, then `t` bounded breadth-first rounds.
pub open spec fn bleed_spec(s: Seq<Rgba>, w: int, h: int, t: int) -> Seq<Rgba> {
    run_rounds(seed_state(s, w, h), w, h, t).px
}

/// What `make_opaque` computes: every alpha forced to 255, colors kept.
pub open spec fn opaque_pixels(s: Seq<Rgba>) -> Seq<Rgba> {
    Seq::new(s.len(), |i: int| Rgba { r: s[i].r, g: s[i].g, b: s[i].b, a: 255 })
}

/// Some opaque pixel lies within `d` 8-connected steps of (x, y).
pub open spec fn within_reach(s: Seq<Rgba>, w: int, h: int, x: int, y: int, d: int) -> bool
    decreases d,
{
    is_opaque(s[flat(w, x, y)]) || (d > 0 && exists|k: int|
        0 <= k < 8 && #[trigger] nbr_in(w, h, x, y, k) && within_reach(
            s,
            w,
            h,
            x + off_x(k),
            y + off_y(k),
            d - 1,
        ))
}

/// Every coordinate pair of a queue lies inside the grid.
pub open spec fn ring_in_grid(ring: Seq<(usize, usize)>, w: int, h: int) -> bool {
    forall|q: int|
        0 <= q < ring.len() ==> in_grid(
            w,
            h,
            (#[trigger] ring[q]).0 as int,
            ring[q].1 as int,
        )
}

/// The seed queue only holds pixels of the grid.
pub proof fn lemma_seed_ring_in_grid(s: Seq<Rgba>, w: int, h: int, n: int)
    requires
        0 <= n <= w * h,
        0 <= w <= usize::MAX,
        0 <= h <= usize::MAX,
    ensures
        ring_in_grid(seed_ring(s, w, h, n), w, h),
    decreases n,
{
    if n > 0 {
        lemma_seed_ring_in_grid(s, w, h, n - 1);
        let i = n - 1;
        assert(w > 0) by (nonlinear_arith)
            requires
                0 < n <= w * h,
                0 <= h,
        ;
        assert(0 <= i % w < w && 0 <= i / w < h) by (nonlinear_arith)
            requires
                w > 0,
                0 <= i < w * h,
                0 <= h,
        ;
    }
}

/// A flat index and its coordinate pair determine each other inside the grid.
pub proof fn lemma_flat_coords(w: int, h: int, x: int, y: int)
    requires
        in_grid(w, h, x, y),
    ensures
        flat(w, x, y) % w == x,
        flat(w, x, y) / w == y,
        0 <= flat(w, x, y) < w * h,
{
    crate::raster::lemma_flat_index_in_range(w, h, x, y);
    assert((y * w + x) % w == x && (y * w + x) / w == y) by (nonlinear_arith)
        requires
            0 <= x < w,
            0 <= y < h,
    ;
}

} // verus!
