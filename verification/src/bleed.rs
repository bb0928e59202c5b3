//! The bleeding engine: executable code proved against [`crate::model`].

use crate::model::BleedState;
use crate::model::RingStep;
use crate::model::bleed_spec;
use crate::model::clear_pixel;
use crate::model::flat;
use crate::model::has_opaque_neighbor;
use crate::model::in_grid;
use crate::model::is_opaque;
use crate::model::item_step;
use crate::model::lemma_flat_coords;
use crate::model::lemma_seed_ring_in_grid;
use crate::model::ring_in_grid;
use crate::model::mark_ring;
use crate::model::nbr_in;
use crate::model::off_x;
use crate::model::off_y;
use crate::model::opaque_pixels;
use crate::model::resolved_pixel;
use crate::model::round_step;
use crate::model::run_ring;
use crate::model::run_rounds;
use crate::model::scan_nbrs;
use crate::model::seed_can;
use crate::model::seed_pixels;
use crate::model::seed_ring;
use crate::model::seed_state;
use crate::model::seed_visited;
use crate::raster::Raster;
use crate::raster::Rgba;
use vstd::prelude::*;

verus! {

/// The `k`-th of the eight neighbors of (x, y), or `None` when the grid
/// border clips it away.
fn neighbor(x: usize, y: usize, k: usize, w: usize, h: usize) -> (res: Option<(usize, usize)>)
    requires
        x < w,
        y < h,
        k < 8,
    ensures
        res is Some <==> nbr_in(w as int, h as int, x as int, y as int, k as int),
        res matches Some(nb) ==> nb.0 == x + off_x(k as int) && nb.1 == y + off_y(k as int),
{
    match k {
        0 => if x > 0 && y > 0 {
            Some((x - 1, y - 1))
        } else {
            None
        },
        1 => if y > 0 {
            Some((x, y - 1))
        } else {
            None
        },
        2 => if x + 1 < w && y > 0 {
            Some((x + 1, y - 1))
        } else {
            None
        },
        3 => if x > 0 {
            Some((x - 1, y))
        } else {
            None
        },
        4 => if x + 1 < w {
            Some((x + 1, y))
        } else {
            None
        },
        5 => if x > 0 && y + 1 < h {
            Some((x - 1, y + 1))
        } else {
            None
        },
        6 => if y + 1 < h {
            Some((x, y + 1))
        } else {
            None
        },
        _ => if x + 1 < w && y + 1 < h {
            Some((x + 1, y + 1))
        } else {
            None
        },
    }
}

/// A vector of `n` cleared flags.
fn false_flags(n: usize) -> (v: Vec<bool>)
    ensures
        v@.len() == n,
        forall|i: int| 0 <= i < n ==> !v@[i],
{
    let mut v: Vec<bool> = Vec::new();
    let mut i: usize = 0;
    while i < n
        invariant
            i <= n,
            v@.len() == i,
            forall|j: int| 0 <= j < i ==> !v@[j],
        decreases n - i,
    {
        v.push(false);
        i = i + 1;
    }
    v
}

/// Bleed color from the opaque region of `raster` into its transparent
/// surroundings, ring by ring, for at most `thickness` rounds.
///
/// The result is exactly [`bleed_spec`]: every originally opaque pixel is
/// left byte-for-byte unchanged, every transparent pixel ends with alpha 0,
/// and a transparent pixel within reach of the opaque region takes the
/// truncated average of the color sources that surrounded it when its ring
/// was resolved.
#[verifier::loop_isolation(false)]
#[verifier::rlimit(60)]
pub fn alpha_bleed(raster: &mut Raster, thickness: usize)
    requires
        old(raster).wf(),
    ensures
        final(raster).wf(),
        final(raster).width == old(raster).width,
        final(raster).height == old(raster).height,
        final(raster)@ == bleed_spec(
            old(raster)@,
            old(raster).width as int,
            old(raster).height as int,
            thickness as int,
        ),
        forall|i: int|
            0 <= i < old(raster)@.len() && is_opaque(#[trigger] old(raster)@[i]) ==> final(
                raster
            )@[i] == old(raster)@[i],
        forall|i: int|
            0 <= i < old(raster)@.len() && !is_opaque(#[trigger] old(raster)@[i]) ==> final(
                raster
            )@[i].a == 0,
{
    let ghost s0 = raster@;
    let w = raster.width;
    let h = raster.height;
    let n = raster.pixels.len();
    let ghost st0 = seed_state(s0, w as int, h as int);

    let mut visited = false_flags(n);
    let mut can = false_flags(n);
    let mut cur: Vec<(usize, usize)> = Vec::new();

    // Classification sweep: keep opaque pixels, clear and possibly queue
    // transparent ones.
    let mut y: usize = 0;
    while y < h
        invariant
            y <= h,
            raster.wf(),
            raster.width == w,
            raster.height == h,
            raster@.len() == n,
            visited@.len() == n,
            can@.len() == n,
            forall|i: int| 0 <= i < y * w ==> raster@[i] == seed_pixels(s0)[i],
            forall|i: int| 0 <= i < y * w ==> visited@[i] == seed_visited(s0, w as int, h as int)[i],
            forall|i: int| 0 <= i < y * w ==> can@[i] == seed_can(s0)[i],
            forall|i: int| y * w <= i < n ==> raster@[i] == s0[i],
            forall|i: int| y * w <= i < n ==> !visited@[i] && !can@[i],
            cur@ == seed_ring(s0, w as int, h as int, (y * w) as int),
        decreases h - y,
    {
        let mut x: usize = 0;
        while x < w
            invariant
                x <= w,
                raster.wf(),
                raster.width == w,
                raster.height == h,
                raster@.len() == n,
                visited@.len() == n,
                can@.len() == n,
                forall|i: int| 0 <= i < y * w + x ==> raster@[i] == seed_pixels(s0)[i],
                forall|i: int|
                    0 <= i < y * w + x ==> visited@[i] == seed_visited(
                        s0,
                        w as int,
                        h as int,
                    )[i],
                forall|i: int| 0 <= i < y * w + x ==> can@[i] == seed_can(s0)[i],
                forall|i: int| y * w + x <= i < n ==> raster@[i] == s0[i],
                forall|i: int| y * w + x <= i < n ==> !visited@[i] && !can@[i],
                cur@ == seed_ring(s0, w as int, h as int, (y * w + x) as int),
            decreases w - x,
        {
            proof {
                crate::raster::lemma_flat_index_in_range(w as int, h as int, x as int, y as int);
                lemma_flat_coords(w as int, h as int, x as int, y as int);
            }
            let fi = y * w + x;
            let p = raster.get(x, y);
            if p.a != 0 {
                visited[fi] = true;
                can[fi] = true;
            } else {
                let mut found = false;
                let mut k: usize = 0;
                while k < 8
                    invariant
                        k <= 8,
                        found <==> exists|kk: int|
                            0 <= kk < k && #[trigger] nbr_in(
                                w as int,
                                h as int,
                                x as int,
                                y as int,
                                kk,
                            ) && is_opaque(
                                s0[flat(w as int, x as int + off_x(kk), y as int + off_y(kk))],
                            ),
                    decreases 8 - k,
                {
                    if let Some(nb) = neighbor(x, y, k, w, h) {
                        proof {
                            crate::raster::lemma_flat_index_in_range(
                                w as int,
                                h as int,
                                nb.0 as int,
                                nb.1 as int,
                            );
                        }
                        let np = raster.get(nb.0, nb.1);
                        proof {
                            let ni = flat(w as int, nb.0 as int, nb.1 as int);
                            assert(0 <= ni < n);
                            if ni < y * w + x {
                                assert(raster@[ni] == seed_pixels(s0)[ni]);
                                assert(seed_pixels(s0)[ni] == (if is_opaque(s0[ni]) {
                                    s0[ni]
                                } else {
                                    clear_pixel()
                                }));
                            } else {
                                assert(raster@[ni] == s0[ni]);
                            }
                            assert(is_opaque(raster@[ni]) == is_opaque(s0[ni]));
                        }
                        if np.a != 0 {
                            found = true;
                        }
                    }
                    k = k + 1;
                }
                proof {
                    assert(found == has_opaque_neighbor(s0, w as int, h as int, x as int, y as int));
                }
                if found {
                    visited[fi] = true;
                    cur.push((x, y));
                }
                raster.set(x, y, Rgba { r: 0, g: 0, b: 0, a: 0 });
            }
            x = x + 1;
        }
        proof {
            assert((y + 1) * w == y * w + w) by (nonlinear_arith);
        }
        y = y + 1;
    }
    proof {
        assert(h * w == w * h) by (nonlinear_arith);
        assert forall|i: int| 0 <= i < n implies raster@[i] == seed_pixels(s0)[i] by {
            assert(i < y * w);
        }
        assert forall|i: int| 0 <= i < n implies visited@[i] == seed_visited(
            s0,
            w as int,
            h as int,
        )[i] by {
            assert(i < y * w);
        }
        assert forall|i: int| 0 <= i < n implies can@[i] == seed_can(s0)[i] by {
            assert(i < y * w);
        }
        assert(raster@ =~= seed_pixels(s0));
        assert(visited@ =~= seed_visited(s0, w as int, h as int));
        assert(can@ =~= seed_can(s0));
        assert(cur@ == st0.ring);
        lemma_seed_ring_in_grid(s0, w as int, h as int, s0.len() as int);
    }

    // Bounded breadth-first propagation: one queue snapshot per round.
    let mut r: usize = 0;
    while r < thickness && cur.len() != 0
        invariant
            r <= thickness,
            raster.wf(),
            raster.width == w,
            raster.height == h,
            raster@.len() == n,
            visited@.len() == n,
            can@.len() == n,
            ring_in_grid(cur@, w as int, h as int),
            run_rounds(st0, w as int, h as int, thickness as int) == run_rounds(
                (BleedState { px: raster@, visited: visited@, can: can@, ring: cur@ }),
                w as int,
                h as int,
                thickness as int - r as int,
            ),
        decreases thickness - r,
    {
        let ring_len = cur.len();
        let ghost px0 = raster@;
        let ghost v0 = visited@;
        let ghost can0 = can@;
        let ghost rv = cur@;
        let mut next: Vec<(usize, usize)> = Vec::new();

        let mut j: usize = 0;
        while j < ring_len
            invariant
                j <= ring_len,
                raster.wf(),
                raster.width == w,
                raster.height == h,
                raster@.len() == n,
                visited@.len() == n,
                can@ == can0,
                cur@ == rv,
                ring_in_grid(next@, w as int, h as int),
                (RingStep { px: raster@, visited: visited@, ring: next@ }) == run_ring(
                    can0,
                    (RingStep { px: px0, visited: v0, ring: Seq::empty() }),
                    w as int,
                    h as int,
                    rv,
                    j as int,
                ),
            decreases ring_len - j,
        {
            let pair = cur[j];
            let x = pair.0;
            let y = pair.1;
            proof {
                assert(pair == rv[j as int]);
                assert(in_grid(w as int, h as int, x as int, y as int));
                crate::raster::lemma_flat_index_in_range(w as int, h as int, x as int, y as int);
            }
            let ghost ipx0 = raster@;
            let ghost iv0 = visited@;
            let ghost ir0 = next@;

            let mut sr: u16 = 0;
            let mut sg: u16 = 0;
            let mut sb: u16 = 0;
            let mut cnt: u16 = 0;
            let mut k: usize = 0;
            while k < 8
                invariant
                    k <= 8,
                    raster@ == ipx0,
                    visited@.len() == n,
                    can@ == can0,
                    cur@ == rv,
                    ring_in_grid(next@, w as int, h as int),
                    cnt <= k,
                    sr <= cnt * 255,
                    sg <= cnt * 255,
                    sb <= cnt * 255,
                    sr as int == scan_nbrs(
                        ipx0,
                        can0,
                        iv0,
                        ir0,
                        w as int,
                        h as int,
                        x as int,
                        y as int,
                        k as int,
                    ).sr,
                    sg as int == scan_nbrs(
                        ipx0,
                        can0,
                        iv0,
                        ir0,
                        w as int,
                        h as int,
                        x as int,
                        y as int,
                        k as int,
                    ).sg,
                    sb as int == scan_nbrs(
                        ipx0,
                        can0,
                        iv0,
                        ir0,
                        w as int,
                        h as int,
                        x as int,
                        y as int,
                        k as int,
                    ).sb,
                    cnt as int == scan_nbrs(
                        ipx0,
                        can0,
                        iv0,
                        ir0,
                        w as int,
                        h as int,
                        x as int,
                        y as int,
                        k as int,
                    ).cnt,
                    visited@ == scan_nbrs(
                        ipx0,
                        can0,
                        iv0,
                        ir0,
                        w as int,
                        h as int,
                        x as int,
                        y as int,
                        k as int,
                    ).visited,
                    next@ == scan_nbrs(
                        ipx0,
                        can0,
                        iv0,
                        ir0,
                        w as int,
                        h as int,
                        x as int,
                        y as int,
                        k as int,
                    ).ring,
                decreases 8 - k,
            {
                if let Some(nb) = neighbor(x, y, k, w, h) {
                    let nx = nb.0;
                    let ny = nb.1;
                    proof {
                        crate::raster::lemma_flat_index_in_range(
                            w as int,
                            h as int,
                            nx as int,
                            ny as int,
                        );
                    }
                    let ni = ny * w + nx;
                    if can[ni] {
                        let np = raster.get(nx, ny);
                        sr = sr + np.r as u16;
                        sg = sg + np.g as u16;
                        sb = sb + np.b as u16;
                        cnt = cnt + 1;
                    } else {
                        if !visited[ni] {
                            visited[ni] = true;
                            next.push((nx, ny));
                        }
                    }
                }
                k = k + 1;
            }
            let ghost sc = scan_nbrs(
                ipx0,
                can0,
                iv0,
                ir0,
                w as int,
                h as int,
                x as int,
                y as int,
                8,
            );
            let den: u16 = if cnt < 1 {
                1
            } else {
                cnt
            };
            proof {
                if cnt >= 1 {
                    assert(sr as int / den as int <= 255) by (nonlinear_arith)
                        requires
                            sr as int <= cnt as int * 255,
                            den as int == cnt as int,
                            cnt >= 1,
                    ;
                    assert(sg as int / den as int <= 255) by (nonlinear_arith)
                        requires
                            sg as int <= cnt as int * 255,
                            den as int == cnt as int,
                            cnt >= 1,
                    ;
                    assert(sb as int / den as int <= 255) by (nonlinear_arith)
                        requires
                            sb as int <= cnt as int * 255,
                            den as int == cnt as int,
                            cnt >= 1,
                    ;
                }
            }
            let npx = Rgba { r: (sr / den) as u8, g: (sg / den) as u8, b: (sb / den) as u8, a: 0 };
            proof {
                assert(npx == resolved_pixel(sc));
            }
            raster.set(x, y, npx);
            proof {
                assert((RingStep { px: raster@, visited: visited@, ring: next@ }) == item_step(
                    can0,
                    (RingStep { px: ipx0, visited: iv0, ring: ir0 }),
                    w as int,
                    h as int,
                    x as int,
                    y as int,
                ));
            }
            j = j + 1;
        }

        // Only now does the finished ring become a set of color sources.
        let mut m: usize = 0;
        while m < ring_len
            invariant
                m <= ring_len,
                can@.len() == n,
                cur@ == rv,
                can@ == mark_ring(can0, w as int, rv, m as int),
            decreases ring_len - m,
        {
            let pair = cur[m];
            proof {
                assert(pair == rv[m as int]);
                assert(in_grid(w as int, h as int, pair.0 as int, pair.1 as int));
                crate::raster::lemma_flat_index_in_range(
                    w as int,
                    h as int,
                    pair.0 as int,
                    pair.1 as int,
                );
            }
            let fi = pair.1 * w + pair.0;
            can[fi] = true;
            m = m + 1;
        }

        proof {
            let pre = BleedState { px: px0, visited: v0, can: can0, ring: rv };
            let post = BleedState { px: raster@, visited: visited@, can: can@, ring: next@ };
            assert(post == round_step(pre, w as int, h as int));
            assert(run_rounds(pre, w as int, h as int, thickness as int - r as int)
                == run_rounds(post, w as int, h as int, thickness as int - r as int - 1));
        }
        cur = next;
        r = r + 1;
    }
    proof {
        let cst = BleedState { px: raster@, visited: visited@, can: can@, ring: cur@ };
        assert(run_rounds(cst, w as int, h as int, thickness as int - r as int) == cst);
        assert(raster@ == bleed_spec(s0, w as int, h as int, thickness as int));
        crate::laws::lemma_alpha_invariant(s0, w as int, h as int, thickness as int);
    }
}

/// Force every pixel fully opaque, keeping its color channels.
#[verifier::loop_isolation(false)]
pub fn make_opaque(raster: &mut Raster)
    requires
        old(raster).wf(),
    ensures
        final(raster).wf(),
        final(raster).width == old(raster).width,
        final(raster).height == old(raster).height,
        final(raster)@ == opaque_pixels(old(raster)@),
{
    let ghost s0 = raster@;
    let w = raster.width;
    let h = raster.height;
    let ghost n = s0.len() as int;
    let mut y: usize = 0;
    while y < h
        invariant
            y <= h,
            raster.wf(),
            raster.width == w,
            raster.height == h,
            raster@.len() == n,
            forall|i: int| 0 <= i < y * w ==> raster@[i] == opaque_pixels(s0)[i],
            forall|i: int| y * w <= i < n ==> raster@[i] == s0[i],
        decreases h - y,
    {
        let mut x: usize = 0;
        while x < w
            invariant
                x <= w,
                raster.wf(),
                raster.width == w,
                raster.height == h,
                raster@.len() == n,
                forall|i: int| 0 <= i < y * w + x ==> raster@[i] == opaque_pixels(s0)[i],
                forall|i: int| y * w + x <= i < n ==> raster@[i] == s0[i],
            decreases w - x,
        {
            proof {
                crate::raster::lemma_flat_index_in_range(w as int, h as int, x as int, y as int);
            }
            let p = raster.get(x, y);
            if p.a != 255 {
                raster.set(x, y, Rgba { r: p.r, g: p.g, b: p.b, a: 255 });
            }
            x = x + 1;
        }
        proof {
            assert((y + 1) * w == y * w + w) by (nonlinear_arith);
        }
        y = y + 1;
    }
    proof {
        assert(h * w == w * h) by (nonlinear_arith);
        assert forall|i: int| 0 <= i < raster@.len() implies raster@[i] == opaque_pixels(s0)[i] by {
            assert(i < y * w);
        }
        assert(raster@ =~= opaque_pixels(s0));
    }
}

} // verus!
