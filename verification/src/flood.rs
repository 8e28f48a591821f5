//! Four-connected flood fill with a configurable tolerance band: starting
//! from a seed pixel, the fill claims every pixel reachable through
//! neighbors whose original sample lies within `[p - lo, p + up]` of the
//! pixel it is reached from, and paints the claimed region with `color`.

use vstd::prelude::*;
use crate::raster::GridView;
use crate::raster::Raster;
use crate::indexing::lemma_flat_bound;
use crate::indexing::lemma_flat_inverse;
use crate::indexing::lemma_unflatten;

verus! {

/// One fill step: from an already-claimed pixel `(pi, pj)` the fill may
/// claim the 4-connected neighbor `(qi, qj)` when the neighbor's original
/// sample lies within the tolerance band `[pix(pi, pj) - lo, pix(pi, pj) + up]`.
pub open spec fn can_step(
    g: GridView<u8>,
    lo: u8,
    up: u8,
    pi: int,
    pj: int,
    qi: int,
    qj: int,
) -> bool {
    &&& g.in_bounds(pi, pj)
    &&& g.in_bounds(qi, qj)
    &&& ((qi == pi && (qj == pj + 1 || qj == pj - 1)) || (qj == pj && (qi == pi + 1 || qi == pi
        - 1)))
    &&& g.pix(pi, pj) - lo <= g.pix(qi, qj) <= g.pix(pi, pj) + up
}

/// Link `t` of a path is a legal fill step.
pub open spec fn step_at(g: GridView<u8>, lo: u8, up: u8, path: Seq<(int, int)>, t: int) -> bool {
    can_step(g, lo, up, path[t].0, path[t].1, path[t + 1].0, path[t + 1].1)
}

/// A fill path: a pixel chain starting at the seed whose every link is a
/// legal fill step.
pub open spec fn is_fill_path(
    g: GridView<u8>,
    lo: u8,
    up: u8,
    si: int,
    sj: int,
    path: Seq<(int, int)>,
) -> bool {
    &&& path.len() >= 1
    &&& path[0] == (si, sj)
    &&& forall|t: int| 0 <= t < path.len() - 1 ==> #[trigger] step_at(g, lo, up, path, t)
}

/// A pixel is reachable when some fill path from the seed ends on it.
pub open spec fn reachable(
    g: GridView<u8>,
    lo: u8,
    up: u8,
    si: int,
    sj: int,
    qi: int,
    qj: int,
) -> bool {
    exists|path: Seq<(int, int)>|
        is_fill_path(g, lo, up, si, sj, path) && path.last() == (qi, qj)
}

/// The flooded raster: `color` on every pixel reachable from the seed,
/// the original sample elsewhere.
pub open spec fn flood_v(
    g: GridView<u8>,
    lo: u8,
    up: u8,
    si: int,
    sj: int,
    color: u8,
) -> GridView<u8> {
    GridView {
        width: g.width,
        height: g.height,
        grid: Seq::new(
            g.grid.len(),
            |k: int|
                if reachable(g, lo, up, si, sj, k / g.width as int, k % g.width as int) {
                    color
                } else {
                    g.grid[k]
                },
        ),
    }
}

/// How many entries of a boolean sequence are set.
pub open spec fn num_true(s: Seq<bool>) -> nat
    decreases s.len(),
{
    if s.len() == 0 {
        0nat
    } else {
        num_true(s.drop_last()) + if s.last() {
            1nat
        } else {
            0nat
        }
    }
}

pub proof fn lemma_num_true_le(s: Seq<bool>)
    ensures
        num_true(s) <= s.len(),
    decreases s.len(),
{
    if s.len() > 0 {
        lemma_num_true_le(s.drop_last());
    }
}

pub proof fn lemma_num_true_update(s: Seq<bool>, i: int)
    requires
        0 <= i < s.len(),
        !s[i],
    ensures
        num_true(s.update(i, true)) == num_true(s) + 1,
    decreases s.len(),
{
    let su = s.update(i, true);
    if i == s.len() - 1 {
        assert(su.drop_last() =~= s.drop_last());
        assert(su.last());
    } else {
        assert(su.drop_last() =~= s.drop_last().update(i, true));
        lemma_num_true_update(s.drop_last(), i);
        assert(su.last() == s.last());
    }
}

pub proof fn lemma_num_true_push(s: Seq<bool>, v: bool)
    ensures
        num_true(s.push(v)) == num_true(s) + if v {
            1nat
        } else {
            0nat
        },
{
    assert(s.push(v).drop_last() =~= s);
    assert(s.push(v).last() == v);
}

/// Every visited pixel is reachable from the seed.
pub open spec fn inv_sound(
    g: GridView<u8>,
    lo: u8,
    up: u8,
    si: int,
    sj: int,
    vs: Seq<bool>,
) -> bool {
    forall|k: int|
        0 <= k < vs.len() && #[trigger] vs[k] ==> reachable(
            g,
            lo,
            up,
            si,
            sj,
            k / g.width as int,
            k % g.width as int,
        )
}

/// Every stacked index is in range and already visited.
pub open spec fn inv_stack(vs: Seq<bool>, stk: Seq<usize>, n: int) -> bool {
    forall|t: int| 0 <= t < stk.len() ==> (#[trigger] stk[t] as int) < n && vs[stk[t] as int]
}

/// Every visited pixel that is neither on the stack nor the exempt index
/// has all its step successors visited.
pub open spec fn inv_closed(
    g: GridView<u8>,
    lo: u8,
    up: u8,
    vs: Seq<bool>,
    stk: Seq<usize>,
    exempt: int,
) -> bool {
    forall|pi: int, pj: int, qi: int, qj: int|
        g.in_bounds(pi, pj) && vs[pi * g.width + pj] && !stk.contains(
            (pi * g.width + pj) as usize,
        ) && pi * g.width + pj != exempt && #[trigger] can_step(g, lo, up, pi, pj, qi, qj)
            ==> vs[qi * g.width + qj]
}

/// A step out of a reachable pixel reaches a reachable pixel.
pub proof fn lemma_reach_step(
    g: GridView<u8>,
    lo: u8,
    up: u8,
    si: int,
    sj: int,
    pi: int,
    pj: int,
    qi: int,
    qj: int,
)
    requires
        reachable(g, lo, up, si, sj, pi, pj),
        can_step(g, lo, up, pi, pj, qi, qj),
    ensures
        reachable(g, lo, up, si, sj, qi, qj),
{
    let path = choose|path: Seq<(int, int)>|
        is_fill_path(g, lo, up, si, sj, path) && path.last() == (pi, pj);
    let ext = path.push((qi, qj));
    assert(ext[0] == path[0]);
    assert forall|t: int| 0 <= t < ext.len() - 1 implies #[trigger] step_at(g, lo, up, ext, t) by {
        if t < path.len() - 1 {
            assert(step_at(g, lo, up, path, t));
            assert(ext[t] == path[t]);
            assert(ext[t + 1] == path[t + 1]);
        } else {
            assert(ext[t] == path.last());
            assert(ext[t + 1] == (qi, qj));
        }
    }
    assert(is_fill_path(g, lo, up, si, sj, ext) && ext.last() == (qi, qj));
}

/// In a visited set that contains the seed and is closed under fill steps,
/// the endpoint of every fill path is visited.
pub proof fn lemma_path_visited(
    g: GridView<u8>,
    lo: u8,
    up: u8,
    si: int,
    sj: int,
    vs: Seq<bool>,
    path: Seq<(int, int)>,
)
    requires
        g.wf(),
        g.width >= 1,
        g.in_bounds(si, sj),
        vs.len() == g.grid.len(),
        vs[si * g.width + sj],
        forall|pi: int, pj: int, qi: int, qj: int|
            g.in_bounds(pi, pj) && vs[pi * g.width + pj] && #[trigger] can_step(
                g,
                lo,
                up,
                pi,
                pj,
                qi,
                qj,
            ) ==> vs[qi * g.width + qj],
        is_fill_path(g, lo, up, si, sj, path),
    ensures
        vs[path.last().0 * g.width + path.last().1],
    decreases path.len(),
{
    if path.len() == 1 {
        assert(path.last() == (si, sj));
    } else {
        let pre = path.drop_last();
        assert(pre[0] == path[0]);
        assert forall|t: int| 0 <= t < pre.len() - 1 implies #[trigger] step_at(g, lo, up, pre, t)
            by {
            assert(step_at(g, lo, up, path, t));
            assert(pre[t] == path[t]);
            assert(pre[t + 1] == path[t + 1]);
        }
        lemma_path_visited(g, lo, up, si, sj, vs, pre);
        let a = path[path.len() - 2];
        let b = path[path.len() - 1];
        assert(step_at(g, lo, up, path, path.len() - 2));
        assert(can_step(g, lo, up, a.0, a.1, b.0, b.1));
        assert(pre.last() == a);
    }
}

/// Examine the candidate neighbor `(qi, qj)` of the claimed pixel
/// `(pi, pj)`: when the tolerance band admits it and it is not yet visited,
/// mark it visited and stack it for later expansion.
fn try_claim(
    img: &Raster<u8>,
    lo: u8,
    up: u8,
    seed: Ghost<(int, int)>,
    visited: &mut Vec<bool>,
    stack: &mut Vec<usize>,
    pi: usize,
    pj: usize,
    qi: usize,
    qj: usize,
    exempt: Ghost<int>,
)
    requires
        img.wf(),
        img@.width >= 1,
        img@.in_bounds(pi as int, pj as int),
        img@.in_bounds(qi as int, qj as int),
        old(visited)@.len() == img@.grid.len(),
        ((qi as int == pi as int && (qj as int == pj as int + 1 || qj as int == pj as int - 1))
            || (qj as int == pj as int && (qi as int == pi as int + 1 || qi as int == pi as int
            - 1))),
        reachable(img@, lo, up, seed@.0, seed@.1, pi as int, pj as int),
        inv_sound(img@, lo, up, seed@.0, seed@.1, old(visited)@),
        inv_stack(old(visited)@, old(stack)@, img@.grid.len() as int),
        inv_closed(img@, lo, up, old(visited)@, old(stack)@, exempt@),
    ensures
        final(visited)@.len() == old(visited)@.len(),
        forall|k: int|
            0 <= k < final(visited)@.len() && #[trigger] old(visited)@[k] ==> final(visited)@[k],
        can_step(img@, lo, up, pi as int, pj as int, qi as int, qj as int) ==> final(visited)@[
            qi as int * img@.width + qj as int],
        inv_sound(img@, lo, up, seed@.0, seed@.1, final(visited)@),
        inv_stack(final(visited)@, final(stack)@, img@.grid.len() as int),
        inv_closed(img@, lo, up, final(visited)@, final(stack)@, exempt@),
        (final(visited)@ == old(visited)@ && final(stack)@ == old(stack)@) || num_true(
            final(visited)@,
        ) == num_true(old(visited)@) + 1,
{
    let w = img.width;
    let n = img.data.len();
    proof {
        lemma_flat_bound(qi as int, qj as int, img@.width as int, img@.height as int);
        lemma_flat_inverse(qi as int, qj as int, img@.width as int);
        assert((qi as int * img@.width + qj as int) < (n as int));
    }
    let qk: usize = qi * w + qj;
    let pv = img.get(pi, pj);
    let qv = img.get(qi, qj);
    let in_band = (qv as i32) >= (pv as i32) - (lo as i32) && (qv as i32) <= (pv as i32) + (
    up as i32);
    if in_band && !visited[qk] {
        visited.set(qk, true);
        stack.push(qk);
        proof {
            lemma_num_true_update(old(visited)@, qk as int);
            lemma_reach_step(
                img@,
                lo,
                up,
                seed@.0,
                seed@.1,
                pi as int,
                pj as int,
                qi as int,
                qj as int,
            );
            assert forall|k: int| 0 <= k < visited@.len() && #[trigger] visited@[k] implies
            reachable(img@, lo, up, seed@.0, seed@.1, k / img@.width as int, k
                % img@.width as int) by {
                if k != qk as int {
                    assert(old(visited)@[k]);
                }
            }
            assert(stack@.last() == qk);
            assert(inv_closed(img@, lo, up, visited@, stack@, exempt@)) by {
                assert forall|ai: int, aj: int, bi: int, bj: int|
                    img@.in_bounds(ai, aj) && visited@[ai * img@.width + aj] && !stack@.contains(
                        (ai * img@.width + aj) as usize,
                    ) && ai * img@.width + aj != exempt@ && #[trigger] can_step(
                        img@,
                        lo,
                        up,
                        ai,
                        aj,
                        bi,
                        bj,
                    ) implies visited@[bi * img@.width + bj] by {
                    lemma_flat_bound(ai, aj, img@.width as int, img@.height as int);
                    if ai * img@.width + aj == qk as int {
                        assert(stack@.contains(qk));
                    } else {
                        assert(old(visited)@[ai * img@.width + aj]);
                        assert(!old(stack)@.contains((ai * img@.width + aj) as usize)) by {
                            if old(stack)@.contains((ai * img@.width + aj) as usize) {
                                let t = choose|t: int|
                                    0 <= t < old(stack)@.len() && old(stack)@[t] == (ai
                                        * img@.width + aj) as usize;
                                assert(stack@[t] == old(stack)@[t]);
                            }
                        }
                        lemma_flat_bound(bi, bj, img@.width as int, img@.height as int);
                        assert(old(visited)@[bi * img@.width + bj]);
                    }
                }
            }
        }
    } else {
        proof {
            if can_step(img@, lo, up, pi as int, pj as int, qi as int, qj as int) {
                assert(visited@[qk as int]);
            }
        }
    }
}

/// Flood fill: paint `color` over every pixel 4-connectedly reachable from
/// `seed` within the tolerance band `[-lo, +up]`, leaving the rest of the
/// raster untouched.
pub fn flooded_image(
    img: &Raster<u8>,
    seed: (usize, usize),
    color: u8,
    lo: u8,
    up: u8,
) -> (r: Raster<u8>)
    requires
        img.wf(),
        (seed.0 as int) < img@.height,
        (seed.1 as int) < img@.width,
    ensures
        r.wf(),
        r@ == flood_v(img@, lo, up, seed.0 as int, seed.1 as int, color),
{
    let w = img.width;
    let h = img.height;
    let n = img.data.len();
    let ghost si: int = seed.0 as int;
    let ghost sj: int = seed.1 as int;
    let ghost g = img@;

    // visited starts all-false, then the seed is claimed.
    let mut visited: Vec<bool> = Vec::new();
    let mut k: usize = 0;
    while k < n
        invariant
            k <= n,
            visited@.len() == k,
            num_true(visited@) == 0,
            forall|q: int| 0 <= q < k ==> !visited@[q],
        decreases n - k,
    {
        proof {
            lemma_num_true_push(visited@, false);
        }
        visited.push(false);
        k = k + 1;
    }
    proof {
        lemma_flat_bound(si, sj, w as int, h as int);
        lemma_flat_inverse(si, sj, w as int);
    }
    let sk: usize = seed.0 * w + seed.1;
    proof {
        lemma_num_true_update(visited@, sk as int);
    }
    visited.set(sk, true);
    let mut stack: Vec<usize> = Vec::new();
    stack.push(sk);
    proof {
        let path0: Seq<(int, int)> = seq![(si, sj)];
        assert(is_fill_path(g, lo, up, si, sj, path0) && path0.last() == (si, sj));
        assert(reachable(g, lo, up, si, sj, si, sj));
        assert forall|k0: int| 0 <= k0 < visited@.len() && #[trigger] visited@[k0] implies
        reachable(g, lo, up, si, sj, k0 / g.width as int, k0 % g.width as int) by {
            assert(k0 == sk as int);
        }
        lemma_num_true_le(visited@);
        assert(stack@[0] == sk);
        assert forall|ai: int, aj: int, bi: int, bj: int|
            g.in_bounds(ai, aj) && visited@[ai * g.width + aj] && !stack@.contains(
                (ai * g.width + aj) as usize,
            ) && ai * g.width + aj != -1 && #[trigger] can_step(g, lo, up, ai, aj, bi, bj)
                implies visited@[bi * g.width + bj] by {
            lemma_flat_bound(ai, aj, w as int, h as int);
            if ai * g.width + aj == sk as int {
                assert(stack@.contains(sk));
            }
        }
        assert(inv_closed(g, lo, up, visited@, stack@, -1));
    }

    while stack.len() > 0
        invariant
            img.wf(),
            g == img@,
            w == g.width,
            h == g.height,
            n == g.grid.len(),
            w >= 1,
            g.in_bounds(si, sj),
            visited@.len() == n,
            visited@[si * g.width + sj],
            num_true(visited@) <= n,
            inv_sound(g, lo, up, si, sj, visited@),
            inv_stack(visited@, stack@, n as int),
            inv_closed(g, lo, up, visited@, stack@, -1),
        decreases n - num_true(visited@), stack@.len(),
    {
        let ghost vs_enter = visited@;
        let ghost stk_enter = stack@;
        let p = match stack.pop() {
            Some(p) => p,
            None => {
                proof {
                    assert(false);
                }
                0
            },
        };
        proof {
            assert(vs_enter[p as int]) by {
                assert(stk_enter[stk_enter.len() - 1] == p);
            }
            lemma_unflatten(p as int, w as int, h as int);
        }
        let pi = p / w;
        let pj = p % w;
        let ghost vs0 = visited@;
        let ghost stk0 = stack@;
        proof {
            // Every pixel other than p keeps its closure obligations; p is
            // exempted until its neighbors have been examined below.
            assert(inv_closed(g, lo, up, visited@, stack@, p as int)) by {
                assert forall|ai: int, aj: int, bi: int, bj: int|
                    g.in_bounds(ai, aj) && visited@[ai * g.width + aj] && !stack@.contains(
                        (ai * g.width + aj) as usize,
                    ) && ai * g.width + aj != p as int && #[trigger] can_step(
                        g,
                        lo,
                        up,
                        ai,
                        aj,
                        bi,
                        bj,
                    ) implies visited@[bi * g.width + bj] by {
                    lemma_flat_bound(ai, aj, w as int, h as int);
                    assert(!stk_enter.contains((ai * g.width + aj) as usize)) by {
                        if stk_enter.contains((ai * g.width + aj) as usize) {
                            let t = choose|t: int|
                                0 <= t < stk_enter.len() && stk_enter[t] == (ai * g.width
                                    + aj) as usize;
                            if t < stk_enter.len() - 1 {
                                assert(stack@[t] == stk_enter[t]);
                            } else {
                                assert(stk_enter[t] == p);
                            }
                        }
                    }
                }
            }
            assert(reachable(g, lo, up, si, sj, pi as int, pj as int)) by {
                assert(vs_enter[p as int]);
                assert(visited@[p as int]);
            }
        }
        proof {
            lemma_flat_bound(si, sj, w as int, h as int);
        }
        // The four candidate neighbors.
        if pi + 1 < h {
            try_claim(img, lo, up, Ghost((si, sj)), &mut visited, &mut stack, pi, pj, pi + 1, pj,
                Ghost(p as int));
            proof {
                assert(visited@[si * g.width + sj]);
            }
        }
        if pi > 0 {
            try_claim(img, lo, up, Ghost((si, sj)), &mut visited, &mut stack, pi, pj, pi - 1, pj,
                Ghost(p as int));
            proof {
                assert(visited@[si * g.width + sj]);
            }
        }
        if pj + 1 < w {
            try_claim(img, lo, up, Ghost((si, sj)), &mut visited, &mut stack, pi, pj, pi, pj + 1,
                Ghost(p as int));
            proof {
                assert(visited@[si * g.width + sj]);
            }
        }
        if pj > 0 {
            try_claim(img, lo, up, Ghost((si, sj)), &mut visited, &mut stack, pi, pj, pi, pj - 1,
                Ghost(p as int));
            proof {
                assert(visited@[si * g.width + sj]);
            }
        }
        proof {
            // p's successors are now all visited, so p no longer needs the
            // exemption.
            assert forall|bi: int, bj: int| #[trigger] can_step(
                g,
                lo,
                up,
                pi as int,
                pj as int,
                bi,
                bj,
            ) implies visited@[bi * g.width + bj] by {
                lemma_flat_bound(bi, bj, w as int, h as int);
            }
            assert(inv_closed(g, lo, up, visited@, stack@, -1)) by {
                assert forall|ai: int, aj: int, bi: int, bj: int|
                    g.in_bounds(ai, aj) && visited@[ai * g.width + aj] && !stack@.contains(
                        (ai * g.width + aj) as usize,
                    ) && ai * g.width + aj != -1 && #[trigger] can_step(
                        g,
                        lo,
                        up,
                        ai,
                        aj,
                        bi,
                        bj,
                    ) implies visited@[bi * g.width + bj] by {
                    lemma_flat_bound(ai, aj, w as int, h as int);
                    lemma_flat_inverse(ai, aj, w as int);
                    if ai * g.width + aj == p as int {
                        assert(ai == pi as int && aj == pj as int);
                    }
                }
            }
            lemma_num_true_le(visited@);
            if num_true(visited@) == num_true(vs_enter) {
                assert(visited@ == vs0 && stack@ == stk0);
            }
        }
    }

    // The stack is exhausted: visited is exactly the reachable set.
    proof {
        assert forall|k0: int| 0 <= k0 < n implies visited@[k0] == reachable(
            g,
            lo,
            up,
            si,
            sj,
            k0 / g.width as int,
            k0 % g.width as int,
        ) by {
            lemma_unflatten(k0, w as int, h as int);
            if reachable(g, lo, up, si, sj, k0 / g.width as int, k0 % g.width as int) {
                let path = choose|path: Seq<(int, int)>|
                    is_fill_path(g, lo, up, si, sj, path) && path.last() == (k0 / g.width as int,
                    k0 % g.width as int);
                assert forall|ai: int, aj: int, bi: int, bj: int|
                    g.in_bounds(ai, aj) && visited@[ai * g.width + aj] && #[trigger] can_step(
                        g,
                        lo,
                        up,
                        ai,
                        aj,
                        bi,
                        bj,
                    ) implies visited@[bi * g.width + bj] by {
                    lemma_flat_bound(ai, aj, w as int, h as int);
                }
                lemma_path_visited(g, lo, up, si, sj, visited@, path);
                assert((k0 / g.width as int) * g.width + (k0 % g.width as int) == k0);
            }
        }
    }

    // Paint the claimed region.
    let mut data: Vec<u8> = Vec::new();
    let mut k2: usize = 0;
    while k2 < n
        invariant
            img.wf(),
            g == img@,
            w == g.width,
            n == g.grid.len(),
            visited@.len() == n,
            k2 <= n,
            data@.len() == k2,
            forall|k0: int|
                0 <= k0 < n ==> visited@[k0] == reachable(
                    g,
                    lo,
                    up,
                    si,
                    sj,
                    k0 / g.width as int,
                    k0 % g.width as int,
                ),
            forall|q: int|
                0 <= q < k2 ==> data@[q] == flood_v(g, lo, up, si, sj, color).grid[q],
        decreases n - k2,
    {
        if visited[k2] {
            data.push(color);
        } else {
            data.push(img.data[k2]);
        }
        k2 = k2 + 1;
    }
    let r = Raster { width: w, height: h, data };
    proof {
        assert(r@.grid =~= flood_v(g, lo, up, si, sj, color).grid);
        assert(r@ =~= flood_v(g, lo, up, si, sj, color));
    }
    r
}

} // verus!
