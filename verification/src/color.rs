//! Region color averaging: the relabel step of both pipelines. Given each
//! pixel's component root, every output pixel carries the arithmetic mean
//! (rounded down) of the original channel values over exactly its
//! region's member pixels.
use vstd::prelude::*;

use crate::model::{lemma_rowmajor, NODE_MAX};

verus! {

/// Each node's root as a machine index, read off an abstract state.
pub open spec fn roots_of(a: crate::model::AbsDsu) -> Seq<usize> {
    Seq::new(a.repr.len(), |j: int| a.repr[j] as usize)
}

/// How many of the first `k` nodes have root `r`.
pub open spec fn region_count(roots: Seq<usize>, r: int, k: int) -> int
    decreases k,
{
    if k <= 0 {
        0
    } else {
        region_count(roots, r, k - 1) + (if roots[k - 1] as int == r {
            1int
        } else {
            0int
        })
    }
}

/// The sum of the red channel over the first `k` nodes whose root is `r`,
/// reading node `j` as the pixel in row `j / w`, column `j % w`.
pub open spec fn region_sum_red(
    pix: Seq<Seq<(u8, u8, u8)>>,
    w: int,
    roots: Seq<usize>,
    r: int,
    k: int,
) -> int
    decreases k,
{
    if k <= 0 {
        0
    } else {
        region_sum_red(pix, w, roots, r, k - 1) + (if roots[k - 1] as int == r {
            pix[(k - 1) / w][(k - 1) % w].0 as int
        } else {
            0int
        })
    }
}

/// The green counterpart of `region_sum_red`.
pub open spec fn region_sum_green(
    pix: Seq<Seq<(u8, u8, u8)>>,
    w: int,
    roots: Seq<usize>,
    r: int,
    k: int,
) -> int
    decreases k,
{
    if k <= 0 {
        0
    } else {
        region_sum_green(pix, w, roots, r, k - 1) + (if roots[k - 1] as int == r {
            pix[(k - 1) / w][(k - 1) % w].1 as int
        } else {
            0int
        })
    }
}

/// The blue counterpart of `region_sum_red`.
pub open spec fn region_sum_blue(
    pix: Seq<Seq<(u8, u8, u8)>>,
    w: int,
    roots: Seq<usize>,
    r: int,
    k: int,
) -> int
    decreases k,
{
    if k <= 0 {
        0
    } else {
        region_sum_blue(pix, w, roots, r, k - 1) + (if roots[k - 1] as int == r {
            pix[(k - 1) / w][(k - 1) % w].2 as int
        } else {
            0int
        })
    }
}

/// The averaged color of the region rooted at `r`: each channel is the
/// channel sum over the region's members divided by the member count,
/// rounded down.
pub open spec fn avg_color(
    pix: Seq<Seq<(u8, u8, u8)>>,
    w: int,
    roots: Seq<usize>,
    r: int,
    n: int,
) -> (u8, u8, u8) {
    let cnt = region_count(roots, r, n);
    (
        (region_sum_red(pix, w, roots, r, n) / cnt) as u8,
        (region_sum_green(pix, w, roots, r, n) / cnt) as u8,
        (region_sum_blue(pix, w, roots, r, n) / cnt) as u8,
    )
}

/// Counts and channel sums stay within `k` and `255 * k`.
pub proof fn lemma_region_bounds(
    pix: Seq<Seq<(u8, u8, u8)>>,
    w: int,
    roots: Seq<usize>,
    r: int,
    k: int,
)
    requires
        0 <= k,
        w >= 1,
        forall|j: int| 0 <= j < k ==> 0 <= (#[trigger] (j / w)) < pix.len() && pix[j / w].len()
            == w,
    ensures
        0 <= region_count(roots, r, k) <= k,
        0 <= region_sum_red(pix, w, roots, r, k) <= 255 * k,
        0 <= region_sum_green(pix, w, roots, r, k) <= 255 * k,
        0 <= region_sum_blue(pix, w, roots, r, k) <= 255 * k,
    decreases k,
{
    if k > 0 {
        lemma_region_bounds(pix, w, roots, r, k - 1);
    }
}

/// A node below `k` whose root is `r` gives the region a member.
pub proof fn lemma_region_member(roots: Seq<usize>, r: int, j: int, k: int)
    requires
        0 <= j < k,
        roots[j] as int == r,
    ensures
        region_count(roots, r, k) >= 1,
    decreases k,
{
    if j == k - 1 {
        if k - 1 > 0 {
            lemma_count_nonneg(roots, r, k - 1);
        }
    } else {
        lemma_region_member(roots, r, j, k - 1);
    }
}

proof fn lemma_count_nonneg(roots: Seq<usize>, r: int, k: int)
    ensures
        region_count(roots, r, k) >= 0,
    decreases k,
{
    if k > 0 {
        lemma_count_nonneg(roots, r, k - 1);
    }
}

/// Every channel average lies in a byte: the sum is at most 255 times
/// the count.
proof fn lemma_channel_sum_bound(
    pix: Seq<Seq<(u8, u8, u8)>>,
    w: int,
    roots: Seq<usize>,
    r: int,
    k: int,
)
    requires
        0 <= k,
        w >= 1,
    ensures
        region_sum_red(pix, w, roots, r, k) <= 255 * region_count(roots, r, k),
        region_sum_green(pix, w, roots, r, k) <= 255 * region_count(roots, r, k),
        region_sum_blue(pix, w, roots, r, k) <= 255 * region_count(roots, r, k),
        region_sum_red(pix, w, roots, r, k) >= 0,
        region_sum_green(pix, w, roots, r, k) >= 0,
        region_sum_blue(pix, w, roots, r, k) >= 0,
        region_count(roots, r, k) >= 0,
    decreases k,
{
    if k > 0 {
        lemma_channel_sum_bound(pix, w, roots, r, k - 1);
    }
}

/// Computes the averaged output grid: every pixel carries the mean color
/// of its region, the region of node `j` being rooted at `roots[j]`.
pub fn average_colors(
    roots: &Vec<usize>,
    image: &Vec<Vec<(u8, u8, u8)>>,
    width: usize,
    height: usize,
) -> (out: Vec<Vec<(u8, u8, u8)>>)
    requires
        1 <= width,
        1 <= height,
        (width as int) * (height as int) <= NODE_MAX,
        image@.len() == height,
        forall|y: int| 0 <= y < height ==> (#[trigger] image@[y])@.len() == width,
        roots@.len() == (width as int) * (height as int),
        forall|j: int| 0 <= j < roots@.len() ==> ((#[trigger] roots@[j]) as int) < ((
        width as int) * (height as int)),
    ensures
        out@.len() == height,
        forall|y: int| 0 <= y < height ==> (#[trigger] out@[y])@.len() == width,
        forall|y: int, x: int|
            0 <= y < height && 0 <= x < width ==> (#[trigger] out@[y]@[x]) == avg_color(
                crate::graph::graph::grid_view(image@),
                width as int,
                roots@,
                roots@[y * width + x] as int,
                (width as int) * (height as int),
            ),
{
    let ghost pixv = crate::graph::graph::grid_view(image@);
    let ghost wi = width as int;
    let ghost hi = height as int;
    let ghost ni = wi * hi;
    proof {
        assert(wi * hi <= NODE_MAX);
        assert forall|j: int| 0 <= j < ni implies 0 <= (#[trigger] (j / wi)) < pixv.len()
            && pixv[j / wi].len() == wi by {
            crate::model::lemma_rowmajor_inv(j, wi, hi);
        }
    }
    let n: usize = width * height;
    let mut counts: Vec<u64> = Vec::new();
    let mut sum_r: Vec<u64> = Vec::new();
    let mut sum_g: Vec<u64> = Vec::new();
    let mut sum_b: Vec<u64> = Vec::new();
    let mut i: usize = 0;
    while i < n
        invariant
            i <= n,
            counts@.len() == i,
            sum_r@.len() == i,
            sum_g@.len() == i,
            sum_b@.len() == i,
            forall|t: int| 0 <= t < i ==> (#[trigger] counts@[t]) == 0 && sum_r@[t] == 0
                && sum_g@[t] == 0 && sum_b@[t] == 0,
        decreases n - i,
    {
        counts.push(0);
        sum_r.push(0);
        sum_g.push(0);
        sum_b.push(0);
        i = i + 1;
    }
    proof {
        assert forall|t: int| 0 <= t < ni implies counts@[t] as int == region_count(
            roots@,
            t,
            0,
        ) && sum_r@[t] as int == region_sum_red(pixv, wi, roots@, t, 0) && sum_g@[t] as int
            == region_sum_green(pixv, wi, roots@, t, 0) && sum_b@[t] as int == region_sum_blue(
            pixv,
            wi,
            roots@,
            t,
            0,
        ) by {}
    }
    let mut j: usize = 0;
    while j < n
        invariant
            j <= n,
            n as int == ni,
            ni == wi * hi,
            wi == width as int,
            hi == height as int,
            1 <= wi,
            1 <= hi,
            ni <= NODE_MAX,
            pixv == crate::graph::graph::grid_view(image@),
            image@.len() == height,
            forall|y: int| 0 <= y < height ==> (#[trigger] image@[y])@.len() == width,
            roots@.len() == ni,
            forall|t: int| 0 <= t < roots@.len() ==> ((#[trigger] roots@[t]) as int) < ni,
            counts@.len() == n,
            sum_r@.len() == n,
            sum_g@.len() == n,
            sum_b@.len() == n,
            forall|t: int| 0 <= t < ni ==> (#[trigger] counts@[t]) as int == region_count(
                roots@,
                t,
                j as int,
            ),
            forall|t: int| 0 <= t < ni ==> (#[trigger] sum_r@[t]) as int == region_sum_red(
                pixv,
                wi,
                roots@,
                t,
                j as int,
            ),
            forall|t: int| 0 <= t < ni ==> (#[trigger] sum_g@[t]) as int == region_sum_green(
                pixv,
                wi,
                roots@,
                t,
                j as int,
            ),
            forall|t: int| 0 <= t < ni ==> (#[trigger] sum_b@[t]) as int == region_sum_blue(
                pixv,
                wi,
                roots@,
                t,
                j as int,
            ),
        decreases n - j,
    {
        let r = roots[j];
        proof {
            crate::model::lemma_rowmajor_inv(j as int, wi, hi);
            assert forall|t: int| 0 <= t < ni implies 0 <= (#[trigger] (t / wi))
                || true by {}
            lemma_region_bounds_all(pixv, wi, hi, roots@, r as int, j as int);
        }
        let y = j / width;
        let x = j % width;
        let p = image[y][x];
        let ghost counts0 = counts@;
        let ghost sr0 = sum_r@;
        let ghost sg0 = sum_g@;
        let ghost sb0 = sum_b@;
        let c0 = counts[r];
        counts.set(r, c0 + 1);
        let v0 = sum_r[r];
        sum_r.set(r, v0 + p.0 as u64);
        let v1 = sum_g[r];
        sum_g.set(r, v1 + p.1 as u64);
        let v2 = sum_b[r];
        sum_b.set(r, v2 + p.2 as u64);
        proof {
            assert(pixv[j as int / wi][j as int % wi] == p);
            assert forall|t: int| 0 <= t < ni implies (#[trigger] counts@[t]) as int
                == region_count(roots@, t, j as int + 1) by {
                if t == r as int {
                    assert(counts@[t] == counts0[t] + 1);
                } else {
                    assert(counts@[t] == counts0[t]);
                }
            }
            assert forall|t: int| 0 <= t < ni implies (#[trigger] sum_r@[t]) as int
                == region_sum_red(pixv, wi, roots@, t, j as int + 1) by {
                if t == r as int {
                    assert(sum_r@[t] == sr0[t] + p.0 as u64);
                } else {
                    assert(sum_r@[t] == sr0[t]);
                }
            }
            assert forall|t: int| 0 <= t < ni implies (#[trigger] sum_g@[t]) as int
                == region_sum_green(pixv, wi, roots@, t, j as int + 1) by {
                if t == r as int {
                    assert(sum_g@[t] == sg0[t] + p.1 as u64);
                } else {
                    assert(sum_g@[t] == sg0[t]);
                }
            }
            assert forall|t: int| 0 <= t < ni implies (#[trigger] sum_b@[t]) as int
                == region_sum_blue(pixv, wi, roots@, t, j as int + 1) by {
                if t == r as int {
                    assert(sum_b@[t] == sb0[t] + p.2 as u64);
                } else {
                    assert(sum_b@[t] == sb0[t]);
                }
            }
        }
        j = j + 1;
    }
    let mut out: Vec<Vec<(u8, u8, u8)>> = Vec::new();
    let mut y: usize = 0;
    while y < height
        invariant
            y <= height,
            n as int == ni,
            ni == wi * hi,
            wi == width as int,
            hi == height as int,
            1 <= wi,
            1 <= hi,
            ni <= NODE_MAX,
            pixv == crate::graph::graph::grid_view(image@),
            roots@.len() == ni,
            forall|t: int| 0 <= t < roots@.len() ==> ((#[trigger] roots@[t]) as int) < ni,
            counts@.len() == n,
            sum_r@.len() == n,
            sum_g@.len() == n,
            sum_b@.len() == n,
            forall|t: int| 0 <= t < ni ==> (#[trigger] counts@[t]) as int == region_count(
                roots@,
                t,
                ni,
            ),
            forall|t: int| 0 <= t < ni ==> (#[trigger] sum_r@[t]) as int == region_sum_red(
                pixv,
                wi,
                roots@,
                t,
                ni,
            ),
            forall|t: int| 0 <= t < ni ==> (#[trigger] sum_g@[t]) as int == region_sum_green(
                pixv,
                wi,
                roots@,
                t,
                ni,
            ),
            forall|t: int| 0 <= t < ni ==> (#[trigger] sum_b@[t]) as int == region_sum_blue(
                pixv,
                wi,
                roots@,
                t,
                ni,
            ),
            out@.len() == y,
            forall|yy: int| 0 <= yy < y ==> (#[trigger] out@[yy])@.len() == width,
            forall|yy: int, x: int|
                0 <= yy < y && 0 <= x < width ==> (#[trigger] out@[yy]@[x]) == avg_color(
                    pixv,
                    wi,
                    roots@,
                    roots@[yy * wi + x] as int,
                    ni,
                ),
        decreases height - y,
    {
        let mut row: Vec<(u8, u8, u8)> = Vec::new();
        let mut x: usize = 0;
        while x < width
            invariant
                x <= width,
                y < height,
                n as int == ni,
                ni == wi * hi,
                wi == width as int,
                hi == height as int,
                1 <= wi,
                1 <= hi,
                ni <= NODE_MAX,
                roots@.len() == ni,
                forall|t: int| 0 <= t < roots@.len() ==> ((#[trigger] roots@[t]) as int) < ni,
                counts@.len() == n,
                sum_r@.len() == n,
                sum_g@.len() == n,
                sum_b@.len() == n,
                forall|t: int| 0 <= t < ni ==> (#[trigger] counts@[t]) as int == region_count(
                    roots@,
                    t,
                    ni,
                ),
                forall|t: int| 0 <= t < ni ==> (#[trigger] sum_r@[t]) as int == region_sum_red(
                    pixv,
                    wi,
                    roots@,
                    t,
                    ni,
                ),
                forall|t: int| 0 <= t < ni ==> (#[trigger] sum_g@[t]) as int == region_sum_green(
                    pixv,
                    wi,
                    roots@,
                    t,
                    ni,
                ),
                forall|t: int| 0 <= t < ni ==> (#[trigger] sum_b@[t]) as int == region_sum_blue(
                    pixv,
                    wi,
                    roots@,
                    t,
                    ni,
                ),
                row@.len() == x,
                forall|xx: int| 0 <= xx < x ==> (#[trigger] row@[xx]) == avg_color(
                    pixv,
                    wi,
                    roots@,
                    roots@[y * wi + xx] as int,
                    ni,
                ),
            decreases width - x,
        {
            proof {
                lemma_rowmajor(y as int, x as int, wi, hi);
            }
            let jj: usize = y * width + x;
            let r = roots[jj];
            proof {
                lemma_region_member(roots@, r as int, jj as int, ni);
                lemma_channel_sum_bound(pixv, wi, roots@, r as int, ni);
                let cnt = region_count(roots@, r as int, ni);
                let s = region_sum_red(pixv, wi, roots@, r as int, ni);
                assert(0 <= s / cnt <= 255) by (nonlinear_arith)
                    requires
                        cnt >= 1,
                        0 <= s,
                        s <= 255 * cnt,
                ;
                let sg = region_sum_green(pixv, wi, roots@, r as int, ni);
                assert(0 <= sg / cnt <= 255) by (nonlinear_arith)
                    requires
                        cnt >= 1,
                        0 <= sg,
                        sg <= 255 * cnt,
                ;
                let sb = region_sum_blue(pixv, wi, roots@, r as int, ni);
                assert(0 <= sb / cnt <= 255) by (nonlinear_arith)
                    requires
                        cnt >= 1,
                        0 <= sb,
                        sb <= 255 * cnt,
                ;
            }
            let cnt = counts[r];
            let ar = (sum_r[r] / cnt) as u8;
            let ag = (sum_g[r] / cnt) as u8;
            let ab = (sum_b[r] / cnt) as u8;
            row.push((ar, ag, ab));
            x = x + 1;
        }
        out.push(row);
        y = y + 1;
    }
    out
}

proof fn lemma_region_bounds_all(
    pix: Seq<Seq<(u8, u8, u8)>>,
    w: int,
    h: int,
    roots: Seq<usize>,
    r: int,
    k: int,
)
    requires
        0 <= k <= w * h,
        w >= 1,
        h >= 1,
        pix.len() == h,
        forall|y: int| 0 <= y < h ==> (#[trigger] pix[y]).len() == w,
    ensures
        0 <= region_count(roots, r, k) <= k,
        0 <= region_sum_red(pix, w, roots, r, k) <= 255 * k,
        0 <= region_sum_green(pix, w, roots, r, k) <= 255 * k,
        0 <= region_sum_blue(pix, w, roots, r, k) <= 255 * k,
{
    assert forall|j: int| 0 <= j < k implies 0 <= (#[trigger] (j / w)) < pix.len() && pix[j
        / w].len() == w by {
        crate::model::lemma_rowmajor_inv(j, w, h);
    }
    lemma_region_bounds(pix, w, roots, r, k);
}

} // verus!
