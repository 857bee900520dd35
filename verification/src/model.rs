//! The mathematical model of the disjoint-set state and of the merge
//! rules: an abstract view (root, size, smallest absorbed edge and cached
//! credit per node), the integer square root, and the credit formula.
//!
//! Edge weights, the merge threshold and the contrast bias are fixed-point
//! integers: a caller scales real-valued color distances by 1000 before
//! handing them to the library. The credit of a component of size `s`
//! whose seed contrast is `c` is `(c - 2 * bias) * sqrt(4 * pi * s)`,
//! evaluated here as `(c - 2 * bias) * sqrt_floor(FOUR_PI_MICRO * s) / 1000`,
//! since `sqrt(4 * pi * 10^6) / 10^3 == sqrt(4 * pi)`.
use vstd::prelude::*;

verus! {

/// Largest magnitude accepted for an edge weight, the threshold and the
/// contrast bias (fixed-point, scaled by 1000).
pub const W_MAX: i64 = 1_000_000_000;

/// Largest node count a structure may be built over.
pub const NODE_MAX: usize = 0x4000_0000;

/// `4 * pi`, scaled by `10^6`.
pub const FOUR_PI_MICRO: u64 = 12_566_371;

/// Bound on every credit value the formula can produce over admissible
/// inputs; cached credits never leave this range.
pub const CREDIT_MAX: i64 = 1_000_000_000_000_000;

/// The abstract state of a disjoint-set structure over `repr.len()` nodes:
/// per node its root, and per root the component size, the smallest edge
/// weight the component has absorbed (unset before its first merge), and
/// the cached credit (unset until first demanded). Entries of `size`, `se`
/// and `cr` at non-root indices are stale and carry no meaning.
#[verifier::ext_equal]
pub ghost struct AbsDsu {
    pub repr: Seq<int>,
    pub size: Seq<int>,
    pub se: Seq<Option<int>>,
    pub cr: Seq<Option<int>>,
}

/// The sum of the component sizes over the distinct roots below `k`:
/// each component counted once, at its root.
pub open spec fn abs_sum_sizes(a: AbsDsu, k: int) -> int
    decreases k,
{
    if k <= 0 {
        0
    } else {
        abs_sum_sizes(a, k - 1) + (if a.repr[k - 1] == k - 1 {
            a.size[k - 1]
        } else {
            0
        })
    }
}

/// Floor of the square root, defined by counting up.
pub open spec fn sqrt_floor(x: int) -> int
    decreases x,
{
    if x < 1 {
        0
    } else {
        let r = sqrt_floor(x - 1);
        if (r + 1) * (r + 1) <= x {
            r + 1
        } else {
            r
        }
    }
}

/// `sqrt_floor(x)` brackets `x`: it is the unique `r >= 0` with
/// `r * r <= x < (r + 1) * (r + 1)`.
pub proof fn lemma_sqrt_floor(x: int)
    requires
        x >= 0,
    ensures
        sqrt_floor(x) >= 0,
        sqrt_floor(x) * sqrt_floor(x) <= x,
        x < (sqrt_floor(x) + 1) * (sqrt_floor(x) + 1),
    decreases x,
{
    if x >= 1 {
        lemma_sqrt_floor(x - 1);
        let r0 = sqrt_floor(x - 1);
        if (r0 + 1) * (r0 + 1) <= x {
            assert(x == (r0 + 1) * (r0 + 1));
            assert((r0 + 2) * (r0 + 2) > (r0 + 1) * (r0 + 1)) by (nonlinear_arith)
                requires r0 >= 0;
        }
    }
}

/// Any non-negative `r` that brackets `x` is `sqrt_floor(x)`.
pub proof fn lemma_sqrt_floor_unique(x: int, r: int)
    requires
        x >= 0,
        r >= 0,
        r * r <= x,
        x < (r + 1) * (r + 1),
    ensures
        r == sqrt_floor(x),
{
    lemma_sqrt_floor(x);
    let s = sqrt_floor(x);
    assert(!(r < s) && !(s < r)) by (nonlinear_arith)
        requires
            r >= 0,
            s >= 0,
            r * r <= x,
            x < (r + 1) * (r + 1),
            s * s <= x,
            x < (s + 1) * (s + 1),
    ;
}

/// Floor of the square root of `x`, by binary search.
pub fn isqrt(x: u64) -> (r: u64)
    ensures
        r as int == sqrt_floor(x as int),
        r * r <= x,
{
    let mut lo: u64 = 0;
    let mut hi: u64 = 0x1_0000_0000;
    proof {
        assert((hi as int) * (hi as int) > x as int) by (nonlinear_arith)
            requires hi == 0x1_0000_0000u64, x <= u64::MAX;
    }
    while lo + 1 < hi
        invariant
            lo < hi <= 0x1_0000_0000u64,
            (lo as int) * (lo as int) <= x as int,
            (hi as int) * (hi as int) > x as int,
        decreases hi - lo,
    {
        let mid = lo + (hi - lo) / 2;
        proof {
            assert((mid as int) * (mid as int) <= 0x1_0000_0000_0000_0000int) by (nonlinear_arith)
                requires mid <= 0x1_0000_0000u64;
        }
        if (mid as u128) * (mid as u128) <= x as u128 {
            lo = mid;
        } else {
            hi = mid;
        }
    }
    proof {
        assert(hi == lo + 1);
        lemma_sqrt_floor_unique(x as int, lo as int);
    }
    lo
}

/// Row-major pixel indexing: the node of the pixel in row `x`, column
/// `y` of a `w`-wide, `h`-high grid lies in range and decomposes back
/// into its coordinates.
pub proof fn lemma_rowmajor(x: int, y: int, w: int, h: int)
    requires
        0 <= x < h,
        0 <= y < w,
    ensures
        0 <= x * w + y < w * h,
        (x * w + y) / w == x,
        (x * w + y) % w == y,
        (x * w + w) == (x + 1) * w,
{
    assert(0 <= x * w + y < w * h && (x * w + y) / w == x && (x * w + y) % w == y && (x * w + w)
        == (x + 1) * w) by (nonlinear_arith)
        requires
            0 <= x < h,
            0 <= y < w,
    ;
}

/// The row and column of a node lie on the grid.
pub proof fn lemma_rowmajor_inv(j: int, w: int, h: int)
    requires
        0 <= j < w * h,
        w >= 1,
    ensures
        0 <= j / w < h,
        0 <= j % w < w,
        (j / w) * w + (j % w) == j,
{
    assert(0 <= j / w < h && 0 <= j % w < w && (j / w) * w + (j % w) == j) by (nonlinear_arith)
        requires
            0 <= j < w * h,
            w >= 1,
    ;
}

/// The seed contrast of a component: its smallest absorbed edge if set,
/// else the weight at hand.
pub open spec fn seed_of(se: Option<int>, w: int) -> int {
    match se {
        Some(s) => s,
        None => w,
    }
}

/// The merge-tolerance budget of a component: the seed contrast less
/// twice the bias, scaled by the square root of `4 * pi` times the size.
pub open spec fn credit_formula(seed: int, contrast: int, size: int) -> int {
    let term = seed - 2 * contrast;
    let per = sqrt_floor(FOUR_PI_MICRO as int * size);
    if term >= 0 {
        (term * per) / 1000
    } else {
        -(((-term) * per) / 1000)
    }
}

/// Evaluates the credit formula in fixed-point integers.
pub fn credit_value(seed: i64, contrast: i64, size: usize) -> (c: i64)
    requires
        0 <= seed <= W_MAX,
        -W_MAX <= contrast <= W_MAX,
        1 <= size <= NODE_MAX,
    ensures
        c as int == credit_formula(seed as int, contrast as int, size as int),
        -CREDIT_MAX <= c <= CREDIT_MAX,
{
    let term: i64 = seed - 2 * contrast;
    let arg: u64 = FOUR_PI_MICRO * (size as u64);
    let per: u64 = isqrt(arg);
    proof {
        assert(per <= 120_000_000) by (nonlinear_arith)
            requires
                (per as int) * (per as int) <= arg as int,
                arg <= 13_510_798_509_801_472u64,
        ;
    }
    if term >= 0 {
        let mag: u64 = term as u64;
        proof {
            assert((mag as int) * (per as int) <= 360_000_000_000_000_000int) by (nonlinear_arith)
                requires
                    mag <= 3_000_000_000u64,
                    per <= 120_000_000u64,
            ;
        }
        let prod: u64 = mag * per;
        (prod / 1000) as i64
    } else {
        let mag: u64 = (-term) as u64;
        proof {
            assert((mag as int) * (per as int) <= 360_000_000_000_000_000int) by (nonlinear_arith)
                requires
                    mag <= 3_000_000_000u64,
                    per <= 120_000_000u64,
            ;
        }
        let prod: u64 = mag * per;
        -((prod / 1000) as i64)
    }
}

/// Whether a threshold merge of `u` and `v` over weight `w` goes through.
pub open spec fn ut_merges(a: AbsDsu, threshold: int, u: int, v: int, w: int) -> bool {
    a.repr[u] != a.repr[v] && w < threshold
}

/// The surviving root when the components of `u` and `v` merge: the root
/// of the larger side, with the first argument's root winning ties.
pub open spec fn merge_winner(a: AbsDsu, u: int, v: int) -> int {
    if a.size[a.repr[u]] < a.size[a.repr[v]] {
        a.repr[v]
    } else {
        a.repr[u]
    }
}

/// The absorbed root when the components of `u` and `v` merge.
pub open spec fn merge_loser(a: AbsDsu, u: int, v: int) -> int {
    if a.size[a.repr[u]] < a.size[a.repr[v]] {
        a.repr[u]
    } else {
        a.repr[v]
    }
}

/// The smallest edge weight ever absorbed by the merged component:
/// the minimum of the current weight and both sides' records.
pub open spec fn merged_se(x: Option<int>, y: Option<int>, w: int) -> int {
    let mx = seed_of(x, w);
    let my = seed_of(y, w);
    let m = if mx < my { mx } else { my };
    if w < m { w } else { m }
}

/// The abstract state after merging the components of `u` and `v`: every
/// node of the absorbed component is redirected to the winner, the
/// winner's size is the sum of both sides, and its smallest-edge record
/// absorbs `w`. Cached credits are left as given.
pub open spec fn merge_state(a: AbsDsu, u: int, v: int, w: int) -> AbsDsu {
    let win = merge_winner(a, u, v);
    let lose = merge_loser(a, u, v);
    AbsDsu {
        repr: Seq::new(a.repr.len(), |j: int| if a.repr[j] == lose { win } else { a.repr[j] }),
        size: a.size.update(win, a.size[a.repr[u]] + a.size[a.repr[v]]),
        se: a.se.update(win, Some(merged_se(a.se[a.repr[u]], a.se[a.repr[v]], w))),
        cr: a.cr,
    }
}

/// One threshold merge: the components of `u` and `v` join exactly when
/// they differ and `w` lies strictly under the threshold. Credits are
/// untouched.
pub open spec fn spec_union_threshold(a: AbsDsu, threshold: int, u: int, v: int, w: int) -> AbsDsu {
    if ut_merges(a, threshold, u, v, w) {
        merge_state(a, u, v, w)
    } else {
        a
    }
}

/// The credit of `u`'s component as the credit-based merge sees it:
/// the cached value if set, else the formula over the component's seed
/// and size.
pub open spec fn side_credit(a: AbsDsu, contrast: int, u: int, w: int) -> int {
    let r = a.repr[u];
    match a.cr[r] {
        Some(c) => c,
        None => credit_formula(seed_of(a.se[r], w), contrast, a.size[r]),
    }
}

/// Whether a credit-based merge of `u` and `v` over weight `w` goes
/// through: the sides' minimum credit must strictly exceed the weight.
pub open spec fn un_merges(a: AbsDsu, contrast: int, u: int, v: int, w: int) -> bool {
    let cu = side_credit(a, contrast, u, w);
    let cv = side_credit(a, contrast, v, w);
    let c = if cu < cv { cu } else { cv };
    a.repr[u] != a.repr[v] && c > w
}

/// One credit-based merge. Both sides' credits are computed and cached
/// if unset; the merge goes through when their minimum strictly exceeds
/// the weight, and the unspent budget carries forward on the winner.
pub open spec fn spec_union(a: AbsDsu, contrast: int, u: int, v: int, w: int) -> AbsDsu {
    let ru = a.repr[u];
    let rv = a.repr[v];
    if ru == rv {
        a
    } else {
        let cu = side_credit(a, contrast, u, w);
        let cv = side_credit(a, contrast, v, w);
        let c = if cu < cv { cu } else { cv };
        let cached = AbsDsu {
            repr: a.repr,
            size: a.size,
            se: a.se,
            cr: a.cr.update(ru, Some(cu)).update(rv, Some(cv)),
        };
        if c > w {
            let m = merge_state(cached, u, v, w);
            AbsDsu {
                repr: m.repr,
                size: m.size,
                se: m.se,
                cr: m.cr.update(merge_winner(a, u, v), Some(c - w)),
            }
        } else {
            cached
        }
    }
}

} // verus!
