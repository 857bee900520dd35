//! The disjoint-set engine shared by the sequential and the tile-parallel
//! pipelines: path-compressed `find`, threshold-gated merge, and
//! credit-gated merge. Every operation is specified against the abstract
//! state `AbsDsu`; the parent array itself is exposed only through the
//! per-node root map, so path compression never changes a contract.
use vstd::prelude::*;

use crate::color::{region_count, roots_of};
use crate::forest;
use crate::forest::{forest_inv, root_of};
use crate::model::{
    credit_formula, credit_value, merge_loser, merge_state, merge_winner, merged_se, seed_of,
    side_credit, spec_union, spec_union_threshold, ut_merges, AbsDsu, CREDIT_MAX, NODE_MAX, W_MAX,
};

verus! {

/// The sum of `sz[r]` over the roots `r` of `p` below `k`: the total
/// weight of the partition, with each component counted once at its root.
pub open spec fn sum_root_sizes(p: Seq<usize>, sz: Seq<int>, k: int) -> int
    decreases k,
{
    if k <= 0 {
        0
    } else {
        sum_root_sizes(p, sz, k - 1) + (if p[k - 1] as int == k - 1 {
            sz[k - 1]
        } else {
            0
        })
    }
}

proof fn lemma_sum_same_roots(p1: Seq<usize>, p2: Seq<usize>, sz: Seq<int>, k: int)
    requires
        p1.len() == p2.len(),
        0 <= k <= p1.len(),
        forall|j: int| 0 <= j < p1.len() ==> ((#[trigger] p1[j]) == j <==> p2[j] == j),
    ensures
        sum_root_sizes(p1, sz, k) == sum_root_sizes(p2, sz, k),
    decreases k,
{
    if k > 0 {
        lemma_sum_same_roots(p1, p2, sz, k - 1);
    }
}

proof fn lemma_sum_init(p: Seq<usize>, sz: Seq<int>, k: int)
    requires
        0 <= k <= p.len(),
        forall|j: int| 0 <= j < p.len() ==> (#[trigger] p[j]) as int == j,
        forall|j: int| 0 <= j < p.len() ==> (#[trigger] sz[j]) == 1,
    ensures
        sum_root_sizes(p, sz, k) == k,
    decreases k,
{
    if k > 0 {
        lemma_sum_init(p, sz, k - 1);
    }
}

proof fn lemma_sum_nonneg(p: Seq<usize>, sz: Seq<int>, k: int)
    requires
        0 <= k <= p.len(),
        forall|j: int| 0 <= j < p.len() ==> (#[trigger] sz[j]) >= 0,
    ensures
        sum_root_sizes(p, sz, k) >= 0,
    decreases k,
{
    if k > 0 {
        lemma_sum_nonneg(p, sz, k - 1);
    }
}

proof fn lemma_sum_one_root(p: Seq<usize>, sz: Seq<int>, r: int, k: int)
    requires
        0 <= k <= p.len(),
        forall|j: int| 0 <= j < p.len() ==> (#[trigger] sz[j]) >= 0,
        0 <= r < k,
        p[r] as int == r,
    ensures
        sum_root_sizes(p, sz, k) >= sz[r],
    decreases k,
{
    if r == k - 1 {
        lemma_sum_nonneg(p, sz, k - 1);
    } else {
        lemma_sum_one_root(p, sz, r, k - 1);
    }
}

proof fn lemma_sum_two_roots(p: Seq<usize>, sz: Seq<int>, r1: int, r2: int, k: int)
    requires
        0 <= k <= p.len(),
        forall|j: int| 0 <= j < p.len() ==> (#[trigger] sz[j]) >= 0,
        0 <= r1 < k,
        0 <= r2 < k,
        r1 != r2,
        p[r1] as int == r1,
        p[r2] as int == r2,
    ensures
        sum_root_sizes(p, sz, k) >= sz[r1] + sz[r2],
    decreases k,
{
    if r1 == k - 1 {
        lemma_sum_one_root(p, sz, r2, k - 1);
    } else if r2 == k - 1 {
        lemma_sum_one_root(p, sz, r1, k - 1);
    } else {
        lemma_sum_two_roots(p, sz, r1, r2, k - 1);
    }
}

proof fn lemma_sum_union(p: Seq<usize>, sz: Seq<int>, win: usize, lose: usize, k: int)
    requires
        win < p.len(),
        lose < p.len(),
        win != lose,
        p[win as int] == win,
        p[lose as int] == lose,
        sz.len() == p.len(),
        0 <= k <= p.len(),
    ensures
        sum_root_sizes(
            p.update(lose as int, win),
            sz.update(win as int, sz[win as int] + sz[lose as int]),
            k,
        ) == sum_root_sizes(p, sz, k) + (if (win as int) < k {
            sz[lose as int]
        } else {
            0
        }) - (if (lose as int) < k {
            sz[lose as int]
        } else {
            0
        }),
    decreases k,
{
    if k > 0 {
        lemma_sum_union(p, sz, win, lose, k - 1);
    }
}

proof fn lemma_count_identity(roots: Seq<usize>, r: int, k: int)
    requires
        0 <= k <= roots.len(),
        forall|j: int| 0 <= j < roots.len() ==> (#[trigger] roots[j]) as int == j,
    ensures
        region_count(roots, r, k) == (if 0 <= r < k {
            1int
        } else {
            0int
        }),
    decreases k,
{
    if k > 0 {
        lemma_count_identity(roots, r, k - 1);
    }
}

proof fn lemma_count_remap(r1: Seq<usize>, r2: Seq<usize>, win: usize, lose: usize, r: int, k: int)
    requires
        r1.len() == r2.len(),
        0 <= k <= r1.len(),
        win != lose,
        forall|j: int| 0 <= j < r1.len() ==> (#[trigger] r2[j]) == (if r1[j] == lose {
            win
        } else {
            r1[j]
        }),
    ensures
        region_count(r2, r, k) == (if r == win as int {
            region_count(r1, win as int, k) + region_count(r1, lose as int, k)
        } else if r == lose as int {
            0int
        } else {
            region_count(r1, r, k)
        }),
    decreases k,
{
    if k > 0 {
        lemma_count_remap(r1, r2, win, lose, r, k - 1);
    }
}

proof fn lemma_abs_sum_bridge(s: DsuCore, k: int)
    requires
        s.wf(),
        0 <= k <= s.nodes(),
    ensures
        crate::model::abs_sum_sizes(s.abs(), k) == sum_root_sizes(s.parent@, s.size_seq(), k),
    decreases k,
{
    if k > 0 {
        lemma_abs_sum_bridge(s, k - 1);
        forest::lemma_root_of(s.parent@, s.rank@, s.rmax@, k - 1);
    }
}

/// The disjoint-set engine: parent forest, per-root component size,
/// smallest absorbed edge weight, and cached credit, with the fixed
/// threshold and contrast parameters of the run.
pub struct DsuCore {
    parent: Vec<usize>,
    size: Vec<usize>,
    smallest_edge: Vec<Option<i64>>,
    credit: Vec<Option<i64>>,
    threshold: i64,
    contrast: i64,
    rank: Ghost<Seq<int>>,
    rmax: Ghost<int>,
}

impl DsuCore {
    /// Number of nodes the structure was built over.
    pub closed spec fn nodes(self) -> nat {
        self.parent@.len()
    }

    /// The fixed merge threshold of the run.
    pub closed spec fn threshold_spec(self) -> int {
        self.threshold as int
    }

    /// The fixed contrast bias of the run.
    pub closed spec fn contrast_spec(self) -> int {
        self.contrast as int
    }

    /// Component sizes as mathematical integers.
    pub closed spec fn size_seq(self) -> Seq<int> {
        Seq::new(self.size@.len(), |j: int| self.size@[j] as int)
    }

    /// The abstract state: per node its root; per root the component
    /// size, smallest absorbed edge, and cached credit.
    pub closed spec fn abs(self) -> AbsDsu {
        AbsDsu {
            repr: Seq::new(self.nodes(), |j: int| root_of(self.parent@, self.rank@, self.rmax@, j)),
            size: self.size_seq(),
            se: Seq::new(self.nodes(), |j: int| match self.smallest_edge@[j] {
                Some(w) => Some(w as int),
                None => None,
            }),
            cr: Seq::new(self.nodes(), |j: int| match self.credit@[j] {
                Some(c) => Some(c as int),
                None => None,
            }),
        }
    }

    /// Well-formedness: the parent forest terminates, all arrays share the
    /// node count, parameters and stored values stay in their fixed-point
    /// ranges, and the component sizes at the roots sum to the node count.
    pub closed spec fn wf(self) -> bool {
        &&& forest_inv(self.parent@, self.rank@, self.rmax@)
        &&& self.size@.len() == self.nodes()
        &&& self.smallest_edge@.len() == self.nodes()
        &&& self.credit@.len() == self.nodes()
        &&& self.nodes() <= NODE_MAX
        &&& -W_MAX <= self.threshold <= W_MAX
        &&& -W_MAX <= self.contrast <= W_MAX
        &&& forall|i: int| 0 <= i < self.nodes() ==> 1 <= (#[trigger] self.size@[i]) as int
            && self.size@[i] as int <= self.nodes()
        &&& sum_root_sizes(self.parent@, self.size_seq(), self.nodes() as int)
            == self.nodes()
        &&& forall|i: int| 0 <= i < self.nodes() ==> (match #[trigger] self.smallest_edge@[i] {
            Some(w) => 0 <= w <= W_MAX,
            None => true,
        })
        &&& forall|i: int| 0 <= i < self.nodes() ==> (match #[trigger] self.credit@[i] {
            Some(c) => -CREDIT_MAX <= c <= CREDIT_MAX,
            None => true,
        })
        &&& forall|rt: int|
            0 <= rt < self.nodes() && (#[trigger] self.abs().repr[rt]) == rt
                ==> self.abs().size[rt] == region_count(
                roots_of(self.abs()),
                rt,
                self.nodes() as int,
            )
    }

    /// Every node's root lies in range and is its own root.
    pub proof fn lemma_abs(self)
        requires
            self.wf(),
        ensures
            self.nodes() <= NODE_MAX,
            self.abs().repr.len() == self.nodes(),
            self.abs().size.len() == self.nodes(),
            self.abs().se.len() == self.nodes(),
            self.abs().cr.len() == self.nodes(),
            forall|j: int| 0 <= j < self.nodes() ==> 0 <= (#[trigger] self.abs().repr[j])
                < self.nodes(),
            forall|j: int| 0 <= j < self.nodes()
                ==> self.abs().repr[#[trigger] self.abs().repr[j]] == self.abs().repr[j],
    {
        assert forall|j: int| 0 <= j < self.nodes() implies 0 <= (#[trigger] self.abs().repr[j])
            < self.nodes() && self.abs().repr[self.abs().repr[j]] == self.abs().repr[j] by {
            forest::lemma_root_of(self.parent@, self.rank@, self.rmax@, j);
            let r = root_of(self.parent@, self.rank@, self.rmax@, j);
            forest::lemma_root_of(self.parent@, self.rank@, self.rmax@, r);
        }
    }

    /// The sizes at the distinct roots always sum to the node count.
    pub proof fn lemma_size_conservation(self)
        requires
            self.wf(),
        ensures
            crate::model::abs_sum_sizes(self.abs(), self.nodes() as int) == self.nodes(),
    {
        lemma_abs_sum_bridge(self, self.nodes() as int);
    }

    /// The size at each root is the exact member count of its component.
    pub proof fn lemma_size_exact(self, r: int)
        requires
            self.wf(),
            0 <= r < self.nodes(),
            self.abs().repr[r] == r,
        ensures
            self.abs().size[r] == region_count(roots_of(self.abs()), r, self.nodes() as int),
    {
    }

    /// Builds the structure over `nodes` singleton components.
    pub fn new(nodes: usize, threshold: i64, contrast: i64) -> (r: DsuCore)
        requires
            nodes <= NODE_MAX,
            -W_MAX <= threshold <= W_MAX,
            -W_MAX <= contrast <= W_MAX,
        ensures
            r.wf(),
            r.nodes() == nodes,
            r.threshold_spec() == threshold as int,
            r.contrast_spec() == contrast as int,
            r.abs().repr == Seq::new(nodes as nat, |j: int| j),
            r.abs().size == Seq::new(nodes as nat, |j: int| 1int),
            r.abs().se == Seq::new(nodes as nat, |j: int| None::<int>),
            r.abs().cr == Seq::new(nodes as nat, |j: int| None::<int>),
    {
        let mut parent: Vec<usize> = Vec::new();
        let mut size: Vec<usize> = Vec::new();
        let mut smallest_edge: Vec<Option<i64>> = Vec::new();
        let mut credit: Vec<Option<i64>> = Vec::new();
        let mut i: usize = 0;
        while i < nodes
            invariant
                i <= nodes,
                parent@.len() == i,
                size@.len() == i,
                smallest_edge@.len() == i,
                credit@.len() == i,
                forall|j: int| 0 <= j < i ==> (#[trigger] parent@[j]) as int == j,
                forall|j: int| 0 <= j < i ==> (#[trigger] size@[j]) == 1,
                forall|j: int| 0 <= j < i ==> (#[trigger] smallest_edge@[j]) == None::<i64>,
                forall|j: int| 0 <= j < i ==> (#[trigger] credit@[j]) == None::<i64>,
            decreases nodes - i,
        {
            parent.push(i);
            size.push(1);
            smallest_edge.push(None);
            credit.push(None);
            i = i + 1;
        }
        let r = DsuCore {
            parent,
            size,
            smallest_edge,
            credit,
            threshold,
            contrast,
            rank: Ghost(Seq::new(nodes as nat, |j: int| 0int)),
            rmax: Ghost(0int),
        };
        proof {
            lemma_sum_init(r.parent@, r.size_seq(), nodes as int);
            assert forall|j: int| 0 <= j < nodes implies #[trigger] r.abs().repr[j] == j by {
                assert(r.parent@[j] as int == j);
            }
            assert(r.abs().repr =~= Seq::new(nodes as nat, |j: int| j));
            assert(r.abs().size =~= Seq::new(nodes as nat, |j: int| 1int));
            assert(r.abs().se =~= Seq::new(nodes as nat, |j: int| None::<int>));
            assert(r.abs().cr =~= Seq::new(nodes as nat, |j: int| None::<int>));
            assert forall|rt: int|
                0 <= rt < nodes && (#[trigger] r.abs().repr[rt]) == rt implies r.abs().size[rt]
                == region_count(roots_of(r.abs()), rt, nodes as int) by {
                assert forall|j: int| 0 <= j < roots_of(r.abs()).len() implies (#[trigger] roots_of(
                    r.abs(),
                )[j]) as int == j by {
                    assert(r.abs().repr[j] == j);
                }
                lemma_count_identity(roots_of(r.abs()), rt, nodes as int);
            }
        }
        r
    }

    /// Path-compressed root lookup: the partition and all component
    /// records are untouched, and the result is `node`'s root.
    pub fn find(&mut self, node: usize) -> (r: usize)
        requires
            old(self).wf(),
            (node as int) < old(self).nodes(),
        ensures
            final(self).wf(),
            final(self).nodes() == old(self).nodes(),
            final(self).threshold_spec() == old(self).threshold_spec(),
            final(self).contrast_spec() == old(self).contrast_spec(),
            final(self).abs() == old(self).abs(),
            (r as int) < old(self).nodes(),
            r as int == old(self).abs().repr[node as int],
            old(self).abs().repr[r as int] == r as int,
    {
        let ghost p0 = self.parent@;
        let r = forest::find_root(
            &mut self.parent,
            Ghost(self.rank@),
            Ghost(self.rmax@),
            node,
        );
        proof {
            assert(self.abs().repr =~= old(self).abs().repr);
            assert(self.abs() =~= old(self).abs());
            lemma_sum_same_roots(p0, self.parent@, self.size_seq(), self.nodes() as int);
            forest::lemma_root_of(self.parent@, self.rank@, self.rmax@, r as int);
        }
        r
    }

    /// The merge-tolerance budget of `node`'s component: the credit
    /// formula over the component's smallest-edge record, read at its
    /// root (falling back to the supplied weight), and the component's
    /// size. Nothing is cached.
    pub fn compute_credit(&mut self, node: usize, w: i64) -> (c: i64)
        requires
            old(self).wf(),
            (node as int) < old(self).nodes(),
            0 <= w <= W_MAX,
        ensures
            final(self).wf(),
            final(self).nodes() == old(self).nodes(),
            final(self).threshold_spec() == old(self).threshold_spec(),
            final(self).contrast_spec() == old(self).contrast_spec(),
            final(self).abs() == old(self).abs(),
            c as int == credit_formula(
                seed_of(old(self).abs().se[old(self).abs().repr[node as int]], w as int),
                old(self).contrast_spec(),
                old(self).abs().size[old(self).abs().repr[node as int]],
            ),
            -CREDIT_MAX <= c <= CREDIT_MAX,
    {
        let par = self.find(node);
        let sz = self.size[par];
        let seed = match self.smallest_edge[par] {
            Some(s) => s,
            None => w,
        };
        credit_value(seed, self.contrast, sz)
    }

    /// Threshold-gated merge: joins the components of `u` and `v` exactly
    /// when they differ and `w` lies strictly under the threshold, and
    /// then reports the surviving and the absorbed root.
    pub fn union_threshold(&mut self, u: usize, v: usize, w: i64) -> (r: Option<(usize, usize)>)
        requires
            old(self).wf(),
            (u as int) < old(self).nodes(),
            (v as int) < old(self).nodes(),
            0 <= w <= W_MAX,
        ensures
            final(self).wf(),
            final(self).nodes() == old(self).nodes(),
            final(self).threshold_spec() == old(self).threshold_spec(),
            final(self).contrast_spec() == old(self).contrast_spec(),
            final(self).abs() == spec_union_threshold(
                old(self).abs(),
                old(self).threshold_spec(),
                u as int,
                v as int,
                w as int,
            ),
            r == (if ut_merges(old(self).abs(), old(self).threshold_spec(), u as int, v as int, w as int) {
                Some((
                    merge_winner(old(self).abs(), u as int, v as int) as usize,
                    merge_loser(old(self).abs(), u as int, v as int) as usize,
                ))
            } else {
                None::<(usize, usize)>
            }),
    {
        let ghost a0 = old(self).abs();
        let ru = self.find(u);
        let rv = self.find(v);
        proof {
            old(self).lemma_abs();
            forest::lemma_root_of(self.parent@, self.rank@, self.rmax@, ru as int);
            forest::lemma_root_of(self.parent@, self.rank@, self.rmax@, rv as int);
        }
        if ru != rv && w < self.threshold {
            let merged = self.merge(ru, rv, w, Ghost(a0), Ghost(u as int), Ghost(v as int));
            Some(merged)
        } else {
            proof {
                assert(self.abs() =~= spec_union_threshold(
                    a0,
                    old(self).threshold_spec(),
                    u as int,
                    v as int,
                    w as int,
                ));
            }
            None
        }
    }

    /// Joins the components whose roots are `ru != rv`, attaching the
    /// smaller beneath the larger; the abstract state becomes
    /// `merge_state` of the current one. Internal step shared by the two
    /// public merge operations.
    fn merge(
        &mut self,
        ru: usize,
        rv: usize,
        w: i64,
        Ghost(a0): Ghost<AbsDsu>,
        Ghost(gu): Ghost<int>,
        Ghost(gv): Ghost<int>,
    ) -> (r: (usize, usize))
        requires
            old(self).wf(),
            (ru as int) < old(self).nodes(),
            (rv as int) < old(self).nodes(),
            ru != rv,
            old(self).parent@[ru as int] == ru,
            old(self).parent@[rv as int] == rv,
            0 <= w <= W_MAX,
            0 <= gu < old(self).nodes(),
            0 <= gv < old(self).nodes(),
            a0.repr == old(self).abs().repr,
            a0.size == old(self).abs().size,
            a0.se == old(self).abs().se,
            a0.repr[gu] == ru as int,
            a0.repr[gv] == rv as int,
        ensures
            final(self).wf(),
            final(self).nodes() == old(self).nodes(),
            final(self).threshold_spec() == old(self).threshold_spec(),
            final(self).contrast_spec() == old(self).contrast_spec(),
            final(self).abs().repr == merge_state(a0, gu, gv, w as int).repr,
            final(self).abs().size == merge_state(a0, gu, gv, w as int).size,
            final(self).abs().se == merge_state(a0, gu, gv, w as int).se,
            final(self).abs().cr == old(self).abs().cr,
            r.0 == merge_winner(a0, gu, gv) as usize,
            r.1 == merge_loser(a0, gu, gv) as usize,
            (r.0 as int) < old(self).nodes(),
            (r.1 as int) < old(self).nodes(),
    {
        proof {
            forest::lemma_root_of(self.parent@, self.rank@, self.rmax@, ru as int);
            forest::lemma_root_of(self.parent@, self.rank@, self.rmax@, rv as int);
        }
        let (win, lose) = if self.size[ru] < self.size[rv] {
            (rv, ru)
        } else {
            (ru, rv)
        };
        proof {
            lemma_sum_two_roots(
                self.parent@,
                self.size_seq(),
                win as int,
                lose as int,
                self.nodes() as int,
            );
            lemma_sum_union(self.parent@, self.size_seq(), win, lose, self.nodes() as int);
            forest::lemma_union(self.parent@, self.rank@, self.rmax@, lose, win);
        }
        let ghost p0 = self.parent@;
        let ghost rank0 = self.rank@;
        let ghost rmax0 = self.rmax@;
        let new_size = self.size[win] + self.size[lose];
        let mut m: i64 = w;
        match self.smallest_edge[ru] {
            Some(s) => {
                if s < m {
                    m = s;
                }
            },
            None => {},
        }
        match self.smallest_edge[rv] {
            Some(s) => {
                if s < m {
                    m = s;
                }
            },
            None => {},
        }
        self.parent.set(lose, win);
        self.rank = Ghost(forest::union_rank(rank0, lose, win));
        self.rmax = Ghost(forest::union_rmax(rank0, rmax0, lose));
        self.size.set(win, new_size);
        self.smallest_edge.set(win, Some(m));
        proof {
            assert(self.parent@ =~= p0.update(lose as int, win));
            let ms = merge_state(a0, gu, gv, w as int);
            assert(self.abs().repr =~= ms.repr);
            assert(self.abs().size =~= ms.size);
            assert(m as int == merged_se(a0.se[ru as int], a0.se[rv as int], w as int));
            assert(self.abs().se =~= ms.se);
            assert(self.abs().cr =~= old(self).abs().cr);
            assert(self.size_seq() =~= old(self).size_seq().update(
                win as int,
                old(self).size_seq()[win as int] + old(self).size_seq()[lose as int],
            ));
            assert(sum_root_sizes(self.parent@, self.size_seq(), self.nodes() as int)
                == self.nodes());
            let n = self.nodes() as int;
            let a_old = old(self).abs();
            let roots1 = roots_of(a_old);
            let roots2 = roots_of(self.abs());
            old(self).lemma_abs();
            assert(a_old.repr[ru as int] == ru as int);
            assert(a_old.repr[rv as int] == rv as int);
            assert forall|j: int| 0 <= j < roots1.len() implies (#[trigger] roots2[j]) == (
            if roots1[j] == lose {
                win
            } else {
                roots1[j]
            }) by {
                assert(self.abs().repr[j] == (if a_old.repr[j] == lose as int {
                    win as int
                } else {
                    a_old.repr[j]
                }));
            }
            assert forall|rt: int|
                0 <= rt < n && (#[trigger] self.abs().repr[rt]) == rt implies self.abs().size[rt]
                == region_count(roots2, rt, n) by {
                lemma_count_remap(roots1, roots2, win, lose, rt, n);
                if rt == win as int {
                    assert(a_old.size[ru as int] == region_count(roots1, ru as int, n));
                    assert(a_old.size[rv as int] == region_count(roots1, rv as int, n));
                } else {
                    assert(self.abs().repr[rt] == (if a_old.repr[rt] == lose as int {
                        win as int
                    } else {
                        a_old.repr[rt]
                    }));
                    assert(a_old.repr[rt] == rt);
                    assert(a_old.size[rt] == region_count(roots1, rt, n));
                }
            }
        }
        (win, lose)
    }

    /// Credit-gated merge: computes and caches both sides' credits if
    /// unset, joins the components exactly when the smaller credit
    /// strictly exceeds the weight, and carries the unspent budget
    /// forward on the surviving root.
    pub fn union(&mut self, u: usize, v: usize, w: i64) -> (r: Option<(usize, usize)>)
        requires
            old(self).wf(),
            (u as int) < old(self).nodes(),
            (v as int) < old(self).nodes(),
            0 <= w <= W_MAX,
        ensures
            final(self).wf(),
            final(self).nodes() == old(self).nodes(),
            final(self).threshold_spec() == old(self).threshold_spec(),
            final(self).contrast_spec() == old(self).contrast_spec(),
            final(self).abs() == spec_union(
                old(self).abs(),
                old(self).contrast_spec(),
                u as int,
                v as int,
                w as int,
            ),
            r == (if crate::model::un_merges(old(self).abs(), old(self).contrast_spec(), u as int, v as int, w as int) {
                Some((
                    merge_winner(old(self).abs(), u as int, v as int) as usize,
                    merge_loser(old(self).abs(), u as int, v as int) as usize,
                ))
            } else {
                None::<(usize, usize)>
            }),
    {
        let ghost a0 = old(self).abs();
        let ru = self.find(u);
        let rv = self.find(v);
        proof {
            old(self).lemma_abs();
            forest::lemma_root_of(self.parent@, self.rank@, self.rmax@, ru as int);
            forest::lemma_root_of(self.parent@, self.rank@, self.rmax@, rv as int);
        }
        if ru != rv {
            let cu = match self.credit[ru] {
                Some(c) => c,
                None => {
                    let c = self.compute_credit(ru, w);
                    self.credit.set(ru, Some(c));
                    c
                },
            };
            proof {
                assert(cu as int == side_credit(a0, old(self).contrast_spec(), u as int, w as int));
                assert(self.abs().cr =~= a0.cr.update(ru as int, Some(cu as int)));
                assert(self.abs().repr =~= a0.repr);
                assert(self.abs().size =~= a0.size);
                assert(self.abs().se =~= a0.se);
            }
            let ghost a1 = self.abs();
            let cv = match self.credit[rv] {
                Some(c) => c,
                None => {
                    let c = self.compute_credit(rv, w);
                    self.credit.set(rv, Some(c));
                    c
                },
            };
            proof {
                assert(cv as int == side_credit(a0, old(self).contrast_spec(), v as int, w as int));
                assert(self.abs().cr =~= a1.cr.update(rv as int, Some(cv as int)));
                assert(self.abs().cr =~= a0.cr.update(ru as int, Some(cu as int)).update(
                    rv as int,
                    Some(cv as int),
                ));
                assert(self.abs().repr =~= a0.repr);
                assert(self.abs().size =~= a0.size);
                assert(self.abs().se =~= a0.se);
            }
            let c = if cu < cv {
                cu
            } else {
                cv
            };
            if c > w {
                proof {
                    forest::lemma_root_of(self.parent@, self.rank@, self.rmax@, ru as int);
                    forest::lemma_root_of(self.parent@, self.rank@, self.rmax@, rv as int);
                }
                let ghost cached = self.abs();
                let merged = self.merge(ru, rv, w, Ghost(cached), Ghost(u as int), Ghost(v as int));
                self.credit.set(merged.0, Some(c - w));
                proof {
                    let expect = spec_union(a0, old(self).contrast_spec(), u as int, v as int, w as int);
                    assert(self.abs().repr =~= expect.repr);
                    assert(self.abs().size =~= expect.size);
                    assert(self.abs().se =~= expect.se);
                    assert(self.abs().cr =~= expect.cr);
                    assert(self.abs() =~= expect);
                }
                Some(merged)
            } else {
                proof {
                    assert(self.abs() =~= spec_union(
                        a0,
                        old(self).contrast_spec(),
                        u as int,
                        v as int,
                        w as int,
                    ));
                }
                None
            }
        } else {
            proof {
                assert(self.abs() =~= spec_union(
                    a0,
                    old(self).contrast_spec(),
                    u as int,
                    v as int,
                    w as int,
                ));
            }
            None
        }
    }

    /// Stores `c` as the cached credit of `node`'s slot.
    pub fn set_credit(&mut self, node: usize, c: i64) -> (u: ())
        requires
            old(self).wf(),
            (node as int) < old(self).nodes(),
            -CREDIT_MAX <= c <= CREDIT_MAX,
        ensures
            final(self).wf(),
            final(self).nodes() == old(self).nodes(),
            final(self).threshold_spec() == old(self).threshold_spec(),
            final(self).contrast_spec() == old(self).contrast_spec(),
            final(self).abs().repr == old(self).abs().repr,
            final(self).abs().size == old(self).abs().size,
            final(self).abs().se == old(self).abs().se,
            final(self).abs().cr == old(self).abs().cr.update(node as int, Some(c as int)),
    {
        self.credit.set(node, Some(c));
        proof {
            assert(self.abs().repr =~= old(self).abs().repr);
            assert(self.abs().size =~= old(self).abs().size);
            assert(self.abs().se =~= old(self).abs().se);
            assert(self.abs().cr =~= old(self).abs().cr.update(node as int, Some(c as int)));
            lemma_sum_same_roots(
                old(self).parent@,
                self.parent@,
                self.size_seq(),
                self.nodes() as int,
            );
        }
    }

    /// The fixed threshold, as stored.
    pub fn threshold(&self) -> (t: i64)
        ensures
            t as int == self.threshold_spec(),
    {
        self.threshold
    }

    /// The fixed contrast bias, as stored.
    pub fn contrast(&self) -> (c: i64)
        ensures
            c as int == self.contrast_spec(),
    {
        self.contrast
    }
}

} // verus!
