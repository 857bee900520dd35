//! The sequential disjoint-set structure driven by the whole-image
//! pipeline: path-compressed `find`, a credit query, and the two merge
//! operations, each specified against the abstract state in `model`.
use vstd::prelude::*;

use crate::dsu::DsuCore;
use crate::model::{
    abs_sum_sizes, credit_formula, seed_of, spec_union, spec_union_threshold, AbsDsu, CREDIT_MAX,
    NODE_MAX, W_MAX,
};

verus! {

/// Disjoint-set union over the image's nodes with per-root size,
/// smallest-merged-edge record and memoized credit.
pub struct DisjointSetUnion {
    core: DsuCore,
}

impl DisjointSetUnion {
    /// Number of nodes the structure was built over.
    pub closed spec fn nodes(self) -> nat {
        self.core.nodes()
    }

    /// The fixed merge threshold of the run.
    pub closed spec fn threshold_spec(self) -> int {
        self.core.threshold_spec()
    }

    /// The fixed contrast bias of the run.
    pub closed spec fn contrast_spec(self) -> int {
        self.core.contrast_spec()
    }

    /// The abstract state: per node its root; per root the component
    /// size, smallest absorbed edge, and cached credit.
    pub closed spec fn abs(self) -> AbsDsu {
        self.core.abs()
    }

    /// Well-formedness of the underlying forest and records.
    pub closed spec fn wf(self) -> bool {
        self.core.wf()
    }

    /// Shape of the abstract state: all four records share the node
    /// count, the node count is admissible, and every root lies in range
    /// and is its own root.
    pub proof fn lemma_abs(self)
        requires
            self.wf(),
        ensures
            self.nodes() <= NODE_MAX,
            self.abs().repr.len() == self.nodes(),
            self.abs().size.len() == self.nodes(),
            self.abs().se.len() == self.nodes(),
            self.abs().cr.len() == self.nodes(),
            forall|j: int| 0 <= j < self.nodes() ==> 0 <= (#[trigger] self.abs().repr[j])
                < self.nodes(),
            forall|j: int| 0 <= j < self.nodes()
                ==> self.abs().repr[#[trigger] self.abs().repr[j]] == self.abs().repr[j],
    {
        self.core.lemma_abs();
    }

    /// Root idempotence: the root of a node's root is that root itself,
    /// so `find(find(n)) == find(n)` for every node `n`.
    pub proof fn lemma_root_idempotence(self, n: int)
        requires
            self.wf(),
            0 <= n < self.nodes(),
        ensures
            0 <= self.abs().repr[n] < self.nodes(),
            self.abs().repr[self.abs().repr[n]] == self.abs().repr[n],
    {
        self.core.lemma_abs();
    }

    /// Size conservation: the component sizes at the distinct roots
    /// always sum to the total node count.
    pub proof fn lemma_size_conservation(self)
        requires
            self.wf(),
        ensures
            abs_sum_sizes(self.abs(), self.nodes() as int) == self.nodes(),
    {
        self.core.lemma_size_conservation();
    }

    /// Size exactness: the size at each root is the exact member count
    /// of its component.
    pub proof fn lemma_size_exact(self, r: int)
        requires
            self.wf(),
            0 <= r < self.nodes(),
            self.abs().repr[r] == r,
        ensures
            self.abs().size[r] == crate::color::region_count(
                crate::color::roots_of(self.abs()),
                r,
                self.nodes() as int,
            ),
    {
        self.core.lemma_size_exact(r);
    }

    /// Builds the structure over `nodes` singleton components.
    pub fn new(nodes: usize, threshold: i64, contrast: i64) -> (r: DisjointSetUnion)
        requires
            nodes <= NODE_MAX,
            -W_MAX <= threshold <= W_MAX,
            -W_MAX <= contrast <= W_MAX,
        ensures
            r.wf(),
            r.nodes() == nodes,
            r.threshold_spec() == threshold as int,
            r.contrast_spec() == contrast as int,
            r.abs().repr == Seq::new(nodes as nat, |j: int| j),
            r.abs().size == Seq::new(nodes as nat, |j: int| 1int),
            r.abs().se == Seq::new(nodes as nat, |j: int| None::<int>),
            r.abs().cr == Seq::new(nodes as nat, |j: int| None::<int>),
    {
        DisjointSetUnion { core: DsuCore::new(nodes, threshold, contrast) }
    }

    /// The root of `node`'s component, with path compression; the
    /// partition and all component records are unchanged.
    pub fn find(&mut self, node: usize) -> (r: usize)
        requires
            old(self).wf(),
            (node as int) < old(self).nodes(),
        ensures
            final(self).wf(),
            final(self).nodes() == old(self).nodes(),
            final(self).threshold_spec() == old(self).threshold_spec(),
            final(self).contrast_spec() == old(self).contrast_spec(),
            final(self).abs() == old(self).abs(),
            (r as int) < old(self).nodes(),
            r as int == old(self).abs().repr[node as int],
    {
        self.core.find(node)
    }

    /// The merge-tolerance budget of `node`'s component: the credit
    /// formula over the component's smallest-edge record, read at its
    /// root (falling back to the supplied weight), and the component's
    /// size. Nothing is cached.
    pub fn credit(&mut self, node: usize, weight: i64) -> (c: i64)
        requires
            old(self).wf(),
            (node as int) < old(self).nodes(),
            0 <= weight <= W_MAX,
        ensures
            final(self).wf(),
            final(self).nodes() == old(self).nodes(),
            final(self).threshold_spec() == old(self).threshold_spec(),
            final(self).contrast_spec() == old(self).contrast_spec(),
            final(self).abs() == old(self).abs(),
            c as int == credit_formula(
                seed_of(old(self).abs().se[old(self).abs().repr[node as int]], weight as int),
                old(self).contrast_spec(),
                old(self).abs().size[old(self).abs().repr[node as int]],
            ),
            -CREDIT_MAX <= c <= CREDIT_MAX,
    {
        self.core.compute_credit(node, weight)
    }

    /// Credit-gated merge: computes and caches both sides' credits if
    /// unset, joins the components exactly when the smaller credit
    /// strictly exceeds the weight, and carries the unspent budget
    /// forward on the surviving root.
    pub fn union(&mut self, u: usize, v: usize, weight: i64)
        requires
            old(self).wf(),
            (u as int) < old(self).nodes(),
            (v as int) < old(self).nodes(),
            0 <= weight <= W_MAX,
        ensures
            final(self).wf(),
            final(self).nodes() == old(self).nodes(),
            final(self).threshold_spec() == old(self).threshold_spec(),
            final(self).contrast_spec() == old(self).contrast_spec(),
            final(self).abs() == spec_union(
                old(self).abs(),
                old(self).contrast_spec(),
                u as int,
                v as int,
                weight as int,
            ),
    {
        let _ = self.core.union(u, v, weight);
    }

    /// Threshold-gated merge: joins the components of `u` and `v` exactly
    /// when they differ and the weight lies strictly under the threshold,
    /// reporting whether a merge occurred.
    pub fn union_threshold(&mut self, u: usize, v: usize, weight: i64) -> (merged: bool)
        requires
            old(self).wf(),
            (u as int) < old(self).nodes(),
            (v as int) < old(self).nodes(),
            0 <= weight <= W_MAX,
        ensures
            final(self).wf(),
            final(self).nodes() == old(self).nodes(),
            final(self).threshold_spec() == old(self).threshold_spec(),
            final(self).contrast_spec() == old(self).contrast_spec(),
            final(self).abs() == spec_union_threshold(
                old(self).abs(),
                old(self).threshold_spec(),
                u as int,
                v as int,
                weight as int,
            ),
            merged == crate::model::ut_merges(
                old(self).abs(),
                old(self).threshold_spec(),
                u as int,
                v as int,
                weight as int,
            ),
    {
        let r = self.core.union_threshold(u, v, weight);
        match r {
            Some(_) => true,
            None => false,
        }
    }

    /// The fixed merge threshold, as stored.
    pub fn threshold(&self) -> (t: i64)
        ensures
            t as int == self.threshold_spec(),
    {
        self.core.threshold()
    }
}

} // verus!
