//! A rooted parent forest: the representation underneath the disjoint-set
//! structures. Each node stores a parent index; a node whose parent is
//! itself is a root. A ghost rank sequence, strictly increasing along
//! parent links, witnesses that every parent chain terminates.
use vstd::prelude::*;

verus! {

/// The forest is well formed: parent pointers stay in range, every
/// non-root's parent has strictly larger rank, and all ranks lie at
/// or under the bound `rmax`.
pub open spec fn forest_inv(p: Seq<usize>, rank: Seq<int>, rmax: int) -> bool {
    &&& p.len() == rank.len()
    &&& forall|i: int| 0 <= i < p.len() ==> (#[trigger] p[i]) < p.len()
    &&& forall|i: int|
        0 <= i < p.len() && p[i] != i ==> rank[(#[trigger] p[i]) as int] > rank[i]
    &&& forall|i: int| 0 <= i < p.len() ==> (#[trigger] rank[i]) <= rmax
}

/// The root reached from `i` by following parent links.
pub open spec fn root_of(p: Seq<usize>, rank: Seq<int>, rmax: int, i: int) -> int
    decreases rmax - rank[i]
        when forest_inv(p, rank, rmax) && 0 <= i < p.len()
{
    if p[i] as int == i {
        i
    } else {
        root_of(p, rank, rmax, p[i] as int)
    }
}

/// The root of any node is itself a root, lies in range, and has rank
/// at least the node's own; it equals the node exactly when the node
/// is a root.
pub proof fn lemma_root_of(p: Seq<usize>, rank: Seq<int>, rmax: int, i: int)
    requires
        forest_inv(p, rank, rmax),
        0 <= i < p.len(),
    ensures
        0 <= root_of(p, rank, rmax, i) < p.len(),
        p[root_of(p, rank, rmax, i)] as int == root_of(p, rank, rmax, i),
        rank[root_of(p, rank, rmax, i)] >= rank[i],
        (root_of(p, rank, rmax, i) == i) <==> (p[i] as int == i),
    decreases rmax - rank[i],
{
    if p[i] as int != i {
        lemma_root_of(p, rank, rmax, p[i] as int);
    }
}

/// Redirecting one non-root node `c` to a higher-ranked node `a` of the
/// same tree keeps the forest well formed, keeps the root set pointwise,
/// and changes no node's root. This is the step that path compression takes.
pub proof fn lemma_compress(p: Seq<usize>, rank: Seq<int>, rmax: int, c: usize, a: usize)
    requires
        forest_inv(p, rank, rmax),
        c < p.len(),
        a < p.len(),
        root_of(p, rank, rmax, a as int) == root_of(p, rank, rmax, c as int),
        rank[a as int] > rank[c as int],
        p[c as int] != c,
    ensures
        forest_inv(p.update(c as int, a), rank, rmax),
        forall|j: int| 0 <= j < p.len() ==>
            root_of(p.update(c as int, a), rank, rmax, j) == root_of(p, rank, rmax, j),
        forall|j: int| 0 <= j < p.len() ==>
            ((#[trigger] p.update(c as int, a)[j]) == j <==> p[j] == j),
{
    let p2 = p.update(c as int, a);
    lemma_compress_inv(p, rank, rmax, c, a);
    assert forall|j: int| 0 <= j < p.len() implies
        root_of(p2, rank, rmax, j) == root_of(p, rank, rmax, j) by {
        lemma_compress_one(p, rank, rmax, c, a, j);
    }
    assert forall|j: int| 0 <= j < p.len() implies
        ((#[trigger] p2[j]) == j <==> p[j] == j) by {
        if j == c as int {
            assert(p2[j] == a);
            assert(a != c);
        }
    }
}

proof fn lemma_compress_inv(p: Seq<usize>, rank: Seq<int>, rmax: int, c: usize, a: usize)
    requires
        forest_inv(p, rank, rmax),
        c < p.len(),
        a < p.len(),
        rank[a as int] > rank[c as int],
    ensures
        forest_inv(p.update(c as int, a), rank, rmax),
{
    let p2 = p.update(c as int, a);
    assert forall|i: int| 0 <= i < p2.len() implies (#[trigger] p2[i]) < p2.len() by {
        if i != c as int {
            assert(p2[i] == p[i]);
        }
    }
    assert forall|i: int| 0 <= i < p2.len() && p2[i] != i implies
        rank[(#[trigger] p2[i]) as int] > rank[i] by {
        if i != c as int {
            assert(p2[i] == p[i]);
        }
    }
}

proof fn lemma_compress_one(p: Seq<usize>, rank: Seq<int>, rmax: int, c: usize, a: usize, j: int)
    requires
        forest_inv(p, rank, rmax),
        c < p.len(),
        a < p.len(),
        root_of(p, rank, rmax, a as int) == root_of(p, rank, rmax, c as int),
        rank[a as int] > rank[c as int],
        0 <= j < p.len(),
    ensures
        root_of(p.update(c as int, a), rank, rmax, j) == root_of(p, rank, rmax, j),
    decreases rmax - rank[j],
{
    let p2 = p.update(c as int, a);
    lemma_compress_inv(p, rank, rmax, c, a);
    if j == c as int {
        lemma_compress_one(p, rank, rmax, c, a, a as int);
        assert(p2[j] == a);
        assert(a != c);
        assert(root_of(p2, rank, rmax, j) == root_of(p2, rank, rmax, a as int));
    } else {
        assert(p2[j] == p[j]);
        if p[j] as int != j {
            lemma_compress_one(p, rank, rmax, c, a, p[j] as int);
        }
    }
}

/// The rank sequence after attaching root `rv` beneath root `ru`.
pub open spec fn union_rank(rank: Seq<int>, rv: usize, ru: usize) -> Seq<int> {
    rank.update(
        ru as int,
        if rank[ru as int] >= rank[rv as int] + 1 { rank[ru as int] } else { rank[rv as int] + 1 },
    )
}

/// The rank bound after attaching root `rv` beneath root `ru`.
pub open spec fn union_rmax(rank: Seq<int>, rmax: int, rv: usize) -> int {
    if rmax >= rank[rv as int] + 1 { rmax } else { rank[rv as int] + 1 }
}

/// Attaching root `rv` beneath root `ru` (and lifting `ru`'s rank above
/// `rv`'s) keeps the forest well formed and redirects exactly the nodes
/// whose root was `rv` to the new root `ru`.
pub proof fn lemma_union(p: Seq<usize>, rank: Seq<int>, rmax: int, rv: usize, ru: usize)
    requires
        forest_inv(p, rank, rmax),
        rv < p.len(),
        ru < p.len(),
        rv != ru,
        p[rv as int] == rv,
        p[ru as int] == ru,
    ensures
        ({
            let p2 = p.update(rv as int, ru);
            let rank2 = union_rank(rank, rv, ru);
            let rmax2 = union_rmax(rank, rmax, rv);
            &&& forest_inv(p2, rank2, rmax2)
            &&& forall|j: int| 0 <= j < p.len() ==>
                root_of(p2, rank2, rmax2, j)
                    == (if root_of(p, rank, rmax, j) == rv as int {
                        ru as int
                    } else {
                        root_of(p, rank, rmax, j)
                    })
            &&& forall|j: int| 0 <= j < p.len() && j != rv as int ==>
                ((#[trigger] p2[j]) == j <==> p[j] == j)
        }),
{
    let p2 = p.update(rv as int, ru);
    let rank2 = union_rank(rank, rv, ru);
    let rmax2 = union_rmax(rank, rmax, rv);
    lemma_union_inv(p, rank, rmax, rv, ru);
    assert forall|j: int| 0 <= j < p.len() implies
        root_of(p2, rank2, rmax2, j)
            == (if root_of(p, rank, rmax, j) == rv as int {
                ru as int
            } else {
                root_of(p, rank, rmax, j)
            }) by {
        lemma_union_one(p, rank, rmax, rv, ru, j);
    }
    assert forall|j: int| 0 <= j < p.len() && j != rv as int implies
        ((#[trigger] p2[j]) == j <==> p[j] == j) by {
        assert(p2[j] == p[j]);
    }
}

proof fn lemma_union_inv(p: Seq<usize>, rank: Seq<int>, rmax: int, rv: usize, ru: usize)
    requires
        forest_inv(p, rank, rmax),
        rv < p.len(),
        ru < p.len(),
        rv != ru,
        p[rv as int] == rv,
        p[ru as int] == ru,
    ensures
        forest_inv(
            p.update(rv as int, ru),
            union_rank(rank, rv, ru),
            union_rmax(rank, rmax, rv),
        ),
{
    let p2 = p.update(rv as int, ru);
    let rank2 = union_rank(rank, rv, ru);
    let rmax2 = union_rmax(rank, rmax, rv);
    assert forall|i: int| 0 <= i < p2.len() implies (#[trigger] p2[i]) < p2.len() by {
        if i != rv as int {
            assert(p2[i] == p[i]);
        }
    }
    assert forall|i: int| 0 <= i < p2.len() && p2[i] != i implies
        rank2[(#[trigger] p2[i]) as int] > rank2[i] by {
        if i == rv as int {
            assert(p2[i] == ru);
            assert(rank2[ru as int] >= rank[rv as int] + 1);
        } else {
            assert(p2[i] == p[i]);
            assert(i != ru as int);
            assert(rank2[i] == rank[i]);
            assert(rank2[p[i] as int] >= rank[p[i] as int]);
        }
    }
    assert forall|i: int| 0 <= i < p2.len() implies (#[trigger] rank2[i]) <= rmax2 by {
        if i != ru as int {
            assert(rank2[i] == rank[i]);
        }
    }
}

proof fn lemma_union_one(p: Seq<usize>, rank: Seq<int>, rmax: int, rv: usize, ru: usize, j: int)
    requires
        forest_inv(p, rank, rmax),
        rv < p.len(),
        ru < p.len(),
        rv != ru,
        p[rv as int] == rv,
        p[ru as int] == ru,
        0 <= j < p.len(),
    ensures
        ({
            let p2 = p.update(rv as int, ru);
            let rank2 = union_rank(rank, rv, ru);
            let rmax2 = union_rmax(rank, rmax, rv);
            root_of(p2, rank2, rmax2, j)
                == (if root_of(p, rank, rmax, j) == rv as int {
                    ru as int
                } else {
                    root_of(p, rank, rmax, j)
                })
        }),
    decreases rmax - rank[j],
{
    let p2 = p.update(rv as int, ru);
    let rank2 = union_rank(rank, rv, ru);
    let rmax2 = union_rmax(rank, rmax, rv);
    lemma_union_inv(p, rank, rmax, rv, ru);
    if j == rv as int {
        assert(p2[ru as int] == ru);
        assert(root_of(p2, rank2, rmax2, ru as int) == ru as int);
        assert(p2[j] == ru);
        assert(root_of(p2, rank2, rmax2, j) == root_of(p2, rank2, rmax2, ru as int));
        assert(root_of(p, rank, rmax, j) == rv as int);
    } else if p[j] as int == j {
        assert(p2[j] as int == j);
        assert(root_of(p2, rank2, rmax2, j) == j);
        assert(root_of(p, rank, rmax, j) == j);
    } else {
        assert(p2[j] == p[j]);
        lemma_union_one(p, rank, rmax, rv, ru, p[j] as int);
        assert(root_of(p2, rank2, rmax2, j) == root_of(p2, rank2, rmax2, p[j] as int));
        assert(root_of(p, rank, rmax, j) == root_of(p, rank, rmax, p[j] as int));
    }
}

/// Follows parent links from `node` to its root, compressing the path by
/// redirecting each visited node to its grandparent. The logical partition
/// (each node's root) never changes, nor does the root set itself.
pub fn find_root(
    p: &mut Vec<usize>,
    Ghost(rank): Ghost<Seq<int>>,
    Ghost(rmax): Ghost<int>,
    node: usize,
) -> (r: usize)
    requires
        forest_inv(old(p)@, rank, rmax),
        node < old(p)@.len(),
    ensures
        forest_inv(final(p)@, rank, rmax),
        final(p)@.len() == old(p)@.len(),
        forall|j: int| 0 <= j < old(p)@.len() ==>
            root_of(final(p)@, rank, rmax, j) == root_of(old(p)@, rank, rmax, j),
        forall|j: int| 0 <= j < old(p)@.len() ==>
            ((#[trigger] final(p)@[j]) == j <==> old(p)@[j] == j),
        r < old(p)@.len(),
        r as int == root_of(old(p)@, rank, rmax, node as int),
        final(p)@[r as int] == r,
{
    let mut current = node;
    loop
        invariant
            forest_inv(p@, rank, rmax),
            p@.len() == old(p)@.len(),
            current < p@.len(),
            root_of(p@, rank, rmax, current as int)
                == root_of(old(p)@, rank, rmax, node as int),
            forall|j: int| 0 <= j < old(p)@.len() ==>
                root_of(p@, rank, rmax, j) == root_of(old(p)@, rank, rmax, j),
            forall|j: int| 0 <= j < old(p)@.len() ==>
                ((#[trigger] p@[j]) == j <==> old(p)@[j] == j),
        decreases rmax - rank[current as int],
    {
        let parent = p[current];
        if parent == current {
            proof {
                lemma_root_of(p@, rank, rmax, current as int);
            }
            return current;
        }
        let grandparent = p[parent];
        proof {
            assert(root_of(p@, rank, rmax, current as int)
                == root_of(p@, rank, rmax, parent as int));
            if p@[parent as int] == parent {
                assert(grandparent == parent);
            } else {
                assert(root_of(p@, rank, rmax, parent as int)
                    == root_of(p@, rank, rmax, grandparent as int));
                assert(rank[grandparent as int] > rank[parent as int]);
            }
            assert(rank[grandparent as int] > rank[current as int]);
            lemma_compress(p@, rank, rmax, current, grandparent);
        }
        let ghost p_before = p@;
        p.set(current, grandparent);
        proof {
            assert(p@ =~= p_before.update(current as int, grandparent));
        }
        current = parent;
    }
}

} // verus!
