//! The per-tile region activity map: which component roots a tile
//! tracks, and which of them are fenced (mid cross-tile coordination and
//! not to be merged by a purely local step). Held as an association list
//! keyed by root, with first-occurrence semantics.
use vstd::prelude::*;

verus! {

/// The flag stored under the first occurrence of `k`, if any.
pub open spec fn am_get(s: Seq<(usize, bool)>, k: usize) -> Option<bool>
    decreases s.len(),
{
    if s.len() == 0 {
        None
    } else if s[0].0 == k {
        Some(s[0].1)
    } else {
        am_get(s.subrange(1, s.len() as int), k)
    }
}

/// The list with `k` bound to `fl`: the first occurrence updated, or the
/// pair appended if the key is new.
pub open spec fn am_set(s: Seq<(usize, bool)>, k: usize, fl: bool) -> Seq<(usize, bool)>
    decreases s.len(),
{
    if s.len() == 0 {
        seq![(k, fl)]
    } else if s[0].0 == k {
        s.update(0, (k, fl))
    } else {
        seq![s[0]] + am_set(s.subrange(1, s.len() as int), k, fl)
    }
}

/// The list with the first occurrence of `k` removed, if any.
pub open spec fn am_remove(s: Seq<(usize, bool)>, k: usize) -> Seq<(usize, bool)>
    decreases s.len(),
{
    if s.len() == 0 {
        s
    } else if s[0].0 == k {
        s.subrange(1, s.len() as int)
    } else {
        seq![s[0]] + am_remove(s.subrange(1, s.len() as int), k)
    }
}

/// Every key of `am_set(s, k, fl)` is a key of `s` or is `k`.
pub proof fn lemma_am_set_keys(s: Seq<(usize, bool)>, k: usize, fl: bool, n: int)
    requires
        forall|j: int| 0 <= j < s.len() ==> ((#[trigger] s[j]).0 as int) < n,
        (k as int) < n,
    ensures
        forall|j: int| 0 <= j < am_set(s, k, fl).len() ==> ((#[trigger] am_set(s, k, fl)[j]).0
            as int) < n,
    decreases s.len(),
{
    if s.len() == 0 {
    } else if s[0].0 == k {
    } else {
        lemma_am_set_keys(s.subrange(1, s.len() as int), k, fl, n);
        assert forall|j: int| 0 <= j < am_set(s, k, fl).len() implies ((#[trigger] am_set(
            s,
            k,
            fl,
        )[j]).0 as int) < n by {
            if j > 0 {
                assert(am_set(s, k, fl)[j] == am_set(s.subrange(1, s.len() as int), k, fl)[j - 1]);
            }
        }
    }
}

/// Every key of `am_remove(s, k)` is a key of `s`.
pub proof fn lemma_am_remove_keys(s: Seq<(usize, bool)>, k: usize, n: int)
    requires
        forall|j: int| 0 <= j < s.len() ==> ((#[trigger] s[j]).0 as int) < n,
    ensures
        forall|j: int| 0 <= j < am_remove(s, k).len() ==> ((#[trigger] am_remove(s, k)[j]).0
            as int) < n,
    decreases s.len(),
{
    if s.len() == 0 {
    } else if s[0].0 == k {
    } else {
        lemma_am_remove_keys(s.subrange(1, s.len() as int), k, n);
        assert forall|j: int| 0 <= j < am_remove(s, k).len() implies ((#[trigger] am_remove(
            s,
            k,
        )[j]).0 as int) < n by {
            if j > 0 {
                assert(am_remove(s, k)[j] == am_remove(s.subrange(1, s.len() as int), k)[j - 1]);
            }
        }
    }
}

proof fn lemma_am_get_at(s: Seq<(usize, bool)>, k: usize, i: int)
    requires
        0 <= i <= s.len(),
        forall|j: int| 0 <= j < i ==> (#[trigger] s[j]).0 != k,
        i == s.len() || s[i].0 == k,
    ensures
        am_get(s, k) == (if i == s.len() {
            None::<bool>
        } else {
            Some(s[i].1)
        }),
    decreases i,
{
    if i == 0 {
    } else {
        let tail = s.subrange(1, s.len() as int);
        lemma_am_get_at(tail, k, i - 1);
    }
}

proof fn lemma_am_set_at(s: Seq<(usize, bool)>, k: usize, fl: bool, i: int)
    requires
        0 <= i <= s.len(),
        forall|j: int| 0 <= j < i ==> (#[trigger] s[j]).0 != k,
        i == s.len() || s[i].0 == k,
    ensures
        am_set(s, k, fl) == (if i == s.len() {
            s.push((k, fl))
        } else {
            s.update(i, (k, fl))
        }),
    decreases i,
{
    if i == 0 {
        if s.len() == 0 {
            assert(am_set(s, k, fl) =~= s.push((k, fl)));
        }
    } else {
        let tail = s.subrange(1, s.len() as int);
        lemma_am_set_at(tail, k, fl, i - 1);
        if i == s.len() {
            assert(am_set(s, k, fl) =~= s.push((k, fl)));
        } else {
            assert(tail.update(i - 1, (k, fl)) =~= s.update(i, (k, fl)).subrange(
                1,
                s.len() as int,
            ));
            assert(am_set(s, k, fl) =~= s.update(i, (k, fl)));
        }
    }
}

proof fn lemma_am_remove_at(s: Seq<(usize, bool)>, k: usize, i: int)
    requires
        0 <= i <= s.len(),
        forall|j: int| 0 <= j < i ==> (#[trigger] s[j]).0 != k,
        i == s.len() || s[i].0 == k,
    ensures
        am_remove(s, k) == (if i == s.len() {
            s
        } else {
            s.remove(i)
        }),
    decreases i,
{
    if i == 0 {
        if s.len() > 0 && s[0].0 == k {
            assert(am_remove(s, k) =~= s.remove(0));
        }
    } else {
        let tail = s.subrange(1, s.len() as int);
        lemma_am_remove_at(tail, k, i - 1);
        if i == s.len() {
            assert(am_remove(s, k) =~= s);
        } else {
            assert(tail.remove(i - 1) =~= s.remove(i).subrange(1, s.len() - 1));
            assert(am_remove(s, k) =~= s.remove(i));
        }
    }
}

/// A tile's activity map: component root to fenced flag.
pub struct RegionActivityMap {
    entries: Vec<(usize, bool)>,
}

impl RegionActivityMap {
    /// The underlying association list, in insertion order.
    pub closed spec fn entries_seq(self) -> Seq<(usize, bool)> {
        self.entries@
    }

    /// An empty map.
    pub fn new() -> (r: RegionActivityMap)
        ensures
            r.entries_seq() == Seq::<(usize, bool)>::empty(),
    {
        RegionActivityMap { entries: Vec::new() }
    }

    /// Number of tracked roots.
    pub fn len(&self) -> (n: usize)
        ensures
            n == self.entries_seq().len(),
    {
        self.entries.len()
    }

    /// The tracked root and flag at position `i`.
    pub fn entry_at(&self, i: usize) -> (e: (usize, bool))
        requires
            (i as int) < self.entries_seq().len(),
        ensures
            e == self.entries_seq()[i as int],
    {
        self.entries[i]
    }

    /// The flag of root `k`, if the map tracks it.
    pub fn get(&self, k: usize) -> (r: Option<bool>)
        ensures
            r == am_get(self.entries_seq(), k),
    {
        let mut i: usize = 0;
        while i < self.entries.len()
            invariant
                i <= self.entries@.len(),
                forall|j: int| 0 <= j < i ==> (#[trigger] self.entries@[j]).0 != k,
            decreases self.entries@.len() - i,
        {
            if self.entries[i].0 == k {
                proof {
                    lemma_am_get_at(self.entries@, k, i as int);
                }
                return Some(self.entries[i].1);
            }
            i = i + 1;
        }
        proof {
            lemma_am_get_at(self.entries@, k, self.entries@.len() as int);
        }
        None
    }

    /// Binds root `k` to flag `fl`, updating its entry or appending one.
    pub fn set(&mut self, k: usize, fl: bool)
        ensures
            final(self).entries_seq() == am_set(old(self).entries_seq(), k, fl),
    {
        let mut i: usize = 0;
        while i < self.entries.len()
            invariant
                self.entries@ == old(self).entries@,
                i <= self.entries@.len(),
                forall|j: int| 0 <= j < i ==> (#[trigger] self.entries@[j]).0 != k,
            decreases self.entries@.len() - i,
        {
            if self.entries[i].0 == k {
                proof {
                    lemma_am_set_at(self.entries@, k, fl, i as int);
                }
                self.entries.set(i, (k, fl));
                return ;
            }
            i = i + 1;
        }
        proof {
            lemma_am_set_at(self.entries@, k, fl, self.entries@.len() as int);
        }
        self.entries.push((k, fl));
    }

    /// Drops root `k`'s entry, if the map tracks it.
    pub fn remove(&mut self, k: usize)
        ensures
            final(self).entries_seq() == am_remove(old(self).entries_seq(), k),
    {
        let mut i: usize = 0;
        while i < self.entries.len()
            invariant
                self.entries@ == old(self).entries@,
                i <= self.entries@.len(),
                forall|j: int| 0 <= j < i ==> (#[trigger] self.entries@[j]).0 != k,
            decreases self.entries@.len() - i,
        {
            if self.entries[i].0 == k {
                proof {
                    lemma_am_remove_at(self.entries@, k, i as int);
                }
                self.entries.remove(i);
                return ;
            }
            i = i + 1;
        }
        proof {
            lemma_am_remove_at(self.entries@, k, self.entries@.len() as int);
        }
    }
}

} // verus!
