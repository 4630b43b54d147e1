use vstd::prelude::*;

verus! {

use vstd::set_lib::{lemma_int_range, lemma_len_subset, set_int_range};


/// A typed arena: storage for one kind of object, addressed by stable
/// integer indices.  A slot holds its payload together with a mark flag
/// (set during the mark phase of collection) and a free flag (set when the
/// slot has been reclaimed).  The flags and payloads are kept in parallel
/// vectors so each can be updated in place; `wf()` ties them together.
///
/// `alloc` reuses a reclaimed index when one is available and appends a new
/// slot otherwise; existing slots are never reordered, so an index is
/// stable for the lifetime of the object stored there.
pub struct ItemAllocator<T> {
    pub items: Vec<T>,
    pub marked: Vec<bool>,
    pub freed: Vec<bool>,
    pub free: Vec<usize>,
}

impl<T> ItemAllocator<T> {
    /// The free stack holds exactly the indices whose free flag is set,
    /// each at most once, and the three slot vectors line up.
    pub open spec fn wf(&self) -> bool {
        &&& self.marked@.len() == self.items@.len()
        &&& self.freed@.len() == self.items@.len()
        &&& forall|j: int|
            0 <= j < self.free@.len() ==> self.free@[j] < self.items@.len()
                && self.freed@[self.free@[j] as int]
        &&& forall|j: int, k: int|
            0 <= j < k < self.free@.len() ==> self.free@[j] != self.free@[k]
        &&& forall|i: int|
            0 <= i < self.items@.len() && self.freed@[i] ==> self.free@.contains(i as usize)
    }

    pub fn new() -> (r: Self)
        ensures
            r.wf(),
            r.items@.len() == 0,
            r.free@.len() == 0,
    {
        ItemAllocator { items: Vec::new(), marked: Vec::new(), freed: Vec::new(), free: Vec::new() }
    }

    /// Install `item` in a fresh or recycled slot and return its index.
    /// When the free stack is non-empty its top index is reused; otherwise
    /// a slot is appended.  No other slot changes.
    pub fn allocate(&mut self, item: T) -> (p: usize)
        requires
            old(self).wf(),
        ensures
            final(self).wf(),
            p < final(self).items@.len(),
            final(self).items@[p as int] == item,
            !final(self).marked@[p as int],
            !final(self).freed@[p as int],
            old(self).free@.len() == 0 ==> {
                &&& p == old(self).items@.len()
                &&& final(self).items@ == old(self).items@.push(item)
                &&& final(self).marked@ == old(self).marked@.push(false)
                &&& final(self).freed@ == old(self).freed@.push(false)
                &&& final(self).free@ == old(self).free@
            },
            old(self).free@.len() > 0 ==> {
                &&& p == old(self).free@.last()
                &&& final(self).items@ == old(self).items@.update(p as int, item)
                &&& final(self).marked@ == old(self).marked@.update(p as int, false)
                &&& final(self).freed@ == old(self).freed@.update(p as int, false)
                &&& final(self).free@ == old(self).free@.drop_last()
            },
    {
        match self.free.pop() {
            None => {
                let index = self.items.len();
                self.items.push(item);
                self.marked.push(false);
                self.freed.push(false);
                index
            }
            Some(index) => {
                self.items.set(index, item);
                self.marked.set(index, false);
                self.freed.set(index, false);
                proof {
                    assert forall|i: int|
                        0 <= i < self.items@.len() && self.freed@[i] implies self.free@.contains(
                        i as usize,
                    ) by {
                        assert(self.items.len() == self.items@.len());
                        assert(self.items@.len() <= usize::MAX);
                        assert(old(self).free@.last() == index);
                        assert(!self.freed@[index as int]);
                        assert(i != index as int);
                        assert(old(self).freed@[i]);
                        let j = choose|j: int|
                            0 <= j < old(self).free@.len() && old(self).free@[j] == i as usize;
                        assert(old(self).free@[j] == i as usize && i as usize != index);
                        assert(j < old(self).free@.len() - 1);
                        assert(self.free@[j] == i as usize);
                    }
                }
                index
            }
        }
    }

    /// Read the payload of slot `p`.  As in any arena of this shape there
    /// is no liveness check: callers only dereference live indices.
    pub fn get(&self, p: usize) -> (r: &T)
        requires
            p < self.items@.len(),
        ensures
            *r == self.items@[p as int],
    {
        &self.items[p]
    }

    /// Overwrite the payload of slot `p`, leaving both flags as they were.
    pub fn set_item(&mut self, p: usize, item: T)
        requires
            p < old(self).items@.len(),
        ensures
            final(self).items@ == old(self).items@.update(p as int, item),
            final(self).marked@ == old(self).marked@,
            final(self).freed@ == old(self).freed@,
            final(self).free@ == old(self).free@,
            old(self).wf() ==> final(self).wf(),
    {
        self.items.set(p, item);
    }

    /// Set the mark bit of slot `p` and report whether it was already set;
    /// the previous value lets traversals short-circuit cycles.
    pub fn mark(&mut self, p: usize) -> (prev: bool)
        requires
            p < old(self).marked@.len(),
        ensures
            prev == old(self).marked@[p as int],
            final(self).marked@ == old(self).marked@.update(p as int, true),
            final(self).items@ == old(self).items@,
            final(self).freed@ == old(self).freed@,
            final(self).free@ == old(self).free@,
            old(self).wf() ==> final(self).wf(),
    {
        let prev = self.marked[p];
        self.marked.set(p, true);
        prev
    }

    /// Reclaim every slot that is neither marked nor already free: its free
    /// flag is set and its index is pushed onto the free stack, in
    /// ascending index order.  Payloads and mark bits are untouched.
    pub fn sweep(&mut self)
        requires
            old(self).wf(),
        ensures
            final(self).wf(),
            final(self).items@ == old(self).items@,
            final(self).marked@ == old(self).marked@,
            final(self).freed@.len() == old(self).freed@.len(),
            forall|i: int|
                0 <= i < old(self).freed@.len() ==> final(self).freed@[i] == (old(self).freed@[i]
                    || !old(self).marked@[i]),
            final(self).free@ == old(self).free@ + swept_indices(
                old(self).freed@,
                old(self).marked@,
                old(self).freed@.len() as int,
            ),
    {
        let ghost pre = *old(self);
        let n = self.items.len();
        let mut i: usize = 0;
        while i < n
            invariant
                n == pre.items@.len(),
                i <= n,
                pre.wf(),
                self.items@ == pre.items@,
                self.marked@ == pre.marked@,
                self.freed@.len() == pre.freed@.len(),
                forall|k: int| i <= k < n ==> self.freed@[k] == pre.freed@[k],
                forall|k: int|
                    0 <= k < i ==> self.freed@[k] == (pre.freed@[k] || !pre.marked@[k]),
                self.free@ == pre.free@ + swept_indices(pre.freed@, pre.marked@, i as int),
                swept_indices(pre.freed@, pre.marked@, i as int).len() + pre.free@.len()
                    <= i + pre.free@.len(),
                self.wf(),
            decreases n - i,
        {
            proof {
                lemma_swept_indices_extend(pre.freed@, pre.marked@, i as int);
                lemma_swept_indices_len(pre.freed@, pre.marked@, i + 1);
            }
            if !self.freed[i] && !self.marked[i] {
                let ghost prev_free = self.free@;
                let ghost prev_freed = self.freed@;
                self.free.push(i);
                self.freed.set(i, true);
                proof {
                    lemma_swept_indices_bounds(pre.freed@, pre.marked@, i as int);
                    assert forall|ii: int|
                        0 <= ii < self.items@.len() && self.freed@[ii] implies self.free@.contains(
                        ii as usize,
                    ) by {
                        if ii == i as int {
                            assert(self.free@[self.free@.len() - 1] == i);
                        } else {
                            assert(prev_freed[ii]);
                            let j = choose|j: int|
                                0 <= j < prev_free.len() && prev_free[j] == ii as usize;
                            assert(self.free@[j] == ii as usize);
                        }
                    }
                    assert forall|j: int, k: int|
                        0 <= j < k < self.free@.len() implies self.free@[j] != self.free@[k] by {
                        if k == self.free@.len() - 1 {
                            assert(self.free@[k] == i);
                            if j < prev_free.len() {
                                assert(prev_free[j] < pre.items@.len());
                                if prev_free[j] == i {
                                    assert(prev_freed[i as int]);
                                }
                            }
                        }
                    }
                }
            } else {
                proof {
                    assert(swept_indices(pre.freed@, pre.marked@, i + 1 as int) =~= swept_indices(
                        pre.freed@,
                        pre.marked@,
                        i as int,
                    ));
                }
            }
            i = i + 1;
        }
    }

    /// Clear every mark bit, so the next collection cycle starts clean.
    pub fn clear_marks(&mut self)
        requires
            old(self).wf(),
        ensures
            final(self).wf(),
            final(self).items@ == old(self).items@,
            final(self).freed@ == old(self).freed@,
            final(self).free@ == old(self).free@,
            final(self).marked@.len() == old(self).marked@.len(),
            forall|i: int| 0 <= i < final(self).marked@.len() ==> !final(self).marked@[i],
    {
        let ghost pre = *old(self);
        let n = self.marked.len();
        let mut i: usize = 0;
        while i < n
            invariant
                n == pre.marked@.len(),
                i <= n,
                pre.wf(),
                self.items@ == pre.items@,
                self.freed@ == pre.freed@,
                self.free@ == pre.free@,
                self.marked@.len() == pre.marked@.len(),
                forall|k: int| 0 <= k < i ==> !self.marked@[k],
                forall|k: int| i <= k < n ==> self.marked@[k] == pre.marked@[k],
            decreases n - i,
        {
            self.marked.set(i, false);
            i = i + 1;
        }
    }
}

/// The free stack never outgrows the arena: its entries are distinct
/// indices below the slot count, so there are at most as many of them as
/// slots.
pub proof fn lemma_free_le_size<T>(a: &ItemAllocator<T>)
    requires
        a.wf(),
    ensures
        a.free@.len() <= a.items@.len(),
{
    let ints = Seq::new(a.free@.len(), |j: int| a.free@[j] as int);
    assert(ints.no_duplicates()) by {
        assert forall|i: int, j: int|
            0 <= i < ints.len() && 0 <= j < ints.len() && i != j implies ints[i] != ints[j] by {
            if i < j {
                assert(a.free@[i] != a.free@[j]);
            } else {
                assert(a.free@[j] != a.free@[i]);
            }
        }
    }
    ints.unique_seq_to_set();
    let rng = set_int_range(0, a.items@.len() as int);
    assert(ints.to_set().subset_of(rng)) by {
        assert forall|x: int| ints.to_set().contains(x) implies rng.contains(x) by {
            let j = choose|j: int| 0 <= j < ints.len() && ints[j] == x;
            assert(a.free@[j] < a.items@.len());
        }
    }
    lemma_int_range(0, a.items@.len() as int);
    lemma_len_subset(ints.to_set(), rng);
}

/// The indices below `n` that `sweep` reclaims: not yet free and not marked.
pub open spec fn swept_indices(freed: Seq<bool>, marked: Seq<bool>, n: int) -> Seq<usize>
    decreases n,
{
    if n <= 0 {
        Seq::empty()
    } else if !freed[n - 1] && !marked[n - 1] {
        swept_indices(freed, marked, n - 1).push((n - 1) as usize)
    } else {
        swept_indices(freed, marked, n - 1)
    }
}

pub proof fn lemma_swept_indices_extend(freed: Seq<bool>, marked: Seq<bool>, i: int)
    requires
        0 <= i,
    ensures
        !freed[i] && !marked[i] ==> swept_indices(freed, marked, i + 1) == swept_indices(
            freed,
            marked,
            i,
        ).push(i as usize),
        freed[i] || marked[i] ==> swept_indices(freed, marked, i + 1) == swept_indices(
            freed,
            marked,
            i,
        ),
{
}

pub proof fn lemma_swept_indices_len(freed: Seq<bool>, marked: Seq<bool>, n: int)
    ensures
        swept_indices(freed, marked, n).len() <= if n <= 0 {
            0
        } else {
            n
        },
    decreases n,
{
    if n > 0 {
        lemma_swept_indices_len(freed, marked, n - 1);
    }
}

pub proof fn lemma_swept_indices_bounds(freed: Seq<bool>, marked: Seq<bool>, n: int)
    requires
        n <= usize::MAX,
    ensures
        forall|j: int| #![auto]
            0 <= j < swept_indices(freed, marked, n).len() ==> swept_indices(freed, marked, n)[j]
                < n && !freed[swept_indices(freed, marked, n)[j] as int],
    decreases n,
{
    if n > 0 {
        lemma_swept_indices_bounds(freed, marked, n - 1);
        let prev = swept_indices(freed, marked, n - 1);
        let cur = swept_indices(freed, marked, n);
        assert forall|j: int| #![auto] 0 <= j < cur.len() implies cur[j] < n && !freed[cur[j] as int] by {
            if !freed[n - 1] && !marked[n - 1] {
                assert(cur == prev.push((n - 1) as usize));
                if j < prev.len() {
                    assert(cur[j] == prev[j]);
                    assert(prev[j] < n - 1 && !freed[prev[j] as int]);
                } else {
                    assert(cur[j] == (n - 1) as usize);
                }
            } else {
                assert(cur == prev);
                assert(prev[j] < n - 1 && !freed[prev[j] as int]);
            }
        }
    }
}

} // verus!
