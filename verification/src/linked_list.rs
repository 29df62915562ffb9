//! A row kept as a list of block indices, lowest first.

use vstd::prelude::*;
use crate::line::{distinct, indices, run, BuddyCollection, BuddyLine, OligarchyCollection};
use crate::order::{buddy_index, buddy_of, parent_index};

verus! {

/// Each index is smaller than the next.
pub open spec fn ascending(list: Seq<usize>) -> bool {
    forall|i: int, j: int| 0 <= i < j < list.len() ==> list[i] < list[j]
}

/// Removing position `at` of a list without repetition removes its index
/// from the set of indices.
pub proof fn lemma_remove_at(list: Seq<usize>, at: int)
    requires
        distinct(list),
        0 <= at < list.len(),
    ensures
        distinct(list.remove(at)),
        ascending(list) ==> ascending(list.remove(at)),
        indices(list.remove(at)).to_set() =~= indices(list).to_set().remove(list[at] as int),
{
    let a = indices(list);
    let b = indices(list.remove(at));
    assert forall|x: int| b.to_set().contains(x) == a.to_set().remove(list[at] as int).contains(
        x,
    ) by {
        if b.contains(x) {
            let i = choose|i: int| 0 <= i < b.len() && b[i] == x;
            let k = if i < at {
                i
            } else {
                i + 1
            };
            assert(a[k] == x);
        }
        if a.contains(x) && x != list[at] {
            let k = choose|k: int| 0 <= k < a.len() && a[k] == x;
            let i = if k < at {
                k
            } else {
                k - 1
            };
            assert(b[i] == x);
        }
    }
}

/// Inserting a new index at position `at` adds it to the set of indices.
pub proof fn lemma_insert_at(list: Seq<usize>, at: int, idx: usize)
    requires
        distinct(list),
        0 <= at <= list.len(),
        !indices(list).to_set().contains(idx as int),
    ensures
        distinct(list.insert(at, idx)),
        indices(list.insert(at, idx)).to_set() =~= indices(list).to_set().insert(idx as int),
{
    let a = indices(list);
    let l2 = list.insert(at, idx);
    let b = indices(l2);
    assert forall|i: int| 0 <= i < list.len() implies list[i] != idx by {
        assert(a[i] == list[i]);
        assert(a.contains(list[i] as int));
    }
    assert forall|x: int| b.to_set().contains(x) == a.to_set().insert(idx as int).contains(x) by {
        if b.contains(x) && x != idx {
            let i = choose|i: int| 0 <= i < b.len() && b[i] == x;
            let k = if i < at {
                i
            } else {
                i - 1
            };
            assert(a[k] == x);
        }
        if a.contains(x) {
            let k = choose|k: int| 0 <= k < a.len() && a[k] == x;
            let i = if k < at {
                k
            } else {
                k + 1
            };
            assert(b[i] == x);
        }
        if x == idx {
            assert(b[at] == x);
        }
    }
}

/// A row that threads its free blocks on a list. As an inner row the list
/// ascends, so that a block and its buddy would stand side by side.
pub struct LinkedListBuddy {
    free_list: Vec<usize>,
    order: usize,
    base: usize,
}

impl LinkedListBuddy {
    /// The list of block indices, first to last.
    pub closed spec fn list(&self) -> Seq<usize> {
        self.free_list@
    }

    /// Removes the first block of the list and returns its index.
    pub fn take_head(&mut self) -> (r: Option<usize>)
        requires
            old(self).wf(),
        ensures
            final(self).wf(),
            old(self).ordered() ==> final(self).ordered(),
            final(self).order() == old(self).order(),
            final(self).base() == old(self).base(),
            match r {
                Some(idx) => {
                    &&& old(self).list().len() > 0
                    &&& idx == old(self).list()[0]
                    &&& final(self).list() == old(self).list().remove(0)
                    &&& final(self).members() =~= old(self).members().remove(idx as int)
                    &&& old(self).members().contains(idx as int)
                },
                None => old(self).list().len() == 0 && final(self).list() == old(self).list(),
            },
    {
        if self.free_list.len() == 0 {
            None
        } else {
            proof {
                lemma_remove_at(self.free_list@, 0);
                assert(indices(self.free_list@)[0] == self.free_list@[0]);
            }
            let idx = self.free_list.remove(0);
            Some(idx)
        }
    }

    /// Puts a block at the head of the list, whatever its index.
    pub fn put_head(&mut self, idx: usize)
        requires
            old(self).wf(),
            !old(self).members().contains(idx as int),
        ensures
            final(self).wf(),
            final(self).order() == old(self).order(),
            final(self).base() == old(self).base(),
            final(self).list() == old(self).list().insert(0, idx),
            final(self).members() =~= old(self).members().insert(idx as int),
    {
        proof {
            lemma_insert_at(self.free_list@, 0, idx);
        }
        self.free_list.insert(0, idx);
    }
}

impl BuddyLine for LinkedListBuddy {
    open spec fn wf(&self) -> bool {
        distinct(self.list())
    }

    open spec fn members(&self) -> Set<int> {
        indices(self.list()).to_set()
    }

    closed spec fn order(&self) -> nat {
        self.order as nat
    }

    closed spec fn base(&self) -> int {
        self.base as int
    }

    open spec fn fits(order: nat, base: int, idx: int) -> bool {
        true
    }

    proof fn lemma_finite(&self) {
        vstd::seq_lib::seq_to_set_is_finite(indices(self.list()));
    }

    /// The list is empty, and the order and the base index are 0 until
    /// `init` sets them.
    fn empty() -> (r: Self)
        ensures
            r.list() =~= Seq::<usize>::empty(),
            r.order() == 0,
            r.base() == 0,
    {
        let r = LinkedListBuddy { free_list: Vec::new(), order: 0, base: 0 };
        assert(indices(r.free_list@) =~= Seq::<int>::empty());
        r
    }

    open spec fn meta_size() -> nat {
        (usize::BITS / 8) as nat
    }

    fn intrusive_meta_size() -> (r: usize) {
        (usize::BITS / 8) as usize
    }

    fn init(&mut self, order: usize, base: usize) {
        self.order = order;
        self.base = base;
    }

    fn holds(&self, first: usize, last: usize) -> (r: bool) {
        true
    }

    fn entries(&self) -> (r: Vec<usize>) {
        let mut r: Vec<usize> = Vec::new();
        let mut i: usize = 0;
        while i < self.free_list.len()
            invariant
                i <= self.free_list.len(),
                r@ == self.free_list@.subrange(0, i as int),
            decreases self.free_list.len() - i,
        {
            r.push(self.free_list[i]);
            assert(r@ == self.free_list@.subrange(0, i + 1));
            i += 1;
        }
        assert(r@ == self.free_list@);
        r
    }

    /// The order of the list is kept.
    fn take(&mut self, idx: usize) -> (r: bool)
        ensures
            old(self).ordered() ==> final(self).ordered(),
    {
        let mut i: usize = 0;
        while i < self.free_list.len()
            invariant
                *self == *old(self),
                self.wf(),
                i <= self.free_list.len(),
                forall|k: int| 0 <= k < i ==> self.free_list@[k] != idx,
            decreases self.free_list.len() - i,
        {
            if self.free_list[i] == idx {
                proof {
                    lemma_remove_at(self.free_list@, i as int);
                    assert(indices(self.free_list@)[i as int] == idx);
                }
                self.free_list.remove(i);
                return true;
            }
            i += 1;
        }
        proof {
            let a = indices(self.free_list@);
            if a.contains(idx as int) {
                let k = choose|k: int| 0 <= k < a.len() && a[k] == idx as int;
                assert(self.free_list@[k] == idx);
            }
        }
        false
    }
}

impl OligarchyCollection for LinkedListBuddy {
    open spec fn first_fit() -> bool {
        false
    }

    open spec fn serves(align_order: nat, count: nat) -> bool {
        align_order == 0 && count == 1
    }

    proof fn lemma_serves_one() {
    }

    fn take_any(&mut self, align_order: usize, count: usize) -> (r: Option<usize>) {
        if count > 1 || align_order > 0 {
            None
        } else {
            let r = self.take_head();
            proof {
                vstd::arithmetic::power2::lemma2_to64();
                match r {
                    Some(idx) => {
                        assert(run(idx as int, 1) =~= set![idx as int]);
                        assert(old(self).members().difference(run(idx as int, 1))
                            =~= old(self).members().remove(idx as int));
                        assert(run(idx as int, 1).subset_of(old(self).members()));
                    },
                    None => {
                        assert(indices(self.list()) =~= Seq::<int>::empty());
                        assert forall|j: int| !#[trigger] run(j, 1).subset_of(
                            old(self).members(),
                        ) by {
                            assert(run(j, 1).contains(j));
                        }
                    },
                }
            }
            r
        }
    }

    fn put(&mut self, idx: usize) {
        self.put_head(idx);
    }
}

impl BuddyCollection for LinkedListBuddy {
    open spec fn ordered(&self) -> bool {
        ascending(self.list())
    }

    proof fn lemma_empty_ordered(&self) {
        if self.list().len() > 0 {
            assert(indices(self.list())[0] == self.list()[0]);
            assert(self.members().contains(self.list()[0] as int));
        }
    }

    open spec fn lowest_first() -> bool {
        true
    }

    open spec fn aligns(align_order: nat) -> bool {
        align_order == 0
    }

    proof fn lemma_aligns_own() {
    }

    fn take_any(&mut self, align_order: usize) -> (r: Option<usize>) {
        if align_order != 0 {
            None
        } else {
            let r = self.take_head();
            proof {
                vstd::arithmetic::power2::lemma2_to64();
                if r.is_none() {
                    assert(indices(self.list()) =~= Seq::<int>::empty());
                }
            }
            r
        }
    }

    fn put(&mut self, idx: usize) -> (r: Option<usize>) {
        let buddy = buddy_index(idx);
        let mut i: usize = 0;
        while i < self.free_list.len() && self.free_list[i] < buddy
            invariant
                *self == *old(self),
                self.wf(),
                self.ordered(),
                !self.members().contains(idx as int),
                buddy == buddy_of(idx as int),
                i <= self.free_list.len(),
                forall|k: int| 0 <= k < i ==> self.free_list@[k] < buddy,
            decreases self.free_list.len() - i,
        {
            i += 1;
        }
        let ghost a = indices(self.free_list@);
        if i < self.free_list.len() && self.free_list[i] == buddy {
            proof {
                lemma_remove_at(self.free_list@, i as int);
                assert(a[i as int] == buddy);
            }
            self.free_list.remove(i);
            Some(parent_index(idx))
        } else {
            proof {
                if a.contains(buddy as int) {
                    let k = choose|k: int| 0 <= k < a.len() && a[k] == buddy as int;
                    assert(self.free_list@[k] == buddy);
                }
                lemma_insert_at(self.free_list@, i as int, idx);
                let l2 = self.free_list@.insert(i as int, idx);
                assert forall|p: int, q: int| 0 <= p < q < l2.len() implies l2[p] < l2[q] by {
                    if p != i && q != i {
                        let pp = if p < i { p } else { p - 1 };
                        let qq = if q < i { q } else { q - 1 };
                        assert(self.free_list@[pp] < self.free_list@[qq]);
                    } else if q == i {
                        assert(self.free_list@[p] < buddy);
                        assert(a[p] == self.free_list@[p]);
                        assert(a.contains(self.free_list@[p] as int));
                    } else {
                        assert(self.free_list@[i as int] <= self.free_list@[q - 1]);
                        assert(a[i as int] == self.free_list@[i as int]);
                        assert(a.contains(self.free_list@[i as int] as int));
                    }
                }
            }
            self.free_list.insert(i, idx);
            None
        }
    }
}

} // verus!
