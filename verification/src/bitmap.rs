//! A row kept in one 64-bit word.

use vstd::prelude::*;
use crate::line::{indices, run, BuddyCollection, BuddyLine, OligarchyCollection};
use crate::order::{aligned_to, buddy_index, is_aligned, parent_index};

verus! {

/// The number of blocks that a bitmap row can record.
pub const SIZE: usize = 64;

/// Whether bit `i` of `bits` is set.
pub open spec fn bit_set(bits: u64, i: int) -> bool {
    0 <= i < 64 && (bits >> (i as u64)) & 1u64 == 1u64
}

/// A row that records up to 64 blocks in a word: bit `i` stands for the
/// block `base + i`. It keeps nothing inside the blocks.
pub struct UsizeBuddy {
    bits: u64,
    base: usize,
    order: usize,
}

impl UsizeBuddy {
    /// The word of occupancy bits.
    pub closed spec fn bits(&self) -> u64 {
        self.bits
    }

    /// Clears bit `i` and says whether it was set.
    fn take_local(&mut self, i: usize) -> (r: bool)
        requires
            i < 64,
        ensures
            final(self).base == old(self).base,
            final(self).order == old(self).order,
            r == bit_set(old(self).bits, i as int),
            forall|j: int| #[trigger] bit_set(final(self).bits, j) == (bit_set(old(self).bits, j) && j != i),
    {
        let bit: u64 = 1u64 << (i as u64);
        let bits: u64 = self.bits;
        self.bits = bits & !bit;
        proof {
            let sh = i as u64;
            let nb = self.bits;
            assert((bits >> sh) & 1u64 == 1u64 <==> bits & (1u64 << sh) == (1u64 << sh))
                by (bit_vector)
                requires
                    sh < 64,
            ;
            assert forall|j: int| #[trigger] bit_set(nb, j) == (bit_set(bits, j) && j != i) by {
                if 0 <= j < 64 {
                    let sj = j as u64;
                    assert(((bits & !(1u64 << sh)) >> sj) & 1u64 == (if sj == sh {
                        0u64
                    } else {
                        (bits >> sj) & 1u64
                    })) by (bit_vector)
                        requires
                            sh < 64,
                            sj < 64,
                    ;
                }
            }
        }
        bits & bit == bit
    }

    /// Whether bit `i` is set.
    fn test_local(&self, i: usize) -> (r: bool)
        requires
            i < 64,
        ensures
            r == bit_set(self.bits, i as int),
    {
        (self.bits >> (i as u64)) & 1u64 == 1u64
    }

    /// Whether the `count` bits from bit `i` on are all set.
    fn run_is_set(&self, i: usize, count: usize) -> (r: bool)
        requires
            i + count <= 64,
        ensures
            r == (forall|k: int| i <= k < i + count ==> bit_set(self.bits, k)),
    {
        let mut k: usize = i;
        while k < i + count
            invariant
                i <= k <= i + count <= 64,
                forall|j: int| i <= j < k ==> bit_set(self.bits, j),
            decreases i + count - k,
        {
            if !self.test_local(k) {
                return false;
            }
            k += 1;
        }
        true
    }

    /// Clears the `count` bits from bit `i` on.
    fn clear_run(&mut self, i: usize, count: usize)
        requires
            i + count <= 64,
        ensures
            final(self).base == old(self).base,
            final(self).order == old(self).order,
            forall|j: int| #[trigger]
                bit_set(final(self).bits, j) == (bit_set(old(self).bits, j) && !(i <= j < i
                    + count)),
    {
        let mut k: usize = i;
        while k < i + count
            invariant
                i <= k <= i + count <= 64,
                self.base == old(self).base,
                self.order == old(self).order,
                forall|j: int| #[trigger]
                    bit_set(self.bits, j) == (bit_set(old(self).bits, j) && !(i <= j < k)),
            decreases i + count - k,
        {
            self.take_local(k);
            k += 1;
        }
    }

    /// Removes the `count` adjacent blocks with the lowest first index among
    /// the runs whose first index is a multiple of `2^align_order`, and
    /// returns that index; `None`, and no change, when there is no such run.
    pub fn take_run(&mut self, align_order: usize, count: usize) -> (r: Option<usize>)
        requires
            old(self).wf(),
            count >= 1,
        ensures
            final(self).wf(),
            final(self).order() == old(self).order(),
            final(self).base() == old(self).base(),
            match r {
                Some(idx) => {
                    &&& run(idx as int, count as int).subset_of(old(self).members())
                    &&& aligned_to(idx as int, align_order as nat)
                    &&& final(self).members() =~= old(self).members().difference(
                        run(idx as int, count as int),
                    )
                },
                None => final(self).members() =~= old(self).members(),
            },
            match r {
                Some(idx) => forall|j: int|
                    j < idx && aligned_to(j, align_order as nat) ==> !#[trigger] run(
                        j,
                        count as int,
                    ).subset_of(old(self).members()),
                None => forall|j: int|
                    aligned_to(j, align_order as nat) ==> !#[trigger] run(
                        j,
                        count as int,
                    ).subset_of(old(self).members()),
            },
    {
        let ghost before = self.members();
        let base = self.base;
        let mut i: usize = 0;
        proof {
            assert forall|j: int| j < base implies !#[trigger] run(j, count as int).subset_of(
                before,
            ) by {
                assert(run(j, count as int).contains(j));
            }
        }
        while i < SIZE && count <= SIZE - i && i <= usize::MAX - base
            invariant
                i <= 64,
                count >= 1,
                base == self.base,
                *self == *old(self),
                before == self.members(),
                self.wf(),
                forall|j: int|
                    j < base + i && aligned_to(j, align_order as nat) ==> !#[trigger] run(
                        j,
                        count as int,
                    ).subset_of(before),
            decreases 64 - i,
        {
            if is_aligned(base + i, align_order) && self.run_is_set(i, count) {
                proof {
                    assert forall|m: int| run((base + i) as int, count as int).contains(
                        m,
                    ) implies before.contains(m) by {
                        assert(bit_set(self.bits, m - base));
                    }
                    assert(bit_set(self.bits, i + count - 1));
                }
                self.clear_run(i, count);
                proof {
                    assert forall|t: int| #[trigger]
                        bit_set(self.bits(), t) implies self.base() + t <= usize::MAX by {
                        assert(bit_set(old(self).bits(), t));
                    }
                }
                return Some(base + i);
            }
            proof {
                if run((base + i) as int, count as int).subset_of(before) {
                    assert forall|k: int| i <= k < i + count implies bit_set(self.bits, k) by {
                        assert(run((base + i) as int, count as int).contains(base + k));
                    }
                }
            }
            i += 1;
        }
        proof {
            assert forall|j: int| aligned_to(j, align_order as nat) implies !#[trigger] run(
                j,
                count as int,
            ).subset_of(before) by {
                if j >= base + i && run(j, count as int).subset_of(before) {
                    assert(run(j, count as int).contains(j + count - 1));
                    assert(run(j, count as int).contains(j));
                    assert(bit_set(self.bits, j + count - 1 - base));
                    assert(bit_set(self.bits, j - base));
                }
            }
        }
        None
    }

    /// Removes the block with the lowest index among those whose index is a
    /// multiple of `2^align_order`, and returns that index; `None`, and no
    /// change, when there is no such block.
    pub fn take_first(&mut self, align_order: usize) -> (r: Option<usize>)
        requires
            old(self).wf(),
        ensures
            final(self).wf(),
            final(self).order() == old(self).order(),
            final(self).base() == old(self).base(),
            match r {
                Some(idx) => {
                    &&& old(self).members().contains(idx as int)
                    &&& aligned_to(idx as int, align_order as nat)
                    &&& final(self).members() =~= old(self).members().remove(idx as int)
                },
                None => final(self).members() =~= old(self).members(),
            },
            match r {
                Some(idx) => forall|j: int|
                    j < idx && aligned_to(j, align_order as nat) ==> !old(
                        self,
                    ).members().contains(j),
                None => forall|j: int|
                    aligned_to(j, align_order as nat) ==> !#[trigger] old(self).members().contains(
                        j,
                    ),
            },
    {
        let ghost before = self.members();
        let base = self.base;
        let mut i: usize = 0;
        while i < SIZE && i <= usize::MAX - base
            invariant
                i <= 64,
                base == self.base,
                *self == *old(self),
                before == self.members(),
                self.wf(),
                forall|j: int|
                    j < base + i && aligned_to(j, align_order as nat) ==> !#[trigger] before.contains(
                        j,
                    ),
            decreases 64 - i,
        {
            if is_aligned(base + i, align_order) && self.test_local(i) {
                self.take_local(i);
                proof {
                    assert forall|t: int| #[trigger]
                        bit_set(self.bits(), t) implies self.base() + t <= usize::MAX by {
                        assert(bit_set(old(self).bits(), t));
                    }
                }
                return Some(base + i);
            }
            i += 1;
        }
        proof {
            assert forall|j: int| !before.contains(j) || j < base + i by {
                if before.contains(j) {
                    assert(bit_set(self.bits, j - base));
                }
            }
        }
        None
    }

    /// Sets bit `i`.
    fn set_local(&mut self, i: usize)
        requires
            i < 64,
        ensures
            final(self).base == old(self).base,
            final(self).order == old(self).order,
            forall|j: int| #[trigger] bit_set(final(self).bits, j) == (bit_set(old(self).bits, j) || j == i),
    {
        let bits: u64 = self.bits;
        self.bits = bits | (1u64 << (i as u64));
        proof {
            let sh = i as u64;
            let nb = self.bits;
            assert forall|j: int| #[trigger] bit_set(nb, j) == (bit_set(bits, j) || j == i) by {
                if 0 <= j < 64 {
                    let sj = j as u64;
                    assert(((bits | (1u64 << sh)) >> sj) & 1u64 == (if sj == sh {
                        1u64
                    } else {
                        (bits >> sj) & 1u64
                    })) by (bit_vector)
                        requires
                            sh < 64,
                            sj < 64,
                    ;
                }
            }
        }
    }
}

impl BuddyLine for UsizeBuddy {
    open spec fn wf(&self) -> bool {
        forall|i: int| #[trigger] bit_set(self.bits(), i) ==> self.base() + i <= usize::MAX
    }

    open spec fn members(&self) -> Set<int> {
        Set::new(|idx: int| bit_set(self.bits(), idx - self.base()))
    }

    closed spec fn order(&self) -> nat {
        self.order as nat
    }

    closed spec fn base(&self) -> int {
        self.base as int
    }

    open spec fn fits(order: nat, base: int, idx: int) -> bool {
        base <= idx < base + 64
    }

    proof fn lemma_finite(&self) {
        let b = self.base();
        let s = Set::new(|idx: int| b <= idx < b + 64);
        vstd::set_lib::lemma_int_range(b, b + 64);
        assert(s =~= vstd::set_lib::set_int_range(b, b + 64));
        assert(self.members().subset_of(s));
        vstd::set_lib::lemma_len_subset(self.members(), s);
    }

    fn empty() -> (r: Self) {
        let r = UsizeBuddy { bits: 0, base: 0, order: 0 };
        proof {
            assert forall|i: int| !bit_set(0u64, i) by {
                if 0 <= i < 64 {
                    let s = i as u64;
                    assert((0u64 >> s) & 1u64 == 0u64) by (bit_vector);
                }
            }
        }
        r
    }

    open spec fn meta_size() -> nat {
        0
    }

    fn intrusive_meta_size() -> (r: usize) {
        0
    }

    fn init(&mut self, order: usize, base: usize) {
        proof {
            assert forall|i: int| !bit_set(self.bits, i) by {
                assert(!self.members().contains(self.base + i));
            }
        }
        self.base = base;
        self.order = order;
    }

    fn holds(&self, first: usize, last: usize) -> (r: bool) {
        let r = self.base <= first && last - first < SIZE && first - self.base < SIZE - (last
            - first);
        proof {
            if !r {
                assert(!Self::fits(self.order(), self.base(), first as int) || !Self::fits(
                    self.order(),
                    self.base(),
                    last as int,
                ));
            }
        }
        r
    }

    fn entries(&self) -> (r: Vec<usize>) {
        let mut r: Vec<usize> = Vec::new();
        let mut i: usize = 0;
        while i < SIZE
            invariant
                i <= 64,
                self.wf(),
                forall|p: int, q: int| 0 <= p < q < r@.len() ==> r@[p] < r@[q],
                forall|p: int| 0 <= p < r@.len() ==> r@[p] < self.base + i && bit_set(
                    self.bits,
                    r@[p] - self.base,
                ),
                forall|j: int|
                    0 <= j < i && bit_set(self.bits, j) ==> exists|p: int|
                        0 <= p < r@.len() && r@[p] == self.base + j,
            decreases 64 - i,
        {
            if self.test_local(i) {
                let ghost before = r@;
                assert(bit_set(self.bits(), i as int));
                r.push(self.base + i);
                proof {
                    assert forall|j: int| 0 <= j < i + 1 && bit_set(self.bits, j) implies exists|
                        p: int,
                    |
                        0 <= p < r@.len() && r@[p] == self.base + j by {
                        if j < i {
                            let p = choose|p: int| 0 <= p < before.len() && before[p] == self.base + j;
                            assert(r@[p] == self.base + j);
                        } else {
                            assert(r@[before.len() as int] == self.base + j);
                        }
                    }
                }
            }
            i += 1;
        }
        proof {
            let a = indices(r@);
            assert forall|x: int| a.to_set().contains(x) == self.members().contains(x) by {
                if a.contains(x) {
                    let p = choose|p: int| 0 <= p < a.len() && a[p] == x;
                    assert(r@[p] == x);
                }
                if self.members().contains(x) {
                    let p = choose|p: int| 0 <= p < r@.len() && r@[p] == self.base + (x - self.base);
                    assert(a[p] == x);
                }
            }
        }
        r
    }

    fn take(&mut self, idx: usize) -> (r: bool) {
        if idx < self.base || idx - self.base >= SIZE {
            false
        } else {
            let r = self.take_local(idx - self.base);
            proof {
                assert(self.base() == old(self).base());
                assert forall|i: int| #[trigger] bit_set(self.bits(), i) implies self.base() + i <= usize::MAX by {
                    assert(bit_set(old(self).bits(), i));
                }
            }
            r
        }
    }
}

impl OligarchyCollection for UsizeBuddy {
    open spec fn first_fit() -> bool {
        true
    }

    open spec fn serves(align_order: nat, count: nat) -> bool {
        true
    }

    proof fn lemma_serves_one() {
    }

    fn take_any(&mut self, align_order: usize, count: usize) -> (r: Option<usize>) {
        self.take_run(align_order, count)
    }

    fn put(&mut self, idx: usize) {
        self.set_local(idx - self.base);
        proof {
            assert forall|t: int| #[trigger]
                bit_set(self.bits(), t) implies self.base() + t <= usize::MAX by {
                if t != idx - self.base() {
                    assert(bit_set(old(self).bits(), t));
                }
            }
        }
    }
}

impl BuddyCollection for UsizeBuddy {
    open spec fn ordered(&self) -> bool {
        true
    }

    proof fn lemma_empty_ordered(&self) {
    }

    open spec fn lowest_first() -> bool {
        true
    }

    open spec fn aligns(align_order: nat) -> bool {
        true
    }

    proof fn lemma_aligns_own() {
    }

    fn take_any(&mut self, align_order: usize) -> (r: Option<usize>) {
        self.take_first(align_order)
    }

    fn put(&mut self, idx: usize) -> (r: Option<usize>) {
        let buddy = buddy_index(idx);
        let paired = if buddy < self.base || buddy - self.base >= SIZE {
            false
        } else {
            self.take_local(buddy - self.base)
        };
        let ghost mid = self.bits;
        assert(paired == old(self).members().contains(buddy as int));
        if !paired {
            self.set_local(idx - self.base);
        }
        proof {
            assert forall|t: int| #[trigger]
                bit_set(self.bits(), t) implies self.base() + t <= usize::MAX by {
                if t != idx - self.base() {
                    assert(bit_set(mid, t));
                    assert(bit_set(old(self).bits(), t));
                }
            }
        }
        if paired {
            Some(parent_index(idx))
        } else {
            None
        }
    }
}

} // verus!
