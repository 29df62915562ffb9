//! A row kept in an array of bits, four machine words wide.

use vstd::prelude::*;
use bitvec::array::BitArray;
use bitvec::order::Lsb0;
use crate::line::{indices, run, BuddyCollection, BuddyLine, OligarchyCollection};
use crate::order::{aligned_to, buddy_index, is_aligned, parent_index};

verus! {

/// An array of bits, kept by `bitvec`'s `BitArray` over four words.
#[verifier::external_body]
pub struct Bits {
    inner: BitArray<[usize; 4], Lsb0>,
}

/// The bits of the array, by position.
pub uninterp spec fn bits_of(bits: Bits) -> Seq<bool>;

/// The number of bits of the array.
pub open spec fn width() -> int {
    4 * usize::BITS as int
}

/// `BitArray::ZERO`: an array over the whole of its four words, every bit of
/// which is 0.
#[verifier::external_body]
fn zero_bits() -> (r: Bits)
    ensures
        bits_of(r).len() == width(),
        forall|i: int| 0 <= i < width() ==> !#[trigger] bits_of(r)[i],
{
    Bits { inner: BitArray::ZERO }
}

/// `BitSlice::len` on the whole array: the number of its bits.
#[verifier::external_body]
fn bits_len(bits: &Bits) -> (n: usize)
    ensures
        n == bits_of(*bits).len(),
{
    bits.inner.len()
}

/// `BitSlice::replace`: writes bit `index` and returns what it held. It
/// panics from the length on.
#[verifier::external_body]
fn replace_bit(bits: &mut Bits, index: usize, value: bool) -> (r: bool)
    requires
        index < bits_of(*old(bits)).len(),
    ensures
        r == bits_of(*old(bits))[index as int],
        bits_of(*final(bits)) == bits_of(*old(bits)).update(index as int, value),
{
    bits.inner.replace(index, value)
}

/// `BitSlice::leading_zeros` on the bits from `skip` on: how many bits before
/// the first 1 there, all of them if there is none. Slicing panics past the
/// length.
#[verifier::external_body]
fn zeros_from(bits: &Bits, skip: usize) -> (n: usize)
    requires
        skip <= bits_of(*bits).len(),
    ensures
        skip + n <= bits_of(*bits).len(),
        forall|i: int| skip <= i < skip + n ==> !#[trigger] bits_of(*bits)[i],
        skip + n < bits_of(*bits).len() ==> bits_of(*bits)[skip + n],
{
    bits.inner[skip..].leading_zeros()
}

/// `BitSlice::all` on the `count` bits from `skip` on: whether each is 1.
/// Slicing panics past the length.
#[verifier::external_body]
fn all_set(bits: &Bits, skip: usize, count: usize) -> (r: bool)
    requires
        skip + count <= bits_of(*bits).len(),
    ensures
        r == (forall|i: int| skip <= i < skip + count ==> #[trigger] bits_of(*bits)[i]),
{
    bits.inner[skip..][..count].all()
}

/// `BitSlice::fill` with 0 on the `count` bits from `skip` on; the other
/// bits stay. Slicing panics past the length.
#[verifier::external_body]
fn clear_bits(bits: &mut Bits, skip: usize, count: usize)
    requires
        skip + count <= bits_of(*old(bits)).len(),
    ensures
        bits_of(*final(bits)).len() == bits_of(*old(bits)).len(),
        forall|i: int|
            0 <= i < bits_of(*old(bits)).len() ==> #[trigger] bits_of(*final(bits))[i] == (bits_of(
                *old(bits),
            )[i] && !(skip <= i < skip + count)),
{
    bits.inner[skip..][..count].fill(false)
}

/// A row that records its blocks in an array of bits: bit `i` stands for the
/// block `base + i`. It keeps nothing inside the blocks.
pub struct BitArrayBuddy {
    bits: Bits,
    base: usize,
    order: usize,
}

impl BitArrayBuddy {
    /// The bits of the row, by position.
    pub closed spec fn bits(&self) -> Seq<bool> {
        bits_of(self.bits)
    }

    /// Whether the bit at position `i` is set.
    pub open spec fn has(&self, i: int) -> bool {
        0 <= i < self.bits().len() && self.bits()[i]
    }

    /// Removes the `count` adjacent blocks with the lowest first index among
    /// the runs whose first index is a multiple of `2^align_order`, and
    /// returns that index; `None`, and no change, when there is no such run.
    pub fn take_run(&mut self, align_order: usize, count: usize) -> (r: Option<usize>)
        requires
            old(self).wf(),
            count >= 1,
        ensures
            final(self).wf(),
            final(self).order() == old(self).order(),
            final(self).base() == old(self).base(),
            match r {
                Some(idx) => {
                    &&& run(idx as int, count as int).subset_of(old(self).members())
                    &&& aligned_to(idx as int, align_order as nat)
                    &&& final(self).members() =~= old(self).members().difference(
                        run(idx as int, count as int),
                    )
                    &&& forall|j: int|
                        j < idx && aligned_to(j, align_order as nat) ==> !#[trigger] run(
                            j,
                            count as int,
                        ).subset_of(old(self).members())
                },
                None => {
                    &&& final(self).members() =~= old(self).members()
                    &&& forall|j: int|
                        aligned_to(j, align_order as nat) ==> !#[trigger] run(
                            j,
                            count as int,
                        ).subset_of(old(self).members())
                },
            },
    {
        let ghost before = self.members();
        let base = self.base;
        let len = bits_len(&self.bits);
        let mut skip: usize = 0;
        proof {
            assert forall|j: int| j < base implies !#[trigger] run(j, count as int).subset_of(
                before,
            ) by {
                assert(run(j, count as int).contains(j));
            }
        }
        while skip < len && count <= len - skip && skip <= usize::MAX - base
            invariant
                skip <= len,
                len == self.bits().len(),
                count >= 1,
                base == self.base,
                *self == *old(self),
                before == self.members(),
                self.wf(),
                forall|j: int|
                    j < base + skip && aligned_to(j, align_order as nat) ==> !#[trigger] run(
                        j,
                        count as int,
                    ).subset_of(before),
            decreases len - skip,
        {
            let zeros = zeros_from(&self.bits, skip);
            if zeros > 0 {
                proof {
                    assert forall|j: int|
                        base + skip <= j < base + skip + zeros implies !#[trigger] run(
                        j,
                        count as int,
                    ).subset_of(before) by {
                        assert(run(j, count as int).contains(j));
                        assert(!self.bits()[j - base]);
                    }
                }
                skip += zeros;
            } else {
                if is_aligned(base + skip, align_order) && all_set(&self.bits, skip, count) {
                    proof {
                        assert forall|m: int| run((base + skip) as int, count as int).contains(
                            m,
                        ) implies before.contains(m) by {
                            assert(self.bits()[m - base]);
                        }
                        assert(self.has(skip + count - 1));
                    }
                    clear_bits(&mut self.bits, skip, count);
                    proof {
                        assert forall|t: int| #[trigger] self.has(t) implies self.base() + t
                            <= usize::MAX by {
                            assert(old(self).has(t));
                        }
                    }
                    return Some(base + skip);
                }
                proof {
                    if run((base + skip) as int, count as int).subset_of(before) {
                        assert forall|k: int| skip <= k < skip + count implies #[trigger] self.bits()[k] by {
                            assert(run((base + skip) as int, count as int).contains(base + k));
                        }
                    }
                }
                skip += 1;
            }
        }
        proof {
            assert forall|j: int| aligned_to(j, align_order as nat) implies !#[trigger] run(
                j,
                count as int,
            ).subset_of(before) by {
                if j >= base + skip && run(j, count as int).subset_of(before) {
                    assert(run(j, count as int).contains(j + count - 1));
                    assert(run(j, count as int).contains(j));
                    assert(self.has(j + count - 1 - base));
                    assert(self.has(j - base));
                }
            }
        }
        None
    }

    /// Removes the block with the lowest index among those whose index is a
    /// multiple of `2^align_order`, and returns that index; `None`, and no
    /// change, when there is no such block.
    pub fn take_first(&mut self, align_order: usize) -> (r: Option<usize>)
        requires
            old(self).wf(),
        ensures
            final(self).wf(),
            final(self).order() == old(self).order(),
            final(self).base() == old(self).base(),
            match r {
                Some(idx) => {
                    &&& old(self).members().contains(idx as int)
                    &&& aligned_to(idx as int, align_order as nat)
                    &&& final(self).members() =~= old(self).members().remove(idx as int)
                    &&& forall|j: int|
                        j < idx && aligned_to(j, align_order as nat) ==> !#[trigger] old(
                            self,
                        ).members().contains(j)
                },
                None => {
                    &&& final(self).members() =~= old(self).members()
                    &&& forall|j: int|
                        aligned_to(j, align_order as nat) ==> !#[trigger] old(
                            self,
                        ).members().contains(j)
                },
            },
    {
        let ghost before = self.members();
        let base = self.base;
        let len = bits_len(&self.bits);
        let mut skip: usize = 0;
        while skip < len && skip <= usize::MAX - base
            invariant
                skip <= len,
                len == self.bits().len(),
                base == self.base,
                *self == *old(self),
                before == self.members(),
                self.wf(),
                forall|j: int|
                    j < base + skip && aligned_to(j, align_order as nat) ==> !#[trigger] before.contains(
                        j,
                    ),
            decreases len - skip,
        {
            let zeros = zeros_from(&self.bits, skip);
            if zeros > 0 {
                skip += zeros;
            } else {
                if is_aligned(base + skip, align_order) {
                    let _ = replace_bit(&mut self.bits, skip, false);
                    proof {
                        assert forall|t: int| #[trigger] self.has(t) implies self.base() + t
                            <= usize::MAX by {
                            assert(old(self).has(t));
                        }
                    }
                    return Some(base + skip);
                }
                skip += 1;
            }
        }
        proof {
            assert forall|j: int| !before.contains(j) || j < base + skip by {
                if before.contains(j) {
                    assert(self.has(j - base));
                }
            }
        }
        None
    }

    /// Writes the bit of block `idx`, which the row can record, and returns
    /// what it held.
    fn swap(&mut self, idx: usize, value: bool) -> (r: bool)
        requires
            old(self).wf(),
            old(self).base() <= idx < old(self).base() + width(),
        ensures
            final(self).wf(),
            final(self).order() == old(self).order(),
            final(self).base() == old(self).base(),
            r == old(self).members().contains(idx as int),
            final(self).members() =~= if value {
                old(self).members().insert(idx as int)
            } else {
                old(self).members().remove(idx as int)
            },
    {
        let r = replace_bit(&mut self.bits, idx - self.base, value);
        proof {
            assert forall|t: int| #[trigger] self.has(t) implies self.base() + t <= usize::MAX by {
                if t != idx - self.base() {
                    assert(old(self).has(t));
                }
            }
            assert forall|x: int| self.members().contains(x) == (if value {
                old(self).members().insert(idx as int)
            } else {
                old(self).members().remove(idx as int)
            }).contains(x) by {
                assert(self.has(x - self.base) == (if x == idx {
                    value
                } else {
                    old(self).has(x - self.base)
                }));
            }
        }
        r
    }
}

impl BuddyLine for BitArrayBuddy {
    open spec fn wf(&self) -> bool {
        &&& self.bits().len() == width()
        &&& forall|i: int| #[trigger] self.has(i) ==> self.base() + i <= usize::MAX
    }

    open spec fn members(&self) -> Set<int> {
        Set::new(|idx: int| self.has(idx - self.base()))
    }

    closed spec fn order(&self) -> nat {
        self.order as nat
    }

    closed spec fn base(&self) -> int {
        self.base as int
    }

    open spec fn fits(order: nat, base: int, idx: int) -> bool {
        base <= idx < base + width()
    }

    proof fn lemma_finite(&self) {
        let b = self.base();
        let s = Set::new(|idx: int| b <= idx < b + width());
        vstd::set_lib::lemma_int_range(b, b + width());
        assert(s =~= vstd::set_lib::set_int_range(b, b + width()));
        assert(self.members().subset_of(s));
        vstd::set_lib::lemma_len_subset(self.members(), s);
    }

    fn empty() -> (r: Self) {
        BitArrayBuddy { bits: zero_bits(), base: 0, order: 0 }
    }

    open spec fn meta_size() -> nat {
        0
    }

    fn intrusive_meta_size() -> (r: usize) {
        0
    }

    fn init(&mut self, order: usize, base: usize) {
        proof {
            assert forall|i: int| !self.has(i) by {
                assert(!self.members().contains(self.base + i));
            }
        }
        self.base = base;
        self.order = order;
        proof {
            assert forall|i: int| !self.has(i) by {
                assert(!old(self).has(i));
            }
        }
    }

    fn holds(&self, first: usize, last: usize) -> (r: bool) {
        let len = bits_len(&self.bits);
        let r = self.base <= first && last - first < len && first - self.base < len - (last
            - first);
        proof {
            if !r {
                assert(!Self::fits(self.order(), self.base(), first as int) || !Self::fits(
                    self.order(),
                    self.base(),
                    last as int,
                ));
            }
        }
        r
    }

    fn entries(&self) -> (r: Vec<usize>) {
        let len = bits_len(&self.bits);
        let mut r: Vec<usize> = Vec::new();
        let mut skip: usize = 0;
        while skip < len
            invariant
                skip <= len,
                len == self.bits().len(),
                self.wf(),
                forall|p: int, q: int| 0 <= p < q < r@.len() ==> r@[p] < r@[q],
                forall|p: int|
                    0 <= p < r@.len() ==> r@[p] < self.base + skip && self.has(r@[p] - self.base),
                forall|j: int|
                    0 <= j < skip && self.has(j) ==> exists|p: int|
                        0 <= p < r@.len() && r@[p] == self.base + j,
            decreases len - skip,
        {
            let zeros = zeros_from(&self.bits, skip);
            if zeros > 0 {
                skip += zeros;
            } else {
                let ghost before = r@;
                assert(self.has(skip as int));
                r.push(self.base + skip);
                proof {
                    assert forall|j: int| 0 <= j < skip + 1 && self.has(j) implies exists|p: int|
                        0 <= p < r@.len() && r@[p] == self.base + j by {
                        if j < skip {
                            let p = choose|p: int|
                                0 <= p < before.len() && before[p] == self.base + j;
                            assert(r@[p] == self.base + j);
                        } else {
                            assert(r@[before.len() as int] == self.base + j);
                        }
                    }
                }
                skip += 1;
            }
        }
        proof {
            let a = indices(r@);
            assert forall|x: int| a.to_set().contains(x) == self.members().contains(x) by {
                if a.contains(x) {
                    let p = choose|p: int| 0 <= p < a.len() && a[p] == x;
                    assert(r@[p] == x);
                }
                if self.members().contains(x) {
                    let p = choose|p: int|
                        0 <= p < r@.len() && r@[p] == self.base + (x - self.base);
                    assert(a[p] == x);
                }
            }
        }
        r
    }

    fn take(&mut self, idx: usize) -> (r: bool) {
        if idx < self.base || idx - self.base >= bits_len(&self.bits) {
            false
        } else {
            self.swap(idx, false)
        }
    }
}

impl OligarchyCollection for BitArrayBuddy {
    open spec fn first_fit() -> bool {
        true
    }

    open spec fn serves(align_order: nat, count: nat) -> bool {
        true
    }

    proof fn lemma_serves_one() {
    }

    fn take_any(&mut self, align_order: usize, count: usize) -> (r: Option<usize>) {
        self.take_run(align_order, count)
    }

    fn put(&mut self, idx: usize) {
        let _ = self.swap(idx, true);
    }
}

impl BuddyCollection for BitArrayBuddy {
    open spec fn ordered(&self) -> bool {
        true
    }

    proof fn lemma_empty_ordered(&self) {
    }

    open spec fn lowest_first() -> bool {
        true
    }

    open spec fn aligns(align_order: nat) -> bool {
        true
    }

    proof fn lemma_aligns_own() {
    }

    fn take_any(&mut self, align_order: usize) -> (r: Option<usize>) {
        self.take_first(align_order)
    }

    fn put(&mut self, idx: usize) -> (r: Option<usize>) {
        let buddy = buddy_index(idx);
        if self.take(buddy) {
            Some(parent_index(idx))
        } else {
            let _ = self.swap(idx, true);
            None
        }
    }
}

} // verus!
