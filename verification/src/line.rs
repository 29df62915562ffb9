//! The contract between the coordinator and its rows.

use vstd::prelude::*;
use crate::order::{aligned_to, buddy_of, parent_of};

verus! {

/// Whether a row in state `line` can record block `idx`.
pub open spec fn accepts<L: BuddyLine>(line: &L, idx: int) -> bool {
    L::fits(line.order(), line.base(), idx)
}

/// The indices of a list, as integers.
pub open spec fn indices(list: Seq<usize>) -> Seq<int> {
    Seq::new(list.len(), |i: int| list[i] as int)
}

/// No index occurs twice.
pub open spec fn distinct(list: Seq<usize>) -> bool {
    forall|i: int, j: int| 0 <= i < j < list.len() ==> list[i] != list[j]
}

/// The indices `first, first + 1, .., first + count - 1`.
pub open spec fn run(first: int, count: int) -> Set<int> {
    Set::new(|i: int| first <= i < first + count)
}

/// Whether the set holds `count` adjacent indices from a multiple of
/// `2^align_order` on.
pub open spec fn has_run(s: Set<int>, align_order: nat, count: int) -> bool {
    exists|j: int| aligned_to(j, align_order) && #[trigger] run(j, count).subset_of(s)
}

/// Whether the set holds a multiple of `2^align_order`.
pub open spec fn has_aligned(s: Set<int>, align_order: nat) -> bool {
    exists|j: int| aligned_to(j, align_order) && #[trigger] s.contains(j)
}

/// No index of the set has its buddy in the set.
pub open spec fn unpaired(s: Set<int>) -> bool {
    forall|i: int| s.contains(i) ==> !#[trigger] s.contains(buddy_of(i))
}

/// A row: the free blocks of one size class, by block index.
pub trait BuddyLine: Sized {
    /// The representation is valid.
    spec fn wf(&self) -> bool;

    /// The indices of the blocks that the row holds.
    spec fn members(&self) -> Set<int>;

    /// The order that the row was initialised with.
    spec fn order(&self) -> nat;

    /// The base index that the row was initialised with.
    spec fn base(&self) -> int;

    /// Whether a row initialised with `order` and `base` can record `idx`.
    spec fn fits(order: nat, base: int, idx: int) -> bool;

    /// A valid row holds finitely many blocks.
    proof fn lemma_finite(&self)
        requires
            self.wf(),
        ensures
            self.members().finite(),
    ;

    /// The empty row.
    fn empty() -> (r: Self)
        ensures
            r.wf(),
            r.members() =~= Set::<int>::empty(),
    ;

    /// The number of bytes at the start of each free block that the row uses
    /// for its own bookkeeping; 0 for a row that keeps it elsewhere.
    spec fn meta_size() -> nat;

    /// The number of bytes that the row needs inside each free block.
    fn intrusive_meta_size() -> (r: usize)
        ensures
            r == Self::meta_size(),
    ;

    /// Tells an empty row its order and its base index.
    fn init(&mut self, order: usize, base: usize)
        requires
            old(self).wf(),
            old(self).members() =~= Set::<int>::empty(),
        ensures
            final(self).wf(),
            final(self).members() =~= Set::<int>::empty(),
            final(self).order() == order,
            final(self).base() == base,
    ;

    /// Whether the row can record every block from `first` to `last`.
    fn holds(&self, first: usize, last: usize) -> (r: bool)
        requires
            self.wf(),
            first <= last,
        ensures
            r == (forall|i: int|
                first <= i <= last ==> #[trigger] Self::fits(self.order(), self.base(), i)),
    ;

    /// The indices of the blocks that the row holds, each once.
    fn entries(&self) -> (r: Vec<usize>)
        requires
            self.wf(),
        ensures
            distinct(r@),
            indices(r@).to_set() =~= self.members(),
    ;

    /// Removes block `idx` if the row holds it, and says whether it did.
    fn take(&mut self, idx: usize) -> (r: bool)
        requires
            old(self).wf(),
        ensures
            final(self).wf(),
            final(self).order() == old(self).order(),
            final(self).base() == old(self).base(),
            r == old(self).members().contains(idx as int),
            final(self).members() =~= old(self).members().remove(idx as int),
    ;
}

/// The top row: blocks of the largest size, which are never coalesced.
pub trait OligarchyCollection: BuddyLine {
    /// Whether the row takes the run with the lowest first index among those
    /// that qualify.
    spec fn first_fit() -> bool;

    /// Whether the row serves requests for `count` blocks aligned to
    /// `2^align_order`; it declines every other request.
    spec fn serves(align_order: nat, count: nat) -> bool;

    /// Every row serves requests for one block of any alignment of its own.
    proof fn lemma_serves_one()
        ensures
            Self::serves(0, 1),
    ;

    /// Removes `count` adjacent blocks whose first index is a multiple of
    /// `2^align_order`, and returns that first index. It declines a request
    /// that the row does not serve, and one for which it holds no such run.
    fn take_any(&mut self, align_order: usize, count: usize) -> (r: Option<usize>)
        requires
            old(self).wf(),
            count >= 1,
        ensures
            r.is_some() <==> Self::serves(align_order as nat, count as nat) && has_run(
                old(self).members(),
                align_order as nat,
                count as int,
            ),
            Self::first_fit() ==> match r {
                Some(idx) => forall|j: int|
                    j < idx && aligned_to(j, align_order as nat) ==> !#[trigger] run(
                        j,
                        count as int,
                    ).subset_of(old(self).members()),
                None => true,
            },
            final(self).wf(),
            final(self).order() == old(self).order(),
            final(self).base() == old(self).base(),
            match r {
                Some(idx) => {
                    &&& run(idx as int, count as int).subset_of(old(self).members())
                    &&& aligned_to(idx as int, align_order as nat)
                    &&& final(self).members() =~= old(self).members().difference(
                        run(idx as int, count as int),
                    )
                },
                None => final(self).members() =~= old(self).members(),
            },
    ;

    /// Adds block `idx`.
    fn put(&mut self, idx: usize)
        requires
            old(self).wf(),
            accepts(old(self), idx as int),
            !old(self).members().contains(idx as int),
        ensures
            final(self).wf(),
            final(self).order() == old(self).order(),
            final(self).base() == old(self).base(),
            final(self).members() =~= old(self).members().insert(idx as int),
    ;
}

/// An inner row: blocks that coalesce with their buddies.
pub trait BuddyCollection: BuddyLine {
    /// What the row keeps, beyond `wf`, while it is used as an inner row.
    spec fn ordered(&self) -> bool;

    /// An empty row keeps it.
    proof fn lemma_empty_ordered(&self)
        requires
            self.wf(),
            self.members() =~= Set::<int>::empty(),
        ensures
            self.ordered(),
    ;

    /// Whether the row takes the block with the lowest index among those
    /// that qualify.
    spec fn lowest_first() -> bool;

    /// Whether the row serves requests for a block aligned to
    /// `2^align_order`; it declines every other request.
    spec fn aligns(align_order: nat) -> bool;

    /// Every row serves requests for a block of any alignment of its own.
    proof fn lemma_aligns_own()
        ensures
            Self::aligns(0),
    ;

    /// Removes a block whose index is a multiple of `2^align_order` and
    /// returns its index. It declines a request that the row does not
    /// serve, and one for which it holds no such block.
    fn take_any(&mut self, align_order: usize) -> (r: Option<usize>)
        requires
            old(self).wf(),
            old(self).ordered(),
        ensures
            r.is_some() <==> Self::aligns(align_order as nat) && has_aligned(
                old(self).members(),
                align_order as nat,
            ),
            Self::lowest_first() ==> match r {
                Some(idx) => forall|j: int|
                    j < idx && aligned_to(j, align_order as nat) ==> !#[trigger] old(
                        self,
                    ).members().contains(j),
                None => true,
            },
            final(self).wf(),
            final(self).ordered(),
            final(self).order() == old(self).order(),
            final(self).base() == old(self).base(),
            match r {
                Some(idx) => {
                    &&& old(self).members().contains(idx as int)
                    &&& aligned_to(idx as int, align_order as nat)
                    &&& final(self).members() =~= old(self).members().remove(idx as int)
                },
                None => final(self).members() =~= old(self).members(),
            },
    ;

    /// Adds block `idx`, unless its buddy is in the row: then the buddy
    /// leaves the row, and the index of the block that the two make up one
    /// order higher is returned.
    fn put(&mut self, idx: usize) -> (r: Option<usize>)
        requires
            old(self).wf(),
            old(self).ordered(),
            accepts(old(self), idx as int),
            !old(self).members().contains(idx as int),
        ensures
            final(self).wf(),
            final(self).ordered(),
            final(self).order() == old(self).order(),
            final(self).base() == old(self).base(),
            old(self).members().contains(buddy_of(idx as int)) ==> r == Some(
                parent_of(idx as int) as usize,
            ) && final(self).members() =~= old(self).members().remove(buddy_of(idx as int)),
            !old(self).members().contains(buddy_of(idx as int)) ==> r.is_none()
                && final(self).members() =~= old(self).members().insert(idx as int),
    ;
}

/// Putting a block into a row without pairs leaves a row without pairs.
pub proof fn lemma_put_keeps_unpaired(s: Set<int>, idx: int)
    requires
        unpaired(s),
        !s.contains(idx),
    ensures
        s.contains(buddy_of(idx)) ==> unpaired(s.remove(buddy_of(idx))),
        !s.contains(buddy_of(idx)) ==> unpaired(s.insert(idx)),
{
    assert(buddy_of(buddy_of(idx)) == idx);
    if !s.contains(buddy_of(idx)) {
        let t = s.insert(idx);
        assert forall|i: int| t.contains(i) implies !#[trigger] t.contains(buddy_of(i)) by {
            assert(buddy_of(buddy_of(i)) == i);
        }
    }
}

} // verus!
