//! The coordinator: it picks a row for each request, splits larger blocks on
//! the way down and coalesces buddies on the way up.

use vstd::prelude::*;
use crate::line::{
    distinct, has_aligned, has_run, indices, run, unpaired, BuddyCollection, OligarchyCollection,
};
use crate::order::{
    aligned_to, block_index, block_size, buddy_of, is_aligned, lemma_aligned_block,
    lemma_aligned_lower, lemma_aligned_scale, lemma_aligned_sum, lemma_block_size_double,
    lemma_rounded_size, order_for, order_of_alignment, parent_of, rounded_size, size_of_order,
    Order,
};
use crate::partition::{
    clear, coherent, free_at, free_in, lemma_block_bounds, lemma_clear_halves, lemma_clear_pair,
    lemma_index_up, lemma_insert, lemma_remove, lemma_remove_run, lemma_run_bounds,
    lemma_rows_determined, lemma_total_covers_row, lemma_total_empty, lemma_total_nonneg,
    natural, row_order, total,
};

verus! {

/// The allocator has no block that satisfies a request.
#[derive(Clone, Copy, PartialEq, Eq, Debug, Structural)]
pub struct BuddyError;

/// A buddy allocator with `N` inner rows of type `B` under one top row of
/// type `O`.
pub struct BuddyAllocator<const N: usize, O: OligarchyCollection, B: BuddyCollection> {
    /// The top row.
    oligarchy: O,
    /// The inner rows, smallest blocks first.
    buddies: Vec<B>,
    /// The order of the blocks of the first inner row.
    min_order: usize,
    /// The bytes that are free.
    free: usize,
    /// The bytes that were ever donated and not snatched.
    capacity: usize,
}

/// The largest order in `[lo, hi]` to which `ptr` is aligned and whose block
/// is no longer than `len`.
pub fn fit_order(ptr: usize, len: usize, lo: usize, hi: usize) -> (order: usize)
    requires
        lo <= hi < usize::BITS,
        aligned_to(ptr as int, lo as nat),
        len >= block_size(lo as nat),
    ensures
        lo <= order <= hi,
        aligned_to(ptr as int, order as nat),
        block_size(order as nat) <= len,
        order < hi ==> !(aligned_to(ptr as int, (order + 1) as nat) && block_size(
            (order + 1) as nat,
        ) <= len),
{
    let mut order: usize = lo;
    while order < hi && is_aligned(ptr, order + 1) && size_of_order(order + 1) <= len
        invariant
            lo <= order <= hi < usize::BITS,
            aligned_to(ptr as int, order as nat),
            block_size(order as nat) <= len,
        decreases hi - order,
    {
        order += 1;
    }
    order
}

/// Whether row `l` of rows initialised as `shape` says, of inner rows of type
/// `B` under a top row of type `O`, can record block `idx`.
pub open spec fn row_fits<O: OligarchyCollection, B: BuddyCollection>(
    shape: Seq<(nat, int)>,
    l: int,
    idx: int,
) -> bool {
    if l < shape.len() - 1 {
        B::fits(shape[l].0, shape[l].1, idx)
    } else {
        O::fits(shape[l].0, shape[l].1, idx)
    }
}

/// Whether every row can record the block of its order that holds `addr`.
/// The last address of the address space is never managed.
pub open spec fn managed<O: OligarchyCollection, B: BuddyCollection>(
    shape: Seq<(nat, int)>,
    m: nat,
    addr: int,
) -> bool {
    &&& 0 <= addr < usize::MAX
    &&& forall|l: int|
        0 <= l < shape.len() ==> #[trigger] row_fits::<O, B>(
            shape,
            l,
            block_index(row_order(m, l), addr),
        )
}

impl<const N: usize, O: OligarchyCollection, B: BuddyCollection> BuddyAllocator<N, O, B> {
    /// The rows as sets of block indices: the inner rows, then the top row.
    pub closed spec fn rows(&self) -> Seq<Set<int>> {
        Seq::new(
            (N + 1) as nat,
            |l: int|
                if l < N {
                    self.buddies@[l].members()
                } else {
                    self.oligarchy.members()
                },
        )
    }

    /// The order and the base index that each row was initialised with.
    pub closed spec fn shape(&self) -> Seq<(nat, int)> {
        Seq::new(
            (N + 1) as nat,
            |l: int|
                if l < N {
                    (self.buddies@[l].order(), self.buddies@[l].base())
                } else {
                    (self.oligarchy.order(), self.oligarchy.base())
                },
        )
    }

    /// The order of the smallest blocks.
    pub closed spec fn smallest_order(&self) -> nat {
        self.min_order as nat
    }

    /// The order of the blocks of the top row.
    pub open spec fn largest_order(&self) -> nat {
        self.smallest_order() + N as nat
    }

    /// The number of bytes that are free.
    pub closed spec fn free_bytes(&self) -> int {
        self.free as int
    }

    /// The number of bytes under management, free or handed out.
    pub closed spec fn capacity_bytes(&self) -> int {
        self.capacity as int
    }

    /// Whether every row can record the block of its order that holds
    /// `addr`.
    pub open spec fn manages(&self, addr: int) -> bool {
        managed::<O, B>(self.shape(), self.smallest_order(), addr)
    }

    /// Whether `addr` lies in a free block.
    pub open spec fn is_free(&self, addr: int) -> bool {
        free_in(self.rows(), self.smallest_order(), addr)
    }

    /// The rows are valid, their blocks do not overlap, and each lies where
    /// every row could record it.
    pub closed spec fn sound(&self) -> bool {
        &&& self.buddies@.len() == N
        &&& self.min_order + N < usize::BITS
        &&& forall|l: int|
            0 <= l < N ==> (#[trigger] self.buddies@[l]).wf() && self.buddies@[l].ordered()
        &&& self.oligarchy.wf()
        &&& coherent(self.rows(), self.smallest_order())
        &&& natural(self.rows())
        &&& forall|addr: int, l: int|
            addr >= 0 && 0 <= l <= N && #[trigger] free_at(
                self.rows(),
                self.smallest_order(),
                l,
                addr,
            ) ==> self.manages(addr)
    }

    /// The allocator's invariant: the rows are sound, the counter of free
    /// bytes is what the rows hold, and it does not exceed the capacity.
    pub closed spec fn inv(&self) -> bool {
        &&& self.sound()
        &&& self.free == total(self.rows(), self.smallest_order())
        &&& self.free <= self.capacity
    }

    /// An allocator with empty rows, minimum order 0 and no capacity.
    pub fn new() -> (r: Self)
        ensures
            r.free_bytes() == 0,
            r.capacity_bytes() == 0,
            r.smallest_order() == 0,
            forall|addr: int| !r.is_free(addr),
            N < usize::BITS ==> r.inv(),
    {
        let mut buddies: Vec<B> = Vec::new();
        let mut i: usize = 0;
        while i < N
            invariant
                i <= N,
                buddies@.len() == i,
                forall|l: int|
                    0 <= l < i ==> (#[trigger] buddies@[l]).wf() && buddies@[l].ordered()
                        && buddies@[l].members() =~= Set::<int>::empty(),
            decreases N - i,
        {
            let b = B::empty();
            proof {
                b.lemma_empty_ordered();
            }
            buddies.push(b);
            i += 1;
        }
        let r = BuddyAllocator { oligarchy: O::empty(), buddies, min_order: 0, free: 0, capacity: 0 };
        proof {
            r.lemma_empty_rows();
        }
        r
    }

    /// With every row empty, nothing is free and the rows are coherent.
    proof fn lemma_empty_rows(&self)
        requires
            self.buddies@.len() == N,
            forall|l: int| 0 <= l < N ==> (#[trigger] self.buddies@[l]).members() =~= Set::<int>::empty(),
            self.oligarchy.members() =~= Set::<int>::empty(),
        ensures
            total(self.rows(), self.smallest_order()) == 0,
            coherent(self.rows(), self.smallest_order()),
            forall|addr: int| !self.is_free(addr),
            forall|addr: int, l: int|
                0 <= l <= N ==> !#[trigger] free_at(self.rows(), self.smallest_order(), l, addr),
    {
        let rows = self.rows();
        assert forall|l: int| 0 <= l < rows.len() implies #[trigger] rows[l] =~= Set::<int>::empty() by {
            if l < N {
                assert(self.buddies@[l].members() =~= Set::<int>::empty());
            }
        }
        lemma_total_empty(rows, self.smallest_order());
    }

    /// Without a free byte, every row is empty.
    proof fn lemma_nothing_free(&self)
        requires
            self.sound(),
            total(self.rows(), self.smallest_order()) == 0,
        ensures
            forall|l: int|
                0 <= l < N ==> (#[trigger] self.buddies@[l]).members() =~= Set::<int>::empty(),
            self.oligarchy.members() =~= Set::<int>::empty(),
    {
        let rows = self.rows();
        let m = self.smallest_order();
        assert forall|l: int| 0 <= l <= N implies #[trigger] rows[l] =~= Set::<int>::empty() by {
            lemma_total_covers_row(rows, m, l);
            lemma_block_size_double(row_order(m, l));
            assert(rows[l].finite());
            assert(rows[l].len() == 0) by (nonlinear_arith)
                requires
                    rows[l].len() * block_size(row_order(m, l)) <= 0,
                    block_size(row_order(m, l)) >= 1,
            ;
            rows[l].lemma_len0_is_empty();
        }
        assert forall|l: int| 0 <= l < N implies (#[trigger] self.buddies@[l]).members()
            =~= Set::<int>::empty() by {
            assert(rows[l] =~= Set::<int>::empty());
        }
        assert(rows[N as int] =~= Set::<int>::empty());
    }

    /// Fixes the order of the smallest blocks and the address from which the
    /// rows count their blocks. It is for an allocator that manages nothing
    /// yet.
    pub fn init(&mut self, min_order: usize, base: usize)
        requires
            old(self).inv(),
            old(self).capacity_bytes() == 0,
            min_order + N < usize::BITS,
            B::meta_size() <= block_size(min_order as nat),
            O::meta_size() <= block_size((min_order + N) as nat),
        ensures
            final(self).inv(),
            final(self).smallest_order() == min_order,
            final(self).free_bytes() == 0,
            final(self).capacity_bytes() == 0,
            forall|addr: int| !final(self).is_free(addr),
            forall|l: int|
                0 <= l <= N ==> #[trigger] final(self).shape()[l] == (
                    row_order(min_order as nat, l),
                    block_index(row_order(min_order as nat, l), base as int),
                ),
    {
        proof {
            self.lemma_nothing_free();
        }
        self.min_order = min_order;
        let mut i: usize = 0;
        while i < N
            invariant
                i <= N,
                min_order + N < usize::BITS,
                self.buddies@.len() == N,
                self.min_order == min_order,
                self.free == old(self).free,
                self.capacity == old(self).capacity,
                self.oligarchy == old(self).oligarchy,
                forall|l: int|
                    0 <= l < N ==> (#[trigger] self.buddies@[l]).wf() && self.buddies@[l].ordered()
                        && self.buddies@[l].members() =~= Set::<int>::empty(),
                forall|l: int|
                    0 <= l < i ==> (#[trigger] self.buddies@[l]).order() == row_order(
                        min_order as nat,
                        l,
                    ) && self.buddies@[l].base() == block_index(
                        row_order(min_order as nat, l),
                        base as int,
                    ),
            decreases N - i,
        {
            let o = min_order + i;
            let b = Order::new(o).ptr_to_idx(base);
            self.buddies[i].init(o, b);
            proof {
                self.buddies@[i as int].lemma_empty_ordered();
            }
            i += 1;
        }
        let max_order = min_order + N;
        let b = Order::new(max_order).ptr_to_idx(base);
        self.oligarchy.init(max_order, b);
        proof {
            self.lemma_empty_rows();
        }
    }

    /// Takes back the region of `size` bytes at `ptr`: it is cut into the
    /// largest blocks that its alignment and length allow, and each block is
    /// put into its row, coalescing with its buddy as long as that is free.
    /// The region must be managed, and no address of it may be free already.
    pub fn deallocate(&mut self, ptr: usize, size: usize)
        requires
            old(self).inv(),
            aligned_to(ptr as int, old(self).smallest_order()),
            aligned_to(size as int, old(self).smallest_order()),
            ptr + size <= usize::MAX,
            forall|addr: int|
                ptr <= addr < ptr + size ==> #[trigger] old(self).manages(addr) && !old(
                    self,
                ).is_free(addr),
            old(self).free_bytes() + size <= old(self).capacity_bytes(),
        ensures
            final(self).inv(),
            final(self).smallest_order() == old(self).smallest_order(),
            final(self).shape() == old(self).shape(),
            final(self).capacity_bytes() == old(self).capacity_bytes(),
            final(self).free_bytes() == old(self).free_bytes() + size,
            forall|addr: int|
                addr >= 0 ==> #[trigger] final(self).is_free(addr) == (old(self).is_free(addr) || ptr
                    <= addr < ptr + size),
    {
        let ghost m = self.smallest_order();
        let ghost sh = self.shape();
        let ghost old_rows = self.rows();
        let max_order = self.min_order + N;
        let end = ptr + size;
        let mut cur = ptr;
        proof {
            lemma_aligned_sum(ptr as int, size as int, m);
            assert forall|addr: int| ptr <= addr < ptr + size implies #[trigger] managed::<O, B>(
                sh,
                m,
                addr,
            ) by {
                assert(old(self).manages(addr) && !old(self).is_free(addr));
            }
            assert forall|addr: int| ptr <= addr < ptr + size implies !#[trigger] free_in(
                old_rows,
                m,
                addr,
            ) by {
                assert(old(self).manages(addr) && !old(self).is_free(addr));
            }
        }
        while cur < end
            invariant
                self.sound(),
                self.min_order == old(self).min_order,
                m == self.smallest_order(),
                max_order == self.min_order + N,
                self.free == old(self).free,
                self.capacity == old(self).capacity,
                self.shape() == sh,
                end == ptr + size,
                ptr <= cur <= end,
                aligned_to(cur as int, m),
                aligned_to(end as int, m),
                total(self.rows(), m) == old(self).free + (cur - ptr),
                forall|addr: int|
                    ptr <= addr < ptr + size ==> #[trigger] managed::<O, B>(sh, m, addr),
                forall|addr: int|
                    ptr <= addr < ptr + size ==> !#[trigger] free_in(old_rows, m, addr),
                forall|addr: int|
                    addr >= 0 ==> #[trigger] free_in(self.rows(), m, addr) == (free_in(
                        old_rows,
                        m,
                        addr,
                    ) || ptr <= addr < cur),
            decreases end - cur,
        {
            proof {
                lemma_aligned_sum(end as int, cur as int, m);
                lemma_aligned_sum((end - cur) as int, (end - cur) as int, m);
            }
            let order = fit_order(cur, end - cur, self.min_order, max_order);
            let s = size_of_order(order);
            let mut idx = Order::new(order).ptr_to_idx(cur);
            let mut layer = order - self.min_order;
            let ghost start = cur;
            proof {
                lemma_aligned_block(cur as int, order as nat);
                assert((idx + 1) * block_size(order as nat) == idx * block_size(order as nat)
                    + block_size(order as nat)) by (nonlinear_arith);
                assert forall|addr: int| addr >= 0 implies (block_index(
                    row_order(m, layer as int),
                    addr,
                ) == idx) == (cur <= addr < cur + s) by {
                    lemma_block_bounds(order as nat, idx as int, addr);
                }
                assert forall|addr: int, k: int|
                    addr >= 0 && 0 <= k < self.rows().len() && idx <= block_index(
                        row_order(m, layer as int),
                        addr,
                    ) < idx + 1 implies !#[trigger] free_at(self.rows(), m, k, addr) by {
                    lemma_block_bounds(order as nat, idx as int, addr);
                    assert(!free_in(old_rows, m, addr));
                    assert(!free_in(self.rows(), m, addr));
                }
                assert forall|addr: int|
                    addr >= 0 && block_index(row_order(m, layer as int), addr)
                        == idx implies #[trigger] managed::<O, B>(sh, m, addr) by {
                    lemma_block_bounds(order as nat, idx as int, addr);
                }
                assert forall|addr: int|
                    addr >= 0 && block_index(row_order(m, layer as int), addr)
                        == idx implies !#[trigger] free_in(self.rows(), m, addr) by {
                    lemma_block_bounds(order as nat, idx as int, addr);
                    assert(!free_in(old_rows, m, addr));
                }
            }
            cur += s;
            proof {
                vstd::arithmetic::div_mod::lemma_mod_self_0(s as int);
                lemma_aligned_lower(s as int, order as nat, m);
                lemma_aligned_sum(start as int, s as int, m);
            }
            loop
                invariant_except_break
                    layer <= N,
                    clear(self.rows(), m, layer as int, idx as int, 1),
                    forall|addr: int|
                        addr >= 0 && block_index(row_order(m, layer as int), addr) == idx
                            ==> #[trigger] managed::<O, B>(sh, m, addr),
                    total(self.rows(), m) + block_size(row_order(m, layer as int)) == old(
                        self,
                    ).free + (cur - ptr),
                    forall|addr: int|
                        addr >= 0 ==> (#[trigger] free_in(self.rows(), m, addr) || block_index(
                            row_order(m, layer as int),
                            addr,
                        ) == idx) == (free_in(old_rows, m, addr) || ptr <= addr < cur),
                    forall|addr: int|
                        addr >= 0 && block_index(row_order(m, layer as int), addr) == idx
                            ==> !#[trigger] free_in(self.rows(), m, addr),
                invariant
                    self.sound(),
                    self.min_order == old(self).min_order,
                    m == self.smallest_order(),
                    self.free == old(self).free,
                    self.capacity == old(self).capacity,
                    self.shape() == sh,
                ensures
                    total(self.rows(), m) == old(self).free + (cur - ptr),
                    forall|addr: int|
                        addr >= 0 ==> #[trigger] free_in(self.rows(), m, addr) == (free_in(
                            old_rows,
                            m,
                            addr,
                        ) || ptr <= addr < cur),
                decreases N - layer,
            {
                let ghost rows0 = self.rows();
                let ghost o = row_order(m, layer as int);
                let ghost first = idx * block_size(o);
                proof {
                    lemma_block_size_double(o);
                    assert(first >= 0) by (nonlinear_arith)
                        requires
                            first == idx * block_size(o),
                            idx >= 0,
                            block_size(o) >= 1,
                    ;
                    lemma_block_bounds(o, idx as int, first);
                    assert((idx + 1) * block_size(o) == first + block_size(o))
                        by (nonlinear_arith)
                        requires
                            first == idx * block_size(o),
                    ;
                    assert(managed::<O, B>(sh, m, first));
                    assert(row_fits::<O, B>(sh, layer as int, block_index(o, first)));
                    assert(!free_at(rows0, m, layer as int, first));
                }
                if layer == N {
                    proof {
                        lemma_insert(rows0, m, layer as int, idx as int);
                    }
                    self.oligarchy.put(idx);
                    proof {
                        let r1 = rows0.update(layer as int, rows0[layer as int].insert(idx as int));
                        assert(self.rows() =~= r1);
                        assert(self.shape() =~= sh);
                        assert forall|addr: int, l: int|
                            addr >= 0 && 0 <= l <= N && #[trigger] free_at(
                                r1,
                                m,
                                l,
                                addr,
                            ) implies managed::<O, B>(sh, m, addr) by {
                            if !free_at(rows0, m, l, addr) {
                                assert(block_index(o, addr) == idx);
                            }
                        }
                    }
                    break ;
                }
                let ghost had_buddy = rows0[layer as int].contains(buddy_of(idx as int));
                proof {
                    if had_buddy {
                        lemma_remove(rows0, m, layer as int, buddy_of(idx as int));
                    } else {
                        lemma_insert(rows0, m, layer as int, idx as int);
                    }
                }
                let r = self.buddies[layer].put(idx);
                proof {
                    assert(self.shape() =~= sh);
                    assert forall|l: int| 0 <= l < N implies (#[trigger] self.buddies@[l]).wf()
                        && self.buddies@[l].ordered() by {}
                    if had_buddy {
                        let r1 = rows0.update(
                            layer as int,
                            rows0[layer as int].remove(buddy_of(idx as int)),
                        );
                        assert(self.rows() =~= r1);
                        assert forall|addr: int, l: int|
                            addr >= 0 && 0 <= l <= N && #[trigger] free_at(
                                r1,
                                m,
                                l,
                                addr,
                            ) implies managed::<O, B>(sh, m, addr) by {
                            assert(free_at(rows0, m, l, addr));
                        }
                        assert(clear(r1, m, layer as int, idx as int, 1)) by {
                            assert forall|addr: int, k: int|
                                addr >= 0 && 0 <= k < r1.len() && idx <= block_index(o, addr) < idx
                                    + 1 implies !#[trigger] free_at(r1, m, k, addr) by {
                                assert(!free_at(rows0, m, k, addr));
                            }
                        }
                        lemma_clear_pair(r1, m, layer as int, idx as int);
                        assert(row_order(m, layer as int + 1) == o + 1);
                        lemma_block_size_double(o);
                        assert forall|addr: int|
                            addr >= 0 && block_index(row_order(m, layer + 1), addr) == parent_of(
                                idx as int,
                            ) implies #[trigger] managed::<O, B>(sh, m, addr) by {
                            lemma_index_up(o, addr);
                            let i = block_index(o, addr);
                            assert(i == idx || i == buddy_of(idx as int));
                            if i != idx {
                                assert(free_at(rows0, m, layer as int, addr));
                            }
                        }
                        assert forall|addr: int|
                            addr >= 0 && block_index(row_order(m, layer + 1), addr) == parent_of(
                                idx as int,
                            ) implies !#[trigger] free_in(r1, m, addr) by {
                            lemma_index_up(o, addr);
                            let i = block_index(o, addr);
                            assert(i == idx || i == buddy_of(idx as int));
                            if i == idx {
                                assert(!free_in(rows0, m, addr));
                            }
                        }
                        assert forall|addr: int| addr >= 0 implies (#[trigger] free_in(r1, m, addr)
                            || block_index(row_order(m, layer + 1), addr) == parent_of(idx as int))
                            == (free_in(old_rows, m, addr) || ptr <= addr < cur) by {
                            lemma_index_up(o, addr);
                            let i = block_index(o, addr);
                            if i == buddy_of(idx as int) {
                                assert(free_at(rows0, m, layer as int, addr));
                                assert(free_in(rows0, m, addr));
                            }
                        }
                    } else {
                        let r1 = rows0.update(layer as int, rows0[layer as int].insert(idx as int));
                        assert(self.rows() =~= r1);
                        assert forall|addr: int, l: int|
                            addr >= 0 && 0 <= l <= N && #[trigger] free_at(
                                r1,
                                m,
                                l,
                                addr,
                            ) implies managed::<O, B>(sh, m, addr) by {
                            if !free_at(rows0, m, l, addr) {
                                assert(block_index(o, addr) == idx);
                            }
                        }
                    }
                }
                match r {
                    Some(parent) => {
                        let ghost r1 = self.rows();
                        let ghost idx0 = idx;
                        idx = parent;
                        layer += 1;
                        assert forall|addr: int| addr >= 0 implies (#[trigger] free_in(
                            self.rows(),
                            m,
                            addr,
                        ) || block_index(row_order(m, layer as int), addr) == idx) == (free_in(
                            old_rows,
                            m,
                            addr,
                        ) || ptr <= addr < cur) by {
                            assert((free_in(r1, m, addr) || block_index(
                                row_order(m, layer as int),
                                addr,
                            ) == parent_of(idx0 as int)) == (free_in(old_rows, m, addr) || ptr
                                <= addr < cur));
                        }
                    },
                    None => {
                        break ;
                    },
                }
            }
        }
        self.free += size;
    }

    /// Donates the region of `size` bytes at `ptr` to the allocator.
    pub fn transfer(&mut self, ptr: usize, size: usize)
        requires
            old(self).inv(),
            aligned_to(ptr as int, old(self).smallest_order()),
            aligned_to(size as int, old(self).smallest_order()),
            ptr + size <= usize::MAX,
            forall|addr: int|
                ptr <= addr < ptr + size ==> #[trigger] old(self).manages(addr) && !old(
                    self,
                ).is_free(addr),
            old(self).capacity_bytes() + size <= usize::MAX,
        ensures
            final(self).inv(),
            final(self).smallest_order() == old(self).smallest_order(),
            final(self).shape() == old(self).shape(),
            final(self).capacity_bytes() == old(self).capacity_bytes() + size,
            final(self).free_bytes() == old(self).free_bytes() + size,
            forall|addr: int|
                addr >= 0 ==> #[trigger] final(self).is_free(addr) == (old(self).is_free(addr) || ptr
                    <= addr < ptr + size),
    {
        self.capacity += size;
        proof {
            assert(self.rows() == old(self).rows());
            assert(self.shape() == old(self).shape());
            assert forall|addr: int| ptr <= addr < ptr + size implies #[trigger] self.manages(addr)
                && !self.is_free(addr) by {
                assert(old(self).manages(addr) && !old(self).is_free(addr));
            }
        }
        self.deallocate(ptr, size);
        proof {
            assert forall|addr: int| addr >= 0 implies #[trigger] self.is_free(addr) == (old(
                self,
            ).is_free(addr) || ptr <= addr < ptr + size) by {}
        }
    }

    /// The state after the `size` bytes at `ptr`, all of them free in
    /// `before`, were taken out of the rows; the counters are as in `before`.
    spec fn carved_from(&self, before: &Self, ptr: int, size: int) -> bool {
        let m = self.smallest_order();
        &&& self.sound()
        &&& self.min_order == before.min_order
        &&& self.free == before.free
        &&& self.capacity == before.capacity
        &&& self.shape() == before.shape()
        &&& total(self.rows(), m) == total(before.rows(), m) - size
        &&& 0 <= ptr
        &&& ptr + size <= usize::MAX
        &&& forall|addr: int|
            addr >= 0 ==> #[trigger] free_in(self.rows(), m, addr) == (free_in(
                before.rows(),
                m,
                addr,
            ) && !(ptr <= addr < ptr + size))
        &&& forall|addr: int| ptr <= addr < ptr + size ==> #[trigger] free_in(before.rows(), m, addr)
        &&& forall|addr: int|
            ptr <= addr < ptr + size ==> #[trigger] managed::<O, B>(before.shape(), m, addr)
    }

    /// The state is `before` but for how the rows keep what they hold.
    spec fn same_as(&self, before: &Self) -> bool {
        &&& self.sound()
        &&& self.min_order == before.min_order
        &&& self.free == before.free
        &&& self.capacity == before.capacity
        &&& self.shape() == before.shape()
        &&& self.rows() == before.rows()
    }

    /// The alignment, in blocks of row `l`, that an alignment of
    /// `2^align_order` bytes comes to.
    pub open spec fn row_alignment_of(&self, align_order: int, l: int) -> nat {
        if align_order > self.smallest_order() + l {
            (align_order - (self.smallest_order() + l)) as nat
        } else {
            0
        }
    }

    /// Whether row `l` has a block for a request aligned to `2^align_order`
    /// bytes.
    pub open spec fn offers(&self, l: int, align_order: int) -> bool {
        let rel = self.row_alignment_of(align_order, l);
        if l < N {
            B::aligns(rel) && has_aligned(self.rows()[l], rel)
        } else {
            O::serves(rel, 1) && has_run(self.rows()[l], rel, 1)
        }
    }

    /// The number of top blocks that it takes to hold `size` bytes.
    pub open spec fn top_count(&self, size: int) -> int {
        let big = block_size(self.largest_order());
        size / big + if size % big != 0 {
            1int
        } else {
            0int
        }
    }

    /// Whether the top row has a run of blocks for `size` bytes aligned to
    /// `2^align_order` bytes.
    pub open spec fn top_offers(&self, align_order: int, size: int) -> bool {
        let rel = self.row_alignment_of(align_order, N as int);
        O::serves(rel, self.top_count(size) as nat) && has_run(
            self.rows()[N as int],
            rel,
            self.top_count(size),
        )
    }

    /// Whether the rows can serve a request for `size` bytes aligned to
    /// `2^align_order`: whether the top row has a run for a request of the
    /// top size or more, else whether a row from the request's own up has a
    /// block.
    pub open spec fn can_serve(&self, align_order: int, size: int) -> bool {
        let rounded = rounded_size(size, self.smallest_order());
        &&& rounded <= usize::MAX
        &&& if self.request_row(size) >= N {
            self.top_offers(align_order, rounded)
        } else {
            exists|l: int| self.request_row(size) <= l <= N && #[trigger] self.offers(l, align_order)
        }
    }

    /// Whether the block that holds `addr` is the one that its row takes
    /// first, where the row says which that is: no block of the row with a
    /// lower index qualifies, or, in the top row, starts a run of `count`
    /// blocks.
    pub open spec fn lowest_choice(&self, addr: int, align_order: int, count: int) -> bool {
        let rows = self.rows();
        let m = self.smallest_order();
        &&& forall|k: int, j: int|
            0 <= k < N && B::lowest_first() && #[trigger] free_at(rows, m, k, addr) && j
                < block_index(row_order(m, k), addr) && aligned_to(
                j,
                self.row_alignment_of(align_order, k),
            ) ==> !#[trigger] rows[k].contains(j)
        &&& forall|j: int|
            O::first_fit() && free_at(rows, m, N as int, addr) && j < block_index(
                row_order(m, N as int),
                addr,
            ) && aligned_to(j, self.row_alignment_of(align_order, N as int)) ==> !#[trigger] run(
                j,
                count,
            ).subset_of(rows[N as int])
    }

    /// Whether no row from `l0` on, below the one in which `addr` is free,
    /// has a block for a request aligned to `2^align_order` bytes.
    pub open spec fn lowest_offer(&self, l0: int, addr: int, align_order: int) -> bool {
        forall|l: int, k: int|
            l0 <= l < k <= N && #[trigger] free_at(self.rows(), self.smallest_order(), k, addr)
                ==> !#[trigger] self.offers(l, align_order)
    }

    /// Takes enough adjacent blocks of the top row to hold `ans_size` bytes.
    fn take_top(&mut self, align_order: usize, ans_size: usize) -> (r: Option<(usize, usize)>)
        requires
            old(self).inv(),
            ans_size > 0,
        ensures
            match r {
                Some((ptr, alloc)) => {
                    &&& final(self).carved_from(old(self), ptr as int, alloc as int)
                    &&& alloc >= ans_size
                    &&& alloc <= old(self).free_bytes()
                    &&& aligned_to(ptr as int, align_order as nat)
                    &&& aligned_to(ptr as int, old(self).smallest_order())
                    &&& aligned_to(alloc as int, old(self).smallest_order())
                    &&& old(self).lowest_choice(
                        ptr as int,
                        align_order as int,
                        old(self).top_count(ans_size as int),
                    )
                },
                None => final(self).same_as(old(self)),
            },
            r.is_some() <==> old(self).top_offers(align_order as int, ans_size as int),
    {
        let ghost m = self.smallest_order();
        let ghost rows0 = self.rows();
        let ghost sh = self.shape();
        let max_order = self.min_order + N;
        let big = size_of_order(max_order);
        let extra: usize = if ans_size % big != 0 {
            1
        } else {
            0
        };
        proof {
            assert(ans_size / big + extra <= usize::MAX && ans_size / big + extra >= 1 && (
            ans_size / big + extra) * big >= ans_size && (ans_size <= big ==> ans_size / big + extra
                == 1)) by (nonlinear_arith)
                requires
                    big >= 1,
                    ans_size > 0,
                    ans_size <= usize::MAX,
                    extra == (if ans_size % big != 0 {
                        1int
                    } else {
                        0int
                    }),
            ;
        }
        let count = ans_size / big + extra;
        let rel = if align_order > max_order {
            align_order - max_order
        } else {
            0
        };
        match self.oligarchy.take_any(rel, count) {
            None => {
                proof {
                    assert(self.rows() =~= rows0);
                    assert(self.shape() =~= sh);
                }
                None
            },
            Some(idx) => {
                proof {
                    let o = row_order(m, N as int);
                    lemma_remove_run(rows0, m, N as int, idx as int, count as int);
                    let r1 = rows0.update(
                        N as int,
                        rows0[N as int].difference(run(idx as int, count as int)),
                    );
                    assert(self.rows() =~= r1);
                    assert(self.shape() =~= sh);
                    lemma_block_size_double(o);
                    assert(idx * big >= 0 && (idx + count) * big == idx * big + count * big && (idx
                        + count) * big - 1 >= idx * big) by (nonlinear_arith)
                        requires
                            idx >= 0,
                            count >= 1,
                            big >= 1,
                    ;
                    let last = (idx + count) * big - 1;
                    assert forall|addr: int|
                        idx * big <= addr < (idx + count) * big implies #[trigger] free_in(
                        rows0,
                        m,
                        addr,
                    ) && managed::<O, B>(sh, m, addr) by {
                        lemma_run_bounds(o, idx as int, count as int, addr);
                        assert(run(idx as int, count as int).contains(block_index(o, addr)));
                        assert(free_at(rows0, m, N as int, addr));
                    }
                    assert forall|addr: int|
                        idx * big <= addr < (idx + count) * big implies #[trigger] managed::<O, B>(
                        sh,
                        m,
                        addr,
                    ) by {
                        assert(free_in(rows0, m, addr) && managed::<O, B>(sh, m, addr));
                    }
                    assert(free_in(rows0, m, last));
                    assert(free_in(rows0, m, idx * big));
                    assert forall|addr: int| addr >= 0 implies #[trigger] free_in(r1, m, addr) == (
                    free_in(rows0, m, addr) && !(idx * big <= addr < idx * big + count * big)) by {
                        lemma_run_bounds(o, idx as int, count as int, addr);
                    }
                    assert forall|addr: int, l: int|
                        addr >= 0 && 0 <= l <= N && #[trigger] free_at(
                            r1,
                            m,
                            l,
                            addr,
                        ) implies managed::<O, B>(sh, m, addr) by {
                        assert(free_at(rows0, m, l, addr));
                    }
                    assert(run(idx as int, count as int).contains(idx as int));
                    assert(rows0[N as int].contains(idx as int));
                    assert((idx + 1) * big == idx * big + big) by (nonlinear_arith);
                    lemma_block_bounds(o, idx as int, idx * big);
                    assert(free_at(rows0, m, N as int, idx * big));
                    assert forall|k: int| 0 <= k < N implies !#[trigger] free_at(
                        rows0,
                        m,
                        k,
                        idx * big,
                    ) by {
                        if free_at(rows0, m, k, idx * big) {
                            assert(!free_at(rows0, m, N as int, idx * big));
                        }
                    }
                    lemma_aligned_scale(idx as int, rel as nat, o);
                    lemma_aligned_lower(idx * big, rel as nat + o, align_order as nat);
                    lemma_aligned_lower(idx * big, rel as nat + o, m);
                    vstd::arithmetic::power2::lemma2_to64();
                    lemma_aligned_scale(count as int, 0, o);
                    lemma_aligned_lower(count * big, o, m);
                }
                let ptr = Order::new(max_order).idx_to_ptr(idx);
                let alloc = Order::new(max_order).idx_to_ptr(count);
                Some((ptr, alloc))
            },
        }
    }

    /// The state in which block `idx` of row `layer` was taken out of the
    /// rows of `before` and is in nobody's hands yet.
    spec fn holding(&self, before: &Self, layer: int, idx: int) -> bool {
        let m = self.smallest_order();
        let o = row_order(m, layer);
        &&& self.sound()
        &&& self.min_order == before.min_order
        &&& self.free == before.free
        &&& self.capacity == before.capacity
        &&& self.shape() == before.shape()
        &&& 0 <= layer <= N
        &&& 0 <= idx
        &&& clear(self.rows(), m, layer, idx, 1)
        &&& total(self.rows(), m) + block_size(o) == total(before.rows(), m)
        &&& forall|addr: int|
            addr >= 0 ==> (#[trigger] free_in(self.rows(), m, addr) || block_index(o, addr) == idx)
                == free_in(before.rows(), m, addr)
        &&& forall|addr: int|
            addr >= 0 && block_index(o, addr) == idx ==> !#[trigger] free_in(self.rows(), m, addr)
        &&& forall|addr: int|
            addr >= 0 && block_index(o, addr) == idx ==> #[trigger] managed::<O, B>(
                before.shape(),
                m,
                addr,
            )
    }

    /// The alignment, in blocks of row `layer`, that an alignment of
    /// `align_order` in bytes comes to.
    fn row_alignment(&self, align_order: usize, layer: usize) -> (rel: usize)
        requires
            self.min_order + layer <= usize::MAX,
        ensures
            rel == if align_order > self.min_order + layer {
                align_order - (self.min_order + layer)
            } else {
                0
            },
    {
        if align_order > self.min_order + layer {
            align_order - (self.min_order + layer)
        } else {
            0
        }
    }

    /// Takes a block from the lowest row, from `layer0` up, that has one
    /// aligned as asked, and returns its row and index.
    fn find_block(&mut self, align_order: usize, layer0: usize) -> (r: Option<(usize, usize)>)
        requires
            old(self).inv(),
            layer0 <= N,
        ensures
            match r {
                Some((layer, idx)) => {
                    &&& final(self).holding(old(self), layer as int, idx as int)
                    &&& layer0 <= layer
                    &&& aligned_to(
                        idx * block_size(row_order(old(self).smallest_order(), layer as int)),
                        align_order as nat,
                    )
                    &&& layer <= N
                    &&& old(self).offers(layer as int, align_order as int)
                    &&& old(self).rows()[layer as int].contains(idx as int)
                    &&& forall|l: int|
                        layer0 <= l < layer ==> !#[trigger] old(self).offers(l, align_order as int)
                    &&& (layer < N && B::lowest_first()) ==> forall|j: int|
                        j < idx && aligned_to(
                            j,
                            old(self).row_alignment_of(align_order as int, layer as int),
                        ) ==> !#[trigger] old(self).rows()[layer as int].contains(j)
                    &&& (layer == N && O::first_fit()) ==> forall|j: int|
                        j < idx && aligned_to(
                            j,
                            old(self).row_alignment_of(align_order as int, layer as int),
                        ) ==> !#[trigger] run(j, 1).subset_of(old(self).rows()[layer as int])
                },
                None => {
                    &&& final(self).same_as(old(self))
                    &&& forall|l: int|
                        layer0 <= l <= N ==> !#[trigger] old(self).offers(l, align_order as int)
                },
            },
    {
        let ghost m = self.smallest_order();
        let ghost rows0 = self.rows();
        let ghost sh = self.shape();
        let mut layer = layer0;
        loop
            invariant
                self.same_as(old(self)),
                old(self).inv(),
                layer0 <= layer <= N,
                m == self.smallest_order(),
                rows0 == self.rows(),
                sh == self.shape(),
                forall|l: int| layer0 <= l < layer ==> !#[trigger] old(self).offers(
                    l,
                    align_order as int,
                ),
            decreases N - layer,
        {
            let rel = self.row_alignment(align_order, layer);
            let found = if layer == N {
                let f = self.oligarchy.take_any(rel, 1);
                proof {
                    if let Some(i) = f {
                        assert(run(i as int, 1).contains(i as int));
                        assert(rows0[N as int].difference(run(i as int, 1)) =~= rows0[N as int].remove(
                            i as int,
                        ));
                    }
                }
                f
            } else {
                self.buddies[layer].take_any(rel)
            };
            proof {
                assert(self.shape() =~= sh);
                assert forall|l: int| 0 <= l < N implies (#[trigger] self.buddies@[l]).wf()
                    && self.buddies@[l].ordered() by {}
            }
            match found {
                Some(idx) => {
                    proof {
                        let o = row_order(m, layer as int);
                        lemma_remove(rows0, m, layer as int, idx as int);
                        let r1 = rows0.update(layer as int, rows0[layer as int].remove(idx as int));
                        assert(self.rows() =~= r1);
                        assert forall|addr: int, l: int|
                            addr >= 0 && 0 <= l <= N && #[trigger] free_at(
                                r1,
                                m,
                                l,
                                addr,
                            ) implies managed::<O, B>(sh, m, addr) by {
                            assert(free_at(rows0, m, l, addr));
                        }
                        assert forall|addr: int|
                            addr >= 0 && block_index(o, addr) == idx implies #[trigger] managed::<
                            O,
                            B,
                        >(sh, m, addr) by {
                            assert(free_at(rows0, m, layer as int, addr));
                        }
                        assert forall|addr: int| addr >= 0 implies (#[trigger] free_in(r1, m, addr)
                            || block_index(o, addr) == idx) == free_in(rows0, m, addr) by {
                            if block_index(o, addr) == idx {
                                assert(free_at(rows0, m, layer as int, addr));
                            }
                        }
                        lemma_aligned_scale(idx as int, rel as nat, o);
                        lemma_aligned_lower(
                            idx * block_size(o),
                            rel as nat + o,
                            align_order as nat,
                        );
                    }
                    return Some((layer, idx));
                },
                None => {
                    proof {
                        assert(self.rows() =~= rows0);
                    }
                    if layer == N {
                        return None;
                    }
                    layer += 1;
                },
            }
        }
    }

    /// Takes a block of order `size_order` out of the rows: one of that
    /// order if there is one aligned as asked, else half of a half of a
    /// larger one, whose other halves go into the rows on the way down.
    fn take_block(&mut self, align_order: usize, size_order: usize) -> (r: Option<usize>)
        requires
            old(self).inv(),
            old(self).smallest_order() <= size_order < old(self).largest_order(),
        ensures
            match r {
                Some(ptr) => {
                    &&& final(self).carved_from(
                        old(self),
                        ptr as int,
                        block_size(size_order as nat),
                    )
                    &&& block_size(size_order as nat) <= old(self).free_bytes()
                    &&& aligned_to(ptr as int, align_order as nat)
                    &&& aligned_to(ptr as int, size_order as nat)
                    &&& old(self).lowest_offer(
                        size_order - old(self).smallest_order(),
                        ptr as int,
                        align_order as int,
                    )
                    &&& old(self).lowest_choice(ptr as int, align_order as int, 1)
                },
                None => final(self).same_as(old(self)),
            },
            r.is_some() <==> exists|l: int|
                size_order - old(self).smallest_order() <= l <= N && #[trigger] old(self).offers(
                    l,
                    align_order as int,
                ),
    {
        let ghost m = self.smallest_order();
        let ghost rows_old = self.rows();
        let ghost sh = self.shape();
        let layer0 = size_order - self.min_order;
        let (mut layer, mut idx) = match self.find_block(align_order, layer0) {
            None => {
                return None;
            },
            Some(found) => found,
        };
        let ghost first = idx * block_size(row_order(m, layer as int));
        proof {
            let o = row_order(m, layer as int);
            lemma_block_size_double(o);
            assert(first >= 0 && (idx + 1) * block_size(o) == first + block_size(o))
                by (nonlinear_arith)
                requires
                    idx >= 0,
                    first == idx * block_size(o),
                    block_size(o) >= 1,
            ;
            lemma_block_bounds(o, idx as int, first);
            assert(free_at(rows_old, m, layer as int, first));
            assert forall|l: int, k: int|
                layer0 <= l < k <= N && #[trigger] free_at(
                    rows_old,
                    m,
                    k,
                    first,
                ) implies !#[trigger] old(self).offers(l, align_order as int) by {
                if k < layer {
                    assert(!free_at(rows_old, m, layer as int, first));
                } else if k > layer {
                    assert(!free_at(rows_old, m, k, first));
                }
            }
            assert(old(self).offers(layer as int, align_order as int));
            assert forall|k: int| 0 <= k <= N && k != layer implies !#[trigger] free_at(
                rows_old,
                m,
                k,
                first,
            ) by {
                if free_at(rows_old, m, k, first) {
                    if k < layer {
                        assert(!free_at(rows_old, m, layer as int, first));
                    } else {
                        assert(!free_at(rows_old, m, k, first));
                    }
                }
            }
        }
        while layer > layer0
            invariant
                self.holding(old(self), layer as int, idx as int),
                layer0 <= layer <= N,
                m == self.smallest_order(),
                sh == self.shape(),
                first == idx * block_size(row_order(m, layer as int)),
                aligned_to(first, align_order as nat),
                rows_old == old(self).rows(),
                first >= 0,
                old(self).lowest_offer(layer0 as int, first, align_order as int),
                old(self).lowest_choice(first, align_order as int, 1),
                exists|l: int| layer0 <= l <= N && #[trigger] old(self).offers(
                    l,
                    align_order as int,
                ),
            decreases layer,
        {
            let ghost rows0 = self.rows();
            let ghost o = row_order(m, layer as int - 1);
            let ghost a1 = (2 * idx + 1) * block_size(o);
            let ghost a0 = (2 * idx) * block_size(o);
            proof {
                lemma_block_size_double(o);
                assert(row_order(m, layer as int) == o + 1);
                lemma_clear_halves(rows0, m, layer as int - 1, idx as int);
                assert(a1 >= 0 && a0 >= 0 && (2 * idx + 2) * block_size(o) == a1 + block_size(o)
                    && a0 == idx * (2 * block_size(o)) && a1 + block_size(o) - 1 >= 0 && a1 == a0
                    + block_size(o)) by (nonlinear_arith)
                    requires
                        idx >= 0,
                        a1 == (2 * idx + 1) * block_size(o),
                        a0 == (2 * idx) * block_size(o),
                        block_size(o) >= 1,
                ;
                lemma_block_bounds(o, 2 * idx + 1, a1);
                lemma_block_bounds(o, 2 * idx + 1, a1 + block_size(o) - 1);
                lemma_index_up(o, a1);
                lemma_index_up(o, a1 + block_size(o) - 1);
                assert(managed::<O, B>(sh, m, a1));
                assert(managed::<O, B>(sh, m, a1 + block_size(o) - 1));
                assert(row_fits::<O, B>(sh, layer as int - 1, block_index(o, a1)));
                assert(!free_at(rows0, m, layer as int - 1, a1));
                lemma_block_bounds(o, 2 * idx, a0);
                assert(!free_at(rows0, m, layer as int - 1, a0));
                assert forall|addr: int| addr >= 0 implies (#[trigger] free_in(rows0, m, addr)
                    || block_index(o + 1, addr) == idx as int) == free_in(rows_old, m, addr) by {}
                assert forall|addr: int|
                    addr >= 0 && block_index(o + 1, addr) == idx implies !#[trigger] free_in(
                    rows0,
                    m,
                    addr,
                ) by {}
                lemma_insert(rows0, m, layer as int - 1, 2 * idx + 1);
            }
            let ghost above = idx as int;
            layer -= 1;
            idx = idx * 2;
            let _ = self.buddies[layer].put(idx + 1);
            proof {
                let r1 = rows0.update(layer as int, rows0[layer as int].insert(idx + 1));
                assert(self.rows() =~= r1);
                assert(self.shape() =~= sh);
                assert forall|l: int| 0 <= l < N implies (#[trigger] self.buddies@[l]).wf()
                    && self.buddies@[l].ordered() by {}
                assert forall|addr: int, l: int|
                    addr >= 0 && 0 <= l <= N && #[trigger] free_at(
                        r1,
                        m,
                        l,
                        addr,
                    ) implies managed::<O, B>(sh, m, addr) by {
                    if !free_at(rows0, m, l, addr) {
                        lemma_index_up(o, addr);
                    }
                }
                assert forall|addr: int, k: int|
                    addr >= 0 && 0 <= k < r1.len() && idx <= block_index(o, addr) < idx
                        + 1 implies !#[trigger] free_at(r1, m, k, addr) by {
                    assert(!free_at(rows0, m, k, addr));
                }
                assert forall|addr: int| addr >= 0 implies (#[trigger] free_in(r1, m, addr)
                    || block_index(o, addr) == idx) == free_in(rows_old, m, addr) by {
                    lemma_index_up(o, addr);
                    assert(idx / 2 == above);
                    assert((free_in(rows0, m, addr) || block_index(o + 1, addr) == above)
                        == free_in(rows_old, m, addr));
                }
                assert forall|addr: int|
                    addr >= 0 && block_index(o, addr) == idx implies !#[trigger] free_in(
                    r1,
                    m,
                    addr,
                ) by {
                    lemma_index_up(o, addr);
                    assert(!free_in(rows0, m, addr));
                }
                assert forall|addr: int|
                    addr >= 0 && block_index(o, addr) == idx implies #[trigger] managed::<O, B>(
                    sh,
                    m,
                    addr,
                ) by {
                    lemma_index_up(o, addr);
                }
            }
        }
        proof {
            let o = row_order(m, layer as int);
            let sz = block_size(o);
            lemma_block_size_double(o);
            assert(first >= 0 && (idx + 1) * sz == first + sz) by (nonlinear_arith)
                requires
                    idx >= 0,
                    first == idx * sz,
                    sz >= 1,
            ;
            lemma_block_bounds(o, idx as int, first);
            lemma_block_bounds(o, idx as int, first + sz - 1);
            assert(managed::<O, B>(sh, m, first + sz - 1));
            assert forall|addr: int| addr >= 0 implies (block_index(o, addr) == idx) == (first
                <= addr < first + sz) by {
                lemma_block_bounds(o, idx as int, addr);
            }
            assert forall|addr: int| first <= addr < first + sz implies #[trigger] free_in(
                rows_old,
                m,
                addr,
            ) by {
                assert(!free_in(self.rows(), m, addr));
            }
            lemma_total_nonneg(self.rows(), m);
            vstd::arithmetic::power2::lemma2_to64();
            lemma_aligned_scale(idx as int, 0, o);
        }
        let ptr = Order::new(size_order).idx_to_ptr(idx);
        Some(ptr)
    }

    /// The row in which the search for a request of `size` bytes starts.
    pub open spec fn request_row(&self, size: int) -> int {
        order_for(
            rounded_size(size, self.smallest_order()),
            self.smallest_order(),
            self.largest_order(),
        ) - self.smallest_order()
    }

    /// Hands out a region of at least `size` bytes whose address is a
    /// multiple of `2^align_order`. The region is the size rounded up to whole
    /// smallest blocks; what the block found for it holds beyond that goes
    /// back into the rows.
    pub fn allocate(&mut self, align_order: usize, size: usize) -> (r: Result<
        (usize, usize),
        BuddyError,
    >)
        requires
            old(self).inv(),
            size > 0,
        ensures
            final(self).inv(),
            final(self).smallest_order() == old(self).smallest_order(),
            final(self).shape() == old(self).shape(),
            final(self).capacity_bytes() == old(self).capacity_bytes(),
            match r {
                Ok((ptr, granted)) => {
                    &&& granted == rounded_size(size as int, old(self).smallest_order())
                    &&& granted >= size
                    &&& aligned_to(granted as int, old(self).smallest_order())
                    &&& aligned_to(ptr as int, align_order as nat)
                    &&& aligned_to(ptr as int, old(self).smallest_order())
                    &&& ptr + granted <= usize::MAX
                    &&& final(self).free_bytes() == old(self).free_bytes() - granted
                    &&& forall|addr: int|
                        ptr <= addr < ptr + granted ==> #[trigger] old(self).is_free(addr)
                    &&& forall|addr: int|
                        ptr <= addr < ptr + granted ==> #[trigger] old(self).manages(addr)
                    &&& forall|addr: int|
                        addr >= 0 ==> #[trigger] final(self).is_free(addr) == (old(self).is_free(
                            addr,
                        ) && !(ptr <= addr < ptr + granted))
                    &&& old(self).lowest_offer(
                        old(self).request_row(size as int),
                        ptr as int,
                        align_order as int,
                    )
                    &&& old(self).lowest_choice(
                        ptr as int,
                        align_order as int,
                        if old(self).request_row(size as int) >= N {
                            old(self).top_count(granted as int)
                        } else {
                            1
                        },
                    )
                },
                Err(_) => {
                    &&& final(self).free_bytes() == old(self).free_bytes()
                    &&& final(self).rows() == old(self).rows()
                },
            },
            r.is_ok() <==> old(self).can_serve(align_order as int, size as int),
    {
        let ghost m = self.smallest_order();
        let ghost rows_old = self.rows();
        let ghost sh = self.shape();
        let max_order = self.min_order + N;
        let unit = size_of_order(self.min_order);
        let rem = size % unit;
        proof {
            lemma_rounded_size(size as int, m);
            vstd::arithmetic::div_mod::lemma_mod_decreases(size as nat, unit as nat);
            vstd::bits::lemma_usize_pow2_no_overflow(max_order as nat);
        }
        let ans_size = if rem == 0 {
            size
        } else if size - rem > usize::MAX - unit {
            return Err(BuddyError);
        } else {
            size - rem + unit
        };
        let mut size_order = self.min_order;
        while size_order < max_order && size_of_order(size_order) < ans_size
            invariant
                self.min_order <= size_order <= max_order < usize::BITS,
                order_for(ans_size as int, size_order as nat, max_order as nat) == order_for(
                    ans_size as int,
                    self.min_order as nat,
                    max_order as nat,
                ),
            decreases max_order - size_order,
        {
            size_order += 1;
        }
        let carve = if size_order >= max_order {
            self.take_top(align_order, ans_size)
        } else {
            match self.take_block(align_order, size_order) {
                Some(ptr) => Some((ptr, size_of_order(size_order))),
                None => None,
            }
        };
        match carve {
            None => Err(BuddyError),
            Some((ptr, alloc)) => {
                proof {
                    if size_order < max_order {
                        lemma_block_size_double(size_order as nat);
                        lemma_aligned_lower(ptr as int, size_order as nat, m);
                        vstd::arithmetic::div_mod::lemma_mod_self_0(block_size(size_order as nat));
                        lemma_aligned_lower(block_size(size_order as nat), size_order as nat, m);
                    }
                    lemma_aligned_sum(ptr as int, ans_size as int, m);
                    lemma_aligned_sum(alloc as int, ans_size as int, m);
                }
                self.free -= alloc;
                let ghost mid = *self;
                proof {
                    assert forall|addr: int| ptr <= addr < ptr + alloc implies #[trigger] old(
                        self,
                    ).is_free(addr) && old(self).manages(addr) by {
                        assert(free_in(rows_old, m, addr));
                        assert(managed::<O, B>(sh, m, addr));
                    }
                }
                if alloc > ans_size {
                    proof {
                        assert forall|addr: int|
                            ptr + ans_size <= addr < ptr + ans_size + (alloc
                                - ans_size) implies #[trigger] self.manages(addr) && !self.is_free(
                            addr,
                        ) by {
                            assert(managed::<O, B>(sh, m, addr));
                            assert(free_in(rows_old, m, addr));
                        }
                    }
                    self.deallocate(ptr + ans_size, alloc - ans_size);
                }
                proof {
                    assert forall|addr: int| addr >= 0 implies #[trigger] self.is_free(addr) == (old(
                        self,
                    ).is_free(addr) && !(ptr <= addr < ptr + ans_size)) by {
                        assert(mid.is_free(addr) == (free_in(rows_old, m, addr) && !(ptr <= addr
                            < ptr + alloc)));
                        if ptr <= addr < ptr + alloc {
                            assert(free_in(rows_old, m, addr));
                        }
                    }
                }
                Ok((ptr, ans_size))
            },
        }
    }

    /// Hands out a region as `allocate` does and takes it out of the
    /// capacity for good.
    pub fn snatch(&mut self, align_order: usize, size: usize) -> (r: Result<
        (usize, usize),
        BuddyError,
    >)
        requires
            old(self).inv(),
            size > 0,
        ensures
            final(self).inv(),
            final(self).smallest_order() == old(self).smallest_order(),
            final(self).shape() == old(self).shape(),
            match r {
                Ok((ptr, granted)) => {
                    &&& granted == rounded_size(size as int, old(self).smallest_order())
                    &&& granted >= size
                    &&& aligned_to(ptr as int, align_order as nat)
                    &&& final(self).free_bytes() == old(self).free_bytes() - granted
                    &&& final(self).capacity_bytes() == old(self).capacity_bytes() - granted
                    &&& forall|addr: int|
                        ptr <= addr < ptr + granted ==> #[trigger] old(self).is_free(addr)
                    &&& forall|addr: int|
                        addr >= 0 ==> #[trigger] final(self).is_free(addr) == (old(self).is_free(
                            addr,
                        ) && !(ptr <= addr < ptr + granted))
                    &&& old(self).lowest_offer(
                        old(self).request_row(size as int),
                        ptr as int,
                        align_order as int,
                    )
                    &&& old(self).lowest_choice(
                        ptr as int,
                        align_order as int,
                        if old(self).request_row(size as int) >= N {
                            old(self).top_count(granted as int)
                        } else {
                            1
                        },
                    )
                },
                Err(_) => {
                    &&& final(self).free_bytes() == old(self).free_bytes()
                    &&& final(self).capacity_bytes() == old(self).capacity_bytes()
                    &&& final(self).rows() == old(self).rows()
                },
            },
            r.is_ok() <==> old(self).can_serve(align_order as int, size as int),
    {
        let ans = self.allocate(align_order, size);
        let ghost mid = *self;
        if let Ok((_, granted)) = ans {
            self.capacity -= granted;
            proof {
                assert(self.rows() == mid.rows());
                assert(self.shape() == mid.shape());
                assert forall|addr: int| addr >= 0 implies #[trigger] self.is_free(addr)
                    == mid.is_free(addr) by {}
            }
        }
        ans
    }

    /// Hands out a region for a value of `size` bytes aligned to `align`, a
    /// power of two. For `size == 0` nothing is taken: the result is `align`
    /// itself, an address that is aligned and stands for no memory.
    pub fn allocate_layout(&mut self, size: usize, align: usize) -> (r: Result<
        (usize, usize),
        BuddyError,
    >)
        requires
            old(self).inv(),
            vstd::arithmetic::power2::is_pow2(align as int),
        ensures
            final(self).inv(),
            final(self).smallest_order() == old(self).smallest_order(),
            final(self).shape() == old(self).shape(),
            final(self).capacity_bytes() == old(self).capacity_bytes(),
            size == 0 ==> r == Ok::<(usize, usize), BuddyError>((align, 0usize)) && final(self).free_bytes() == old(self).free_bytes() && final(self).rows() == old(self).rows(),
            size > 0 ==> match r {
                Ok((ptr, granted)) => {
                    &&& granted == rounded_size(size as int, old(self).smallest_order())
                    &&& granted >= size
                    &&& ptr as int % align as int == 0
                    &&& final(self).free_bytes() == old(self).free_bytes() - granted
                    &&& forall|addr: int|
                        ptr <= addr < ptr + granted ==> #[trigger] old(self).is_free(addr)
                    &&& forall|addr: int|
                        addr >= 0 ==> #[trigger] final(self).is_free(addr) == (old(self).is_free(
                            addr,
                        ) && !(ptr <= addr < ptr + granted))
                },
                Err(_) => {
                    &&& final(self).free_bytes() == old(self).free_bytes()
                    &&& final(self).rows() == old(self).rows()
                },
            },
            size > 0 ==> forall|k: nat|
                #[trigger] block_size(k) == align ==> (r.is_ok() <==> old(self).can_serve(
                    k as int,
                    size as int,
                )) && (r.is_ok() ==> old(self).lowest_offer(
                    old(self).request_row(size as int),
                    r.unwrap().0 as int,
                    k as int,
                ) && old(self).lowest_choice(
                    r.unwrap().0 as int,
                    k as int,
                    if old(self).request_row(size as int) >= N {
                        old(self).top_count(r.unwrap().1 as int)
                    } else {
                        1
                    },
                )),
    {
        if size == 0 {
            Ok((align, 0))
        } else {
            let align_order = order_of_alignment(align);
            proof {
                assert forall|k: nat| #[trigger] block_size(k) == align implies k == align_order by {
                    if k < align_order {
                        vstd::arithmetic::power2::lemma_pow2_strictly_increases(
                            k,
                            align_order as nat,
                        );
                    } else if k > align_order {
                        vstd::arithmetic::power2::lemma_pow2_strictly_increases(
                            align_order as nat,
                            k,
                        );
                    }
                }
            }
            self.allocate(align_order, size)
        }
    }

    /// Hands out a region for a value of type `T`.
    pub fn allocate_type<T>(&mut self) -> (r: Result<(usize, usize), BuddyError>)
        requires
            old(self).inv(),
        ensures
            final(self).inv(),
            final(self).smallest_order() == old(self).smallest_order(),
            final(self).shape() == old(self).shape(),
            final(self).capacity_bytes() == old(self).capacity_bytes(),
            match r {
                Ok((ptr, granted)) => {
                    &&& granted == if vstd::layout::size_of::<T>() == 0 {
                        0
                    } else {
                        rounded_size(vstd::layout::size_of::<T>() as int, old(self).smallest_order())
                    }
                    &&& granted >= vstd::layout::size_of::<T>()
                    &&& ptr as int % vstd::layout::align_of::<T>() as int == 0
                    &&& final(self).free_bytes() == old(self).free_bytes() - granted
                    &&& forall|addr: int|
                        ptr <= addr < ptr + granted ==> #[trigger] old(self).is_free(addr)
                    &&& forall|addr: int|
                        addr >= 0 ==> #[trigger] final(self).is_free(addr) == (old(self).is_free(
                            addr,
                        ) && !(ptr <= addr < ptr + granted))
                },
                Err(_) => {
                    &&& vstd::layout::size_of::<T>() > 0
                    &&& final(self).free_bytes() == old(self).free_bytes()
                    &&& final(self).rows() == old(self).rows()
                },
            },
            vstd::layout::size_of::<T>() > 0 ==> forall|k: nat|
                #[trigger] block_size(k) == vstd::layout::align_of::<T>() ==> (r.is_ok() <==> old(
                    self,
                ).can_serve(k as int, vstd::layout::size_of::<T>() as int)),
    {
        broadcast use vstd::layout::align_properties, vstd::layout::align_nonzero;

        proof {
            vstd::arithmetic::div_mod::lemma_mod_self_0(vstd::layout::align_of::<T>() as int);
        }
        self.allocate_layout(core::mem::size_of::<T>(), core::mem::align_of::<T>())
    }

    /// Takes back a region that was handed out for a value of `size` bytes:
    /// the size is rounded up to whole smallest blocks, as it was when the
    /// region was handed out.
    pub fn deallocate_layout(&mut self, ptr: usize, size: usize)
        requires
            old(self).inv(),
            aligned_to(ptr as int, old(self).smallest_order()),
            ptr + rounded_size(size as int, old(self).smallest_order()) <= usize::MAX,
            forall|addr: int|
                ptr <= addr < ptr + rounded_size(size as int, old(self).smallest_order())
                    ==> #[trigger] old(self).manages(addr) && !old(self).is_free(addr),
            old(self).free_bytes() + rounded_size(size as int, old(self).smallest_order()) <= old(
                self,
            ).capacity_bytes(),
        ensures
            final(self).inv(),
            final(self).smallest_order() == old(self).smallest_order(),
            final(self).shape() == old(self).shape(),
            final(self).capacity_bytes() == old(self).capacity_bytes(),
            final(self).free_bytes() == old(self).free_bytes() + rounded_size(
                size as int,
                old(self).smallest_order(),
            ),
            forall|addr: int|
                addr >= 0 ==> #[trigger] final(self).is_free(addr) == (old(self).is_free(addr) || ptr
                    <= addr < ptr + rounded_size(size as int, old(self).smallest_order())),
    {
        let unit = size_of_order(self.min_order);
        let rem = size % unit;
        proof {
            lemma_rounded_size(size as int, self.smallest_order());
            vstd::arithmetic::div_mod::lemma_mod_decreases(size as nat, unit as nat);
        }
        let rounded = if rem == 0 {
            size
        } else {
            size - rem + unit
        };
        self.deallocate(ptr, rounded)
    }

    /// Whether the region of `size` bytes at `ptr` is managed: whether every
    /// row can record the blocks that it lies in.
    pub fn manages_region(&self, ptr: usize, size: usize) -> (r: bool)
        requires
            self.inv(),
            size > 0,
            ptr + size <= usize::MAX,
        ensures
            r == (forall|addr: int| ptr <= addr < ptr + size ==> #[trigger] self.manages(addr)),
    {
        let ghost m = self.smallest_order();
        let ghost sh = self.shape();
        let end = ptr + size - 1;
        let mut layer: usize = 0;
        while layer <= N
            invariant
                self.inv(),
                layer <= N + 1,
                m == self.smallest_order(),
                sh == self.shape(),
                end == ptr + size - 1,
                ptr <= end < usize::MAX,
                forall|l: int, i: int|
                    0 <= l < layer && block_index(row_order(m, l), ptr as int) <= i <= block_index(
                        row_order(m, l),
                        end as int,
                    ) ==> #[trigger] row_fits::<O, B>(sh, l, i),
            decreases N + 1 - layer,
        {
            let o = Order::new(self.min_order + layer);
            let first = o.ptr_to_idx(ptr);
            let last = o.ptr_to_idx(end);
            proof {
                lemma_block_size_double(row_order(m, layer as int));
                vstd::arithmetic::div_mod::lemma_div_is_ordered(
                    ptr as int,
                    end as int,
                    block_size(row_order(m, layer as int)),
                );
            }
            let fine = if layer == N {
                self.oligarchy.holds(first, last)
            } else {
                self.buddies[layer].holds(first, last)
            };
            if !fine {
                proof {
                    let so = row_order(m, layer as int);
                    let i = if layer == N {
                        choose|i: int|
                            first <= i <= last && !#[trigger] O::fits(
                                self.oligarchy.order(),
                                self.oligarchy.base(),
                                i,
                            )
                    } else {
                        choose|i: int|
                            first <= i <= last && !#[trigger] B::fits(
                                self.buddies@[layer as int].order(),
                                self.buddies@[layer as int].base(),
                                i,
                            )
                    };
                    assert(!row_fits::<O, B>(sh, layer as int, i));
                    let at = if i == first {
                        ptr as int
                    } else {
                        i * block_size(so)
                    };
                    lemma_block_bounds(so, first as int, ptr as int);
                    lemma_block_bounds(so, last as int, end as int);
                    assert(i * block_size(so) >= (first + 1) * block_size(so) || i == first)
                        by (nonlinear_arith)
                        requires
                            i >= first,
                            block_size(so) >= 1,
                    ;
                    assert(i * block_size(so) <= last * block_size(so)) by (nonlinear_arith)
                        requires
                            i <= last,
                            block_size(so) >= 1,
                    ;
                    assert((i + 1) * block_size(so) == i * block_size(so) + block_size(so))
                        by (nonlinear_arith);
                    lemma_block_bounds(so, i, at);
                    assert(ptr <= at < ptr + size);
                    assert(!self.manages(at));
                }
                return false;
            }
            proof {
                assert forall|l: int, i: int|
                    0 <= l < layer + 1 && block_index(row_order(m, l), ptr as int) <= i
                        <= block_index(row_order(m, l), end as int) implies #[trigger] row_fits::<
                    O,
                    B,
                >(sh, l, i) by {
                    if l == layer {
                        if layer == N {
                            assert(O::fits(self.oligarchy.order(), self.oligarchy.base(), i));
                        } else {
                            assert(B::fits(
                                self.buddies@[layer as int].order(),
                                self.buddies@[layer as int].base(),
                                i,
                            ));
                        }
                    }
                }
            }
            layer += 1;
        }
        proof {
            assert forall|addr: int| ptr <= addr < ptr + size implies #[trigger] self.manages(
                addr,
            ) by {
                assert forall|l: int| 0 <= l < sh.len() implies #[trigger] row_fits::<O, B>(
                    sh,
                    l,
                    block_index(row_order(m, l), addr),
                ) by {
                    lemma_block_size_double(row_order(m, l));
                    vstd::arithmetic::div_mod::lemma_div_is_ordered(
                        ptr as int,
                        addr,
                        block_size(row_order(m, l)),
                    );
                    vstd::arithmetic::div_mod::lemma_div_is_ordered(
                        addr,
                        end as int,
                        block_size(row_order(m, l)),
                    );
                }
            }
        }
        true
    }

    /// The free blocks of row `layer`, by index, each once; row `N` is the
    /// top row.
    pub fn row(&self, layer: usize) -> (r: Vec<usize>)
        requires
            self.inv(),
            layer <= N,
        ensures
            distinct(r@),
            indices(r@).to_set() =~= self.rows()[layer as int],
    {
        if layer == N {
            self.oligarchy.entries()
        } else {
            self.buddies[layer].entries()
        }
    }

    /// There are `N` inner rows and one top row.
    pub proof fn lemma_row_count(&self)
        ensures
            self.rows().len() == N + 1,
            self.shape().len() == N + 1,
    {
    }

    /// The bytes that are in callers' hands: the capacity less what is free.
    pub open spec fn handed_out(&self) -> int {
        self.capacity_bytes() - self.free_bytes()
    }

    /// The free bytes never exceed the capacity.
    pub proof fn lemma_free_within_capacity(&self)
        requires
            self.inv(),
        ensures
            0 <= self.free_bytes() <= self.capacity_bytes(),
    {
    }

    /// What the rows hold, each block counted with its size, together with
    /// what is handed out, is the capacity.
    pub proof fn lemma_bytes_accounted(&self)
        requires
            self.inv(),
        ensures
            self.free_bytes() == total(self.rows(), self.smallest_order()),
            total(self.rows(), self.smallest_order()) + self.handed_out() == self.capacity_bytes(),
            self.handed_out() >= 0,
    {
    }

    /// No inner row holds a block together with its buddy.
    pub proof fn lemma_rows_unpaired(&self, l: int, idx: int)
        requires
            self.inv(),
            0 <= l < N,
            self.rows()[l].contains(idx),
        ensures
            !self.rows()[l].contains(buddy_of(idx)),
    {
        assert(unpaired(self.rows()[l]));
    }

    /// The address of every free block is a multiple of the block's size.
    pub proof fn lemma_blocks_aligned(&self, l: int, idx: int)
        requires
            self.inv(),
            0 <= l <= N,
            self.rows()[l].contains(idx),
        ensures
            aligned_to(
                idx * block_size(row_order(self.smallest_order(), l)),
                row_order(self.smallest_order(), l),
            ),
    {
        let s = block_size(row_order(self.smallest_order(), l));
        lemma_block_size_double(row_order(self.smallest_order(), l));
        vstd::arithmetic::div_mod::lemma_mod_multiples_basic(idx, s);
    }

    /// No address lies in free blocks of two rows, and every free address
    /// is managed.
    pub proof fn lemma_blocks_disjoint(&self, addr: int, l1: int, l2: int)
        requires
            self.inv(),
            addr >= 0,
            0 <= l1 <= N,
            0 <= l2 <= N,
            l1 != l2,
            free_at(self.rows(), self.smallest_order(), l1, addr),
        ensures
            !free_at(self.rows(), self.smallest_order(), l2, addr),
            self.manages(addr),
            self.is_free(addr),
    {
        let rows = self.rows();
        let m = self.smallest_order();
        if l1 < l2 {
            assert(!free_at(rows, m, l2, addr));
        } else if free_at(rows, m, l2, addr) {
            assert(!free_at(rows, m, l1, addr));
        }
    }

    /// A region that was handed out can be given back: what `allocate`
    /// ensures of the state `now` that it left, starting from `before`, is
    /// what `deallocate` requires.
    pub proof fn lemma_can_give_back(before: &Self, now: &Self, ptr: int, granted: int)
        requires
            before.inv(),
            now.inv(),
            now.smallest_order() == before.smallest_order(),
            now.shape() == before.shape(),
            now.capacity_bytes() == before.capacity_bytes(),
            now.free_bytes() == before.free_bytes() - granted,
            forall|addr: int| ptr <= addr < ptr + granted ==> #[trigger] before.manages(addr),
            forall|addr: int|
                addr >= 0 ==> #[trigger] now.is_free(addr) == (before.is_free(addr) && !(ptr
                    <= addr < ptr + granted)),
            0 <= ptr,
        ensures
            forall|addr: int|
                ptr <= addr < ptr + granted ==> #[trigger] now.manages(addr) && !now.is_free(addr),
            now.free_bytes() + granted <= now.capacity_bytes(),
    {
        assert forall|addr: int| ptr <= addr < ptr + granted implies #[trigger] now.manages(addr)
            && !now.is_free(addr) by {
            assert(before.manages(addr));
        }
    }

    /// Two allocators of the same smallest order in which the same addresses
    /// are free hold the same blocks in the same rows.
    pub proof fn lemma_rows_follow_free_set(&self, other: &Self)
        requires
            self.inv(),
            other.inv(),
            self.smallest_order() == other.smallest_order(),
            forall|addr: int| addr >= 0 ==> #[trigger] self.is_free(addr) == other.is_free(addr),
        ensures
            self.rows() == other.rows(),
            forall|align_order: int, size: int| #[trigger]
                self.can_serve(align_order, size) == other.can_serve(align_order, size),
    {
        let m = self.smallest_order();
        assert forall|addr: int| addr >= 0 implies #[trigger] free_in(self.rows(), m, addr)
            == free_in(other.rows(), m, addr) by {
            assert(self.is_free(addr) == other.is_free(addr));
        }
        lemma_rows_determined(self.rows(), other.rows(), m);
        assert forall|align_order: int, size: int| #[trigger]
            self.can_serve(align_order, size) == other.can_serve(align_order, size) by {
            assert forall|l: int| #[trigger]
                self.offers(l, align_order) == other.offers(l, align_order) by {}
            if self.can_serve(align_order, size) && self.request_row(size) < N {
                let l = choose|l: int|
                    self.request_row(size) <= l <= N && #[trigger] self.offers(l, align_order);
                assert(other.offers(l, align_order));
            }
            if other.can_serve(align_order, size) && other.request_row(size) < N {
                let l = choose|l: int|
                    other.request_row(size) <= l <= N && #[trigger] other.offers(l, align_order);
                assert(self.offers(l, align_order));
            }
        }
    }

    /// Giving back what was handed out restores the allocator: `now` is the
    /// state that `allocate` left from `before`, `after` the one that
    /// `deallocate` of the same region left from `now`. The free bytes, the
    /// free addresses and the rows are as they were, so that a request that
    /// `before` could serve finds the rows as it found them; an allocator
    /// that was all free is all free again.
    pub proof fn lemma_round_trip(
        before: &Self,
        now: &Self,
        after: &Self,
        ptr: int,
        granted: int,
    )
        requires
            before.inv(),
            after.inv(),
            after.smallest_order() == before.smallest_order(),
            now.capacity_bytes() == before.capacity_bytes(),
            now.free_bytes() == before.free_bytes() - granted,
            forall|addr: int| ptr <= addr < ptr + granted ==> #[trigger] before.is_free(addr),
            forall|addr: int|
                addr >= 0 ==> #[trigger] now.is_free(addr) == (before.is_free(addr) && !(ptr
                    <= addr < ptr + granted)),
            after.capacity_bytes() == now.capacity_bytes(),
            after.free_bytes() == now.free_bytes() + granted,
            forall|addr: int|
                addr >= 0 ==> #[trigger] after.is_free(addr) == (now.is_free(addr) || ptr <= addr
                    < ptr + granted),
        ensures
            after.free_bytes() == before.free_bytes(),
            after.capacity_bytes() == before.capacity_bytes(),
            forall|addr: int| addr >= 0 ==> #[trigger] after.is_free(addr) == before.is_free(addr),
            after.rows() == before.rows(),
            forall|align_order: int, size: int| #[trigger]
                after.can_serve(align_order, size) == before.can_serve(align_order, size),
            before.free_bytes() == before.capacity_bytes() ==> after.free_bytes()
                == after.capacity_bytes(),
    {
        assert forall|addr: int| addr >= 0 implies #[trigger] after.is_free(addr) == before.is_free(
            addr,
        ) by {
            assert(now.is_free(addr) == (before.is_free(addr) && !(ptr <= addr < ptr + granted)));
        }
        after.lemma_rows_follow_free_set(before);
    }

    /// The number of bytes under management.
    pub fn capacity(&self) -> (r: usize)
        ensures
            r == self.capacity_bytes(),
    {
        self.capacity
    }

    /// The number of bytes that are free.
    pub fn free(&self) -> (r: usize)
        ensures
            r == self.free_bytes(),
    {
        self.free
    }

    /// The order of the blocks of the top row.
    pub fn max_order(&self) -> (r: usize)
        requires
            self.smallest_order() + N <= usize::MAX,
        ensures
            r == self.largest_order(),
    {
        self.min_order + N
    }
}

} // verus!
