//! The mathematics of the rows taken together: which addresses are free, that
//! no address is free twice, and how many bytes are free.
//!
//! The rows are a sequence of sets of block indices; row `l` holds blocks of
//! order `m + l`, where `m` is the smallest order.

use vstd::prelude::*;
use vstd::arithmetic::div_mod::{
    lemma_div_denominator, lemma_fundamental_div_mod, lemma_fundamental_div_mod_converse,
};
use vstd::arithmetic::mul::lemma_mul_is_commutative;
use crate::line::{lemma_put_keeps_unpaired, run, unpaired};
use crate::order::{block_index, block_size, buddy_of, lemma_block_size_double, parent_of};

verus! {

/// The order of row `l`.
pub open spec fn row_order(m: nat, l: int) -> nat {
    (m + l) as nat
}

/// Whether row `l` holds the block of its order that contains `addr`.
pub open spec fn free_at(rows: Seq<Set<int>>, m: nat, l: int, addr: int) -> bool {
    rows[l].contains(block_index(row_order(m, l), addr))
}

/// Whether some row holds a block that contains `addr`.
pub open spec fn free_in(rows: Seq<Set<int>>, m: nat, addr: int) -> bool {
    exists|l: int| 0 <= l < rows.len() && free_at(rows, m, l, addr)
}

/// No address lies in blocks of two rows.
pub open spec fn disjoint(rows: Seq<Set<int>>, m: nat) -> bool {
    forall|addr: int, l1: int, l2: int|
        addr >= 0 && 0 <= l1 < l2 < rows.len() && #[trigger] free_at(rows, m, l1, addr)
            ==> !#[trigger] free_at(rows, m, l2, addr)
}

/// Every row is finite.
pub open spec fn all_finite(rows: Seq<Set<int>>) -> bool {
    forall|l: int| 0 <= l < rows.len() ==> (#[trigger] rows[l]).finite()
}

/// No row but the last holds a block together with its buddy.
pub open spec fn coalesced(rows: Seq<Set<int>>) -> bool {
    forall|l: int| 0 <= l < rows.len() - 1 ==> unpaired(#[trigger] rows[l])
}

/// The rows describe a set of free blocks that do not overlap and that are
/// coalesced as far as they can be.
pub open spec fn coherent(rows: Seq<Set<int>>, m: nat) -> bool {
    &&& all_finite(rows)
    &&& disjoint(rows, m)
    &&& coalesced(rows)
}

/// No address of the `count` blocks of row `l` from `first` on is free.
pub open spec fn clear(rows: Seq<Set<int>>, m: nat, l: int, first: int, count: int) -> bool {
    forall|addr: int, k: int|
        addr >= 0 && 0 <= k < rows.len() && first <= block_index(row_order(m, l), addr) < first
            + count ==> !#[trigger] free_at(rows, m, k, addr)
}

/// The number of free bytes: for each row, its blocks times their size.
pub open spec fn total(rows: Seq<Set<int>>, m: nat) -> int
    decreases rows.len(),
{
    if rows.len() == 0 {
        0
    } else {
        total(rows.drop_last(), m) + rows.last().len() * block_size(
            row_order(m, rows.len() - 1),
        )
    }
}

/// The block of order `o` that contains `addr` is the one whose byte range
/// contains it.
pub proof fn lemma_block_bounds(o: nat, idx: int, addr: int)
    requires
        addr >= 0,
    ensures
        block_index(o, addr) == idx <==> idx * block_size(o) <= addr < (idx + 1) * block_size(o),
        block_index(o, addr) >= 0,
{
    let s = block_size(o);
    lemma_block_size_double(o);
    lemma_fundamental_div_mod(addr, s);
    let q = addr / s;
    assert(s * q == q * s) by (nonlinear_arith);
    assert((q + 1) * s == q * s + s) by (nonlinear_arith);
    assert((idx + 1) * s == idx * s + s) by (nonlinear_arith);
    if idx * s <= addr < (idx + 1) * s {
        lemma_fundamental_div_mod_converse(addr, s, idx, addr - idx * s);
    }
    assert(q >= 0) by (nonlinear_arith)
        requires
            q * s + s > 0,
            s >= 1,
    ;
}

/// The blocks `first, .., first + count - 1` of order `o` cover the bytes
/// from `first * 2^o` up to `(first + count) * 2^o`.
pub proof fn lemma_run_bounds(o: nat, first: int, count: int, addr: int)
    requires
        addr >= 0,
    ensures
        first <= block_index(o, addr) < first + count <==> first * block_size(o) <= addr < (first
            + count) * block_size(o),
{
    let s = block_size(o);
    let q = block_index(o, addr);
    lemma_block_bounds(o, q, addr);
    lemma_block_size_double(o);
    if first <= q {
        assert(first * s <= q * s) by (nonlinear_arith)
            requires
                first <= q,
                s >= 1,
        ;
    } else {
        assert((q + 1) * s <= first * s) by (nonlinear_arith)
            requires
                q + 1 <= first,
                s >= 1,
        ;
    }
    if q < first + count {
        assert((q + 1) * s <= (first + count) * s) by (nonlinear_arith)
            requires
                q + 1 <= first + count,
                s >= 1,
        ;
    } else {
        assert((first + count) * s <= q * s) by (nonlinear_arith)
            requires
                first + count <= q,
                s >= 1,
        ;
    }
}

/// One order up, the index of the block that contains `addr` halves.
pub proof fn lemma_index_up(o: nat, addr: int)
    requires
        addr >= 0,
    ensures
        block_index(o + 1, addr) == parent_of(block_index(o, addr)),
{
    lemma_block_size_double(o);
    lemma_div_denominator(addr, block_size(o), 2);
    lemma_mul_is_commutative(block_size(o), 2);
}

/// Changing one row changes the number of free bytes by the change of that
/// row's length, times its block size.
pub proof fn lemma_total_update(rows: Seq<Set<int>>, m: nat, l: int, s: Set<int>)
    requires
        0 <= l < rows.len(),
    ensures
        total(rows.update(l, s), m) == total(rows, m) + (s.len() - rows[l].len()) * block_size(
            row_order(m, l),
        ),
    decreases rows.len(),
{
    let r2 = rows.update(l, s);
    let b = block_size(row_order(m, l));
    if l == rows.len() - 1 {
        assert(r2.drop_last() =~= rows.drop_last());
        assert((s.len() - rows[l].len()) * b == s.len() * b - rows[l].len() * b)
            by (nonlinear_arith);
    } else {
        lemma_total_update(rows.drop_last(), m, l, s);
        assert(r2.drop_last() =~= rows.drop_last().update(l, s));
    }
}

/// The number of free bytes is at least what one row holds.
pub proof fn lemma_total_covers_row(rows: Seq<Set<int>>, m: nat, l: int)
    requires
        0 <= l < rows.len(),
    ensures
        total(rows, m) >= rows[l].len() * block_size(row_order(m, l)),
        total(rows, m) >= 0,
    decreases rows.len(),
{
    lemma_total_nonneg(rows, m);
    if l < rows.len() - 1 {
        lemma_total_covers_row(rows.drop_last(), m, l);
    } else {
        lemma_total_nonneg(rows.drop_last(), m);
    }
    let k = rows.len() - 1;
    lemma_block_size_double(row_order(m, k));
    assert(rows[k].len() * block_size(row_order(m, k)) >= 0) by (nonlinear_arith)
        requires
            block_size(row_order(m, k)) >= 1,
    ;
}

/// The number of free bytes is not negative.
pub proof fn lemma_total_nonneg(rows: Seq<Set<int>>, m: nat)
    ensures
        total(rows, m) >= 0,
    decreases rows.len(),
{
    if rows.len() > 0 {
        lemma_total_nonneg(rows.drop_last(), m);
        let k = rows.len() - 1;
        lemma_block_size_double(row_order(m, k));
        assert(rows[k].len() * block_size(row_order(m, k)) >= 0) by (nonlinear_arith)
            requires
                block_size(row_order(m, k)) >= 1,
        ;
    }
}

/// With every row empty, no byte is free.
pub proof fn lemma_total_empty(rows: Seq<Set<int>>, m: nat)
    requires
        forall|l: int| 0 <= l < rows.len() ==> #[trigger] rows[l] =~= Set::<int>::empty(),
    ensures
        total(rows, m) == 0,
        coherent(rows, m),
    decreases rows.len(),
{
    if rows.len() > 0 {
        lemma_total_empty(rows.drop_last(), m);
        assert(rows.last() =~= Set::<int>::empty());
    }
}

/// A block whose addresses are all clear can join its row: the rows stay
/// coherent, the free bytes grow by the block's size, and exactly the
/// block's addresses become free.
pub proof fn lemma_insert(rows: Seq<Set<int>>, m: nat, l: int, idx: int)
    requires
        coherent(rows, m),
        0 <= l < rows.len(),
        idx >= 0,
        clear(rows, m, l, idx, 1),
        l < rows.len() - 1 ==> !rows[l].contains(buddy_of(idx)),
    ensures
        !rows[l].contains(idx),
        ({
            let r2 = rows.update(l, rows[l].insert(idx));
            &&& coherent(r2, m)
            &&& total(r2, m) == total(rows, m) + block_size(row_order(m, l))
            &&& forall|addr: int, k: int|
                0 <= k < rows.len() ==> #[trigger] free_at(r2, m, k, addr) == (free_at(
                    rows,
                    m,
                    k,
                    addr,
                ) || (k == l && block_index(row_order(m, l), addr) == idx))
            &&& forall|addr: int|
                addr >= 0 ==> #[trigger] free_in(r2, m, addr) == (free_in(rows, m, addr)
                    || block_index(row_order(m, l), addr) == idx)
        }),
{
    let o = row_order(m, l);
    let r2 = rows.update(l, rows[l].insert(idx));
    assert forall|addr: int| addr >= 0 implies #[trigger] free_in(r2, m, addr) == (free_in(
        rows,
        m,
        addr,
    ) || block_index(o, addr) == idx) by {
        if free_in(r2, m, addr) {
            let k = choose|k: int| 0 <= k < r2.len() && free_at(r2, m, k, addr);
            if !(k == l && block_index(o, addr) == idx) {
                assert(free_at(rows, m, k, addr));
            }
        }
        if free_in(rows, m, addr) {
            let k = choose|k: int| 0 <= k < rows.len() && free_at(rows, m, k, addr);
            assert(free_at(r2, m, k, addr));
        }
        if block_index(o, addr) == idx {
            assert(free_at(r2, m, l, addr));
        }
    }
    lemma_block_size_double(o);
    let a0 = idx * block_size(o);
    assert(a0 >= 0) by (nonlinear_arith)
        requires
            idx >= 0,
            a0 == idx * block_size(o),
            block_size(o) >= 1,
    ;
    lemma_block_bounds(o, idx, a0);
    assert((idx + 1) * block_size(o) == a0 + block_size(o)) by (nonlinear_arith)
        requires
            a0 == idx * block_size(o),
    ;
    assert(!free_at(rows, m, l, a0));
    lemma_total_update(rows, m, l, rows[l].insert(idx));
    assert((rows[l].len() + 1 - rows[l].len()) * block_size(o) == block_size(o))
        by (nonlinear_arith);
    assert forall|addr: int, l1: int, l2: int|
        addr >= 0 && 0 <= l1 < l2 < r2.len() && #[trigger] free_at(
            r2,
            m,
            l1,
            addr,
        ) implies !#[trigger] free_at(r2, m, l2, addr) by {
        if block_index(o, addr) == idx {
            assert(!free_at(rows, m, l1, addr));
            assert(!free_at(rows, m, l2, addr));
        } else {
            assert(free_at(rows, m, l1, addr));
            assert(!free_at(rows, m, l2, addr));
        }
    }
    if l < rows.len() - 1 {
        lemma_put_keeps_unpaired(rows[l], idx);
    }
    assert forall|k: int| 0 <= k < r2.len() - 1 implies unpaired(#[trigger] r2[k]) by {
        if k != l {
            assert(r2[k] == rows[k]);
        }
    }
    assert forall|k: int| 0 <= k < r2.len() implies (#[trigger] r2[k]).finite() by {
        if k != l {
            assert(r2[k] == rows[k]);
        } else {
            assert(rows[l].finite());
        }
    }
}

/// Taking a block out of its row: the rows stay coherent, the free bytes
/// shrink by the block's size, and exactly the block's addresses stop being
/// free.
pub proof fn lemma_remove(rows: Seq<Set<int>>, m: nat, l: int, idx: int)
    requires
        coherent(rows, m),
        0 <= l < rows.len(),
        rows[l].contains(idx),
    ensures
        ({
            let r2 = rows.update(l, rows[l].remove(idx));
            &&& coherent(r2, m)
            &&& total(r2, m) == total(rows, m) - block_size(row_order(m, l))
            &&& total(rows, m) >= block_size(row_order(m, l))
            &&& clear(r2, m, l, idx, 1)
            &&& forall|addr: int, k: int|
                0 <= k < rows.len() ==> #[trigger] free_at(r2, m, k, addr) == (free_at(
                    rows,
                    m,
                    k,
                    addr,
                ) && !(k == l && block_index(row_order(m, l), addr) == idx))
            &&& forall|addr: int|
                addr >= 0 ==> #[trigger] free_in(r2, m, addr) == (free_in(rows, m, addr)
                    && block_index(row_order(m, l), addr) != idx)
        }),
{
    let o = row_order(m, l);
    let r2 = rows.update(l, rows[l].remove(idx));
    assert forall|addr: int| addr >= 0 implies #[trigger] free_in(r2, m, addr) == (free_in(
        rows,
        m,
        addr,
    ) && block_index(o, addr) != idx) by {
        if free_in(r2, m, addr) {
            let k = choose|k: int| 0 <= k < r2.len() && free_at(r2, m, k, addr);
            assert(free_at(rows, m, k, addr));
            if block_index(o, addr) == idx {
                assert(free_at(rows, m, l, addr));
                if k < l {
                    assert(!free_at(rows, m, l, addr));
                } else if k > l {
                    assert(!free_at(rows, m, k, addr));
                }
            }
        }
        if free_in(rows, m, addr) && block_index(o, addr) != idx {
            let k = choose|k: int| 0 <= k < rows.len() && free_at(rows, m, k, addr);
            assert(free_at(r2, m, k, addr));
        }
    }
    assert(rows[l].finite());
    lemma_total_update(rows, m, l, rows[l].remove(idx));
    assert((rows[l].len() - 1 - rows[l].len()) * block_size(o) == -block_size(o))
        by (nonlinear_arith);
    lemma_total_nonneg(r2, m);
    assert forall|addr: int, l1: int, l2: int|
        addr >= 0 && 0 <= l1 < l2 < r2.len() && #[trigger] free_at(
            r2,
            m,
            l1,
            addr,
        ) implies !#[trigger] free_at(r2, m, l2, addr) by {
        assert(free_at(rows, m, l1, addr));
        assert(!free_at(rows, m, l2, addr));
    }
    assert forall|k: int| 0 <= k < r2.len() - 1 implies unpaired(#[trigger] r2[k]) by {
        assert(unpaired(rows[k]));
    }
    assert forall|k: int| 0 <= k < r2.len() implies (#[trigger] r2[k]).finite() by {
        assert(rows[k].finite());
    }
    assert forall|addr: int, k: int|
        addr >= 0 && 0 <= k < r2.len() && idx <= block_index(o, addr) < idx
            + 1 implies !#[trigger] free_at(r2, m, k, addr) by {
        assert(free_at(rows, m, l, addr));
        if k < l {
            if free_at(rows, m, k, addr) {
                assert(!free_at(rows, m, l, addr));
            }
        } else if k > l {
            assert(!free_at(rows, m, k, addr));
        }
    }
}

/// Taking a run of blocks out of a row, one consequence at a time as for a
/// single block.
pub proof fn lemma_remove_run(rows: Seq<Set<int>>, m: nat, l: int, first: int, count: int)
    requires
        coherent(rows, m),
        0 <= l < rows.len(),
        count >= 0,
        run(first, count).subset_of(rows[l]),
    ensures
        ({
            let r2 = rows.update(l, rows[l].difference(run(first, count)));
            &&& coherent(r2, m)
            &&& total(r2, m) == total(rows, m) - count * block_size(row_order(m, l))
            &&& total(rows, m) >= count * block_size(row_order(m, l))
            &&& clear(r2, m, l, first, count)
            &&& forall|addr: int, k: int|
                0 <= k < rows.len() ==> #[trigger] free_at(r2, m, k, addr) == (free_at(
                    rows,
                    m,
                    k,
                    addr,
                ) && !(k == l && first <= block_index(row_order(m, l), addr) < first + count))
            &&& forall|addr: int|
                addr >= 0 ==> #[trigger] free_in(r2, m, addr) == (free_in(rows, m, addr) && !(
                first <= block_index(row_order(m, l), addr) < first + count))
        }),
    decreases count,
{
    let o = row_order(m, l);
    let r2 = rows.update(l, rows[l].difference(run(first, count)));
    if count == 0 {
        assert(rows[l].difference(run(first, 0)) =~= rows[l]);
        assert(r2 =~= rows);
        lemma_total_nonneg(rows, m);
        assert(0 * block_size(o) == 0) by (nonlinear_arith);
    } else {
        let r1 = rows.update(l, rows[l].difference(run(first, count - 1)));
        assert(run(first, count - 1).subset_of(rows[l])) by {
            assert forall|i: int| run(first, count - 1).contains(i) implies rows[l].contains(
                i,
            ) by {
                assert(run(first, count).contains(i));
            }
        }
        lemma_remove_run(rows, m, l, first, count - 1);
        let last = first + count - 1;
        assert(run(first, count).contains(last));
        assert(r1[l].contains(last));
        lemma_remove(r1, m, l, last);
        assert(r1[l].remove(last) =~= rows[l].difference(run(first, count)));
        assert(r1.update(l, r1[l].remove(last)) =~= r2);
        assert(count * block_size(o) == (count - 1) * block_size(o) + block_size(o))
            by (nonlinear_arith);
        assert forall|addr: int| addr >= 0 implies #[trigger] free_in(r2, m, addr) == (free_in(
            rows,
            m,
            addr,
        ) && !(first <= block_index(o, addr) < first + count)) by {
            assert(free_in(r2, m, addr) == (free_in(r1, m, addr) && block_index(o, addr)
                != last));
        }
        assert forall|addr: int, k: int|
            addr >= 0 && 0 <= k < r2.len() && first <= block_index(o, addr) < first
                + count implies !#[trigger] free_at(r2, m, k, addr) by {
            if block_index(o, addr) < last {
                assert(!free_at(r1, m, k, addr));
            }
        }
    }
}

/// If no address of a block is free, none of either half is.
pub proof fn lemma_clear_halves(rows: Seq<Set<int>>, m: nat, l: int, idx: int)
    requires
        0 <= l,
        clear(rows, m, l + 1, idx, 1),
    ensures
        clear(rows, m, l, 2 * idx, 1),
        clear(rows, m, l, 2 * idx + 1, 1),
        buddy_of(2 * idx + 1) == 2 * idx,
{
    assert forall|addr: int, k: int|
        addr >= 0 && 0 <= k < rows.len() && 2 * idx <= block_index(row_order(m, l), addr) < 2
            * idx + 2 implies !#[trigger] free_at(rows, m, k, addr) by {
        lemma_index_up(row_order(m, l), addr);
    }
}

/// If no address of a block nor of its buddy is free, none of the block that
/// the two make up is.
pub proof fn lemma_clear_pair(rows: Seq<Set<int>>, m: nat, l: int, idx: int)
    requires
        0 <= l,
        clear(rows, m, l, idx, 1),
        clear(rows, m, l, buddy_of(idx), 1),
    ensures
        clear(rows, m, l + 1, parent_of(idx), 1),
{
    assert forall|addr: int, k: int|
        addr >= 0 && 0 <= k < rows.len() && parent_of(idx) <= block_index(
            row_order(m, l + 1),
            addr,
        ) < parent_of(idx) + 1 implies !#[trigger] free_at(rows, m, k, addr) by {
        lemma_index_up(row_order(m, l), addr);
        let i = block_index(row_order(m, l), addr);
        assert(i == idx || i == buddy_of(idx));
    }
}

/// Every index in the rows is a natural number.
pub open spec fn natural(rows: Seq<Set<int>>) -> bool {
    forall|l: int, i: int| 0 <= l < rows.len() && #[trigger] rows[l].contains(i) ==> i >= 0
}

/// Every address of block `idx` of row `l` is free.
pub open spec fn all_free(rows: Seq<Set<int>>, m: nat, l: int, idx: int) -> bool {
    forall|addr: int|
        addr >= 0 && block_index(row_order(m, l), addr) == idx ==> #[trigger] free_in(
            rows,
            m,
            addr,
        )
}

/// Two addresses in one block of row `l` are in one block of each higher
/// row.
pub proof fn lemma_same_block_up(m: nat, l: int, k: int, a: int, b: int)
    requires
        0 <= l <= k,
        a >= 0,
        b >= 0,
        block_index(row_order(m, l), a) == block_index(row_order(m, l), b),
    ensures
        block_index(row_order(m, k), a) == block_index(row_order(m, k), b),
    decreases k - l,
{
    if l < k {
        lemma_index_up(row_order(m, l), a);
        lemma_index_up(row_order(m, l), b);
        assert(row_order(m, l + 1) == row_order(m, l) + 1);
        lemma_same_block_up(m, l + 1, k, a, b);
    }
}

/// If every address of a block is free, the block is not in pieces: some
/// row from its own up holds a block that contains its first address.
pub proof fn lemma_cover(rows: Seq<Set<int>>, m: nat, l: int, idx: int)
    requires
        coherent(rows, m),
        0 <= l < rows.len(),
        idx >= 0,
        all_free(rows, m, l, idx),
    ensures
        exists|k: int|
            l <= k < rows.len() && #[trigger] free_at(
                rows,
                m,
                k,
                idx * block_size(row_order(m, l)),
            ),
    decreases l,
{
    let o = row_order(m, l);
    let a0 = idx * block_size(o);
    lemma_block_size_double(o);
    assert(a0 >= 0 && (idx + 1) * block_size(o) == a0 + block_size(o)) by (nonlinear_arith)
        requires
            idx >= 0,
            a0 == idx * block_size(o),
            block_size(o) >= 1,
    ;
    lemma_block_bounds(o, idx, a0);
    if l == 0 {
        assert(free_in(rows, m, a0));
        let k = choose|k: int| 0 <= k < rows.len() && free_at(rows, m, k, a0);
        assert(free_at(rows, m, k, a0));
    } else {
        let p = row_order(m, l - 1);
        assert(o == p + 1);
        lemma_block_size_double(p);
        let a1 = (2 * idx + 1) * block_size(p);
        assert(a1 == a0 + block_size(p) && (2 * idx) * block_size(p) == a0 && (2 * idx + 2)
            * block_size(p) == a0 + 2 * block_size(p)) by (nonlinear_arith)
            requires
                a1 == (2 * idx + 1) * block_size(p),
                a0 == idx * block_size(o),
                block_size(o) == 2 * block_size(p),
        ;
        lemma_block_bounds(p, 2 * idx, a0);
        lemma_block_bounds(p, 2 * idx + 1, a1);
        assert forall|addr: int|
            addr >= 0 && (block_index(p, addr) == 2 * idx || block_index(p, addr) == 2 * idx
                + 1) implies #[trigger] free_in(rows, m, addr) by {
            lemma_index_up(p, addr);
        }
        lemma_cover(rows, m, l - 1, 2 * idx);
        lemma_cover(rows, m, l - 1, 2 * idx + 1);
        let k0 = choose|k: int| l - 1 <= k < rows.len() && free_at(rows, m, k, a0);
        let k1 = choose|k: int| l - 1 <= k < rows.len() && free_at(rows, m, k, a1);
        if k0 >= l {
            assert(free_at(rows, m, k0, a0));
        } else if k1 >= l {
            lemma_index_up(p, a0);
            lemma_index_up(p, a1);
            lemma_same_block_up(m, l, k1, a0, a1);
            assert(free_at(rows, m, k1, a0));
        } else {
            assert(rows[l - 1].contains(2 * idx));
            assert(rows[l - 1].contains(2 * idx + 1));
            assert(buddy_of(2 * idx) == 2 * idx + 1);
            assert(unpaired(rows[l - 1]));
            assert(false);
        }
    }
}

/// A block of one coherent set of rows is a block of any other that has
/// the same free addresses.
pub proof fn lemma_member_carries(
    r1: Seq<Set<int>>,
    r2: Seq<Set<int>>,
    m: nat,
    l: int,
    idx: int,
)
    requires
        coherent(r1, m),
        coherent(r2, m),
        r1.len() == r2.len(),
        forall|addr: int| addr >= 0 ==> #[trigger] free_in(r1, m, addr) == free_in(r2, m, addr),
        0 <= l < r1.len(),
        idx >= 0,
        r1[l].contains(idx),
    ensures
        r2[l].contains(idx),
{
    let o = row_order(m, l);
    let a0 = idx * block_size(o);
    lemma_block_size_double(o);
    assert(a0 >= 0 && (idx + 1) * block_size(o) == a0 + block_size(o)) by (nonlinear_arith)
        requires
            idx >= 0,
            a0 == idx * block_size(o),
            block_size(o) >= 1,
    ;
    lemma_block_bounds(o, idx, a0);
    assert forall|addr: int| addr >= 0 && block_index(o, addr) == idx implies #[trigger] free_in(
        r2,
        m,
        addr,
    ) by {
        assert(free_at(r1, m, l, addr));
        assert(free_in(r1, m, addr));
    }
    lemma_cover(r2, m, l, idx);
    let k = choose|k: int| l <= k < r2.len() && free_at(r2, m, k, a0);
    if k > l {
        let big = row_order(m, k);
        let j = block_index(big, a0);
        let b0 = j * block_size(big);
        lemma_block_bounds(big, j, a0);
        lemma_block_size_double(big);
        assert(b0 >= 0 && (j + 1) * block_size(big) == b0 + block_size(big)) by (nonlinear_arith)
            requires
                j >= 0,
                b0 == j * block_size(big),
                block_size(big) >= 1,
        ;
        lemma_block_bounds(big, j, b0);
        assert forall|addr: int| addr >= 0 && block_index(big, addr) == j implies #[trigger] free_in(
            r1,
            m,
            addr,
        ) by {
            assert(free_at(r2, m, k, addr));
            assert(free_in(r2, m, addr));
        }
        lemma_cover(r1, m, k, j);
        let k2 = choose|k2: int| k <= k2 < r1.len() && free_at(r1, m, k2, b0);
        lemma_same_block_up(m, k, k2, a0, b0);
        assert(free_at(r1, m, k2, a0));
        assert(free_at(r1, m, l, a0));
        assert(false);
    }
}

/// Coherent rows are determined by the addresses that are free: two sets of
/// rows with the same free addresses hold the same blocks.
pub proof fn lemma_rows_determined(r1: Seq<Set<int>>, r2: Seq<Set<int>>, m: nat)
    requires
        coherent(r1, m),
        coherent(r2, m),
        natural(r1),
        natural(r2),
        r1.len() == r2.len(),
        forall|addr: int| addr >= 0 ==> #[trigger] free_in(r1, m, addr) == free_in(r2, m, addr),
    ensures
        r1 =~= r2,
{
    assert forall|l: int| 0 <= l < r1.len() implies #[trigger] r1[l] =~= r2[l] by {
        assert forall|i: int| r1[l].contains(i) == r2[l].contains(i) by {
            if r1[l].contains(i) {
                lemma_member_carries(r1, r2, m, l, i);
            }
            if r2[l].contains(i) {
                lemma_member_carries(r2, r1, m, l, i);
            }
        }
    }
}

} // verus!
