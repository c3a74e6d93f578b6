//! Index arithmetic for the packed coefficient layout.
//!
//! A multi-index assigns one derivative degree to each variable; a packed
//! buffer stores one coefficient per multi-index whose total degree is at most
//! the truncation order.  The layout puts the degree-zero coefficient first,
//! then, for each variable in construction order, the block of all
//! multi-indices whose first nonzero entry belongs to that variable.

use vstd::prelude::*;

verus! {

/// Total degree of a multi-index: the sum of its entries.
pub open spec fn seq_total(s: Seq<usize>) -> int
    decreases s.len(),
{
    if s.len() == 0 {
        0
    } else {
        s[0] + seq_total(s.drop_first())
    }
}

/// How many multi-indices of length `n` have total degree at most `order`.
/// Splitting on whether the first entry is zero gives Pascal's rule.
pub open spec fn spec_num_elems(n: nat, order: nat) -> nat
    decreases n + order,
{
    if n == 0 || order == 0 {
        1
    } else {
        spec_num_elems(n, (order - 1) as nat) + spec_num_elems((n - 1) as nat, order)
    }
}

/// Sum of `spec_num_elems(k, order)` for `k` in `1..=n`.
pub open spec fn sum_num_elems(n: nat, order: nat) -> nat
    decreases n,
{
    if n == 0 {
        0
    } else {
        sum_num_elems((n - 1) as nat, order) + spec_num_elems(n, order)
    }
}

/// Where the coefficient block of variable `ii` starts, counted from the
/// first degree-one coefficient: the blocks of variables `0..ii` come first,
/// and the block of variable `j` holds one coefficient per multi-index of
/// total degree at most `order - 1` over variables `j..n`.
pub open spec fn spec_offset_under(n: nat, ii: nat, order: nat) -> nat
    decreases ii,
{
    if ii == 0 || n == 0 || order == 0 {
        0
    } else {
        spec_num_elems(n, (order - 1) as nat) + spec_offset_under((n - 1) as nat, (ii - 1) as nat, order)
    }
}

/// The storage slot of the coefficient for multi-index `idx`.
///
/// The degree-zero multi-index sits at slot zero.  A multi-index whose first
/// entry is positive sits right after it, inside the block of variable zero,
/// at one plus the slot that the decremented multi-index takes at one lower
/// order.  A multi-index whose first entry is zero keeps the slot of its tail
/// shifted past the block of variable zero.
pub open spec fn spec_offset_of(idx: Seq<usize>, n: nat, order: nat) -> int
    decreases order, idx.len(),
{
    if idx.len() == 0 {
        0
    } else if idx[0] > 0 {
        if order == 0 {
            0
        } else {
            1 + spec_offset_of(idx.update(0, (idx[0] - 1) as usize), n, (order - 1) as nat)
        }
    } else if n == 0 {
        0
    } else {
        let t = spec_offset_of(idx.drop_first(), (n - 1) as nat, order);
        if t == 0 {
            0
        } else if order == 0 {
            t
        } else {
            spec_num_elems(n, (order - 1) as nat) + t
        }
    }
}

pub proof fn lemma_num_elems_pos(n: nat, order: nat)
    ensures
        spec_num_elems(n, order) >= 1,
    decreases n + order,
{
    if n != 0 && order != 0 {
        lemma_num_elems_pos(n, (order - 1) as nat);
    }
}

/// In one variable there is one multi-index per degree `0..=order`.
pub proof fn lemma_num_elems_one_var(order: nat)
    ensures
        spec_num_elems(1, order) == order + 1,
    decreases order,
{
    if order != 0 {
        lemma_num_elems_one_var((order - 1) as nat);
        assert(spec_num_elems(0, order) == 1);
    }
}

/// At order one there is the zero multi-index and one per variable.
pub proof fn lemma_num_elems_order_one(n: nat)
    ensures
        spec_num_elems(n, 1) == n + 1,
    decreases n,
{
    if n != 0 {
        lemma_num_elems_order_one((n - 1) as nat);
        assert(spec_num_elems(n, 0) == 1);
    }
}

/// The count grows with both the variable count and the order.
pub proof fn lemma_num_elems_mono(n1: nat, order1: nat, n2: nat, order2: nat)
    requires
        n1 <= n2,
        order1 <= order2,
    ensures
        spec_num_elems(n1, order1) <= spec_num_elems(n2, order2),
    decreases n2 + order2,
{
    if n2 == 0 || order2 == 0 {
    } else {
        if n1 == 0 || order1 == 0 {
            lemma_num_elems_pos(n2, (order2 - 1) as nat);
            lemma_num_elems_mono(0, 0, (n2 - 1) as nat, order2);
        } else {
            lemma_num_elems_mono(n1, (order1 - 1) as nat, n2, (order2 - 1) as nat);
            lemma_num_elems_mono((n1 - 1) as nat, order1, (n2 - 1) as nat, order2);
        }
    }
}

/// Unrolling the count over the first entry of the multi-index: one zero
/// multi-index, plus one block per variable at one lower order.
pub proof fn lemma_num_elems_unroll(n: nat, order: nat)
    requires
        order >= 1,
    ensures
        spec_num_elems(n, order) == 1 + sum_num_elems(n, (order - 1) as nat),
    decreases n,
{
    if n == 0 {
    } else {
        lemma_num_elems_unroll((n - 1) as nat, order);
    }
}

/// The blocks of all `n` variables together fill the whole buffer tail.
pub proof fn lemma_offset_under_total(n: nat, order: nat)
    requires
        order >= 1,
    ensures
        spec_offset_under(n, n, order) == spec_num_elems(n, order) - 1,
    decreases n,
{
    if n == 0 {
    } else {
        lemma_offset_under_total((n - 1) as nat, order);
    }
}

/// Block starts never move backwards as `ii` grows.
pub proof fn lemma_offset_under_mono(n: nat, ii1: nat, ii2: nat, order: nat)
    requires
        ii1 <= ii2 <= n,
    ensures
        spec_offset_under(n, ii1, order) <= spec_offset_under(n, ii2, order),
    decreases ii1,
{
    if ii1 == 0 {
        lemma_offset_under_nonneg(n, ii2, order);
    } else {
        lemma_offset_under_mono((n - 1) as nat, (ii1 - 1) as nat, (ii2 - 1) as nat, order);
    }
}

pub proof fn lemma_offset_under_nonneg(n: nat, ii: nat, order: nat)
    ensures
        spec_offset_under(n, ii, order) >= 0,
{
}

/// Counts the coefficients needed for `n` variables truncated at `order`.
pub fn number_of_elements(n: usize, order: usize) -> (r: usize)
    requires
        spec_num_elems(n as nat, order as nat) <= usize::MAX,
    ensures
        r == spec_num_elems(n as nat, order as nat),
    decreases order,
{
    if order == 0 {
        1
    } else if n == 1 {
        proof {
            lemma_num_elems_one_var(order as nat);
        }
        1 + order
    } else if order == 1 {
        proof {
            lemma_num_elems_order_one(n as nat);
        }
        1 + n
    } else {
        proof {
            lemma_num_elems_unroll(n as nat, order as nat);
        }
        let mut total: usize = 1;
        let mut i: usize = n;
        while i > 0
            invariant
                i <= n,
                order >= 1,
                spec_num_elems(n as nat, order as nat) <= usize::MAX,
                spec_num_elems(n as nat, order as nat) == 1 + sum_num_elems(n as nat, (order - 1) as nat),
                total == 1 + sum_num_elems(n as nat, (order - 1) as nat) - sum_num_elems(i as nat, (order - 1) as nat),
            decreases i,
        {
            proof {
                lemma_sum_num_elems_mono(i as nat, n as nat, (order - 1) as nat);
                lemma_num_elems_pos(i as nat, (order - 1) as nat);
            }
            total = total + number_of_elements(i, order - 1);
            i = i - 1;
        }
        total
    }
}

/// Whether every entry of a multi-index is zero.
pub open spec fn all_zero(s: Seq<usize>) -> bool {
    forall|i: int| 0 <= i < s.len() ==> s[i] == 0
}

pub proof fn lemma_seq_total_nonneg(s: Seq<usize>)
    ensures
        seq_total(s) >= 0,
    decreases s.len(),
{
    if s.len() > 0 {
        lemma_seq_total_nonneg(s.drop_first());
    }
}

/// A multi-index has total degree zero exactly when every entry is zero.
pub proof fn lemma_seq_total_zero(s: Seq<usize>)
    ensures
        seq_total(s) == 0 <==> all_zero(s),
    decreases s.len(),
{
    if s.len() > 0 {
        lemma_seq_total_zero(s.drop_first());
        lemma_seq_total_nonneg(s.drop_first());
        if all_zero(s) {
            assert(s[0] == 0);
            assert(all_zero(s.drop_first()));
        }
        if seq_total(s) == 0 {
            assert forall|i: int| 0 <= i < s.len() implies s[i] == 0 by {
                if i > 0 {
                    assert(s.drop_first()[i - 1] == s[i]);
                }
            }
        }
    }
}

/// The zero multi-index sits at slot zero, and nothing else does.
pub proof fn lemma_offset_of_zero(idx: Seq<usize>, n: nat, order: nat)
    requires
        idx.len() <= n,
        seq_total(idx) <= order,
    ensures
        spec_offset_of(idx, n, order) == 0 <==> all_zero(idx),
    decreases order, idx.len(),
{
    lemma_seq_total_nonneg(idx);
    if idx.len() == 0 {
    } else if idx[0] > 0 {
        lemma_seq_total_nonneg(idx.drop_first());
        assert(order >= 1);
        let dec = idx.update(0, (idx[0] - 1) as usize);
        assert(dec.drop_first() =~= idx.drop_first());
        assert(seq_total(dec) == idx[0] - 1 + seq_total(idx.drop_first()));
        lemma_offset_of_in_range(dec, n, (order - 1) as nat);
        assert(spec_offset_of(idx, n, order) >= 1);
        assert(!all_zero(idx));
    } else {
        let t = spec_offset_of(idx.drop_first(), (n - 1) as nat, order);
        lemma_seq_total_nonneg(idx.drop_first());
        lemma_offset_of_zero(idx.drop_first(), (n - 1) as nat, order);
        lemma_offset_of_in_range(idx.drop_first(), (n - 1) as nat, order);
        if t == 0 {
            assert(all_zero(idx.drop_first()));
            assert forall|i: int| 0 <= i < idx.len() implies idx[i] == 0 by {
                if i > 0 {
                    assert(idx.drop_first()[i - 1] == idx[i]);
                }
            }
        } else {
            assert(!all_zero(idx.drop_first()));
            let j = choose|j: int| 0 <= j < idx.drop_first().len() && idx.drop_first()[j] != 0;
            assert(idx[j + 1] != 0);
            assert(!all_zero(idx));
            if order != 0 {
                lemma_num_elems_pos(n, (order - 1) as nat);
            }
            assert(spec_offset_of(idx, n, order) > 0);
        }
    }
}

/// Every valid multi-index lands strictly inside the buffer.
pub proof fn lemma_offset_of_in_range(idx: Seq<usize>, n: nat, order: nat)
    requires
        idx.len() <= n,
        seq_total(idx) <= order,
    ensures
        0 <= spec_offset_of(idx, n, order) < spec_num_elems(n, order),
    decreases order, idx.len(),
{
    lemma_num_elems_pos(n, order);
    if idx.len() == 0 {
    } else if idx[0] > 0 {
        lemma_seq_total_nonneg(idx.drop_first());
        assert(order >= 1);
        let dec = idx.update(0, (idx[0] - 1) as usize);
        assert(dec.drop_first() =~= idx.drop_first());
        assert(seq_total(dec) == idx[0] - 1 + seq_total(idx.drop_first()));
        lemma_offset_of_in_range(dec, n, (order - 1) as nat);
        // one past the zero slot, inside the block of variable zero
        assert(n >= 1);
        lemma_num_elems_pos((n - 1) as nat, order);
        assert(spec_num_elems(n, order) == spec_num_elems(n, (order - 1) as nat) + spec_num_elems(
            (n - 1) as nat,
            order,
        ));
    } else {
        assert(n >= 1);
        assert(seq_total(idx) == idx[0] + seq_total(idx.drop_first()));
        lemma_offset_of_in_range(idx.drop_first(), (n - 1) as nat, order);
        let t = spec_offset_of(idx.drop_first(), (n - 1) as nat, order);
        if t != 0 {
            assert(order >= 1) by {
                if order == 0 {
                    lemma_seq_total_nonneg(idx.drop_first());
                    lemma_seq_total_zero(idx.drop_first());
                    lemma_offset_of_zero(idx.drop_first(), (n - 1) as nat, order);
                }
            }
            assert(spec_num_elems(n, order) == spec_num_elems(n, (order - 1) as nat) + spec_num_elems(
                (n - 1) as nat,
                order,
            ));
        }
    }
}

/// Consecutive block starts differ by exactly the size of the block between
/// them.
pub proof fn lemma_offset_under_step(n: nat, ii: nat, order: nat)
    requires
        ii < n,
        order >= 1,
    ensures
        spec_offset_under(n, (ii + 1) as nat, order) == spec_offset_under(n, ii, order)
            + spec_num_elems((n - ii) as nat, (order - 1) as nat),
    decreases ii,
{
    if ii == 0 {
        assert(spec_offset_under(n, 1, order) == spec_num_elems(n, (order - 1) as nat)
            + spec_offset_under((n - 1) as nat, 0, order));
        assert(spec_offset_under((n - 1) as nat, 0, order) == 0);
    } else {
        lemma_offset_under_step((n - 1) as nat, (ii - 1) as nat, order);
        assert(spec_offset_under(n, (ii + 1) as nat, order) == spec_num_elems(
            n,
            (order - 1) as nat,
        ) + spec_offset_under((n - 1) as nat, ii, order));
        assert(spec_offset_under(n, ii, order) == spec_num_elems(n, (order - 1) as nat)
            + spec_offset_under((n - 1) as nat, (ii - 1) as nat, order));
    }
}

/// At order zero no block precedes any variable's block.
pub proof fn lemma_offset_under_order_zero(n: nat, ii: nat)
    ensures
        spec_offset_under(n, ii, 0) == 0,
{
}

/// Past the blocks of the first `offset` variables there is room for the
/// required coefficients of the remaining variables.
pub proof fn lemma_offset_under_suffix_fits(n: nat, offset: nat, order: nat)
    requires
        offset <= n,
    ensures
        1 + spec_offset_under(n, offset, order) + (spec_num_elems((n - offset) as nat, order) - 1)
            <= spec_num_elems(n, order),
    decreases offset,
{
    if order == 0 {
        lemma_offset_under_order_zero(n, offset);
        lemma_num_elems_pos(n, 0);
    } else if offset == 0 {
    } else {
        lemma_offset_under_suffix_fits((n - 1) as nat, (offset - 1) as nat, order);
    }
}

/// The block of variable `ii` fits between its start and the end of the
/// buffer tail.
pub proof fn lemma_offset_under_block_fits(n: nat, ii: nat, order: nat)
    requires
        ii < n,
        order >= 1,
    ensures
        spec_offset_under(n, ii, order) + spec_num_elems((n - ii) as nat, (order - 1) as nat)
            <= spec_num_elems(n, order) - 1,
{
    lemma_offset_under_step(n, ii, order);
    lemma_offset_under_mono(n, (ii + 1) as nat, n, order);
    lemma_offset_under_total(n, order);
}

/// Where the coefficient block of variable `ii` starts within the tail of
/// the buffer, after the blocks of the variables before it.
pub fn offset_under(n: usize, ii: usize, order: usize) -> (r: usize)
    requires
        ii <= n,
        order >= 1,
        spec_num_elems(n as nat, order as nat) <= usize::MAX,
    ensures
        r == spec_offset_under(n as nat, ii as nat, order as nat),
{
    let mut acc: usize = 0;
    let mut j: usize = 0;
    while j < ii
        invariant
            j <= ii <= n,
            order >= 1,
            spec_num_elems(n as nat, order as nat) <= usize::MAX,
            acc == spec_offset_under(n as nat, j as nat, order as nat),
        decreases ii - j,
    {
        proof {
            lemma_offset_under_step(n as nat, j as nat, order as nat);
            lemma_offset_under_mono(n as nat, (j + 1) as nat, ii as nat, order as nat);
            lemma_offset_under_mono(n as nat, ii as nat, n as nat, order as nat);
            lemma_offset_under_total(n as nat, order as nat);
            lemma_num_elems_mono((n - j) as nat, (order - 1) as nat, n as nat, order as nat);
        }
        acc = acc + number_of_elements(n - j, order - 1);
        j = j + 1;
    }
    acc
}

/// Maps a multi-index, split into its first entry and the rest, to its slot.
pub fn offset_of_impl(index_0: usize, index_tail: &[usize], n: usize, order: usize) -> (r: usize)
    requires
        index_tail@.len() + 1 <= n,
        index_0 + seq_total(index_tail@) <= order,
        spec_num_elems(n as nat, order as nat) <= usize::MAX,
    ensures
        r == spec_offset_of(seq![index_0] + index_tail@, n as nat, order as nat),
        r < spec_num_elems(n as nat, order as nat),
    decreases order, index_tail@.len(),
{
    let ghost full = seq![index_0] + index_tail@;
    proof {
        assert(full[0] == index_0);
        assert(full.drop_first() =~= index_tail@);
        lemma_seq_total_nonneg(index_tail@);
        assert(seq_total(full) == index_0 + seq_total(index_tail@));
        lemma_offset_of_in_range(full, n as nat, order as nat);
    }
    if index_0 > 0 {
        proof {
            assert((seq![(index_0 - 1) as usize] + index_tail@) =~= full.update(
                0,
                (index_0 - 1) as usize,
            ));
            lemma_num_elems_mono(n as nat, (order - 1) as nat, n as nat, order as nat);
        }
        let r = offset_of_impl(index_0 - 1, index_tail, n, order - 1);
        1 + r
    } else if index_tail.len() == 0 {
        proof {
            assert(full.drop_first() =~= Seq::<usize>::empty());
            assert(spec_offset_of(Seq::<usize>::empty(), (n - 1) as nat, order as nat) == 0);
        }
        0
    } else {
        proof {
            assert(index_tail@[0] + seq_total(index_tail@.drop_first()) == seq_total(index_tail@));
            lemma_num_elems_mono((n - 1) as nat, order as nat, n as nat, order as nat);
        }
        let head = index_tail[0];
        let rest = vstd::slice::slice_subrange(index_tail, 1, index_tail.len());
        proof {
            assert(rest@ =~= index_tail@.drop_first());
            assert((seq![head] + rest@) =~= index_tail@);
        }
        let t = offset_of_impl(head, rest, n - 1, order);
        if t == 0 {
            0
        } else {
            proof {
                lemma_offset_of_zero(index_tail@, (n - 1) as nat, order as nat);
                lemma_seq_total_zero(index_tail@);
            }
            let block = number_of_elements(n, order - 1);
            block + t
        }
    }
}

/// Maps a multi-index to the slot of its coefficient in the packed buffer.
pub fn offset_of(index: &[usize], n: usize, order: usize) -> (r: usize)
    requires
        index@.len() <= n,
        seq_total(index@) <= order,
        spec_num_elems(n as nat, order as nat) <= usize::MAX,
    ensures
        r == spec_offset_of(index@, n as nat, order as nat),
        r < spec_num_elems(n as nat, order as nat),
{
    proof {
        lemma_offset_of_in_range(index@, n as nat, order as nat);
    }
    if index.len() == 0 {
        0
    } else {
        let head = index[0];
        let rest = vstd::slice::slice_subrange(index, 1, index.len());
        proof {
            lemma_seq_total_nonneg(index@.drop_first());
            assert(rest@ =~= index@.drop_first());
            assert((seq![head] + rest@) =~= index@);
            assert(seq_total(index@) == head + seq_total(rest@));
        }
        offset_of_impl(head, rest, n, order)
    }
}

/// The multi-index whose entries are all zero.
pub open spec fn zero_idx(n: nat) -> Seq<usize> {
    Seq::new(n, |i: int| 0usize)
}

/// Distinct valid multi-indices never share a slot: together with
/// `lemma_offset_of_in_range` and `lemma_offset_of_surjective`, the slot map
/// is a bijection between the multi-indices of length `n` with total degree
/// at most `order` and the slots `0 .. spec_num_elems(n, order)`.
pub proof fn lemma_offset_of_injective(a: Seq<usize>, b: Seq<usize>, n: nat, order: nat)
    requires
        a.len() == n,
        b.len() == n,
        seq_total(a) <= order,
        seq_total(b) <= order,
        spec_offset_of(a, n, order) == spec_offset_of(b, n, order),
    ensures
        a == b,
    decreases order, n,
{
    lemma_seq_total_nonneg(a.drop_first());
    lemma_seq_total_nonneg(b.drop_first());
    if n == 0 {
        assert(a =~= b);
    } else if a[0] > 0 && b[0] > 0 {
        let da = a.update(0, (a[0] - 1) as usize);
        let db = b.update(0, (b[0] - 1) as usize);
        assert(da.drop_first() =~= a.drop_first());
        assert(db.drop_first() =~= b.drop_first());
        assert(seq_total(da) == a[0] - 1 + seq_total(a.drop_first()));
        assert(seq_total(db) == b[0] - 1 + seq_total(b.drop_first()));
        lemma_offset_of_injective(da, db, n, (order - 1) as nat);
        assert(a =~= da.update(0, a[0]));
        assert(b =~= db.update(0, b[0]));
        assert(da[0] == db[0]);
    } else if a[0] == 0 && b[0] == 0 {
        let ta = spec_offset_of(a.drop_first(), (n - 1) as nat, order);
        let tb = spec_offset_of(b.drop_first(), (n - 1) as nat, order);
        assert(seq_total(a.drop_first()) <= order);
        assert(seq_total(b.drop_first()) <= order);
        lemma_offset_of_in_range(a.drop_first(), (n - 1) as nat, order);
        lemma_offset_of_in_range(b.drop_first(), (n - 1) as nat, order);
        if ta == 0 && tb == 0 {
            lemma_offset_of_zero(a.drop_first(), (n - 1) as nat, order);
            lemma_offset_of_zero(b.drop_first(), (n - 1) as nat, order);
            assert forall|i: int| 0 <= i < n implies a[i] == b[i] by {
                if i > 0 {
                    assert(a.drop_first()[i - 1] == 0);
                    assert(b.drop_first()[i - 1] == 0);
                }
            }
            assert(a =~= b);
        } else if ta != 0 && tb != 0 {
            if order == 0 {
                lemma_seq_total_zero(a.drop_first());
                lemma_offset_of_zero(a.drop_first(), (n - 1) as nat, order);
                assert(false);
            }
            lemma_offset_of_injective(a.drop_first(), b.drop_first(), (n - 1) as nat, order);
            assert forall|i: int| 0 <= i < n implies a[i] == b[i] by {
                if i > 0 {
                    assert(a.drop_first()[i - 1] == b.drop_first()[i - 1]);
                }
            }
            assert(a =~= b);
        } else {
            // one slot is zero, the other lies past the block of variable zero
            if order == 0 {
                lemma_seq_total_zero(a.drop_first());
                lemma_seq_total_zero(b.drop_first());
                lemma_offset_of_zero(a.drop_first(), (n - 1) as nat, order);
                lemma_offset_of_zero(b.drop_first(), (n - 1) as nat, order);
            } else {
                lemma_num_elems_pos(n, (order - 1) as nat);
            }
            assert(false);
        }
    } else {
        // one first entry positive, the other zero: the first slot lies in
        // the block of variable zero, the other outside of it
        let (p, z) = if a[0] > 0 { (a, b) } else { (b, a) };
        assert(p[0] > 0 && z[0] == 0);
        assert(order >= 1);
        let dp = p.update(0, (p[0] - 1) as usize);
        assert(dp.drop_first() =~= p.drop_first());
        lemma_seq_total_nonneg(p.drop_first());
        assert(seq_total(dp) == p[0] - 1 + seq_total(p.drop_first()));
        lemma_offset_of_in_range(dp, n, (order - 1) as nat);
        assert(1 <= spec_offset_of(p, n, order) <= spec_num_elems(n, (order - 1) as nat));
        let tz = spec_offset_of(z.drop_first(), (n - 1) as nat, order);
        lemma_seq_total_nonneg(z.drop_first());
        lemma_offset_of_in_range(z.drop_first(), (n - 1) as nat, order);
        if tz == 0 {
            assert(spec_offset_of(z, n, order) == 0);
        } else {
            assert(spec_offset_of(z, n, order) > spec_num_elems(n, (order - 1) as nat));
        }
        assert(false);
    }
}

/// The multi-index that the slot `k` belongs to: the inverse of
/// `spec_offset_of`.
pub open spec fn spec_index_of(k: int, n: nat, order: nat) -> Seq<usize>
    decreases order, n,
{
    if n == 0 || k <= 0 || order == 0 {
        zero_idx(n)
    } else if k <= spec_num_elems(n, (order - 1) as nat) {
        let s = spec_index_of(k - 1, n, (order - 1) as nat);
        s.update(0, (s[0] + 1) as usize)
    } else {
        seq![0usize] + spec_index_of(k - spec_num_elems(n, (order - 1) as nat), (n - 1) as nat, order)
    }
}

/// Every slot in range is the slot of exactly one valid multi-index.
pub proof fn lemma_offset_of_surjective(k: int, n: nat, order: nat)
    requires
        0 <= k < spec_num_elems(n, order),
        order <= usize::MAX,
    ensures
        spec_index_of(k, n, order).len() == n,
        seq_total(spec_index_of(k, n, order)) <= order,
        spec_offset_of(spec_index_of(k, n, order), n, order) == k,
    decreases order, n,
{
    let idx = spec_index_of(k, n, order);
    if n == 0 || k <= 0 || order == 0 {
        assert(spec_num_elems(n, order) == 1 ==> k == 0);
        if n != 0 && order != 0 {
            lemma_num_elems_pos(n, (order - 1) as nat);
            lemma_num_elems_pos((n - 1) as nat, order);
        }
        assert(k == 0);
        lemma_seq_total_zero(zero_idx(n));
        lemma_offset_of_zero(zero_idx(n), n, order);
    } else if k <= spec_num_elems(n, (order - 1) as nat) {
        let s = spec_index_of(k - 1, n, (order - 1) as nat);
        lemma_offset_of_surjective(k - 1, n, (order - 1) as nat);
        lemma_seq_total_nonneg(s.drop_first());
        assert(idx == s.update(0, (s[0] + 1) as usize));
        assert(idx.drop_first() =~= s.drop_first());
        assert(seq_total(s) == s[0] + seq_total(s.drop_first()));
        assert(seq_total(idx) == s[0] + 1 + seq_total(s.drop_first()));
        assert(s[0] + 1 <= order);
        assert(idx[0] == s[0] + 1 > 0);
        assert(idx.update(0, (idx[0] - 1) as usize) =~= s);
        assert(spec_offset_of(idx, n, order) == 1 + spec_offset_of(s, n, (order - 1) as nat));
    } else {
        let block = spec_num_elems(n, (order - 1) as nat);
        let s = spec_index_of(k - block, (n - 1) as nat, order);
        assert(spec_num_elems(n, order) == block + spec_num_elems((n - 1) as nat, order));
        lemma_offset_of_surjective(k - block, (n - 1) as nat, order);
        assert(idx == seq![0usize] + s);
        assert(idx.len() == n);
        assert(idx[0] == 0);
        assert(idx.drop_first() =~= s);
        assert(seq_total(idx) == 0 + seq_total(s));
        let t = spec_offset_of(s, (n - 1) as nat, order);
        assert(t == k - block);
        assert(t != 0);
        assert(spec_offset_of(idx, n, order) == block + t);
    }
}

/// The slot of a multi-index supported on the variables from `i` on: its
/// slot in the restricted layout, shifted past the blocks of the dropped
/// variables (the zero multi-index keeps slot zero).
pub proof fn lemma_offset_of_prepend_zeros(i: nat, sub: Seq<usize>, n: nat, order: nat)
    requires
        i <= n,
        sub.len() == n - i,
        seq_total(sub) <= order,
    ensures
        all_zero(sub) ==> spec_offset_of(zero_idx(i) + sub, n, order) == 0,
        !all_zero(sub) ==> spec_offset_of(zero_idx(i) + sub, n, order) == spec_offset_under(
            n,
            i,
            order,
        ) + spec_offset_of(sub, (n - i) as nat, order),
    decreases i,
{
    let idx = zero_idx(i) + sub;
    lemma_seq_total_nonneg(sub);
    assert(seq_total(zero_idx(0) + sub) == seq_total(sub)) by {
        assert(zero_idx(0) + sub =~= sub);
    }
    if i == 0 {
        assert(idx =~= sub);
        if all_zero(sub) {
            lemma_offset_of_zero(sub, n, order);
        }
    } else {
        let rest = zero_idx((i - 1) as nat) + sub;
        assert(idx[0] == 0);
        assert(idx.drop_first() =~= rest);
        assert(seq_total(idx) == seq_total(rest)) by {
            lemma_total_of_prepended_zeros(i, sub);
            lemma_total_of_prepended_zeros((i - 1) as nat, sub);
        }
        lemma_total_of_prepended_zeros((i - 1) as nat, sub);
        lemma_offset_of_prepend_zeros((i - 1) as nat, sub, (n - 1) as nat, order);
        let t = spec_offset_of(rest, (n - 1) as nat, order);
        if all_zero(sub) {
            lemma_seq_total_zero(sub);
            lemma_all_zero_prepend((i - 1) as nat, sub);
            lemma_offset_of_zero(rest, (n - 1) as nat, order);
        } else {
            lemma_offset_of_zero(sub, (n - i) as nat, order);
            lemma_offset_of_in_range(sub, (n - i) as nat, order);
            lemma_offset_under_nonneg((n - 1) as nat, (i - 1) as nat, order);
            assert(t > 0);
            if order == 0 {
                lemma_seq_total_zero(sub);
                assert(false);
            }
            assert(spec_offset_of(idx, n, order) == spec_num_elems(n, (order - 1) as nat) + t);
        }
    }
}

/// The position of the first nonzero entry of a multi-index.
pub open spec fn first_nonzero(idx: Seq<usize>) -> int
    decreases idx.len(),
{
    if idx.len() == 0 {
        0
    } else if idx[0] > 0 {
        0
    } else {
        1 + first_nonzero(idx.drop_first())
    }
}

/// A multi-index that is not all zero splits into leading zeros and a tail
/// that starts with a positive entry.
pub proof fn lemma_first_nonzero(idx: Seq<usize>)
    requires
        !all_zero(idx),
    ensures
        0 <= first_nonzero(idx) < idx.len(),
        idx[first_nonzero(idx)] != 0,
        forall|j: int| 0 <= j < first_nonzero(idx) ==> idx[j] == 0,
    decreases idx.len(),
{
    if idx.len() == 0 {
        assert(all_zero(idx));
    } else if idx[0] > 0 {
    } else {
        assert(!all_zero(idx.drop_first())) by {
            let j = choose|j: int| 0 <= j < idx.len() && idx[j] != 0;
            assert(j >= 1);
            assert(idx.drop_first()[j - 1] != 0);
        }
        lemma_first_nonzero(idx.drop_first());
        let f = first_nonzero(idx);
        assert(idx[f] == idx.drop_first()[f - 1]);
        assert forall|j: int| 0 <= j < f implies idx[j] == 0 by {
            if j >= 1 {
                assert(idx[j] == idx.drop_first()[j - 1]);
            }
        }
    }
}

/// Leading zeros do not change the total degree.
pub proof fn lemma_total_of_prepended_zeros(i: nat, sub: Seq<usize>)
    ensures
        seq_total(zero_idx(i) + sub) == seq_total(sub),
    decreases i,
{
    if i == 0 {
        assert(zero_idx(0) + sub =~= sub);
    } else {
        lemma_total_of_prepended_zeros((i - 1) as nat, sub);
        let idx = zero_idx(i) + sub;
        assert(idx[0] == 0);
        assert(idx.drop_first() =~= zero_idx((i - 1) as nat) + sub);
    }
}

/// A multi-index of zeros followed by an all-zero tail is all zero.
proof fn lemma_all_zero_prepend(i: nat, sub: Seq<usize>)
    requires
        all_zero(sub),
    ensures
        all_zero(zero_idx(i) + sub),
{
    let idx = zero_idx(i) + sub;
    assert forall|j: int| 0 <= j < idx.len() implies idx[j] == 0 by {
        if j >= i {
            assert(idx[j] == sub[j - i]);
        }
    }
}

/// In one variable, the multi-index of degree `j` sits at slot `j`.
pub proof fn lemma_offset_of_single(j: usize, order: nat)
    requires
        j <= order,
    ensures
        spec_offset_of(seq![j], 1, order) == j,
    decreases j,
{
    let idx = seq![j];
    assert(idx.drop_first() =~= Seq::<usize>::empty());
    if j > 0 {
        lemma_offset_of_single((j - 1) as usize, (order - 1) as nat);
        assert(idx.update(0, (j - 1) as usize) =~= seq![(j - 1) as usize]);
        assert(spec_offset_of(idx, 1, order) == 1 + spec_offset_of(
            seq![(j - 1) as usize],
            1,
            (order - 1) as nat,
        ));
    } else {
        assert(spec_offset_of(Seq::<usize>::empty(), 0, order) == 0);
    }
}

/// Counts the multi-indices of length `n` with total degree at most `order`
/// by direct enumeration over the first entry.
pub open spec fn tuple_count(n: nat, order: nat) -> nat
    decreases n, order + 2,
{
    if n == 0 {
        1
    } else {
        tuple_count_from((n - 1) as nat, order, 0)
    }
}

/// Sum of `tuple_count(n, order - v)` over first entries `v` in `i..=order`.
pub open spec fn tuple_count_from(n: nat, order: nat, i: nat) -> nat
    decreases n + 1, order + 1 - i,
{
    if i > order {
        0
    } else {
        tuple_count(n, (order - i) as nat) + tuple_count_from(n, order, (i + 1) as nat)
    }
}

/// Dropping the first summand of the enumeration is the same as lowering the
/// available degree by one.
proof fn lemma_tuple_count_from_shift(n: nat, order: nat, i: nat)
    requires
        order >= 1,
        i <= order - 1,
    ensures
        tuple_count_from(n, order, (i + 1) as nat) == tuple_count_from(n, (order - 1) as nat, i),
    decreases order - i,
{
    if i < order - 1 {
        lemma_tuple_count_from_shift(n, order, (i + 1) as nat);
        assert(tuple_count_from(n, order, (i + 1) as nat) == tuple_count(n, (order - i - 1) as nat)
            + tuple_count_from(n, order, (i + 2) as nat));
        assert(tuple_count_from(n, (order - 1) as nat, i) == tuple_count(n, (order - 1 - i) as nat)
            + tuple_count_from(n, (order - 1) as nat, (i + 1) as nat));
    } else {
        assert(tuple_count_from(n, order, (i + 1) as nat) == tuple_count(n, 0) + tuple_count_from(
            n,
            order,
            (i + 2) as nat,
        ));
        assert(tuple_count_from(n, order, (i + 2) as nat) == 0);
        assert(tuple_count_from(n, (order - 1) as nat, i) == tuple_count(n, 0) + tuple_count_from(
            n,
            (order - 1) as nat,
            (i + 1) as nat,
        ));
        assert(tuple_count_from(n, (order - 1) as nat, (i + 1) as nat) == 0);
    }
}

/// The packed buffer holds exactly one coefficient per multi-index of length
/// `n` with total degree at most `order`.
pub proof fn lemma_num_elems_counts_tuples(n: nat, order: nat)
    ensures
        spec_num_elems(n, order) == tuple_count(n, order),
    decreases n + order,
{
    if n == 0 {
    } else if order == 0 {
        lemma_num_elems_counts_tuples((n - 1) as nat, 0);
        assert(tuple_count(n, 0) == tuple_count((n - 1) as nat, 0) + tuple_count_from(
            (n - 1) as nat,
            0,
            1,
        ));
    } else {
        lemma_num_elems_counts_tuples((n - 1) as nat, order);
        lemma_num_elems_counts_tuples(n, (order - 1) as nat);
        lemma_tuple_count_from_shift((n - 1) as nat, order, 0);
        assert(tuple_count(n, order) == tuple_count((n - 1) as nat, order) + tuple_count_from(
            (n - 1) as nat,
            order,
            1,
        ));
        assert(tuple_count(n, (order - 1) as nat) == tuple_count_from(
            (n - 1) as nat,
            (order - 1) as nat,
            0,
        ));
    }
}

/// Partial sums of the block sizes are bounded by the full sum.
pub proof fn lemma_sum_num_elems_mono(n1: nat, n2: nat, order: nat)
    requires
        n1 <= n2,
    ensures
        sum_num_elems(n1, order) <= sum_num_elems(n2, order),
        n1 >= 1 ==> spec_num_elems(n1, order) <= sum_num_elems(n1, order),
    decreases n2,
{
    if n1 == n2 {
        if n1 == 0 {
        } else {
            lemma_sum_num_elems_mono((n1 - 1) as nat, (n1 - 1) as nat, order);
        }
    } else {
        lemma_sum_num_elems_mono(n1, (n2 - 1) as nat, order);
    }
}

} // verus!
