//! Arithmetic on packed coefficient buffers.
//!
//! The specs here say, coefficient by coefficient, what each operation
//! returns; the exec functions compute them with loops.  Addition and
//! subtraction work slot by slot.  Multiplication of single-variable
//! differentials is the truncated convolution of their coefficients; the
//! multivariate case is built inductively out of the per-variable blocks of
//! the buffer layout.

use vstd::prelude::*;

use crate::containers::ContiguousContainer;
use crate::containers::ContiguousContainerMut;
use crate::dim::Dim;
use crate::dim::Dynamic;
use crate::scalar::Scalar;
use crate::utils::all_zero;
use crate::utils::first_nonzero;
use crate::utils::lemma_first_nonzero;
use crate::utils::lemma_num_elems_mono;
use crate::utils::lemma_num_elems_one_var;
use crate::utils::lemma_num_elems_pos;
use crate::utils::lemma_offset_of_in_range;
use crate::utils::lemma_offset_of_prepend_zeros;
use crate::utils::lemma_offset_of_single;
use crate::utils::lemma_offset_of_zero;
use crate::utils::lemma_offset_under_block_fits;
use crate::utils::lemma_offset_under_mono;
use crate::utils::lemma_offset_under_step;
use crate::utils::lemma_offset_under_total;
use crate::utils::lemma_seq_total_nonneg;
use crate::utils::lemma_seq_total_zero;
use crate::utils::lemma_total_of_prepended_zeros;
use crate::utils::number_of_elements;
use crate::utils::offset_under;
use crate::utils::seq_total;
use crate::utils::spec_num_elems;
use crate::utils::spec_offset_of;
use crate::utils::spec_offset_under;
use crate::utils::zero_idx;
use crate::Diff;

verus! {

/// The elementwise sum of the first `len` slots of two buffers.
pub open spec fn seq_add_items<T: Scalar>(a: Seq<T>, b: Seq<T>, len: int) -> Seq<T> {
    Seq::new(len as nat, |k: int| a[k].add_spec(b[k]))
}

/// The elementwise difference of the first `len` slots of two buffers.
pub open spec fn seq_sub_items<T: Scalar>(a: Seq<T>, b: Seq<T>, len: int) -> Seq<T> {
    Seq::new(len as nat, |k: int| a[k].sub_spec(b[k]))
}

/// The elementwise negation of the first `len` slots of a buffer.
pub open spec fn seq_neg_items<T: Scalar>(a: Seq<T>, len: int) -> Seq<T> {
    Seq::new(len as nat, |k: int| T::zero_spec().sub_spec(a[k]))
}

pub(crate) fn add_slices<T: Scalar>(a: &[T], b: &[T], len: usize) -> (out: Vec<T>)
    requires
        len <= a@.len(),
        len <= b@.len(),
    ensures
        out@ == seq_add_items(a@, b@, len as int),
{
    let mut out: Vec<T> = Vec::new();
    let mut k: usize = 0;
    while k < len
        invariant
            k <= len <= a@.len(),
            len <= b@.len(),
            out@.len() == k,
            forall|m: int| 0 <= m < k ==> out@[m] == a@[m].add_spec(b@[m]),
        decreases len - k,
    {
        out.push(a[k].add(b[k]));
        k = k + 1;
    }
    proof {
        assert(out@ =~= seq_add_items(a@, b@, len as int));
    }
    out
}

pub(crate) fn sub_slices<T: Scalar>(a: &[T], b: &[T], len: usize) -> (out: Vec<T>)
    requires
        len <= a@.len(),
        len <= b@.len(),
    ensures
        out@ == seq_sub_items(a@, b@, len as int),
{
    let mut out: Vec<T> = Vec::new();
    let mut k: usize = 0;
    while k < len
        invariant
            k <= len <= a@.len(),
            len <= b@.len(),
            out@.len() == k,
            forall|m: int| 0 <= m < k ==> out@[m] == a@[m].sub_spec(b@[m]),
        decreases len - k,
    {
        out.push(a[k].sub(b[k]));
        k = k + 1;
    }
    proof {
        assert(out@ =~= seq_sub_items(a@, b@, len as int));
    }
    out
}

pub(crate) fn neg_slice<T: Scalar>(a: &[T], len: usize) -> (out: Vec<T>)
    requires
        len <= a@.len(),
    ensures
        out@ == seq_neg_items(a@, len as int),
{
    let mut out: Vec<T> = Vec::new();
    let mut k: usize = 0;
    while k < len
        invariant
            k <= len <= a@.len(),
            out@.len() == k,
            forall|m: int| 0 <= m < k ==> out@[m] == T::zero_spec().sub_spec(a@[m]),
        decreases len - k,
    {
        out.push(T::zero().sub(a[k]));
        k = k + 1;
    }
    proof {
        assert(out@ =~= seq_neg_items(a@, len as int));
    }
    out
}

/// The convolution sum for slot `k`, over the first `j` summands: the sum of
/// `l[i] * r[k - i]` for `i` below `j`.
pub open spec fn conv_pre<T: Scalar>(l: Seq<T>, r: Seq<T>, k: int, j: int) -> T
    decreases j,
{
    if j <= 0 {
        T::zero_spec()
    } else {
        conv_pre(l, r, k, j - 1).add_spec(l[j - 1].mul_spec(r[k - (j - 1)]))
    }
}

/// The coefficient of degree `k` of the product of two single-variable
/// expansions: the full convolution sum of slot `k`.
pub open spec fn conv_coeff<T: Scalar>(l: Seq<T>, r: Seq<T>, k: int) -> T {
    conv_pre(l, r, k, k + 1)
}

/// The product of two single-variable expansions truncated at `order`: the
/// Cauchy product of the coefficient buffers.
pub open spec fn spec_mul_single<T: Scalar>(l: Seq<T>, r: Seq<T>, order: nat) -> Seq<T> {
    Seq::new(order + 1, |k: int| conv_coeff(l, r, k))
}

pub(crate) fn mul_single_coeffs<T: Scalar>(l: &[T], r: &[T], order: usize) -> (out: Vec<T>)
    requires
        order < l@.len(),
        order < r@.len(),
        order < usize::MAX,
    ensures
        out@ == spec_mul_single(l@, r@, order as nat),
{
    let mut out: Vec<T> = Vec::new();
    let mut k: usize = 0;
    while k <= order
        invariant
            k <= order + 1,
            order < l@.len(),
            order < r@.len(),
            order < usize::MAX,
            out@.len() == k,
            forall|m: int| 0 <= m < k ==> out@[m] == conv_coeff(l@, r@, m),
        decreases order + 1 - k,
    {
        let mut acc = T::zero();
        let mut i: usize = 0;
        while i <= k
            invariant
                i <= k + 1,
                k <= order < l@.len(),
                order < r@.len(),
                acc == conv_pre(l@, r@, k as int, i as int),
            decreases k + 1 - i,
        {
            acc = acc.add(l[i].mul(r[k - i]));
            i = i + 1;
        }
        out.push(acc);
        k = k + 1;
    }
    proof {
        assert(out@ =~= spec_mul_single(l@, r@, order as nat));
    }
    out
}

/// The coefficient block of variable `i` in a buffer of the given shape:
/// the coefficients of the multi-indices whose first nonzero entry belongs
/// to variable `i`, each with that entry lowered by one — a full buffer of
/// one order less over the variables from `i` on.
pub open spec fn block_of<T>(c: Seq<T>, n: nat, order: nat, i: nat) -> Seq<T> {
    c.subrange(
        1 + spec_offset_under(n, i, order) as int,
        1 + spec_offset_under(n, i, order) as int + spec_num_elems(
            (n - i) as nat,
            (order - 1) as nat,
        ) as int,
    )
}

/// The buffer restricted to the variables from `i` on: the value slot, then
/// the blocks of the kept variables.
pub open spec fn restrict_of<T>(c: Seq<T>, n: nat, order: nat, i: nat) -> Seq<T> {
    seq![c[0]] + c.subrange(
        1 + spec_offset_under(n, i, order) as int,
        spec_num_elems(n, order) as int,
    )
}

/// The buffer truncated to one order less: the coefficient of every
/// multi-index whose total degree still fits is kept in place.
pub open spec fn spec_drop_one<T>(c: Seq<T>, n: nat, order: nat) -> Seq<T>
    decreases order, 1nat, n,
{
    if n == 1 {
        c.take(order as int)
    } else if order <= 1 {
        seq![c[0]]
    } else {
        seq![c[0]] + drop_blocks(c, n, order, 0)
    }
}

/// The concatenation, from variable `i` on, of the order-lowered blocks.
pub open spec fn drop_blocks<T>(c: Seq<T>, n: nat, order: nat, i: nat) -> Seq<T>
    decreases order, 0nat, n - i,
{
    if i >= n || order == 0 {
        Seq::empty()
    } else {
        spec_drop_one(block_of(c, n, order, i), (n - i) as nat, (order - 1) as nat) + drop_blocks(
            c,
            n,
            order,
            (i + 1) as nat,
        )
    }
}

/// A truncated buffer holds exactly the coefficients of the lower order.
pub proof fn lemma_drop_one_len<T>(c: Seq<T>, n: nat, order: nat)
    requires
        n >= 1,
        order >= 1,
        c.len() >= spec_num_elems(n, order),
    ensures
        spec_drop_one(c, n, order).len() == spec_num_elems(n, (order - 1) as nat),
    decreases order, 1nat, n,
{
    if n == 1 {
        lemma_num_elems_one_var(order);
        lemma_num_elems_one_var((order - 1) as nat);
    } else if order == 1 {
    } else {
        lemma_drop_blocks_len(c, n, order, 0);
        lemma_offset_under_total(n, (order - 1) as nat);
    }
}

/// The blocks from variable `i` on fill the tail of the lower-order layout
/// past the block start of variable `i`.
pub proof fn lemma_drop_blocks_len<T>(c: Seq<T>, n: nat, order: nat, i: nat)
    requires
        n >= 1,
        order >= 2,
        i <= n,
        c.len() >= spec_num_elems(n, order),
    ensures
        drop_blocks(c, n, order, i).len() == spec_offset_under(n, n, (order - 1) as nat)
            - spec_offset_under(n, i, (order - 1) as nat),
    decreases order, 0nat, n - i,
{
    lemma_offset_under_mono(n, i, n, (order - 1) as nat);
    if i >= n {
    } else {
        lemma_offset_under_block_fits(n, i, order);
        lemma_num_elems_pos((n - i) as nat, (order - 1) as nat);
        assert(block_of(c, n, order, i).len() == spec_num_elems((n - i) as nat, (order - 1) as nat));
        lemma_drop_one_len(block_of(c, n, order, i), (n - i) as nat, (order - 1) as nat);
        lemma_drop_blocks_len(c, n, order, (i + 1) as nat);
        lemma_offset_under_step(n, i, (order - 1) as nat);
    }
}

/// Truncating keeps every coefficient in place: the slot of a multi-index
/// in the lower-order layout holds the same coefficient that its slot in
/// the original layout held.
pub proof fn lemma_drop_one_preserves<T>(c: Seq<T>, n: nat, order: nat, idx: Seq<usize>)
    requires
        n >= 1,
        order >= 1,
        c.len() >= spec_num_elems(n, order),
        idx.len() == n,
        seq_total(idx) <= order - 1,
    ensures
        spec_drop_one(c, n, order)[spec_offset_of(idx, n, (order - 1) as nat)] == c[spec_offset_of(
            idx,
            n,
            order,
        )],
    decreases order,
{
    lemma_seq_total_nonneg(idx);
    lemma_offset_of_in_range(idx, n, (order - 1) as nat);
    lemma_offset_of_in_range(idx, n, order);
    if n == 1 {
        let j = idx[0];
        assert(idx =~= seq![j]);
        assert(seq_total(idx) == j + seq_total(idx.drop_first()));
        lemma_offset_of_single(j, (order - 1) as nat);
        lemma_offset_of_single(j, order);
        lemma_num_elems_one_var(order);
    } else if all_zero(idx) {
        lemma_offset_of_zero(idx, n, (order - 1) as nat);
        lemma_offset_of_zero(idx, n, order);
        lemma_num_elems_pos(n, order);
    } else {
        lemma_offset_of_zero(idx, n, (order - 1) as nat);
        lemma_seq_total_zero(idx);
        assert(seq_total(idx) >= 1);
        assert(order >= 2);
        lemma_first_nonzero(idx);
        let i = first_nonzero(idx) as nat;
        let sub = idx.subrange(i as int, n as int);
        assert(idx =~= zero_idx(i) + sub);
        lemma_total_of_prepended_zeros(i, sub);
        assert(sub[0] == idx[i as int]);
        assert(sub[0] >= 1);
        let dec = sub.update(0, (sub[0] - 1) as usize);
        assert(dec.drop_first() =~= sub.drop_first());
        lemma_seq_total_nonneg(sub.drop_first());
        assert(seq_total(dec) == seq_total(sub) - 1);
        // locate the slot in both layouts
        lemma_offset_of_prepend_zeros(i, sub, n, (order - 1) as nat);
        lemma_offset_of_prepend_zeros(i, sub, n, order);
        assert(spec_offset_of(sub, (n - i) as nat, (order - 1) as nat) == 1 + spec_offset_of(
            dec,
            (n - i) as nat,
            (order - 2) as nat,
        ));
        assert(spec_offset_of(sub, (n - i) as nat, order) == 1 + spec_offset_of(
            dec,
            (n - i) as nat,
            (order - 1) as nat,
        ));
        let p = spec_offset_of(dec, (n - i) as nat, (order - 2) as nat);
        let q = spec_offset_of(dec, (n - i) as nat, (order - 1) as nat);
        lemma_offset_of_in_range(dec, (n - i) as nat, (order - 2) as nat);
        lemma_offset_of_in_range(dec, (n - i) as nat, (order - 1) as nat);
        // the left side reads inside the dropped block of variable i
        lemma_drop_blocks_index(c, n, order, i, 0, p);
        lemma_offset_under_block_fits(n, i, order);
        let blk = block_of(c, n, order, i);
        assert(blk.len() == spec_num_elems((n - i) as nat, (order - 1) as nat));
        lemma_drop_one_preserves(blk, (n - i) as nat, (order - 1) as nat, dec);
        assert(blk[q] == c[1 + spec_offset_under(n, i, order) + q]);
        assert(spec_offset_of(idx, n, (order - 1) as nat) == spec_offset_under(
            n,
            i,
            (order - 1) as nat,
        ) + 1 + p);
        assert(spec_offset_of(idx, n, order) == spec_offset_under(n, i, order) + 1 + q);
        assert(spec_drop_one(c, n, order)[spec_offset_under(n, i, (order - 1) as nat) + 1 + p]
            == drop_blocks(c, n, order, 0)[spec_offset_under(n, i, (order - 1) as nat) + p]) by {
            lemma_drop_blocks_len(c, n, order, 0);
            lemma_offset_under_step(n, i, (order - 1) as nat);
            lemma_offset_under_mono(n, (i + 1) as nat, n, (order - 1) as nat);
            assert(spec_offset_under(n, i, (order - 1) as nat) + p < drop_blocks(
                c,
                n,
                order,
                0,
            ).len());
        }
    }
}

/// Reading the concatenated blocks from variable `j` on, at the position of
/// variable `i`'s block, reads inside that dropped block.
pub proof fn lemma_drop_blocks_index<T>(c: Seq<T>, n: nat, order: nat, i: nat, j: nat, p: int)
    requires
        n >= 1,
        order >= 2,
        j <= i < n,
        c.len() >= spec_num_elems(n, order),
        0 <= p < spec_num_elems((n - i) as nat, (order - 2) as nat),
    ensures
        drop_blocks(c, n, order, j)[spec_offset_under(n, i, (order - 1) as nat)
            - spec_offset_under(n, j, (order - 1) as nat) + p] == spec_drop_one(
            block_of(c, n, order, i),
            (n - i) as nat,
            (order - 1) as nat,
        )[p],
    decreases i - j,
{
    lemma_offset_under_block_fits(n, j, order);
    lemma_num_elems_pos((n - j) as nat, (order - 1) as nat);
    assert(block_of(c, n, order, j).len() == spec_num_elems((n - j) as nat, (order - 1) as nat));
    lemma_drop_one_len(block_of(c, n, order, j), (n - j) as nat, (order - 1) as nat);
    if j == i {
        assert(drop_blocks(c, n, order, j)[p] == spec_drop_one(
            block_of(c, n, order, i),
            (n - i) as nat,
            (order - 1) as nat,
        )[p]) by {
            lemma_drop_one_len(block_of(c, n, order, i), (n - i) as nat, (order - 1) as nat);
        }
    } else {
        lemma_offset_under_step(n, j, (order - 1) as nat);
        lemma_offset_under_mono(n, (j + 1) as nat, i, (order - 1) as nat);
        lemma_drop_blocks_index(c, n, order, i, (j + 1) as nat, p);
        lemma_drop_blocks_len(c, n, order, j);
        lemma_drop_blocks_len(c, n, order, (j + 1) as nat);
        lemma_offset_under_step(n, i, (order - 1) as nat);
        lemma_offset_under_mono(n, (i + 1) as nat, n, (order - 1) as nat);
        let first = spec_drop_one(block_of(c, n, order, j), (n - j) as nat, (order - 1) as nat);
        let x = spec_offset_under(n, i, (order - 1) as nat) - spec_offset_under(
            n,
            j,
            (order - 1) as nat,
        ) + p;
        assert(first.len() == spec_num_elems((n - j) as nat, (order - 2) as nat));
        assert(x >= first.len());
        assert(drop_blocks(c, n, order, j) == first + drop_blocks(c, n, order, (j + 1) as nat));
        assert(drop_blocks(c, n, order, j)[x] == drop_blocks(c, n, order, (j + 1) as nat)[x
            - first.len()]);
    }
}

/// The product of two packed expansions of the same shape.
///
/// In one variable it is the truncated convolution of the stored
/// coefficients.  With more variables it follows the product rule
/// inductively: the value is the product of the values, and the block of
/// each variable combines one factor's block with the other factor's
/// order-lowered restriction, both ways, added together.
pub open spec fn spec_mul<T: Scalar>(l: Seq<T>, r: Seq<T>, n: nat, order: nat) -> Seq<T>
    decreases order, 1nat, 0nat,
{
    if n == 1 {
        spec_mul_single(l, r, order)
    } else if order == 0 {
        seq![l[0].mul_spec(r[0])]
    } else {
        seq![l[0].mul_spec(r[0])] + seq_add_items(
            mul_blocks(
                l.subrange(1, spec_num_elems(n, order) as int),
                spec_drop_one(r, n, order),
                n,
                order,
                0,
            ),
            mul_blocks(
                r.subrange(1, spec_num_elems(n, order) as int),
                spec_drop_one(l, n, order),
                n,
                order,
                0,
            ),
            spec_num_elems(n, order) - 1,
        )
    }
}

/// The concatenation, from variable `i` on, of the per-variable products:
/// the block of variable `i` in `ltail` times the restriction of the
/// order-lowered factor `r1` to the variables from `i` on.
pub open spec fn mul_blocks<T: Scalar>(ltail: Seq<T>, r1: Seq<T>, n: nat, order: nat, i: nat) -> Seq<
    T,
>
    decreases order, 0nat, n - i,
{
    if i >= n || order == 0 {
        Seq::empty()
    } else {
        spec_mul(
            ltail.subrange(
                spec_offset_under(n, i, order) as int,
                spec_offset_under(n, i, order) as int + spec_num_elems(
                    (n - i) as nat,
                    (order - 1) as nat,
                ) as int,
            ),
            restrict_of(r1, n, (order - 1) as nat, i),
            (n - i) as nat,
            (order - 1) as nat,
        ) + mul_blocks(ltail, r1, n, order, (i + 1) as nat)
    }
}

/// A product buffer has exactly the coefficients its shape calls for.
pub proof fn lemma_mul_len<T: Scalar>(l: Seq<T>, r: Seq<T>, n: nat, order: nat)
    requires
        n >= 1,
    ensures
        spec_mul(l, r, n, order).len() == spec_num_elems(n, order),
{
    if n == 1 {
        lemma_num_elems_one_var(order);
    } else if order == 0 {
    } else {
        lemma_num_elems_pos(n, order);
    }
}

/// The per-variable products from variable `i` on fill the tail of the
/// layout past the block start of variable `i`.
pub proof fn lemma_mul_blocks_len<T: Scalar>(ltail: Seq<T>, r1: Seq<T>, n: nat, order: nat, i: nat)
    requires
        n >= 1,
        order >= 1,
        i <= n,
    ensures
        mul_blocks(ltail, r1, n, order, i).len() == spec_offset_under(n, n, order)
            - spec_offset_under(n, i, order),
    decreases n - i,
{
    lemma_offset_under_mono(n, i, n, order);
    if i >= n {
    } else {
        lemma_mul_len(
            ltail.subrange(
                spec_offset_under(n, i, order) as int,
                spec_offset_under(n, i, order) as int + spec_num_elems(
                    (n - i) as nat,
                    (order - 1) as nat,
                ) as int,
            ),
            restrict_of(r1, n, (order - 1) as nat, i),
            (n - i) as nat,
            (order - 1) as nat,
        );
        lemma_mul_blocks_len(ltail, r1, n, order, (i + 1) as nat);
        lemma_offset_under_step(n, i, order);
    }
}

/// The restriction of a buffer to the variables from `i` on.
pub(crate) fn restrict_coeffs<T: Scalar>(c: &[T], n: usize, order: usize, i: usize) -> (out: Vec<
    T,
>)
    requires
        n >= 1,
        i <= n,
        spec_num_elems(n as nat, order as nat) <= usize::MAX,
        c@.len() >= spec_num_elems(n as nat, order as nat),
    ensures
        out@ == restrict_of(c@, n as nat, order as nat, i as nat),
{
    proof {
        lemma_num_elems_pos(n as nat, order as nat);
        crate::utils::lemma_offset_under_suffix_fits(n as nat, i as nat, order as nat);
        lemma_num_elems_pos((n - i) as nat, order as nat);
    }
    let mut out: Vec<T> = Vec::new();
    out.push(c[0]);
    let start: usize = if order == 0 {
        proof {
            crate::utils::lemma_offset_under_order_zero(n as nat, i as nat);
        }
        0
    } else {
        offset_under(n, i, order)
    };
    let stop = number_of_elements(n, order);
    let mut tail = vstd::slice::slice_to_vec(vstd::slice::slice_subrange(c, 1 + start, stop));
    out.append(&mut tail);
    proof {
        assert(out@ =~= restrict_of(c@, n as nat, order as nat, i as nat));
    }
    out
}

/// The per-variable products of a tail of blocks against an order-lowered
/// factor, concatenated in variable order.
pub(crate) fn mul_blocks_coeffs<T: Scalar>(ltail: &[T], r1: &[T], n: usize, order: usize) -> (out:
    Vec<T>)
    requires
        n >= 1,
        order >= 1,
        spec_num_elems(n as nat, order as nat) <= usize::MAX,
        ltail@.len() >= spec_num_elems(n as nat, order as nat) - 1,
        r1@.len() >= spec_num_elems(n as nat, (order - 1) as nat),
    ensures
        out@ == mul_blocks(ltail@, r1@, n as nat, order as nat, 0),
    decreases order, 0nat,
{
    let mut out: Vec<T> = Vec::new();
    proof {
        assert(out@ + mul_blocks(ltail@, r1@, n as nat, order as nat, 0) =~= mul_blocks(
            ltail@,
            r1@,
            n as nat,
            order as nat,
            0,
        ));
    }
    let mut i: usize = 0;
    while i < n
        invariant
            i <= n,
            n >= 1,
            order >= 1,
            spec_num_elems(n as nat, order as nat) <= usize::MAX,
            ltail@.len() >= spec_num_elems(n as nat, order as nat) - 1,
            r1@.len() >= spec_num_elems(n as nat, (order - 1) as nat),
            out@ + mul_blocks(ltail@, r1@, n as nat, order as nat, i as nat) == mul_blocks(
                ltail@,
                r1@,
                n as nat,
                order as nat,
                0,
            ),
        decreases n - i,
    {
        proof {
            lemma_offset_under_block_fits(n as nat, i as nat, order as nat);
            lemma_offset_under_total(n as nat, order as nat);
            lemma_num_elems_mono((n - i) as nat, (order - 1) as nat, n as nat, order as nat);
            lemma_num_elems_pos((n - i) as nat, (order - 1) as nat);
            crate::utils::lemma_offset_under_suffix_fits(
                n as nat,
                i as nat,
                (order - 1) as nat,
            );
            lemma_num_elems_mono(n as nat, (order - 1) as nat, n as nat, order as nat);
        }
        let start = offset_under(n, i, order);
        let len_b = number_of_elements(n - i, order - 1);
        let block = vstd::slice::slice_subrange(ltail, start, start + len_b);
        let restr = restrict_coeffs(r1, n, order - 1, i);
        proof {
            assert(restr@.len() >= spec_num_elems((n - i) as nat, (order - 1) as nat));
        }
        let mut prod = mul_coeffs(block, restr.as_slice(), n - i, order - 1);
        proof {
            assert((out@ + prod@) + mul_blocks(
                ltail@,
                r1@,
                n as nat,
                order as nat,
                (i + 1) as nat,
            ) =~= out@ + (prod@ + mul_blocks(ltail@, r1@, n as nat, order as nat, (i + 1) as nat)));
        }
        out.append(&mut prod);
        i = i + 1;
    }
    proof {
        assert(out@ =~= out@ + mul_blocks(ltail@, r1@, n as nat, order as nat, n as nat));
    }
    out
}

/// The product of two packed buffers of the same shape.
pub(crate) fn mul_coeffs<T: Scalar>(l: &[T], r: &[T], n: usize, order: usize) -> (out: Vec<T>)
    requires
        n >= 1,
        spec_num_elems(n as nat, order as nat) <= usize::MAX,
        l@.len() >= spec_num_elems(n as nat, order as nat),
        r@.len() >= spec_num_elems(n as nat, order as nat),
    ensures
        out@ == spec_mul(l@, r@, n as nat, order as nat),
    decreases order, 1nat,
{
    proof {
        lemma_num_elems_pos(n as nat, order as nat);
    }
    if n == 1 {
        proof {
            lemma_num_elems_one_var(order as nat);
        }
        if order == 0 {
            let mut out: Vec<T> = Vec::new();
            out.push(l[0].mul(r[0]));
            proof {
                lemma_conv_low(l@, r@);
                assert(out@ =~= spec_mul(l@, r@, n as nat, order as nat));
            }
            out
        } else if order == 1 {
            let mut out: Vec<T> = Vec::new();
            out.push(l[0].mul(r[0]));
            out.push(l[0].mul(r[1]).add(l[1].mul(r[0])));
            proof {
                lemma_conv_low(l@, r@);
                assert(out@ =~= spec_mul(l@, r@, n as nat, order as nat));
            }
            out
        } else if order == 2 {
            let mut out: Vec<T> = Vec::new();
            out.push(l[0].mul(r[0]));
            out.push(l[0].mul(r[1]).add(l[1].mul(r[0])));
            out.push(l[0].mul(r[2]).add(l[1].mul(r[1])).add(l[2].mul(r[0])));
            proof {
                lemma_conv_low(l@, r@);
                assert(out@ =~= spec_mul(l@, r@, n as nat, order as nat));
            }
            out
        } else {
            mul_single_coeffs(l, r, order)
        }
    } else if order == 0 {
        let mut out: Vec<T> = Vec::new();
        out.push(l[0].mul(r[0]));
        proof {
            assert(out@ =~= spec_mul(l@, r@, n as nat, order as nat));
        }
        out
    } else {
        proof {
            lemma_num_elems_mono(n as nat, (order - 1) as nat, n as nat, order as nat);
        }
        let stop = number_of_elements(n, order);
        let l1 = drop_one_coeffs(l, n, order);
        let r1 = drop_one_coeffs(r, n, order);
        proof {
            lemma_drop_one_len(l@, n as nat, order as nat);
            lemma_drop_one_len(r@, n as nat, order as nat);
        }
        let ltail = vstd::slice::slice_subrange(l, 1, stop);
        let rtail = vstd::slice::slice_subrange(r, 1, stop);
        let t1 = mul_blocks_coeffs(ltail, r1.as_slice(), n, order);
        let t2 = mul_blocks_coeffs(rtail, l1.as_slice(), n, order);
        proof {
            lemma_mul_blocks_len(ltail@, r1@, n as nat, order as nat, 0);
            lemma_mul_blocks_len(rtail@, l1@, n as nat, order as nat, 0);
            lemma_offset_under_total(n as nat, order as nat);
        }
        let mut derivs = add_slices(t1.as_slice(), t2.as_slice(), stop - 1);
        let mut out: Vec<T> = Vec::new();
        out.push(l[0].mul(r[0]));
        out.append(&mut derivs);
        proof {
            assert(out@ =~= spec_mul(l@, r@, n as nat, order as nat));
        }
        out
    }
}

/// The whole part of the quotient of two values: what remains after the
/// remainder is taken out, divided by the divisor.
pub open spec fn whole_quotient<T: Scalar>(lv: T, rv: T) -> T {
    lv.sub_spec(lv.rem_spec(rv)).div_spec(rv)
}

/// The scaling factor of slot `i` between Taylor-normalized and raw
/// polynomial coefficients of a single-variable expansion: the factorial of
/// `i`, built in the coefficient ring.
pub open spec fn spec_factorial<T: Scalar>(i: int) -> T
    decreases i,
{
    if i <= 0 {
        T::from_count_spec(1)
    } else {
        spec_factorial::<T>(i - 1).mul_spec(T::from_count_spec(i as usize))
    }
}

/// The numerator coefficient of degree `m` of the long division after the
/// quotient terms of the degrees below `j` have been subtracted out.
pub open spec fn div_partial<T: Scalar>(l: Seq<T>, r: Seq<T>, m: int, j: int) -> T
    decreases j + 1, 0nat,
{
    if j <= 0 {
        l[m]
    } else {
        div_partial(l, r, m, j - 1).sub_spec(div_coeff(l, r, j - 1).mul_spec(r[m - (j - 1)]))
    }
}

/// The quotient coefficient of degree `k` of the polynomial long division
/// of two single-variable expansions: what remains of the numerator's
/// coefficient after the lower quotient terms are eliminated, divided by
/// the divisor's value coefficient.
pub open spec fn div_coeff<T: Scalar>(l: Seq<T>, r: Seq<T>, k: int) -> T
    decreases k + 1, 1nat,
{
    if k < 0 {
        T::zero_spec()
    } else {
        div_partial(l, r, k, k).div_spec(r[0])
    }
}

/// The quotient of two single-variable expansions truncated at `order`.
pub open spec fn spec_div_single<T: Scalar>(l: Seq<T>, r: Seq<T>, order: nat) -> Seq<T> {
    Seq::new(order + 1, |k: int| div_coeff(l, r, k))
}

/// The quotient of two packed expansions of the same shape.
///
/// In one variable it is the polynomial long division.  With more
/// variables it inverts the inductive product rule: the value is the
/// quotient of the values, the order-lowered quotient is computed first,
/// and the block of each variable solves the product-rule equation for the
/// quotient's block.
pub open spec fn spec_div<T: Scalar>(l: Seq<T>, r: Seq<T>, n: nat, order: nat) -> Seq<T>
    decreases order, 1nat, 0nat,
{
    if n == 1 {
        spec_div_single(l, r, order)
    } else if order == 0 {
        seq![l[0].div_spec(r[0])]
    } else {
        seq![l[0].div_spec(r[0])] + div_blocks(
            l.subrange(1, spec_num_elems(n, order) as int),
            r.subrange(1, spec_num_elems(n, order) as int),
            spec_drop_one(r, n, order),
            spec_div(
                spec_drop_one(l, n, order),
                spec_drop_one(r, n, order),
                n,
                (order - 1) as nat,
            ),
            n,
            order,
            0,
        )
    }
}

/// The concatenation, from variable `i` on, of the per-variable quotient
/// blocks: each solves `numerator = quotient * divisor` for the block,
/// subtracting the already-known part and dividing by the divisor's
/// restriction.
pub open spec fn div_blocks<T: Scalar>(
    ltail: Seq<T>,
    rtail: Seq<T>,
    r1: Seq<T>,
    h1: Seq<T>,
    n: nat,
    order: nat,
    i: nat,
) -> Seq<T>
    decreases order, 0nat, n - i,
{
    if i >= n || order == 0 {
        Seq::empty()
    } else {
        spec_div(
            seq_sub_items(
                ltail.subrange(
                    spec_offset_under(n, i, order) as int,
                    spec_offset_under(n, i, order) as int + spec_num_elems(
                        (n - i) as nat,
                        (order - 1) as nat,
                    ) as int,
                ),
                spec_mul(
                    rtail.subrange(
                        spec_offset_under(n, i, order) as int,
                        spec_offset_under(n, i, order) as int + spec_num_elems(
                            (n - i) as nat,
                            (order - 1) as nat,
                        ) as int,
                    ),
                    restrict_of(h1, n, (order - 1) as nat, i),
                    (n - i) as nat,
                    (order - 1) as nat,
                ),
                spec_num_elems((n - i) as nat, (order - 1) as nat) as int,
            ),
            restrict_of(r1, n, (order - 1) as nat, i),
            (n - i) as nat,
            (order - 1) as nat,
        ) + div_blocks(ltail, rtail, r1, h1, n, order, (i + 1) as nat)
    }
}

/// A quotient buffer has exactly the coefficients its shape calls for.
pub proof fn lemma_div_len<T: Scalar>(l: Seq<T>, r: Seq<T>, n: nat, order: nat)
    requires
        n >= 1,
    ensures
        spec_div(l, r, n, order).len() == spec_num_elems(n, order),
    decreases order, 1nat,
{
    if n == 1 {
        lemma_num_elems_one_var(order);
    } else if order == 0 {
    } else {
        lemma_div_blocks_len(
            l.subrange(1, spec_num_elems(n, order) as int),
            r.subrange(1, spec_num_elems(n, order) as int),
            spec_drop_one(r, n, order),
            spec_div(
                spec_drop_one(l, n, order),
                spec_drop_one(r, n, order),
                n,
                (order - 1) as nat,
            ),
            n,
            order,
            0,
        );
        lemma_offset_under_total(n, order);
    }
}

/// The quotient blocks from variable `i` on fill the tail of the layout
/// past the block start of variable `i`.
pub proof fn lemma_div_blocks_len<T: Scalar>(
    ltail: Seq<T>,
    rtail: Seq<T>,
    r1: Seq<T>,
    h1: Seq<T>,
    n: nat,
    order: nat,
    i: nat,
)
    requires
        n >= 1,
        order >= 1,
        i <= n,
    ensures
        div_blocks(ltail, rtail, r1, h1, n, order, i).len() == spec_offset_under(n, n, order)
            - spec_offset_under(n, i, order),
    decreases order, 0nat, n - i,
{
    lemma_offset_under_mono(n, i, n, order);
    if i >= n {
    } else {
        lemma_div_len(
            seq_sub_items(
                ltail.subrange(
                    spec_offset_under(n, i, order) as int,
                    spec_offset_under(n, i, order) as int + spec_num_elems(
                        (n - i) as nat,
                        (order - 1) as nat,
                    ) as int,
                ),
                spec_mul(
                    rtail.subrange(
                        spec_offset_under(n, i, order) as int,
                        spec_offset_under(n, i, order) as int + spec_num_elems(
                            (n - i) as nat,
                            (order - 1) as nat,
                        ) as int,
                    ),
                    restrict_of(h1, n, (order - 1) as nat, i),
                    (n - i) as nat,
                    (order - 1) as nat,
                ),
                spec_num_elems((n - i) as nat, (order - 1) as nat) as int,
            ),
            restrict_of(r1, n, (order - 1) as nat, i),
            (n - i) as nat,
            (order - 1) as nat,
        );
        lemma_div_blocks_len(ltail, rtail, r1, h1, n, order, (i + 1) as nat);
        lemma_offset_under_step(n, i, order);
    }
}

/// The quotient of two packed buffers of the same shape.
pub(crate) fn div_coeffs<T: Scalar>(l: &[T], r: &[T], n: usize, order: usize) -> (out: Vec<T>)
    requires
        n >= 1,
        spec_num_elems(n as nat, order as nat) <= usize::MAX,
        l@.len() >= spec_num_elems(n as nat, order as nat),
        r@.len() >= spec_num_elems(n as nat, order as nat),
    ensures
        out@ == spec_div(l@, r@, n as nat, order as nat),
    decreases order,
{
    proof {
        lemma_num_elems_pos(n as nat, order as nat);
    }
    if n == 1 {
        proof {
            lemma_num_elems_one_var(order as nat);
        }
        let mut data = vstd::slice::slice_to_vec(vstd::slice::slice_subrange(l, 0, order + 1));
        let mut i: usize = 0;
        while i <= order
            invariant
                i <= order + 1,
                data@.len() == order + 1,
                order < usize::MAX,
                l@.len() > order,
                r@.len() > order,
                forall|m: int| 0 <= m < i ==> data@[m] == div_coeff(l@, r@, m),
                forall|m: int| i <= m <= order ==> data@[m] == div_partial(l@, r@, m, i as int),
            decreases order + 1 - i,
        {
            let c = data[i].div(r[0]);
            proof {
                assert(div_coeff(l@, r@, i as int) == div_partial(l@, r@, i as int, i as int)
                    .div_spec(r@[0]));
            }
            data[i] = c;
            let mut j: usize = 1;
            while j <= order - i
                invariant
                    1 <= j <= order - i + 1,
                    i <= order,
                    data@.len() == order + 1,
                    l@.len() > order,
                    r@.len() > order,
                    c == div_coeff(l@, r@, i as int),
                    forall|m: int| 0 <= m <= i ==> data@[m] == div_coeff(l@, r@, m),
                    forall|m: int|
                        i < m < i + j ==> data@[m] == div_partial(l@, r@, m, i + 1),
                    forall|m: int|
                        i + j <= m <= order ==> data@[m] == div_partial(l@, r@, m, i as int),
                decreases order - i + 1 - j,
            {
                let v = data[i + j];
                data[i + j] = v.sub(c.mul(r[j]));
                proof {
                    assert(div_partial(l@, r@, i + j, i + 1) == div_partial(
                        l@,
                        r@,
                        i + j,
                        i as int,
                    ).sub_spec(div_coeff(l@, r@, i as int).mul_spec(r@[i + j - i])));
                }
                j = j + 1;
            }
            i = i + 1;
        }
        proof {
            assert(data@ =~= spec_div(l@, r@, n as nat, order as nat));
        }
        data
    } else if order == 0 {
        let mut out: Vec<T> = Vec::new();
        out.push(l[0].div(r[0]));
        proof {
            assert(out@ =~= spec_div(l@, r@, n as nat, order as nat));
        }
        out
    } else {
        proof {
            lemma_num_elems_mono(n as nat, (order - 1) as nat, n as nat, order as nat);
        }
        let stop = number_of_elements(n, order);
        let l1 = drop_one_coeffs(l, n, order);
        let r1 = drop_one_coeffs(r, n, order);
        proof {
            lemma_drop_one_len(l@, n as nat, order as nat);
            lemma_drop_one_len(r@, n as nat, order as nat);
        }
        let h1 = div_coeffs(l1.as_slice(), r1.as_slice(), n, order - 1);
        proof {
            lemma_div_len(l1@, r1@, n as nat, (order - 1) as nat);
        }
        let ltail = vstd::slice::slice_subrange(l, 1, stop);
        let rtail = vstd::slice::slice_subrange(r, 1, stop);
        let mut out: Vec<T> = Vec::new();
        out.push(l[0].div(r[0]));
        proof {
            assert(out@ + div_blocks(ltail@, rtail@, r1@, h1@, n as nat, order as nat, 0)
                =~= spec_div(l@, r@, n as nat, order as nat));
        }
        let mut i: usize = 0;
        while i < n
            invariant
                i <= n,
                n >= 2,
                order >= 1,
                spec_num_elems(n as nat, order as nat) <= usize::MAX,
                stop == spec_num_elems(n as nat, order as nat),
                l@.len() >= spec_num_elems(n as nat, order as nat),
                r@.len() >= spec_num_elems(n as nat, order as nat),
                ltail@ == l@.subrange(1, spec_num_elems(n as nat, order as nat) as int),
                rtail@ == r@.subrange(1, spec_num_elems(n as nat, order as nat) as int),
                r1@.len() == spec_num_elems(n as nat, (order - 1) as nat),
                h1@.len() == spec_num_elems(n as nat, (order - 1) as nat),
                out@ + div_blocks(ltail@, rtail@, r1@, h1@, n as nat, order as nat, i as nat)
                    == spec_div(l@, r@, n as nat, order as nat),
            decreases n - i,
        {
            proof {
                lemma_offset_under_block_fits(n as nat, i as nat, order as nat);
                lemma_offset_under_total(n as nat, order as nat);
                lemma_num_elems_mono(
                    (n - i) as nat,
                    (order - 1) as nat,
                    n as nat,
                    order as nat,
                );
                lemma_num_elems_pos((n - i) as nat, (order - 1) as nat);
                crate::utils::lemma_offset_under_suffix_fits(
                    n as nat,
                    i as nat,
                    (order - 1) as nat,
                );
            }
            let start = offset_under(n, i, order);
            let len_b = number_of_elements(n - i, order - 1);
            proof {
                assert(ltail@.len() == spec_num_elems(n as nat, order as nat) - 1);
                assert(rtail@.len() == spec_num_elems(n as nat, order as nat) - 1);
                assert(start + len_b <= ltail@.len());
            }
            let lblock = vstd::slice::slice_subrange(ltail, start, start + len_b);
            let rblock = vstd::slice::slice_subrange(rtail, start, start + len_b);
            let restr_h1 = restrict_coeffs(h1.as_slice(), n, order - 1, i);
            let prod = mul_coeffs(rblock, restr_h1.as_slice(), n - i, order - 1);
            proof {
                lemma_mul_len(rblock@, restr_h1@, (n - i) as nat, (order - 1) as nat);
            }
            let num = sub_slices(lblock, prod.as_slice(), len_b);
            let restr_r1 = restrict_coeffs(r1.as_slice(), n, order - 1, i);
            let mut q = div_coeffs(num.as_slice(), restr_r1.as_slice(), n - i, order - 1);
            proof {
                assert(num@ =~= seq_sub_items(
                    ltail@.subrange(
                        spec_offset_under(n as nat, i as nat, order as nat) as int,
                        spec_offset_under(n as nat, i as nat, order as nat) as int
                            + spec_num_elems((n - i) as nat, (order - 1) as nat) as int,
                    ),
                    spec_mul(
                        rtail@.subrange(
                            spec_offset_under(n as nat, i as nat, order as nat) as int,
                            spec_offset_under(n as nat, i as nat, order as nat) as int
                                + spec_num_elems((n - i) as nat, (order - 1) as nat) as int,
                        ),
                        restrict_of(h1@, n as nat, (order - 1) as nat, i as nat),
                        (n - i) as nat,
                        (order - 1) as nat,
                    ),
                    spec_num_elems((n - i) as nat, (order - 1) as nat) as int,
                ));
                assert((out@ + q@) + div_blocks(
                    ltail@,
                    rtail@,
                    r1@,
                    h1@,
                    n as nat,
                    order as nat,
                    (i + 1) as nat,
                ) =~= out@ + (q@ + div_blocks(
                    ltail@,
                    rtail@,
                    r1@,
                    h1@,
                    n as nat,
                    order as nat,
                    (i + 1) as nat,
                )));
            }
            out.append(&mut q);
            i = i + 1;
        }
        proof {
            assert(out@ =~= out@ + div_blocks(
                ltail@,
                rtail@,
                r1@,
                h1@,
                n as nat,
                order as nat,
                n as nat,
            ));
        }
        out
    }
}

impl<Order: Dim, N: Dim, T: Scalar> Diff<Order, N, Vec<T>> {
    /// Replaces `self` by the product with `rhs`.
    pub fn mul_assign<Data2: ContiguousContainer<Item = T>>(&mut self, rhs: &Diff<Order, N, Data2>)
        requires
            old(self).valid(),
            rhs.valid(),
            old(self).spec_n() >= 1,
            old(self).spec_order() == rhs.spec_order(),
            old(self).spec_n() == rhs.spec_n(),
        ensures
            final(self).order == old(self).order,
            final(self).n == old(self).n,
            final(self).valid(),
            final(self).coeffs() == spec_mul(
                old(self).coeffs(),
                rhs.coeffs(),
                old(self).spec_n(),
                old(self).spec_order(),
            ),
    {
        let prod = self.mul(rhs);
        *self = prod;
    }

    /// Replaces `self` by the quotient by `rhs`.
    pub fn div_assign<Data2: ContiguousContainer<Item = T>>(&mut self, rhs: &Diff<Order, N, Data2>)
        requires
            old(self).valid(),
            rhs.valid(),
            old(self).spec_n() >= 1,
            old(self).spec_order() == rhs.spec_order(),
            old(self).spec_n() == rhs.spec_n(),
        ensures
            final(self).order == old(self).order,
            final(self).n == old(self).n,
            final(self).valid(),
            final(self).coeffs() == spec_div(
                old(self).coeffs(),
                rhs.coeffs(),
                old(self).spec_n(),
                old(self).spec_order(),
            ),
    {
        let quot = self.div(rhs);
        *self = quot;
    }

    /// Replaces `self` by the remainder by `rhs`.
    pub fn rem_assign<Data2: ContiguousContainer<Item = T>>(&mut self, rhs: &Diff<Order, N, Data2>)
        requires
            old(self).valid(),
            rhs.valid(),
            old(self).spec_order() == rhs.spec_order(),
            old(self).spec_n() == rhs.spec_n(),
        ensures
            final(self).order == old(self).order,
            final(self).n == old(self).n,
            final(self).valid(),
            final(self).coeffs().len() == old(self).required_len(),
            final(self).coeffs()[0] == old(self).coeffs()[0].rem_spec(rhs.coeffs()[0]),
            forall|k: int|
                1 <= k < old(self).required_len() ==> final(self).coeffs()[k] == old(
                    self,
                ).coeffs()[k].sub_spec(
                    rhs.coeffs()[k].mul_spec(
                        whole_quotient(old(self).coeffs()[0], rhs.coeffs()[0]),
                    ),
                ),
    {
        let rem = self.rem(rhs);
        *self = rem;
    }
}

/// Adding a differential and then subtracting it again gives every
/// coefficient back: `a + b - b == a` elementwise, for matching shapes.
pub proof fn lemma_add_sub_roundtrip<T: Scalar>(a: Seq<T>, b: Seq<T>, len: int)
    ensures
        forall|k: int|
            0 <= k < len ==> seq_sub_items(seq_add_items(a, b, len), b, len)[k] == a[k],
{
    assert forall|k: int|
        0 <= k < len implies seq_sub_items(seq_add_items(a, b, len), b, len)[k] == a[k] by {
        T::sub_cancels(a[k], b[k]);
    }
}

/// Moving the terms of one convolution sum over to the other, one at a
/// time: at every split point the two partial sums together make the whole.
proof fn lemma_conv_exchange<T: Scalar>(l: Seq<T>, r: Seq<T>, k: int, j: int)
    requires
        0 <= j <= k + 1,
    ensures
        conv_coeff(r, l, k) == conv_pre(r, l, k, k + 1 - j).add_spec(conv_pre(l, r, k, j)),
    decreases j,
{
    if j == 0 {
        T::add_zero(conv_pre(r, l, k, k + 1));
    } else {
        lemma_conv_exchange(l, r, k, j - 1);
        let rest = conv_pre(r, l, k, k + 1 - j);
        let s = r[k - (j - 1)].mul_spec(l[j - 1]);
        let t = l[j - 1].mul_spec(r[k - (j - 1)]);
        assert(conv_pre(r, l, k, k + 2 - j) == rest.add_spec(s)) by {
            assert(k - (k + 1 - j) == j - 1);
        }
        T::mul_commutes(r[k - (j - 1)], l[j - 1]);
        T::add_associates(rest, s, conv_pre(l, r, k, j - 1));
        T::add_commutes(s, conv_pre(l, r, k, j - 1));
    }
}

/// A convolution sum is symmetric in its two factors.
pub proof fn lemma_conv_commutes<T: Scalar>(l: Seq<T>, r: Seq<T>, k: int)
    requires
        k >= 0,
    ensures
        conv_coeff(l, r, k) == conv_coeff(r, l, k),
{
    lemma_conv_exchange(l, r, k, k + 1);
    T::add_zero(conv_pre(l, r, k, k + 1));
    T::add_commutes(T::zero_spec(), conv_pre(l, r, k, k + 1));
}

/// Multiplication is commutative: swapping the factors leaves every
/// coefficient of the product unchanged.
pub proof fn lemma_mul_commutes<T: Scalar>(l: Seq<T>, r: Seq<T>, n: nat, order: nat)
    requires
        n >= 1,
    ensures
        spec_mul(l, r, n, order) == spec_mul(r, l, n, order),
{
    if n == 1 {
        assert forall|k: int|
            0 <= k < order + 1 implies spec_mul_single(l, r, order)[k] == spec_mul_single(
            r,
            l,
            order,
        )[k] by {
            lemma_conv_commutes(l, r, k);
        }
        assert(spec_mul_single(l, r, order) =~= spec_mul_single(r, l, order));
    } else if order == 0 {
        T::mul_commutes(l[0], r[0]);
        assert(spec_mul(l, r, n, order) =~= spec_mul(r, l, n, order));
    } else {
        T::mul_commutes(l[0], r[0]);
        let lt = l.subrange(1, spec_num_elems(n, order) as int);
        let rt = r.subrange(1, spec_num_elems(n, order) as int);
        let ml = mul_blocks(lt, spec_drop_one(r, n, order), n, order, 0);
        let mr = mul_blocks(rt, spec_drop_one(l, n, order), n, order, 0);
        let len = spec_num_elems(n, order) - 1;
        let lhs_tail = seq_add_items(ml, mr, len);
        let rhs_tail = seq_add_items(mr, ml, len);
        assert(lhs_tail.len() == rhs_tail.len());
        assert forall|k: int| 0 <= k < lhs_tail.len() implies lhs_tail[k] == rhs_tail[k] by {
            T::add_commutes(ml[k], mr[k]);
            assert(lhs_tail[k] == ml[k].add_spec(mr[k]));
            assert(rhs_tail[k] == mr[k].add_spec(ml[k]));
        }
        assert(lhs_tail =~= rhs_tail);
        assert(seq![l[0].mul_spec(r[0])] =~= seq![r[0].mul_spec(l[0])]);
        assert(spec_mul(l, r, n, order) == seq![l[0].mul_spec(r[0])] + lhs_tail);
        assert(spec_mul(r, l, n, order) == seq![r[0].mul_spec(l[0])] + rhs_tail);
    }
}

/// The convolution sum of slot `k` over the terms from `i` up: the sum of
/// `l[m] * r[k - m]` for `m` from `i` through `k`, nested to the right.
pub open spec fn conv_suffix<T: Scalar>(l: Seq<T>, r: Seq<T>, k: int, i: int) -> T
    decreases k - i + 1,
{
    if i > k {
        T::zero_spec()
    } else {
        l[i].mul_spec(r[k - i]).add_spec(conv_suffix(l, r, k, i + 1))
    }
}

/// A convolution sum splits at any point into its prefix and its suffix.
proof fn lemma_conv_split<T: Scalar>(l: Seq<T>, r: Seq<T>, k: int, j: int)
    requires
        0 <= j <= k + 1,
    ensures
        conv_pre(l, r, k, j).add_spec(conv_suffix(l, r, k, j)) == conv_coeff(l, r, k),
    decreases k + 1 - j,
{
    if j == k + 1 {
        T::add_zero(conv_pre(l, r, k, k + 1));
    } else {
        lemma_conv_split(l, r, k, j + 1);
        let t = l[j].mul_spec(r[k - j]);
        T::add_associates(conv_pre(l, r, k, j), t, conv_suffix(l, r, k, j + 1));
    }
}

/// While the long division runs, the reduced numerator coefficient of each
/// slot is the still-unconsumed part of its convolution sum.
proof fn lemma_div_partial_is_suffix<T: Scalar>(l: Seq<T>, r: Seq<T>, order: nat, m: int, j: int)
    requires
        0 <= j <= m <= order,
        forall|t: int|
            0 <= t < j ==> div_coeff(#[trigger] spec_mul_single(l, r, order), r, t) == l[t],
    ensures
        div_partial(spec_mul_single(l, r, order), r, m, j) == conv_suffix(l, r, m, j),
    decreases j,
{
    let big = spec_mul_single(l, r, order);
    if j == 0 {
        assert(big[m] == conv_coeff(l, r, m));
        lemma_conv_split(l, r, m, 0);
        T::add_commutes(T::zero_spec(), conv_suffix(l, r, m, 0));
        T::add_zero(conv_suffix(l, r, m, 0));
    } else {
        lemma_div_partial_is_suffix(l, r, order, m, j - 1);
        let t = l[j - 1].mul_spec(r[m - (j - 1)]);
        assert(div_partial(big, r, m, j) == conv_suffix(l, r, m, j - 1).sub_spec(t));
        assert(conv_suffix(l, r, m, j - 1) == t.add_spec(conv_suffix(l, r, m, j)));
        T::add_commutes(t, conv_suffix(l, r, m, j));
        T::sub_cancels(conv_suffix(l, r, m, j), t);
    }
}

/// Each quotient coefficient of the long division of a product by its own
/// second factor is the matching coefficient of the first factor.
proof fn lemma_long_division_inverts<T: Scalar>(l: Seq<T>, r: Seq<T>, order: nat, k: int)
    requires
        0 <= k <= order,
        forall|x: T| #[trigger] x.mul_spec(r[0]).div_spec(r[0]) == x,
    ensures
        div_coeff(spec_mul_single(l, r, order), r, k) == l[k],
    decreases k,
{
    let big = spec_mul_single(l, r, order);
    assert forall|t: int| 0 <= t < k implies div_coeff(
        #[trigger] spec_mul_single(l, r, order),
        r,
        t,
    ) == l[t] by {
        lemma_long_division_inverts(l, r, order, t);
    }
    lemma_div_partial_is_suffix(l, r, order, k, k);
    assert(conv_suffix(l, r, k, k) == l[k].mul_spec(r[0]).add_spec(conv_suffix(l, r, k, k + 1)));
    T::add_zero(l[k].mul_spec(r[0]));
    assert(div_coeff(big, r, k) == div_partial(big, r, k, k).div_spec(r[0]));
}

/// Division is the left inverse of multiplication for single-variable
/// expansions: dividing a product by its second factor gives the first
/// factor back, wherever multiplying by the divisor's value coefficient
/// and dividing again cancels exactly in the coefficient ring.
pub proof fn lemma_div_inverts_mul_single<T: Scalar>(l: Seq<T>, r: Seq<T>, order: nat)
    requires
        forall|x: T| #[trigger] x.mul_spec(r[0]).div_spec(r[0]) == x,
    ensures
        forall|k: int|
            0 <= k <= order ==> spec_div_single(spec_mul_single(l, r, order), r, order)[k] == l[k],
{
    assert forall|k: int|
        0 <= k <= order implies spec_div_single(spec_mul_single(l, r, order), r, order)[k]
        == l[k] by {
        lemma_long_division_inverts(l, r, order, k);
    }
}

/// Four summands regroup freely: `(x + y) + (u + v) == (x + u) + (y + v)`.
proof fn lemma_add_exchange<T: Scalar>(x: T, y: T, u: T, v: T)
    ensures
        x.add_spec(y).add_spec(u.add_spec(v)) == x.add_spec(u).add_spec(y.add_spec(v)),
{
    T::add_associates(x, y, u.add_spec(v));
    T::add_associates(y, u, v);
    T::add_commutes(y, u);
    T::add_associates(u, y, v);
    T::add_associates(x, u, y.add_spec(v));
}

/// A partial convolution sum against a slotwise sum of factors splits into
/// the two partial sums.
proof fn lemma_conv_distributes<T: Scalar>(
    a: Seq<T>,
    s: Seq<T>,
    b: Seq<T>,
    c: Seq<T>,
    k: int,
    j: int,
)
    requires
        0 <= k,
        j <= k + 1,
        forall|m: int| 0 <= m <= k ==> s[m] == b[m].add_spec(c[m]),
    ensures
        conv_pre(a, s, k, j) == conv_pre(a, b, k, j).add_spec(conv_pre(a, c, k, j)),
    decreases j,
{
    if j <= 0 {
        T::add_zero(T::zero_spec());
    } else {
        lemma_conv_distributes(a, s, b, c, k, j - 1);
        let i = j - 1;
        T::mul_distributes(a[i], b[k - i], c[k - i]);
        lemma_add_exchange(
            conv_pre(a, b, k, i),
            conv_pre(a, c, k, i),
            a[i].mul_spec(b[k - i]),
            a[i].mul_spec(c[k - i]),
        );
    }
}

/// Truncation is slotwise: dropping one order from a slotwise sum of
/// buffers gives the slotwise sum of the truncations.
proof fn lemma_drop_one_additive<T: Scalar>(s: Seq<T>, b: Seq<T>, c: Seq<T>, n: nat, order: nat)
    requires
        n >= 1,
        order >= 1,
        spec_num_elems(n, order) <= usize::MAX,
        s.len() >= spec_num_elems(n, order),
        b.len() >= spec_num_elems(n, order),
        c.len() >= spec_num_elems(n, order),
        forall|k: int| 0 <= k < spec_num_elems(n, order) ==> s[k] == b[k].add_spec(c[k]),
    ensures
        forall|q: int|
            0 <= q < spec_num_elems(n, (order - 1) as nat) ==> spec_drop_one(s, n, order)[q]
                == spec_drop_one(b, n, order)[q].add_spec(spec_drop_one(c, n, order)[q]),
{
    lemma_num_elems_one_var(order);
    lemma_num_elems_mono(1, order, n, order);
    assert forall|q: int|
        0 <= q < spec_num_elems(n, (order - 1) as nat) implies spec_drop_one(s, n, order)[q]
        == spec_drop_one(b, n, order)[q].add_spec(spec_drop_one(c, n, order)[q]) by {
        crate::utils::lemma_offset_of_surjective(q, n, (order - 1) as nat);
        let idx = crate::utils::spec_index_of(q, n, (order - 1) as nat);
        lemma_drop_one_preserves(s, n, order, idx);
        lemma_drop_one_preserves(b, n, order, idx);
        lemma_drop_one_preserves(c, n, order, idx);
        crate::utils::lemma_offset_of_in_range(idx, n, order);
    }
}

/// The per-variable product blocks are additive in the order-lowered
/// factor.
proof fn lemma_mul_blocks_distributes<T: Scalar>(
    ta: Seq<T>,
    s1: Seq<T>,
    b1: Seq<T>,
    c1: Seq<T>,
    n: nat,
    order: nat,
    i: nat,
)
    requires
        n >= 1,
        order >= 1,
        i <= n,
        spec_num_elems(n, order) <= usize::MAX,
        ta.len() >= spec_num_elems(n, order) - 1,
        s1.len() >= spec_num_elems(n, (order - 1) as nat),
        b1.len() >= spec_num_elems(n, (order - 1) as nat),
        c1.len() >= spec_num_elems(n, (order - 1) as nat),
        forall|k: int|
            0 <= k < spec_num_elems(n, (order - 1) as nat) ==> s1[k] == b1[k].add_spec(c1[k]),
    ensures
        forall|p: int|
            0 <= p < mul_blocks(ta, s1, n, order, i).len() ==> mul_blocks(ta, s1, n, order, i)[p]
                == mul_blocks(ta, b1, n, order, i)[p].add_spec(mul_blocks(ta, c1, n, order, i)[p]),
    decreases order, 0nat, n - i,
{
    if i >= n {
    } else {
        lemma_offset_under_block_fits(n, i, order);
        crate::utils::lemma_offset_under_suffix_fits(n, i, (order - 1) as nat);
        lemma_num_elems_pos((n - i) as nat, (order - 1) as nat);
        lemma_num_elems_mono((n - i) as nat, (order - 1) as nat, n, order);
        let sou = spec_offset_under(n, i, order) as int;
        let sz = spec_num_elems((n - i) as nat, (order - 1) as nat) as int;
        let blk = ta.subrange(sou, sou + sz);
        let rs = restrict_of(s1, n, (order - 1) as nat, i);
        let rb = restrict_of(b1, n, (order - 1) as nat, i);
        let rc = restrict_of(c1, n, (order - 1) as nat, i);
        assert forall|k: int| 0 <= k < sz implies rs[k] == rb[k].add_spec(rc[k]) by {
            if k == 0 {
                lemma_num_elems_pos(n, (order - 1) as nat);
            } else {
                assert(rs[k] == s1[1 + spec_offset_under(n, i, (order - 1) as nat) + (k - 1)]);
                assert(rb[k] == b1[1 + spec_offset_under(n, i, (order - 1) as nat) + (k - 1)]);
                assert(rc[k] == c1[1 + spec_offset_under(n, i, (order - 1) as nat) + (k - 1)]);
            }
        }
        lemma_mul_distributes_pointwise(blk, rs, rb, rc, (n - i) as nat, (order - 1) as nat);
        lemma_mul_len(blk, rs, (n - i) as nat, (order - 1) as nat);
        lemma_mul_len(blk, rb, (n - i) as nat, (order - 1) as nat);
        lemma_mul_len(blk, rc, (n - i) as nat, (order - 1) as nat);
        lemma_mul_blocks_distributes(ta, s1, b1, c1, n, order, (i + 1) as nat);
        lemma_mul_blocks_len(ta, s1, n, order, i);
        lemma_mul_blocks_len(ta, b1, n, order, i);
        lemma_mul_blocks_len(ta, c1, n, order, i);
        lemma_mul_blocks_len(ta, s1, n, order, (i + 1) as nat);
        lemma_mul_blocks_len(ta, b1, n, order, (i + 1) as nat);
        lemma_mul_blocks_len(ta, c1, n, order, (i + 1) as nat);
        assert forall|p: int|
            0 <= p < mul_blocks(ta, s1, n, order, i).len() implies mul_blocks(
            ta,
            s1,
            n,
            order,
            i,
        )[p] == mul_blocks(ta, b1, n, order, i)[p].add_spec(
            mul_blocks(ta, c1, n, order, i)[p],
        ) by {
            if p < sz {
                assert(mul_blocks(ta, s1, n, order, i)[p] == spec_mul(
                    blk,
                    rs,
                    (n - i) as nat,
                    (order - 1) as nat,
                )[p]);
                assert(mul_blocks(ta, b1, n, order, i)[p] == spec_mul(
                    blk,
                    rb,
                    (n - i) as nat,
                    (order - 1) as nat,
                )[p]);
                assert(mul_blocks(ta, c1, n, order, i)[p] == spec_mul(
                    blk,
                    rc,
                    (n - i) as nat,
                    (order - 1) as nat,
                )[p]);
            } else {
                assert(mul_blocks(ta, s1, n, order, i)[p] == mul_blocks(
                    ta,
                    s1,
                    n,
                    order,
                    (i + 1) as nat,
                )[p - sz]);
                assert(mul_blocks(ta, b1, n, order, i)[p] == mul_blocks(
                    ta,
                    b1,
                    n,
                    order,
                    (i + 1) as nat,
                )[p - sz]);
                assert(mul_blocks(ta, c1, n, order, i)[p] == mul_blocks(
                    ta,
                    c1,
                    n,
                    order,
                    (i + 1) as nat,
                )[p - sz]);
            }
        }
    }
}

/// The per-variable product blocks are additive in the tail of blocks.
proof fn lemma_mul_blocks_distributes_left<T: Scalar>(
    ts: Seq<T>,
    tb: Seq<T>,
    tc: Seq<T>,
    z1: Seq<T>,
    n: nat,
    order: nat,
    i: nat,
)
    requires
        n >= 1,
        order >= 1,
        i <= n,
        spec_num_elems(n, order) <= usize::MAX,
        ts.len() >= spec_num_elems(n, order) - 1,
        tb.len() >= spec_num_elems(n, order) - 1,
        tc.len() >= spec_num_elems(n, order) - 1,
        z1.len() >= spec_num_elems(n, (order - 1) as nat),
        forall|k: int| 0 <= k < spec_num_elems(n, order) - 1 ==> ts[k] == tb[k].add_spec(tc[k]),
    ensures
        forall|p: int|
            0 <= p < mul_blocks(ts, z1, n, order, i).len() ==> mul_blocks(ts, z1, n, order, i)[p]
                == mul_blocks(tb, z1, n, order, i)[p].add_spec(mul_blocks(tc, z1, n, order, i)[p]),
    decreases order, 0nat, n - i,
{
    if i >= n {
    } else {
        lemma_offset_under_block_fits(n, i, order);
        crate::utils::lemma_offset_under_suffix_fits(n, i, (order - 1) as nat);
        lemma_num_elems_pos((n - i) as nat, (order - 1) as nat);
        lemma_num_elems_mono((n - i) as nat, (order - 1) as nat, n, order);
        let sou = spec_offset_under(n, i, order) as int;
        let sz = spec_num_elems((n - i) as nat, (order - 1) as nat) as int;
        let bs = ts.subrange(sou, sou + sz);
        let bb = tb.subrange(sou, sou + sz);
        let bc = tc.subrange(sou, sou + sz);
        let rz = restrict_of(z1, n, (order - 1) as nat, i);
        assert forall|k: int| 0 <= k < sz implies bs[k] == bb[k].add_spec(bc[k]) by {
            assert(bs[k] == ts[sou + k]);
            assert(bb[k] == tb[sou + k]);
            assert(bc[k] == tc[sou + k]);
        }
        assert(rz.len() >= sz) by {
            crate::utils::lemma_offset_under_suffix_fits(n, i, (order - 1) as nat);
        }
        lemma_mul_commutes(bs, rz, (n - i) as nat, (order - 1) as nat);
        lemma_mul_commutes(bb, rz, (n - i) as nat, (order - 1) as nat);
        lemma_mul_commutes(bc, rz, (n - i) as nat, (order - 1) as nat);
        lemma_mul_distributes_pointwise(rz, bs, bb, bc, (n - i) as nat, (order - 1) as nat);
        lemma_mul_len(bs, rz, (n - i) as nat, (order - 1) as nat);
        lemma_mul_len(bb, rz, (n - i) as nat, (order - 1) as nat);
        lemma_mul_len(bc, rz, (n - i) as nat, (order - 1) as nat);
        lemma_mul_blocks_distributes_left(ts, tb, tc, z1, n, order, (i + 1) as nat);
        lemma_mul_blocks_len(ts, z1, n, order, i);
        lemma_mul_blocks_len(tb, z1, n, order, i);
        lemma_mul_blocks_len(tc, z1, n, order, i);
        lemma_mul_blocks_len(ts, z1, n, order, (i + 1) as nat);
        lemma_mul_blocks_len(tb, z1, n, order, (i + 1) as nat);
        lemma_mul_blocks_len(tc, z1, n, order, (i + 1) as nat);
        assert forall|p: int|
            0 <= p < mul_blocks(ts, z1, n, order, i).len() implies mul_blocks(
            ts,
            z1,
            n,
            order,
            i,
        )[p] == mul_blocks(tb, z1, n, order, i)[p].add_spec(
            mul_blocks(tc, z1, n, order, i)[p],
        ) by {
            if p < sz {
                assert(mul_blocks(ts, z1, n, order, i)[p] == spec_mul(
                    bs,
                    rz,
                    (n - i) as nat,
                    (order - 1) as nat,
                )[p]);
                assert(mul_blocks(tb, z1, n, order, i)[p] == spec_mul(
                    bb,
                    rz,
                    (n - i) as nat,
                    (order - 1) as nat,
                )[p]);
                assert(mul_blocks(tc, z1, n, order, i)[p] == spec_mul(
                    bc,
                    rz,
                    (n - i) as nat,
                    (order - 1) as nat,
                )[p]);
            } else {
                assert(mul_blocks(ts, z1, n, order, i)[p] == mul_blocks(
                    ts,
                    z1,
                    n,
                    order,
                    (i + 1) as nat,
                )[p - sz]);
                assert(mul_blocks(tb, z1, n, order, i)[p] == mul_blocks(
                    tb,
                    z1,
                    n,
                    order,
                    (i + 1) as nat,
                )[p - sz]);
                assert(mul_blocks(tc, z1, n, order, i)[p] == mul_blocks(
                    tc,
                    z1,
                    n,
                    order,
                    (i + 1) as nat,
                )[p - sz]);
            }
        }
    }
}

/// Multiplication distributes over addition: multiplying by a slotwise sum
/// of differentials gives the slotwise sum of the products, coefficient by
/// coefficient.
pub proof fn lemma_mul_distributes_pointwise<T: Scalar>(
    a: Seq<T>,
    s: Seq<T>,
    b: Seq<T>,
    c: Seq<T>,
    n: nat,
    order: nat,
)
    requires
        n >= 1,
        spec_num_elems(n, order) <= usize::MAX,
        a.len() >= spec_num_elems(n, order),
        s.len() >= spec_num_elems(n, order),
        b.len() >= spec_num_elems(n, order),
        c.len() >= spec_num_elems(n, order),
        forall|k: int| 0 <= k < spec_num_elems(n, order) ==> s[k] == b[k].add_spec(c[k]),
    ensures
        forall|k: int|
            0 <= k < spec_num_elems(n, order) ==> spec_mul(a, s, n, order)[k] == spec_mul(
                a,
                b,
                n,
                order,
            )[k].add_spec(spec_mul(a, c, n, order)[k]),
    decreases order, 1nat, 0nat,
{
    lemma_num_elems_pos(n, order);
    if n == 1 {
        lemma_num_elems_one_var(order);
        assert forall|k: int|
            0 <= k < spec_num_elems(n, order) implies spec_mul(a, s, n, order)[k] == spec_mul(
            a,
            b,
            n,
            order,
        )[k].add_spec(spec_mul(a, c, n, order)[k]) by {
            lemma_conv_distributes(a, s, b, c, k, k + 1);
        }
    } else if order == 0 {
        assert forall|k: int|
            0 <= k < spec_num_elems(n, order) implies spec_mul(a, s, n, order)[k] == spec_mul(
            a,
            b,
            n,
            order,
        )[k].add_spec(spec_mul(a, c, n, order)[k]) by {
            T::mul_distributes(a[0], b[0], c[0]);
        }
    } else {
        lemma_num_elems_one_var(order);
        lemma_num_elems_mono(1, order, n, order);
        lemma_num_elems_mono(n, (order - 1) as nat, n, order);
        let sne = spec_num_elems(n, order) as int;
        let ta = a.subrange(1, sne);
        let ts = s.subrange(1, sne);
        let tb = b.subrange(1, sne);
        let tc = c.subrange(1, sne);
        lemma_drop_one_len(a, n, order);
        lemma_drop_one_len(s, n, order);
        lemma_drop_one_len(b, n, order);
        lemma_drop_one_len(c, n, order);
        lemma_drop_one_additive(s, b, c, n, order);
        lemma_mul_blocks_distributes(
            ta,
            spec_drop_one(s, n, order),
            spec_drop_one(b, n, order),
            spec_drop_one(c, n, order),
            n,
            order,
            0,
        );
        assert forall|k: int| 0 <= k < sne - 1 implies ts[k] == tb[k].add_spec(tc[k]) by {
            assert(ts[k] == s[1 + k]);
            assert(tb[k] == b[1 + k]);
            assert(tc[k] == c[1 + k]);
        }
        lemma_mul_blocks_distributes_left(ts, tb, tc, spec_drop_one(a, n, order), n, order, 0);
        lemma_mul_blocks_len(ta, spec_drop_one(s, n, order), n, order, 0);
        lemma_mul_blocks_len(ta, spec_drop_one(b, n, order), n, order, 0);
        lemma_mul_blocks_len(ta, spec_drop_one(c, n, order), n, order, 0);
        lemma_mul_blocks_len(ts, spec_drop_one(a, n, order), n, order, 0);
        lemma_mul_blocks_len(tb, spec_drop_one(a, n, order), n, order, 0);
        lemma_mul_blocks_len(tc, spec_drop_one(a, n, order), n, order, 0);
        lemma_offset_under_total(n, order);
        assert forall|k: int|
            0 <= k < spec_num_elems(n, order) implies spec_mul(a, s, n, order)[k] == spec_mul(
            a,
            b,
            n,
            order,
        )[k].add_spec(spec_mul(a, c, n, order)[k]) by {
            if k == 0 {
                T::mul_distributes(a[0], b[0], c[0]);
            } else {
                let p = k - 1;
                let x = mul_blocks(ta, spec_drop_one(b, n, order), n, order, 0)[p];
                let y = mul_blocks(ta, spec_drop_one(c, n, order), n, order, 0)[p];
                let u = mul_blocks(tb, spec_drop_one(a, n, order), n, order, 0)[p];
                let v = mul_blocks(tc, spec_drop_one(a, n, order), n, order, 0)[p];
                assert(mul_blocks(ta, spec_drop_one(s, n, order), n, order, 0)[p] == x.add_spec(
                    y,
                ));
                assert(mul_blocks(ts, spec_drop_one(a, n, order), n, order, 0)[p] == u.add_spec(
                    v,
                ));
                lemma_add_exchange(x, y, u, v);
            }
        }
    }
}

/// In one variable at order one, multiplication is the classic product
/// rule: value times value, and each derivative times the other's value.
pub proof fn lemma_mul_product_rule<T: Scalar>(l: Seq<T>, r: Seq<T>)
    ensures
        spec_mul(l, r, 1, 1) == seq![
            l[0].mul_spec(r[0]),
            l[1].mul_spec(r[0]).add_spec(l[0].mul_spec(r[1])),
        ],
{
    lemma_conv_low(l, r);
    T::add_commutes(l[0].mul_spec(r[1]), l[1].mul_spec(r[0]));
    assert(spec_mul(l, r, 1, 1) =~= seq![
        l[0].mul_spec(r[0]),
        l[1].mul_spec(r[0]).add_spec(l[0].mul_spec(r[1])),
    ]);
}

/// Truncating by one order keeps the stored value, and yields the buffer
/// of the next lower order, so a chain of truncations reaches order zero.
pub proof fn lemma_drop_one_keeps_value<T>(c: Seq<T>, n: nat, order: nat)
    requires
        n >= 1,
        order >= 1,
        c.len() >= spec_num_elems(n, order),
    ensures
        spec_drop_one(c, n, order).len() == spec_num_elems(n, (order - 1) as nat),
        spec_drop_one(c, n, order)[0] == c[0],
{
    lemma_drop_one_len(c, n, order);
    lemma_num_elems_pos(n, order);
    if n == 1 {
        lemma_num_elems_one_var(order);
        assert(spec_drop_one(c, n, order) == c.take(order as int));
        assert(c.take(order as int)[0] == c[0]);
    } else if order == 1 {
        assert(spec_drop_one(c, n, order)[0] == c[0]);
    } else {
        assert(spec_drop_one(c, n, order) == seq![c[0]] + drop_blocks(c, n, order, 0));
        assert((seq![c[0]] + drop_blocks(c, n, order, 0))[0] == c[0]);
    }
}

/// Unrolls the convolution sums of the three lowest degrees.
proof fn lemma_conv_low<T: Scalar>(l: Seq<T>, r: Seq<T>)
    ensures
        conv_coeff(l, r, 0) == l[0].mul_spec(r[0]),
        conv_coeff(l, r, 1) == l[0].mul_spec(r[1]).add_spec(l[1].mul_spec(r[0])),
        conv_coeff(l, r, 2) == l[0].mul_spec(r[2]).add_spec(l[1].mul_spec(r[1])).add_spec(
            l[2].mul_spec(r[0]),
        ),
{
    T::add_zero(l[0].mul_spec(r[0]));
    T::add_zero(l[0].mul_spec(r[1]));
    T::add_zero(l[0].mul_spec(r[2]));
    assert(conv_pre(l, r, 0, 0) == T::zero_spec());
    assert(conv_pre(l, r, 1, 0) == T::zero_spec());
    assert(conv_pre(l, r, 2, 0) == T::zero_spec());
    assert(conv_pre(l, r, 0, 1) == conv_pre(l, r, 0, 0).add_spec(l[0].mul_spec(r[0])));
    assert(conv_pre(l, r, 1, 1) == conv_pre(l, r, 1, 0).add_spec(l[0].mul_spec(r[1])));
    assert(conv_pre(l, r, 1, 2) == conv_pre(l, r, 1, 1).add_spec(l[1].mul_spec(r[0])));
    assert(conv_pre(l, r, 2, 1) == conv_pre(l, r, 2, 0).add_spec(l[0].mul_spec(r[2])));
    assert(conv_pre(l, r, 2, 2) == conv_pre(l, r, 2, 1).add_spec(l[1].mul_spec(r[1])));
    assert(conv_pre(l, r, 2, 3) == conv_pre(l, r, 2, 2).add_spec(l[2].mul_spec(r[0])));
}

pub(crate) fn drop_one_coeffs<T: Scalar>(c: &[T], n: usize, order: usize) -> (out: Vec<T>)
    requires
        n >= 1,
        order >= 1,
        spec_num_elems(n as nat, order as nat) <= usize::MAX,
        c@.len() >= spec_num_elems(n as nat, order as nat),
    ensures
        out@ == spec_drop_one(c@, n as nat, order as nat),
    decreases order,
{
    if n == 1 {
        proof {
            lemma_num_elems_one_var(order as nat);
        }
        let out = vstd::slice::slice_to_vec(vstd::slice::slice_subrange(c, 0, order));
        proof {
            assert(out@ =~= spec_drop_one(c@, n as nat, order as nat));
        }
        out
    } else if order == 1 {
        proof {
            lemma_num_elems_pos(n as nat, order as nat);
        }
        let mut out: Vec<T> = Vec::new();
        out.push(c[0]);
        proof {
            assert(out@ =~= spec_drop_one(c@, n as nat, order as nat));
        }
        out
    } else {
        proof {
            lemma_num_elems_pos(n as nat, order as nat);
        }
        let mut out: Vec<T> = Vec::new();
        out.push(c[0]);
        proof {
            assert(out@ + drop_blocks(c@, n as nat, order as nat, 0) =~= spec_drop_one(
                c@,
                n as nat,
                order as nat,
            ));
        }
        let mut i: usize = 0;
        while i < n
            invariant
                i <= n,
                n >= 2,
                order >= 2,
                spec_num_elems(n as nat, order as nat) <= usize::MAX,
                c@.len() >= spec_num_elems(n as nat, order as nat),
                out@ + drop_blocks(c@, n as nat, order as nat, i as nat) == spec_drop_one(
                    c@,
                    n as nat,
                    order as nat,
                ),
            decreases n - i,
        {
            proof {
                lemma_offset_under_block_fits(n as nat, i as nat, order as nat);
                lemma_num_elems_mono(
                    (n - i) as nat,
                    (order - 1) as nat,
                    n as nat,
                    order as nat,
                );
                lemma_num_elems_pos((n - i) as nat, (order - 1) as nat);
            }
            let start = 1 + offset_under(n, i, order);
            let len_b = number_of_elements(n - i, order - 1);
            let sub = vstd::slice::slice_subrange(c, start, start + len_b);
            proof {
                assert(sub@ =~= block_of(c@, n as nat, order as nat, i as nat));
            }
            let mut dropped = drop_one_coeffs(sub, n - i, order - 1);
            proof {
                assert((out@ + dropped@) + drop_blocks(
                    c@,
                    n as nat,
                    order as nat,
                    (i + 1) as nat,
                ) =~= out@ + (dropped@ + drop_blocks(c@, n as nat, order as nat, (i + 1) as nat)));
            }
            out.append(&mut dropped);
            i = i + 1;
        }
        proof {
            assert(out@ =~= out@ + drop_blocks(c@, n as nat, order as nat, n as nat));
        }
        out
    }
}

impl<Order: Dim, N: Dim, Data: ContiguousContainer> Diff<Order, N, Data> where Data::Item: Scalar {
    /// One order less, same variables: every coefficient whose total degree
    /// still fits keeps its place, the rest are cut off.
    pub fn drop_one_order(&self) -> (r: Diff<Dynamic, Dynamic, Vec<Data::Item>>)
        requires
            self.valid(),
            self.spec_order() >= 1,
            self.spec_n() >= 1,
        ensures
            r.spec_order() == self.spec_order() - 1,
            r.spec_n() == self.spec_n(),
            r.valid(),
            r.coeffs() == spec_drop_one(self.coeffs(), self.spec_n(), self.spec_order()),
    {
        let out = drop_one_coeffs(self.data.slice(), self.n(), self.order());
        proof {
            lemma_drop_one_len(self.coeffs(), self.spec_n(), self.spec_order());
            lemma_num_elems_mono(
                self.spec_n(),
                (self.spec_order() - 1) as nat,
                self.spec_n(),
                self.spec_order(),
            );
        }
        Diff::from_data(Dynamic(self.order() - 1), Dynamic(self.n()), out)
    }

    /// The elementwise sum of two differentials of the same shape.
    pub fn add<Data2: ContiguousContainer<Item = Data::Item>>(
        &self,
        rhs: &Diff<Order, N, Data2>,
    ) -> (r: Diff<Order, N, Vec<Data::Item>>)
        requires
            self.valid(),
            rhs.valid(),
            self.spec_order() == rhs.spec_order(),
            self.spec_n() == rhs.spec_n(),
        ensures
            r.order == self.order,
            r.n == self.n,
            r.valid(),
            r.coeffs() == seq_add_items(self.coeffs(), rhs.coeffs(), self.required_len() as int),
    {
        let len = number_of_elements(self.n(), self.order());
        let data = add_slices(self.data.slice(), rhs.data.slice(), len);
        let order = self.order;
        let n = self.n;
        Diff::from_data(order, n, data)
    }

    /// The elementwise difference of two differentials of the same shape.
    pub fn sub<Data2: ContiguousContainer<Item = Data::Item>>(
        &self,
        rhs: &Diff<Order, N, Data2>,
    ) -> (r: Diff<Order, N, Vec<Data::Item>>)
        requires
            self.valid(),
            rhs.valid(),
            self.spec_order() == rhs.spec_order(),
            self.spec_n() == rhs.spec_n(),
        ensures
            r.order == self.order,
            r.n == self.n,
            r.valid(),
            r.coeffs() == seq_sub_items(self.coeffs(), rhs.coeffs(), self.required_len() as int),
    {
        let len = number_of_elements(self.n(), self.order());
        let data = sub_slices(self.data.slice(), rhs.data.slice(), len);
        let order = self.order;
        let n = self.n;
        Diff::from_data(order, n, data)
    }

    /// The elementwise negation of a differential.
    pub fn neg(&self) -> (r: Diff<Order, N, Vec<Data::Item>>)
        requires
            self.valid(),
        ensures
            r.order == self.order,
            r.n == self.n,
            r.valid(),
            r.coeffs() == seq_neg_items(self.coeffs(), self.required_len() as int),
    {
        let len = number_of_elements(self.n(), self.order());
        let data = neg_slice(self.data.slice(), len);
        let order = self.order;
        let n = self.n;
        Diff::from_data(order, n, data)
    }

    /// Adds `rhs` into `self`, slot by slot, in place.
    pub fn add_assign<Data2: ContiguousContainer<Item = Data::Item>>(
        &mut self,
        rhs: &Diff<Order, N, Data2>,
    ) where Data: ContiguousContainerMut
        requires
            old(self).valid(),
            rhs.valid(),
            old(self).spec_order() == rhs.spec_order(),
            old(self).spec_n() == rhs.spec_n(),
            old(self).coeffs().len() == rhs.coeffs().len(),
        ensures
            final(self).order == old(self).order,
            final(self).n == old(self).n,
            final(self).coeffs() == seq_add_items(
                old(self).coeffs(),
                rhs.coeffs(),
                old(self).coeffs().len() as int,
            ),
    {
        let len = self.data.slice().len();
        let mut k: usize = 0;
        while k < len
            invariant
                k <= len,
                len == self.coeffs().len(),
                len == rhs.coeffs().len(),
                self.order == old(self).order,
                self.n == old(self).n,
                forall|m: int|
                    0 <= m < k ==> self.coeffs()[m] == old(self).coeffs()[m].add_spec(
                        rhs.coeffs()[m],
                    ),
                forall|m: int| k <= m < len ==> self.coeffs()[m] == old(self).coeffs()[m],
            decreases len - k,
        {
            let v = self.data.slice()[k];
            let w = rhs.data.slice()[k];
            self.data.set_item(k, v.add(w));
            k = k + 1;
        }
        proof {
            assert(self.coeffs() =~= seq_add_items(
                old(self).coeffs(),
                rhs.coeffs(),
                old(self).coeffs().len() as int,
            ));
        }
    }

    /// The product of two differentials of the same shape: the truncated
    /// convolution in one variable, the inductive product rule otherwise.
    pub fn mul<Data2: ContiguousContainer<Item = Data::Item>>(
        &self,
        rhs: &Diff<Order, N, Data2>,
    ) -> (r: Diff<Order, N, Vec<Data::Item>>)
        requires
            self.valid(),
            rhs.valid(),
            self.spec_n() >= 1,
            self.spec_order() == rhs.spec_order(),
            self.spec_n() == rhs.spec_n(),
        ensures
            r.order == self.order,
            r.n == self.n,
            r.valid(),
            r.coeffs() == spec_mul(self.coeffs(), rhs.coeffs(), self.spec_n(), self.spec_order()),
    {
        let data = mul_coeffs(self.data.slice(), rhs.data.slice(), self.n(), self.order());
        proof {
            lemma_mul_len(self.coeffs(), rhs.coeffs(), self.spec_n(), self.spec_order());
        }
        let order = self.order;
        let n = self.n;
        Diff::from_data(order, n, data)
    }

    /// The quotient of two differentials of the same shape: the polynomial
    /// long division in one variable, the inverted product rule otherwise.
    /// A divisor whose value coefficient is zero follows the scalar's total
    /// division.
    pub fn div<Data2: ContiguousContainer<Item = Data::Item>>(
        &self,
        rhs: &Diff<Order, N, Data2>,
    ) -> (r: Diff<Order, N, Vec<Data::Item>>)
        requires
            self.valid(),
            rhs.valid(),
            self.spec_n() >= 1,
            self.spec_order() == rhs.spec_order(),
            self.spec_n() == rhs.spec_n(),
        ensures
            r.order == self.order,
            r.n == self.n,
            r.valid(),
            r.coeffs() == spec_div(self.coeffs(), rhs.coeffs(), self.spec_n(), self.spec_order()),
    {
        let data = div_coeffs(self.data.slice(), rhs.data.slice(), self.n(), self.order());
        proof {
            lemma_div_len(self.coeffs(), rhs.coeffs(), self.spec_n(), self.spec_order());
        }
        let order = self.order;
        let n = self.n;
        Diff::from_data(order, n, data)
    }

    /// The remainder: the scalar remainder of the values, and the
    /// derivative coefficients of `self` less those of `rhs` scaled by the
    /// whole quotient of the values.
    pub fn rem<Data2: ContiguousContainer<Item = Data::Item>>(
        &self,
        rhs: &Diff<Order, N, Data2>,
    ) -> (r: Diff<Order, N, Vec<Data::Item>>)
        requires
            self.valid(),
            rhs.valid(),
            self.spec_order() == rhs.spec_order(),
            self.spec_n() == rhs.spec_n(),
        ensures
            r.order == self.order,
            r.n == self.n,
            r.valid(),
            r.coeffs().len() == self.required_len(),
            r.coeffs()[0] == self.coeffs()[0].rem_spec(rhs.coeffs()[0]),
            forall|k: int|
                1 <= k < self.required_len() ==> r.coeffs()[k] == self.coeffs()[k].sub_spec(
                    rhs.coeffs()[k].mul_spec(
                        whole_quotient(self.coeffs()[0], rhs.coeffs()[0]),
                    ),
                ),
    {
        proof {
            lemma_num_elems_pos(self.spec_n(), self.spec_order());
        }
        let len = number_of_elements(self.n(), self.order());
        let ls = self.data.slice();
        let rs = rhs.data.slice();
        let rem0 = ls[0].rem(rs[0]);
        let i_div = ls[0].sub(rem0).div(rs[0]);
        let mut out: Vec<Data::Item> = Vec::new();
        out.push(rem0);
        let mut k: usize = 1;
        while k < len
            invariant
                1 <= k <= len,
                len <= ls@.len(),
                len <= rs@.len(),
                out@.len() == k,
                out@[0] == ls@[0].rem_spec(rs@[0]),
                i_div == whole_quotient(ls@[0], rs@[0]),
                forall|m: int|
                    1 <= m < k ==> out@[m] == ls@[m].sub_spec(rs@[m].mul_spec(i_div)),
            decreases len - k,
        {
            out.push(ls[k].sub(rs[k].mul(i_div)));
            k = k + 1;
        }
        let order = self.order;
        let n = self.n;
        Diff::from_data(order, n, out)
    }

    /// The raw polynomial form of a single-variable expansion: the
    /// coefficient of each degree divided by the factorial of the degree.
    pub fn polynomial_coeffs(&self) -> (r: Vec<Data::Item>)
        requires
            self.valid(),
            self.spec_n() == 1,
        ensures
            r@.len() == self.required_len(),
            forall|k: int|
                0 <= k < r@.len() ==> r@[k] == self.coeffs()[k].div_spec(spec_factorial(k)),
    {
        let len = number_of_elements(self.n(), self.order());
        let s = self.data.slice();
        let mut divider = <Data::Item as Scalar>::from_count(1);
        let mut out: Vec<Data::Item> = Vec::new();
        let mut i: usize = 0;
        while i < len
            invariant
                i <= len,
                len <= s@.len(),
                out@.len() == i,
                divider == spec_factorial::<Data::Item>(i as int),
                forall|m: int| 0 <= m < i ==> out@[m] == s@[m].div_spec(spec_factorial(m)),
            decreases len - i,
        {
            out.push(s[i].div(divider));
            divider = divider.mul(<Data::Item as Scalar>::from_count(i + 1));
            i = i + 1;
        }
        out
    }

    /// Rebuilds a single-variable expansion from its raw polynomial form:
    /// the coefficient of each degree times the factorial of the degree.
    pub fn from_polynomial_coeffs(data: Data, order: Order, n: N) -> (r: Diff<
        Order,
        N,
        Vec<Data::Item>,
    >)
        requires
            n.spec_value() == 1,
            spec_num_elems(1, order.spec_value() as nat) <= usize::MAX,
            data.contents().len() >= spec_num_elems(1, order.spec_value() as nat),
        ensures
            r.order == order,
            r.n == n,
            r.valid(),
            r.coeffs().len() == spec_num_elems(1, order.spec_value() as nat),
            forall|k: int|
                0 <= k < r.coeffs().len() ==> r.coeffs()[k] == data.contents()[k].mul_spec(
                    spec_factorial(k),
                ),
    {
        proof {
            lemma_num_elems_one_var(order.spec_value() as nat);
        }
        let len = number_of_elements(1, order.value());
        let s = data.slice();
        let mut multiplier = <Data::Item as Scalar>::from_count(1);
        let mut out: Vec<Data::Item> = Vec::new();
        let mut i: usize = 0;
        while i < len
            invariant
                i <= len,
                len <= s@.len(),
                out@.len() == i,
                multiplier == spec_factorial::<Data::Item>(i as int),
                forall|m: int| 0 <= m < i ==> out@[m] == s@[m].mul_spec(spec_factorial(m)),
            decreases len - i,
        {
            out.push(s[i].mul(multiplier));
            multiplier = multiplier.mul(<Data::Item as Scalar>::from_count(i + 1));
            i = i + 1;
        }
        Diff::from_data(order, n, out)
    }

    /// Subtracts `rhs` from `self`, slot by slot, in place.
    pub fn sub_assign<Data2: ContiguousContainer<Item = Data::Item>>(
        &mut self,
        rhs: &Diff<Order, N, Data2>,
    ) where Data: ContiguousContainerMut
        requires
            old(self).valid(),
            rhs.valid(),
            old(self).spec_order() == rhs.spec_order(),
            old(self).spec_n() == rhs.spec_n(),
            old(self).coeffs().len() == rhs.coeffs().len(),
        ensures
            final(self).order == old(self).order,
            final(self).n == old(self).n,
            final(self).coeffs() == seq_sub_items(
                old(self).coeffs(),
                rhs.coeffs(),
                old(self).coeffs().len() as int,
            ),
    {
        let len = self.data.slice().len();
        let mut k: usize = 0;
        while k < len
            invariant
                k <= len,
                len == self.coeffs().len(),
                len == rhs.coeffs().len(),
                self.order == old(self).order,
                self.n == old(self).n,
                forall|m: int|
                    0 <= m < k ==> self.coeffs()[m] == old(self).coeffs()[m].sub_spec(
                        rhs.coeffs()[m],
                    ),
                forall|m: int| k <= m < len ==> self.coeffs()[m] == old(self).coeffs()[m],
            decreases len - k,
        {
            let v = self.data.slice()[k];
            let w = rhs.data.slice()[k];
            self.data.set_item(k, v.sub(w));
            k = k + 1;
        }
        proof {
            assert(self.coeffs() =~= seq_sub_items(
                old(self).coeffs(),
                rhs.coeffs(),
                old(self).coeffs().len() as int,
            ));
        }
    }
}

} // verus!
