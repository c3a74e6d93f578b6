//! The derivatives view: the degree-one-and-above part of a differential.
//!
//! The view is tagged with the order and variable count of its parent.  Its
//! buffer is the parent's buffer without the leading value slot, so the
//! block of each variable starts at the offset that
//! [`crate::spec_offset_under`] gives.

use vstd::prelude::*;

use crate::dim::Dim;
use crate::dim::Dynamic;
use crate::storage::ConstStorage;
use crate::storage::MutStorage;
use crate::utils::lemma_num_elems_pos;
use crate::utils::offset_under;
use crate::utils::spec_num_elems;
use crate::utils::spec_offset_under;
use crate::Diff;
use crate::Scalar;

verus! {

/// The coefficients of degree one and above of a differential, tagged with
/// the shape of their parent.
pub struct Derivatives<Order: Dim, N: Dim, Data: ConstStorage> where Data::Item: Copy {
    /// The truncation order of the parent differential.
    pub order: Order,
    /// The number of variables of the parent differential.
    pub n: N,
    /// The parent's coefficient buffer without its leading value slot.
    pub data: Data,
}

impl<Order: Dim, N: Dim, Data: ConstStorage> Derivatives<Order, N, Data> where Data::Item: Copy {
    /// The truncation order of the parent, as a count.
    pub open spec fn spec_order(self) -> nat {
        self.order.spec_value() as nat
    }

    /// The variable count of the parent.
    pub open spec fn spec_n(self) -> nat {
        self.n.spec_value() as nat
    }

    /// The held coefficient sequence.
    pub open spec fn coeffs(self) -> Seq<Data::Item> {
        self.data.contents()
    }

    /// How many coefficients the parent's shape calls for here: all of the
    /// parent's but the value slot.
    pub open spec fn required_len(self) -> nat {
        (spec_num_elems(self.spec_n(), self.spec_order()) - 1) as nat
    }

    /// The buffer is long enough for the shape, and the shape fits the
    /// machine.
    pub open spec fn valid(self) -> bool {
        spec_num_elems(self.spec_n(), self.spec_order()) <= usize::MAX && self.coeffs().len()
            >= self.required_len()
    }

    /// Tags a buffer of degree-one-and-above coefficients with its parent's
    /// shape.
    pub fn new(order: Order, n: N, data: Data) -> (r: Self)
        ensures
            r.order == order,
            r.n == n,
            r.data == data,
            r.coeffs() == data.contents(),
            r.spec_order() == order.spec_value(),
            r.spec_n() == n.spec_value(),
    {
        Self { order, n, data }
    }

    /// The truncation order of the parent.
    pub fn order(&self) -> (r: usize)
        ensures
            r == self.spec_order(),
    {
        self.order.value()
    }

    /// The variable count of the parent.
    pub fn n(&self) -> (r: usize)
        ensures
            r == self.spec_n(),
    {
        self.n.value()
    }

    /// The held coefficient buffer.
    pub fn data_slice(&self) -> (r: &[Data::Item])
        ensures
            r@ == self.coeffs(),
    {
        self.data.slice()
    }

    /// Hands the underlying buffer back.
    pub fn unwrap_data(self) -> (r: Data)
        ensures
            r == self.data,
            r.contents() == self.coeffs(),
    {
        self.data
    }

    /// An owned copy of the view.
    pub fn into_owned(self) -> (r: Derivatives<Order, N, Vec<Data::Item>>)
        ensures
            r.order == self.order,
            r.n == self.n,
            r.coeffs() == self.coeffs(),
            r.spec_order() == self.spec_order(),
            r.spec_n() == self.spec_n(),
    {
        let order = self.order;
        let n = self.n;
        Derivatives::<Order, N, Vec<Data::Item>>::new(order, n, self.data.into_owned())
    }

    /// The sub-differential of the derivative with respect to variable `i`:
    /// one order lower, over the variables from `i` on, starting at the
    /// block offset of variable `i`.
    pub fn get<'s>(&'s self, i: usize) -> (r: Diff<Dynamic, Dynamic, &'s [Data::Item]>)
        requires
            self.valid(),
            self.spec_order() >= 1,
            i < self.spec_n(),
        ensures
            r.spec_order() == self.spec_order() - 1,
            r.spec_n() == self.spec_n() - i,
            r.valid(),
            r.coeffs() == self.coeffs().subrange(
                spec_offset_under(self.spec_n(), i as nat, self.spec_order()) as int,
                self.coeffs().len() as int,
            ),
    {
        let n = self.n();
        let order = self.order();
        proof {
            crate::utils::lemma_offset_under_block_fits(n as nat, i as nat, order as nat);
            lemma_num_elems_pos((n - i) as nat, (order - 1) as nat);
        }
        let offset = offset_under(n, i, order);
        let s = self.data.slice();
        let data = vstd::slice::slice_subrange(s, offset, s.len());
        Diff::<Dynamic, Dynamic, &'s [Data::Item]>::from_data(
            Dynamic(order - 1),
            Dynamic(n - i),
            data,
        )
    }

    /// The sub-differential for a variable fixed at compile time.
    pub fn fixed_get<'s, const I: usize>(&'s self) -> (r: Diff<Dynamic, Dynamic, &'s [Data::Item]>)
        requires
            self.valid(),
            self.spec_order() >= 1,
            I < self.spec_n(),
        ensures
            r.spec_order() == self.spec_order() - 1,
            r.spec_n() == self.spec_n() - I,
            r.valid(),
            r.coeffs() == self.coeffs().subrange(
                spec_offset_under(self.spec_n(), I as nat, self.spec_order()) as int,
                self.coeffs().len() as int,
            ),
    {
        self.get(I)
    }
}

impl<Order: Dim, N: Dim, Data: ConstStorage> Derivatives<Order, N, Data> where Data::Item: Scalar {
    /// The derivative part of the product rule: for each variable in turn,
    /// the block of that variable times the restriction of the other,
    /// order-lowered factor to the variables from it on.
    pub fn mul<Order2: Dim, N2: Dim, Data2: crate::ContiguousContainer<Item = Data::Item>>(
        &self,
        rhs: &Diff<Order2, N2, Data2>,
    ) -> (r: Derivatives<Order, N, Vec<Data::Item>>)
        requires
            self.valid(),
            rhs.valid(),
            self.spec_order() >= 1,
            self.spec_n() >= 1,
            rhs.spec_order() == self.spec_order() - 1,
            rhs.spec_n() == self.spec_n(),
        ensures
            r.order == self.order,
            r.n == self.n,
            r.coeffs() == crate::arith::mul_blocks(
                self.coeffs(),
                rhs.coeffs(),
                self.spec_n(),
                self.spec_order(),
                0,
            ),
            r.valid(),
    {
        proof {
            crate::utils::lemma_num_elems_mono(
                self.spec_n(),
                (self.spec_order() - 1) as nat,
                self.spec_n(),
                self.spec_order(),
            );
        }
        let data = crate::arith::mul_blocks_coeffs(
            self.data.slice(),
            rhs.data_slice(),
            self.n(),
            self.order(),
        );
        proof {
            crate::arith::lemma_mul_blocks_len(
                self.coeffs(),
                rhs.coeffs(),
                self.spec_n(),
                self.spec_order(),
                0,
            );
            crate::utils::lemma_offset_under_total(self.spec_n(), self.spec_order());
        }
        let order = self.order;
        let n = self.n;
        Derivatives::<Order, N, Vec<Data::Item>>::new(order, n, data)
    }

    /// The elementwise sum of two derivative views of the same shape.
    pub fn add<Order2: Dim, N2: Dim, Data2: ConstStorage<Item = Data::Item>>(
        &self,
        rhs: &Derivatives<Order2, N2, Data2>,
    ) -> (r: Derivatives<Order, N, Vec<Data::Item>>)
        requires
            self.valid(),
            rhs.valid(),
            self.spec_order() == rhs.spec_order(),
            self.spec_n() == rhs.spec_n(),
        ensures
            r.order == self.order,
            r.n == self.n,
            r.valid(),
            r.coeffs() == crate::arith::seq_add_items(
                self.coeffs(),
                rhs.coeffs(),
                self.required_len() as int,
            ),
    {
        proof {
            lemma_num_elems_pos(self.spec_n(), self.spec_order());
        }
        let len = crate::utils::number_of_elements(self.n(), self.order()) - 1;
        let data = crate::arith::add_slices(self.data.slice(), rhs.data_slice(), len);
        let order = self.order;
        let n = self.n;
        Derivatives::<Order, N, Vec<Data::Item>>::new(order, n, data)
    }

    /// The elementwise difference of two derivative views of the same shape.
    pub fn sub<Order2: Dim, N2: Dim, Data2: ConstStorage<Item = Data::Item>>(
        &self,
        rhs: &Derivatives<Order2, N2, Data2>,
    ) -> (r: Derivatives<Order, N, Vec<Data::Item>>)
        requires
            self.valid(),
            rhs.valid(),
            self.spec_order() == rhs.spec_order(),
            self.spec_n() == rhs.spec_n(),
        ensures
            r.order == self.order,
            r.n == self.n,
            r.valid(),
            r.coeffs() == crate::arith::seq_sub_items(
                self.coeffs(),
                rhs.coeffs(),
                self.required_len() as int,
            ),
    {
        proof {
            lemma_num_elems_pos(self.spec_n(), self.spec_order());
        }
        let len = crate::utils::number_of_elements(self.n(), self.order()) - 1;
        let data = crate::arith::sub_slices(self.data.slice(), rhs.data_slice(), len);
        let order = self.order;
        let n = self.n;
        Derivatives::<Order, N, Vec<Data::Item>>::new(order, n, data)
    }

    /// Scales every held coefficient by `rhs` in place.
    pub fn scale_by(&mut self, rhs: Data::Item) where Data: MutStorage
        ensures
            final(self).order == old(self).order,
            final(self).n == old(self).n,
            final(self).coeffs().len() == old(self).coeffs().len(),
            forall|k: int|
                0 <= k < old(self).coeffs().len() ==> final(self).coeffs()[k] == old(
                    self,
                ).coeffs()[k].mul_spec(rhs),
    {
        let len = self.data.slice().len();
        let mut k: usize = 0;
        while k < len
            invariant
                k <= len,
                len == self.coeffs().len(),
                self.order == old(self).order,
                self.n == old(self).n,
                forall|m: int|
                    0 <= m < k ==> self.coeffs()[m] == old(self).coeffs()[m].mul_spec(rhs),
                forall|m: int| k <= m < len ==> self.coeffs()[m] == old(self).coeffs()[m],
            decreases len - k,
        {
            let v = self.data.slice()[k];
            self.data.set_item(k, v.mul(rhs));
            k = k + 1;
        }
    }

    /// The view with every held coefficient scaled by `rhs`.
    pub fn scaled_by(self, rhs: Data::Item) -> (r: Self) where Data: MutStorage
        ensures
            r.order == self.order,
            r.n == self.n,
            r.coeffs().len() == self.coeffs().len(),
            forall|k: int|
                0 <= k < self.coeffs().len() ==> r.coeffs()[k] == self.coeffs()[k].mul_spec(rhs),
    {
        let mut out = self;
        out.scale_by(rhs);
        out
    }

    /// Divides every held coefficient by `rhs` in place.
    pub fn scale_by_inv(&mut self, rhs: Data::Item) where Data: MutStorage
        ensures
            final(self).order == old(self).order,
            final(self).n == old(self).n,
            final(self).coeffs().len() == old(self).coeffs().len(),
            forall|k: int|
                0 <= k < old(self).coeffs().len() ==> final(self).coeffs()[k] == old(
                    self,
                ).coeffs()[k].div_spec(rhs),
    {
        let len = self.data.slice().len();
        let mut k: usize = 0;
        while k < len
            invariant
                k <= len,
                len == self.coeffs().len(),
                self.order == old(self).order,
                self.n == old(self).n,
                forall|m: int|
                    0 <= m < k ==> self.coeffs()[m] == old(self).coeffs()[m].div_spec(rhs),
                forall|m: int| k <= m < len ==> self.coeffs()[m] == old(self).coeffs()[m],
            decreases len - k,
        {
            let v = self.data.slice()[k];
            self.data.set_item(k, v.div(rhs));
            k = k + 1;
        }
    }

    /// The view with every held coefficient divided by `rhs`.
    pub fn scaled_by_inv(self, rhs: Data::Item) -> (r: Self) where Data: MutStorage
        ensures
            r.order == self.order,
            r.n == self.n,
            r.coeffs().len() == self.coeffs().len(),
            forall|k: int|
                0 <= k < self.coeffs().len() ==> r.coeffs()[k] == self.coeffs()[k].div_spec(rhs),
    {
        let mut out = self;
        out.scale_by_inv(rhs);
        out
    }
}

} // verus!
