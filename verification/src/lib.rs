//! A higher-order, multivariate automatic-differentiation engine.
//!
//! A [`Diff`] packs the coefficients of a truncated multivariate Taylor
//! expansion into one flat buffer: the coefficient at multi-index
//! `(i_1, ..., i_n)` is the raw partial derivative divided by the product of
//! the factorials of the entries.  The index arithmetic maps a multi-index
//! to its slot in that buffer, and the arithmetic methods combine two such
//! expansions while respecting the truncation order.

use vstd::prelude::*;

pub mod arith;
mod containers;
mod derivatives;
mod dim;
mod dual;
mod scalar;
pub mod storage;
mod utils;

pub use containers::ContiguousContainer;
pub use containers::ContiguousContainerMut;
pub use containers::IntoOwned;
pub use derivatives::Derivatives;
pub use dim::Dim;
pub use dim::Dynamic;
pub use dim::Fixed;
pub use dual::Differential;
pub use scalar::Scalar;
pub use utils::all_zero;
pub use utils::number_of_elements;
pub use utils::offset_of;
pub use utils::offset_of_impl;
pub use utils::offset_under;
pub use utils::seq_total;
pub use utils::spec_num_elems;
pub use utils::spec_offset_of;
pub use utils::spec_offset_under;
pub use utils::lemma_num_elems_counts_tuples;
pub use utils::lemma_offset_of_in_range;
pub use utils::lemma_offset_of_injective;
pub use utils::lemma_offset_of_surjective;
pub use utils::spec_index_of;
pub use utils::tuple_count;

use utils::lemma_num_elems_pos;
use utils::lemma_offset_under_order_zero;
use utils::lemma_offset_under_suffix_fits;

verus! {

/// A packed multivariate truncated Taylor expansion: a value and the tensor
/// of its Taylor-normalized partial derivatives, up to a truncation order.
pub struct Diff<Order: Dim, N: Dim, Data: ContiguousContainer> where Data::Item: Copy {
    /// The truncation order.
    pub order: Order,
    /// The number of variables.
    pub n: N,
    /// The packed coefficient buffer.
    pub data: Data,
}

impl<Order: Dim, N: Dim, Data: ContiguousContainer> Diff<Order, N, Data> where Data::Item: Copy {
    /// The truncation order, as a count.
    pub open spec fn spec_order(self) -> nat {
        self.order.spec_value() as nat
    }

    /// The variable count.
    pub open spec fn spec_n(self) -> nat {
        self.n.spec_value() as nat
    }

    /// The packed coefficient sequence.
    pub open spec fn coeffs(self) -> Seq<Data::Item> {
        self.data.contents()
    }

    /// How many coefficients the shape of this differential calls for.
    pub open spec fn required_len(self) -> nat {
        spec_num_elems(self.spec_n(), self.spec_order())
    }

    /// The buffer is long enough for the shape, and the shape fits the
    /// machine.
    pub open spec fn valid(self) -> bool {
        self.required_len() <= usize::MAX && self.coeffs().len() >= self.required_len()
    }

    /// Wraps a coefficient buffer as a differential of the given shape.  The
    /// buffer must hold at least one coefficient per multi-index the shape
    /// allows.
    pub fn from_data(order: Order, n: N, data: Data) -> (r: Self)
        requires
            spec_num_elems(n.spec_value() as nat, order.spec_value() as nat) <= usize::MAX,
            data.contents().len() >= spec_num_elems(
                n.spec_value() as nat,
                order.spec_value() as nat,
            ),
        ensures
            r.order == order,
            r.n == n,
            r.coeffs() == data.contents(),
            r.spec_order() == order.spec_value(),
            r.spec_n() == n.spec_value(),
            r.valid(),
    {
        Self { order, n, data }
    }

    /// The truncation order.
    pub fn order(&self) -> (r: usize)
        ensures
            r == self.spec_order(),
    {
        self.order.value()
    }

    /// The number of variables.
    pub fn n(&self) -> (r: usize)
        ensures
            r == self.spec_n(),
    {
        self.n.value()
    }

    /// The degree-zero coefficient: the value of the expanded function at
    /// the evaluation point.
    pub fn value(&self) -> (r: Data::Item)
        requires
            self.valid(),
        ensures
            r == self.coeffs()[0],
    {
        proof {
            lemma_num_elems_pos(self.spec_n(), self.spec_order());
        }
        let s = self.data.slice();
        s[0]
    }

    /// The whole coefficient buffer.
    pub fn data_slice(&self) -> (r: &[Data::Item])
        ensures
            r@ == self.coeffs(),
    {
        self.data.slice()
    }

    /// A view of the coefficients of degree one and above, shaped as this
    /// differential is.
    pub fn derivatives<'s>(&'s self) -> (r: Derivatives<Dynamic, Dynamic, &'s [Data::Item]>)
        requires
            self.valid(),
        ensures
            r.spec_order() == self.spec_order(),
            r.spec_n() == self.spec_n(),
            r.coeffs() == self.coeffs().subrange(1, self.coeffs().len() as int),
            r.valid(),
    {
        proof {
            lemma_num_elems_pos(self.spec_n(), self.spec_order());
        }
        let s = self.data.slice();
        let tail = vstd::slice::slice_subrange(s, 1, s.len());
        Derivatives::<Dynamic, Dynamic, &'s [Data::Item]>::new(
            Dynamic(self.order()),
            Dynamic(self.n()),
            tail,
        )
    }

    /// The same differential with both shape counts carried at run time,
    /// borrowing the same buffer.
    pub fn as_dynamic<'s>(&'s self) -> (r: Diff<Dynamic, Dynamic, &'s [Data::Item]>)
        requires
            self.valid(),
        ensures
            r.spec_order() == self.spec_order(),
            r.spec_n() == self.spec_n(),
            r.coeffs() == self.coeffs(),
            r.valid(),
    {
        Diff::from_data(Dynamic(self.order()), Dynamic(self.n()), self.data.slice())
    }

    /// Restricts the differential to the variables from `offset` on: the
    /// value, then the coefficient blocks of the dropped-variable
    /// multi-indices are skipped.
    pub fn drop_first_derivatives(&self, offset: usize) -> (r: Diff<Dynamic, Dynamic, Vec<Data::Item>>)
        requires
            self.valid(),
            offset <= self.spec_n(),
            self.coeffs().len() <= usize::MAX,
        ensures
            r.spec_order() == self.spec_order(),
            r.spec_n() == self.spec_n() - offset,
            r.valid(),
            r.coeffs() == seq![self.coeffs()[0]] + self.coeffs().subrange(
                1 + spec_offset_under(self.spec_n(), offset as nat, self.spec_order()) as int,
                self.coeffs().len() as int,
            ),
    {
        proof {
            lemma_num_elems_pos(self.spec_n(), self.spec_order());
        }
        let n = self.n();
        let order = self.order();
        let s = self.data.slice();
        let mut out: Vec<Data::Item> = Vec::new();
        out.push(s[0]);
        let start: usize = if order == 0 {
            proof {
                lemma_offset_under_order_zero(n as nat, offset as nat);
            }
            0
        } else {
            offset_under(n, offset, order)
        };
        proof {
            lemma_offset_under_suffix_fits(n as nat, offset as nat, order as nat);
            lemma_num_elems_pos((n - offset) as nat, order as nat);
            assert(1 + start <= spec_num_elems(n as nat, order as nat) <= s@.len());
            assert(out@ =~= seq![s@[0]] + s@.subrange(1 + start, 1 + start));
        }
        let mut k: usize = 1 + start;
        while k < s.len()
            invariant
                1 + start <= k <= s.len(),
                out@ == seq![s@[0]] + s@.subrange(1 + start, k as int),
            decreases s.len() - k,
        {
            out.push(s[k]);
            proof {
                assert(out@ == (seq![s@[0]] + s@.subrange(1 + start, k as int)).push(s@[k as int]));
                assert(out@ =~= seq![s@[0]] + s@.subrange(1 + start, k + 1));
            }
            k = k + 1;
        }
        Diff::from_data(Dynamic(order), Dynamic(n - offset), out)
    }
    /// An owned copy of the differential.
    pub fn into_owned(self) -> (r: Diff<Order, N, Vec<Data::Item>>)
        ensures
            r.order == self.order,
            r.n == self.n,
            r.coeffs() == self.coeffs(),
            r.spec_order() == self.spec_order(),
            r.spec_n() == self.spec_n(),
    {
        let order = self.order;
        let n = self.n;
        Diff::<Order, N, Vec<Data::Item>> { order, n, data: self.data.into_owned() }
    }

    /// The coefficient at the given multi-index.
    pub fn get(&self, index: &[usize]) -> (r: Data::Item)
        requires
            self.valid(),
            index@.len() <= self.spec_n(),
            seq_total(index@) <= self.spec_order(),
        ensures
            r == self.coeffs()[spec_offset_of(index@, self.spec_n(), self.spec_order())],
    {
        let offset = offset_of(index, self.n(), self.order());
        let s = self.data.slice();
        s[offset]
    }
}

impl<Order: Dim, N: Dim, Data: ContiguousContainer> Diff<Order, N, Data> where Data::Item: Scalar {
    /// A mutable handle on the degree-zero coefficient.
    pub fn value_mut(&mut self) -> (r: &mut Data::Item) where Data: ContiguousContainerMut
        requires
            old(self).valid(),
        ensures
            *r == old(self).coeffs()[0],
            final(self).order == old(self).order,
            final(self).n == old(self).n,
            final(self).coeffs() == old(self).coeffs().update(0, *final(r)),
    {
        proof {
            lemma_num_elems_pos(self.spec_n(), self.spec_order());
        }
        self.data.item_mut(0)
    }

    /// Writes the coefficient at the given multi-index.
    pub fn set(&mut self, index: &[usize], v: Data::Item) where Data: ContiguousContainerMut
        requires
            old(self).valid(),
            index@.len() <= old(self).spec_n(),
            seq_total(index@) <= old(self).spec_order(),
        ensures
            final(self).order == old(self).order,
            final(self).n == old(self).n,
            final(self).coeffs() == old(self).coeffs().update(
                spec_offset_of(index@, old(self).spec_n(), old(self).spec_order()),
                v,
            ),
    {
        let offset = offset_of(index, self.n(), self.order());
        self.data.set_item(offset, v);
    }

    /// Adds `rhs` to the degree-zero coefficient in place.
    pub fn add_value(&mut self, rhs: Data::Item) where Data: ContiguousContainerMut
        requires
            old(self).valid(),
        ensures
            final(self).order == old(self).order,
            final(self).n == old(self).n,
            final(self).coeffs() == old(self).coeffs().update(
                0,
                old(self).coeffs()[0].add_spec(rhs),
            ),
    {
        proof {
            lemma_num_elems_pos(self.spec_n(), self.spec_order());
        }
        let v = self.value();
        self.data.set_item(0, v.add(rhs));
    }

    /// The differential with `rhs` added to its degree-zero coefficient.
    pub fn with_added_value(self, rhs: Data::Item) -> (r: Self) where Data: ContiguousContainerMut
        requires
            self.valid(),
        ensures
            r.order == self.order,
            r.n == self.n,
            r.coeffs() == self.coeffs().update(0, self.coeffs()[0].add_spec(rhs)),
    {
        let mut out = self;
        out.add_value(rhs);
        out
    }

    /// Subtracts `rhs` from the degree-zero coefficient in place.
    pub fn sub_value(&mut self, rhs: Data::Item) where Data: ContiguousContainerMut
        requires
            old(self).valid(),
        ensures
            final(self).order == old(self).order,
            final(self).n == old(self).n,
            final(self).coeffs() == old(self).coeffs().update(
                0,
                old(self).coeffs()[0].sub_spec(rhs),
            ),
    {
        proof {
            lemma_num_elems_pos(self.spec_n(), self.spec_order());
        }
        let v = self.value();
        self.data.set_item(0, v.sub(rhs));
    }

    /// The differential with `rhs` subtracted from its degree-zero
    /// coefficient.
    pub fn with_subbed_value(self, rhs: Data::Item) -> (r: Self) where Data: ContiguousContainerMut
        requires
            self.valid(),
        ensures
            r.order == self.order,
            r.n == self.n,
            r.coeffs() == self.coeffs().update(0, self.coeffs()[0].sub_spec(rhs)),
    {
        let mut out = self;
        out.sub_value(rhs);
        out
    }

    /// Scales every coefficient by `rhs` in place.
    pub fn scale_by(&mut self, rhs: Data::Item) where Data: ContiguousContainerMut
        ensures
            final(self).order == old(self).order,
            final(self).n == old(self).n,
            final(self).coeffs().len() == old(self).coeffs().len(),
            forall|k: int|
                0 <= k < old(self).coeffs().len() ==> final(self).coeffs()[k] == old(
                    self,
                ).coeffs()[k].mul_spec(rhs),
    {
        let len = self.data.slice().len();
        let mut k: usize = 0;
        while k < len
            invariant
                k <= len,
                len == self.coeffs().len(),
                self.order == old(self).order,
                self.n == old(self).n,
                forall|m: int|
                    0 <= m < k ==> self.coeffs()[m] == old(self).coeffs()[m].mul_spec(rhs),
                forall|m: int| k <= m < len ==> self.coeffs()[m] == old(self).coeffs()[m],
            decreases len - k,
        {
            let v = self.data.slice()[k];
            self.data.set_item(k, v.mul(rhs));
            k = k + 1;
        }
    }

    /// The differential with every coefficient scaled by `rhs`.
    pub fn scaled_by(self, rhs: Data::Item) -> (r: Self) where Data: ContiguousContainerMut
        ensures
            r.order == self.order,
            r.n == self.n,
            r.coeffs().len() == self.coeffs().len(),
            forall|k: int|
                0 <= k < self.coeffs().len() ==> r.coeffs()[k] == self.coeffs()[k].mul_spec(rhs),
    {
        let mut out = self;
        out.scale_by(rhs);
        out
    }

    /// Divides every coefficient by `rhs` in place.
    pub fn scale_by_inv(&mut self, rhs: Data::Item) where Data: ContiguousContainerMut
        ensures
            final(self).order == old(self).order,
            final(self).n == old(self).n,
            final(self).coeffs().len() == old(self).coeffs().len(),
            forall|k: int|
                0 <= k < old(self).coeffs().len() ==> final(self).coeffs()[k] == old(
                    self,
                ).coeffs()[k].div_spec(rhs),
    {
        let len = self.data.slice().len();
        let mut k: usize = 0;
        while k < len
            invariant
                k <= len,
                len == self.coeffs().len(),
                self.order == old(self).order,
                self.n == old(self).n,
                forall|m: int|
                    0 <= m < k ==> self.coeffs()[m] == old(self).coeffs()[m].div_spec(rhs),
                forall|m: int| k <= m < len ==> self.coeffs()[m] == old(self).coeffs()[m],
            decreases len - k,
        {
            let v = self.data.slice()[k];
            self.data.set_item(k, v.div(rhs));
            k = k + 1;
        }
    }

    /// The differential with every coefficient divided by `rhs`.
    pub fn scaled_by_inv(self, rhs: Data::Item) -> (r: Self) where Data: ContiguousContainerMut
        ensures
            r.order == self.order,
            r.n == self.n,
            r.coeffs().len() == self.coeffs().len(),
            forall|k: int|
                0 <= k < self.coeffs().len() ==> r.coeffs()[k] == self.coeffs()[k].div_spec(rhs),
    {
        let mut out = self;
        out.scale_by_inv(rhs);
        out
    }
}

impl<const ORDER: usize, const N: usize, Data: ContiguousContainer> Diff<
    Fixed<ORDER>,
    Fixed<N>,
    Data,
> where Data::Item: Copy {
    /// The derivatives view with the compile-time shape kept in its tags.
    pub fn fixed_derivatives<'s>(&'s self) -> (r: Derivatives<
        Fixed<ORDER>,
        Fixed<N>,
        &'s [Data::Item],
    >)
        requires
            self.valid(),
        ensures
            r.spec_order() == self.spec_order(),
            r.spec_n() == self.spec_n(),
            r.coeffs() == self.coeffs().subrange(1, self.coeffs().len() as int),
            r.valid(),
    {
        proof {
            lemma_num_elems_pos(self.spec_n(), self.spec_order());
        }
        let s = self.data.slice();
        let tail = vstd::slice::slice_subrange(s, 1, s.len());
        Derivatives::<Fixed<ORDER>, Fixed<N>, &'s [Data::Item]>::new(
            Fixed::<ORDER>,
            Fixed::<N>,
            tail,
        )
    }
}

} // verus!
