//! The container capability that [`crate::Diff`] stores its coefficients in.
//!
//! A coefficient buffer may be borrowed or owned; every backing container
//! exposes its items as one contiguous sequence and can be turned into an
//! owned buffer.  Mutable containers also allow writing single items in
//! place.

use vstd::prelude::*;

verus! {

/// A buffer that can be converted into an owned buffer of its items.
pub trait IntoOwned: Sized {
    /// The item type the buffer holds.
    type Item;

    /// The item sequence the buffer holds.
    spec fn contents(self) -> Seq<Self::Item>;

    fn into_owned(self) -> (r: Vec<Self::Item>)
        ensures
            r@ == self.contents(),
    ;
}

/// A buffer whose items lie in one contiguous run.
pub trait ContiguousContainer: IntoOwned where Self::Item: Copy {
    fn slice(&self) -> (r: &[Self::Item])
        ensures
            r@ == self.contents(),
    ;

    fn from_slice(s: &[Self::Item]) -> (r: Vec<Self::Item>)
        ensures
            r@ == s@,
    ;
}

/// A contiguous buffer whose items can be written in place.
pub trait ContiguousContainerMut: ContiguousContainer where Self::Item: Copy {
    fn set_item(&mut self, i: usize, v: Self::Item)
        requires
            i < old(self).contents().len(),
        ensures
            final(self).contents() == old(self).contents().update(i as int, v),
    ;

    fn item_mut(&mut self, i: usize) -> (r: &mut Self::Item)
        requires
            i < old(self).contents().len(),
        ensures
            *r == old(self).contents()[i as int],
            final(self).contents() == old(self).contents().update(i as int, *final(r)),
    ;
}

impl<T: Copy> IntoOwned for Vec<T> {
    type Item = T;

    open spec fn contents(self) -> Seq<T> {
        self@
    }

    fn into_owned(self) -> (r: Vec<T>) {
        self
    }
}

impl<T: Copy> ContiguousContainer for Vec<T> {
    fn slice(&self) -> (r: &[T]) {
        self.as_slice()
    }

    fn from_slice(s: &[T]) -> (r: Vec<T>) {
        vstd::slice::slice_to_vec(s)
    }
}

impl<T: Copy> ContiguousContainerMut for Vec<T> {
    fn set_item(&mut self, i: usize, v: T) {
        self[i] = v;
    }

    fn item_mut(&mut self, i: usize) -> (r: &mut T) {
        &mut self[i]
    }
}

impl<'a, T: Copy> IntoOwned for &'a [T] {
    type Item = T;

    open spec fn contents(self) -> Seq<T> {
        self@
    }

    fn into_owned(self) -> (r: Vec<T>) {
        vstd::slice::slice_to_vec(self)
    }
}

impl<'a, T: Copy> ContiguousContainer for &'a [T] {
    fn slice(&self) -> (r: &[T]) {
        *self
    }

    fn from_slice(s: &[T]) -> (r: Vec<T>) {
        vstd::slice::slice_to_vec(s)
    }
}

} // verus!
