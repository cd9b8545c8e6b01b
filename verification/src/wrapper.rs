//! One inner array, presented as a single element of an outer sequence.

use vstd::prelude::*;
use crate::serializable::SeqWriter;

verus! {

/// A borrowed fixed-length array that an outer sequence writes as one
/// element. It owns nothing and copies nothing.
pub struct ArrayWrap<'a, T, const N: usize> {
    inner: &'a [T; N],
}

impl<'a, T, const N: usize> View for ArrayWrap<'a, T, N> {
    type V = Seq<T>;

    closed spec fn view(&self) -> Seq<T> {
        self.inner@
    }
}

impl<'a, T, const N: usize> ArrayWrap<'a, T, N> {
    /// Wraps `array`.
    pub fn new(array: &'a [T; N]) -> (r: ArrayWrap<'a, T, N>)
        ensures
            r@ == array@,
    {
        ArrayWrap { inner: array }
    }

    /// The array that was wrapped.
    pub fn array(&self) -> (r: &'a [T; N])
        ensures
            r@ == self@,
    {
        self.inner
    }

    /// Starts the encoding of the wrapped array: that of the array itself.
    pub fn serialize(&self) -> (w: SeqWriter)
        ensures
            w == crate::serializable::flat_writer(N as nat),
    {
        crate::serialize::<[T; N], T, N>(self.inner)
    }
}

} // verus!
