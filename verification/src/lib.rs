//! Fixed-length arrays as homogeneous sequences of a serialization framework.
//!
//! The framework's sink and source are driven from outside; this crate holds
//! the decisions: what is written in which order, where a fixed-length array
//! is complete, and which failure a source of the wrong length gives.

pub mod serializable;
pub mod text;
pub mod visitor;
pub mod wrapper;

use vstd::prelude::*;
pub use crate::serializable::Serializable;
use crate::serializable::{flat_writer, lemma_trace_accepted, trace, Ending, SeqWriter};
use crate::visitor::{
    decoded, element_run, elements, lemma_exact_source, replay, ArrayVisitor, DecodeError,
};

verus! {

/// Starts the encoding of `data`, whichever of the supported shapes it has:
/// a sequence of as many elements as `data` has, none of them written yet.
pub fn serialize<A, T, const N: usize>(data: &A) -> (w: SeqWriter) where A: Serializable<T, N>
    ensures
        w == (SeqWriter { kind: data.kind(), len: data.len() as usize, written: 0 }),
        w.len == data.len(),
{
    data.serialize()
}

/// Reads a fixed-length array of `N` elements from a recorded source.
///
/// `source` lists what each request for the next element returned, in order;
/// a request past its end finds the source exhausted.
pub fn deserialize<T, E, const N: usize>(source: Vec<Result<Option<T>, E>>) -> (r: Result<
    [T; N],
    DecodeError<E>,
>)
    ensures
        match decoded(N as nat, source@) {
            Ok(items) => r is Ok && r->Ok_0@ == items,
            Err(e) => r == Err::<[T; N], DecodeError<E>>(e),
        },
{
    let visitor = ArrayVisitor::<T, N>::new();
    assert(replay::<T, E>(visitor@) + source@ =~= source@);
    visitor.visit_seq(source)
}

/// The elements of a flat array that a sink gets which is handed those at
/// `indices`, in that order.
pub open spec fn handed_over<T, const N: usize>(array: &[T; N], indices: Seq<usize>) -> Seq<T> {
    indices.map_values(|index: usize| array.item_model(index as int)->Plain_0)
}

/// Reading back what the encoding of an array wrote gives the array.
///
/// `outcomes` are those of a sink that accepts every call: the opening of
/// the sequence and one write for each element. The encoding then finalizes
/// the sequence, and a source that yields what the sink was handed, in the
/// same order, decodes to an array equal to the one encoded.
pub proof fn lemma_round_trip<T, E, F, const N: usize>(
    array: &[T; N],
    outcomes: Seq<Result<(), F>>,
)
    requires
        outcomes.len() == N + 1,
        forall|i: int| 0 <= i < outcomes.len() ==> (#[trigger] outcomes[i]) is Ok,
    ensures
        trace(flat_writer(N as nat), outcomes).ending == Ending::<F>::Finalized,
        decoded::<T, E>(
            N as nat,
            replay(handed_over(array, trace(flat_writer(N as nat), outcomes).indices)),
        ) == Ok::<Seq<T>, DecodeError<E>>(array@),
{
    lemma_trace_accepted(flat_writer(N as nat), outcomes);
    let written = handed_over(array, trace(flat_writer(N as nat), outcomes).indices);
    let source = replay::<T, E>(written);
    assert(written =~= array@);
    assert(element_run(source, N as int));
    lemma_exact_source(N as nat, source);
    assert(elements(source, N as nat) =~= array@);
}

} // verus!
