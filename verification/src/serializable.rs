//! Encoding: the three shapes, and the order of calls on the sink.

use vstd::prelude::*;
use crate::wrapper::ArrayWrap;

verus! {

/// How the sink's sequence is opened.
#[derive(Clone, Copy, PartialEq, Eq, Structural, Debug)]
pub enum SeqKind {
    /// A sequence whose length is fixed by the type.
    Tuple,
    /// A sequence whose length is that of the value.
    Growable,
}

/// An encoding under way: a sequence of `len` elements of which the first
/// `written` were handed to the sink.
#[derive(Clone, Copy, Debug)]
pub struct SeqWriter {
    pub kind: SeqKind,
    pub len: usize,
    pub written: usize,
}

/// The next call on the sink.
pub enum WriteStep<E> {
    /// Write the element at `index`, then go on with `rest`.
    Element { index: usize, rest: SeqWriter },
    /// Every element was written: finalize the sequence.
    End,
    /// The last call failed: stop, with its failure as it came.
    Abort(E),
}

/// The writer with which a flat array of `n` elements starts.
pub open spec fn flat_writer(n: nat) -> SeqWriter {
    SeqWriter { kind: SeqKind::Tuple, len: n as usize, written: 0 }
}

/// The next call of `writer` once the call before it ended as `last`
/// (the first of them opens the sequence).
pub open spec fn write_step<E>(writer: SeqWriter, last: Result<(), E>) -> WriteStep<E> {
    match last {
        Err(e) => WriteStep::Abort(e),
        Ok(_) => if writer.written < writer.len {
            WriteStep::Element {
                index: writer.written,
                rest: SeqWriter { written: (writer.written + 1) as usize, ..writer },
            }
        } else {
            WriteStep::End
        },
    }
}

impl SeqWriter {
    /// A writer for `len` elements, none written.
    pub fn new(kind: SeqKind, len: usize) -> (w: SeqWriter)
        ensures
            w == (SeqWriter { kind, len, written: 0 }),
    {
        SeqWriter { kind, len, written: 0 }
    }

    /// Decides the next call on the sink from how the last one ended.
    ///
    /// Elements are written in order, each once; after the last the sequence
    /// is finalized. A failure stops the encoding at once.
    pub fn next<E>(self, last: Result<(), E>) -> (r: WriteStep<E>)
        ensures
            r == write_step(self, last),
    {
        match last {
            Err(e) => WriteStep::Abort(e),
            Ok(_) => {
                if self.written < self.len {
                    WriteStep::Element {
                        index: self.written,
                        rest: SeqWriter {
                            kind: self.kind,
                            len: self.len,
                            written: self.written + 1,
                        },
                    }
                } else {
                    WriteStep::End
                }
            },
        }
    }
}

/// How a run of calls on the sink ended.
pub ghost enum Ending<E> {
    /// The sequence was finalized.
    Finalized,
    /// A call failed, and nothing was written after it.
    Stopped(E),
    /// The writer waits for the outcome of its last call.
    Waiting(SeqWriter),
}

/// A run of calls on the sink: the indices of the elements handed to it,
/// in the order of the calls, and how the run ended.
pub ghost struct Trace<E> {
    pub indices: Seq<usize>,
    pub ending: Ending<E>,
}

/// The run of `writer` on a sink whose calls end as `outcomes` tell, the
/// first of them being the call that opens the sequence.
pub open spec fn trace<E>(writer: SeqWriter, outcomes: Seq<Result<(), E>>) -> Trace<E>
    decreases outcomes.len(),
{
    if outcomes.len() == 0 {
        Trace { indices: Seq::empty(), ending: Ending::Waiting(writer) }
    } else {
        match write_step(writer, outcomes[0]) {
            WriteStep::Element { index, rest } => {
                let then = trace(rest, outcomes.skip(1));
                Trace { indices: seq![index] + then.indices, ending: then.ending }
            },
            WriteStep::End => Trace { indices: Seq::empty(), ending: Ending::Finalized },
            WriteStep::Abort(e) => Trace { indices: Seq::empty(), ending: Ending::Stopped(e) },
        }
    }
}

/// The indices from `from`, `count` of them.
pub open spec fn indices_from(from: usize, count: nat) -> Seq<usize> {
    Seq::new(count, |i: int| (from + i) as usize)
}

/// On a sink that accepts every call, a writer hands over each element that
/// is left, once and in order, and then finalizes the sequence.
pub proof fn lemma_trace_accepted<E>(writer: SeqWriter, outcomes: Seq<Result<(), E>>)
    requires
        writer.written <= writer.len,
        outcomes.len() == writer.len - writer.written + 1,
        forall|i: int| 0 <= i < outcomes.len() ==> (#[trigger] outcomes[i]) is Ok,
    ensures
        trace(writer, outcomes).indices == indices_from(
            writer.written,
            (writer.len - writer.written) as nat,
        ),
        trace(writer, outcomes).ending == Ending::<E>::Finalized,
    decreases outcomes.len(),
{
    assert(outcomes[0] is Ok);
    if writer.written < writer.len {
        let rest = SeqWriter { written: (writer.written + 1) as usize, ..writer };
        let tail = outcomes.skip(1);
        assert forall|i: int| 0 <= i < tail.len() implies (#[trigger] tail[i]) is Ok by {
            assert(tail[i] == outcomes[i + 1]);
        }
        lemma_trace_accepted(rest, tail);
        assert(trace(writer, outcomes).indices =~= indices_from(
            writer.written,
            (writer.len - writer.written) as nat,
        ));
    } else {
        assert(trace(writer, outcomes).indices =~= indices_from(writer.written, 0));
    }
}

/// Where the call at `failed` is the first to fail, the elements before it
/// were handed over in order, the failure is kept as it came, and nothing
/// is written after it.
pub proof fn lemma_trace_failed<E>(
    writer: SeqWriter,
    outcomes: Seq<Result<(), E>>,
    failed: int,
)
    requires
        0 <= failed < outcomes.len(),
        writer.written + failed <= writer.len,
        forall|i: int| 0 <= i < failed ==> (#[trigger] outcomes[i]) is Ok,
        outcomes[failed] is Err,
    ensures
        trace(writer, outcomes).indices == indices_from(writer.written, failed as nat),
        trace(writer, outcomes).ending == Ending::Stopped(outcomes[failed]->Err_0),
    decreases failed,
{
    if failed == 0 {
        assert(trace(writer, outcomes).indices =~= indices_from(writer.written, 0));
    } else {
        assert(outcomes[0] is Ok);
        let rest = SeqWriter { written: (writer.written + 1) as usize, ..writer };
        let tail = outcomes.skip(1);
        assert forall|i: int| 0 <= i < failed - 1 implies (#[trigger] tail[i]) is Ok by {
            assert(tail[i] == outcomes[i + 1]);
        }
        assert(tail[failed - 1] == outcomes[failed]);
        lemma_trace_failed(rest, tail, failed - 1);
        assert(trace(writer, outcomes).indices =~= indices_from(writer.written, failed as nat));
    }
}

/// One element as the sink gets it.
pub enum Item<'a, T, const N: usize> {
    /// An element that encodes itself.
    Plain(&'a T),
    /// An inner array, to be encoded as a sequence of its own.
    Array(ArrayWrap<'a, T, N>),
}

/// One element as the sink gets it, as plain values.
pub ghost enum ItemModel<T> {
    Plain(T),
    Array(Seq<T>),
}

impl<'a, T, const N: usize> View for Item<'a, T, N> {
    type V = ItemModel<T>;

    open spec fn view(&self) -> ItemModel<T> {
        match *self {
            Item::Plain(value) => ItemModel::Plain(*value),
            Item::Array(wrap) => ItemModel::Array(wrap@),
        }
    }
}

/// What lies on the wire, whatever the encoder: values and nested sequences.
pub ghost enum Wire<T> {
    Value(T),
    Tuple(Seq<Wire<T>>),
    List(Seq<Wire<T>>),
}

/// The wire shape of a flat array.
pub open spec fn flat_wire<T>(items: Seq<T>) -> Wire<T> {
    Wire::Tuple(Seq::new(items.len(), |i: int| Wire::Value(items[i])))
}

/// The wire shape of one element.
pub open spec fn item_wire<T>(item: ItemModel<T>) -> Wire<T> {
    match item {
        ItemModel::Plain(value) => Wire::Value(value),
        ItemModel::Array(items) => flat_wire(items),
    }
}

/// A shape that is written as one sequence of elements.
pub trait Serializable<T, const N: usize> {
    /// How the sequence is opened.
    spec fn kind(&self) -> SeqKind;

    /// The number of elements of the sequence.
    spec fn len(&self) -> nat;

    /// The element at `index`.
    spec fn item_model(&self, index: int) -> ItemModel<T>;

    /// Starts the encoding: the writer that decides the calls on the sink.
    fn serialize(&self) -> (w: SeqWriter)
        ensures
            w == (SeqWriter { kind: self.kind(), len: self.len() as usize, written: 0 }),
            w.len == self.len(),
    ;

    /// The element to hand to the sink at `index`.
    fn item(&self, index: usize) -> (r: Item<'_, T, N>)
        requires
            index < self.len(),
        ensures
            r@ == self.item_model(index as int),
    ;
}

/// The wire shape of `data`: its elements, in order, in one sequence.
pub open spec fn wire<A: Serializable<T, N>, T, const N: usize>(data: &A) -> Wire<T> {
    let items = Seq::new(data.len(), |i: int| item_wire(data.item_model(i)));
    match data.kind() {
        SeqKind::Tuple => Wire::Tuple(items),
        SeqKind::Growable => Wire::List(items),
    }
}

impl<T, const N: usize, const M: usize> Serializable<T, N> for [[T; N]; M] {
    open spec fn kind(&self) -> SeqKind {
        SeqKind::Tuple
    }

    open spec fn len(&self) -> nat {
        M as nat
    }

    open spec fn item_model(&self, index: int) -> ItemModel<T> {
        ItemModel::Array(self@[index]@)
    }

    fn serialize(&self) -> (w: SeqWriter) {
        SeqWriter::new(SeqKind::Tuple, M)
    }

    fn item(&self, index: usize) -> (r: Item<'_, T, N>) {
        Item::Array(ArrayWrap::new(&self[index]))
    }
}

impl<T, const N: usize> Serializable<T, N> for Vec<[T; N]> {
    open spec fn kind(&self) -> SeqKind {
        SeqKind::Growable
    }

    open spec fn len(&self) -> nat {
        self@.len()
    }

    open spec fn item_model(&self, index: int) -> ItemModel<T> {
        ItemModel::Array(self@[index]@)
    }

    fn serialize(&self) -> (w: SeqWriter) {
        SeqWriter::new(SeqKind::Growable, self.len())
    }

    fn item(&self, index: usize) -> (r: Item<'_, T, N>) {
        Item::Array(ArrayWrap::new(&self[index]))
    }
}

impl<T, const N: usize> Serializable<T, N> for [T; N] {
    open spec fn kind(&self) -> SeqKind {
        SeqKind::Tuple
    }

    open spec fn len(&self) -> nat {
        N as nat
    }

    open spec fn item_model(&self, index: int) -> ItemModel<T> {
        ItemModel::Plain(self@[index])
    }

    fn serialize(&self) -> (w: SeqWriter) {
        serialize_as_tuple(self)
    }

    fn item(&self, index: usize) -> (r: Item<'_, T, N>) {
        Item::Plain(&self[index])
    }
}

/// Starts the encoding of a flat array: a fixed-length sequence of its `N`
/// elements.
fn serialize_as_tuple<T, const N: usize>(data: &[T; N]) -> (w: SeqWriter)
    ensures
        w == flat_writer(N as nat),
{
    SeqWriter::new(SeqKind::Tuple, N)
}

/// An array of arrays lies on the wire as the fixed-length sequence of what
/// its inner arrays give when each is encoded alone.
pub proof fn lemma_wire_of_array_of_arrays<T, const N: usize, const M: usize>(data: &[[T; N]; M])
    ensures
        wire::<[[T; N]; M], T, N>(data) == Wire::Tuple(
            Seq::new(M as nat, |i: int| wire::<[T; N], T, N>(&data@[i])),
        ),
        forall|i: int| 0 <= i < M ==> wire::<[T; N], T, N>(&#[trigger] data@[i]) == Wire::Tuple(
            Seq::new(N as nat, |j: int| Wire::Value(data@[i]@[j])),
        ),
{
    assert forall|i: int| 0 <= i < M implies wire::<[T; N], T, N>(&#[trigger] data@[i])
        == flat_wire(data@[i]@) by {
        lemma_wire_of_array(&data@[i]);
    }
    assert(Seq::new(M as nat, |i: int| item_wire(data.item_model(i))) =~= Seq::new(
        M as nat,
        |i: int| wire::<[T; N], T, N>(&data@[i]),
    ));
}

/// A vector of arrays lies on the wire as the sequence, as long as the
/// vector, of what its arrays give when each is encoded alone.
pub proof fn lemma_wire_of_vec_of_arrays<T, const N: usize>(data: &Vec<[T; N]>)
    ensures
        wire::<Vec<[T; N]>, T, N>(data) == Wire::List(
            Seq::new(data@.len(), |i: int| wire::<[T; N], T, N>(&data@[i])),
        ),
        forall|i: int| 0 <= i < data@.len() ==> wire::<[T; N], T, N>(&#[trigger] data@[i])
            == Wire::Tuple(Seq::new(N as nat, |j: int| Wire::Value(data@[i]@[j]))),
{
    assert forall|i: int| 0 <= i < data@.len() implies wire::<[T; N], T, N>(
        &#[trigger] data@[i],
    ) == flat_wire(data@[i]@) by {
        lemma_wire_of_array(&data@[i]);
    }
    assert(Seq::new(data@.len(), |i: int| item_wire(data.item_model(i))) =~= Seq::new(
        data@.len(),
        |i: int| wire::<[T; N], T, N>(&data@[i]),
    ));
}

/// A flat array lies on the wire as the fixed-length sequence of its
/// elements.
pub proof fn lemma_wire_of_array<T, const N: usize>(data: &[T; N])
    ensures
        wire::<[T; N], T, N>(data) == flat_wire(data@),
        flat_wire(data@) == Wire::Tuple(Seq::new(N as nat, |j: int| Wire::Value(data@[j]))),
{
    assert(Seq::new(N as nat, |i: int| item_wire(data.item_model(i))) =~= Seq::new(
        data@.len(),
        |i: int| Wire::Value(data@[i]),
    ));
    assert(Seq::new(N as nat, |j: int| Wire::Value(data@[j])) =~= Seq::new(
        data@.len(),
        |i: int| Wire::Value(data@[i]),
    ));
}

} // verus!
