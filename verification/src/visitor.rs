//! Decoding: filling a fixed-length array from a lazy source of elements.

use vstd::prelude::*;
use crate::text::{expecting, expecting_text, invalid_length, invalid_length_text};

verus! {

/// Why a source could not be read as an array.
#[derive(Debug)]
pub enum DecodeError<E> {
    /// The source held fewer or more elements than the array has slots.
    /// `filled` is the number of slots that held a value when this was found.
    InvalidLength { filled: usize, expected: usize },
    /// The source failed to produce an element; its failure is kept as it came.
    Element(E),
}

impl<E> DecodeError<E> {
    /// The words of a length failure: the number of slots that were filled,
    /// and the array that was expected. A failure of the source has no words
    /// here: it keeps its own.
    pub fn length_message(&self) -> (r: Option<String>)
        ensures
            match *self {
                DecodeError::InvalidLength { filled, expected } => r is Some && r->Some_0@
                    == invalid_length_text(filled as nat, expecting_text(expected as nat)),
                DecodeError::Element(_) => r is None,
            },
    {
        match self {
            DecodeError::InvalidLength { filled, expected } => {
                let shape = expecting(*expected);
                Some(invalid_length(*filled, shape.as_str()))
            },
            DecodeError::Element(_) => None,
        }
    }
}

/// Where a decode stands after one answer of the source, as plain values.
pub ghost enum Outcome<T, E> {
    /// The slots filled so far; more is to be asked.
    Pending(Seq<T>),
    /// All slots are filled and the source is exhausted.
    Complete(Seq<T>),
    /// The decode was given up.
    Aborted(DecodeError<E>),
}

/// The answer `next` of a source, taken with `filled.len() <= n` slots filled
/// out of `n`.
pub open spec fn step<T, E>(n: nat, filled: Seq<T>, next: Result<Option<T>, E>) -> Outcome<T, E> {
    match next {
        Err(e) => Outcome::Aborted(DecodeError::Element(e)),
        Ok(Some(value)) => if filled.len() < n {
            Outcome::Pending(filled.push(value))
        } else {
            Outcome::Aborted(
                DecodeError::InvalidLength { filled: filled.len() as usize, expected: n as usize },
            )
        },
        Ok(None) => if filled.len() == n {
            Outcome::Complete(filled)
        } else {
            Outcome::Aborted(
                DecodeError::InvalidLength { filled: filled.len() as usize, expected: n as usize },
            )
        },
    }
}

/// Whether an answer of the source carries an element.
pub open spec fn is_element<T, E>(answer: Result<Option<T>, E>) -> bool {
    answer matches Ok(Some(_))
}

/// The number of answers at the front of `source` that carry an element.
pub open spec fn leading<T, E>(source: Seq<Result<Option<T>, E>>) -> nat
    decreases source.len(),
{
    if source.len() == 0 || !is_element(source[0]) {
        0
    } else {
        1 + leading(source.skip(1))
    }
}

/// The elements that the first `k` answers of `source` carry.
pub open spec fn elements<T, E>(source: Seq<Result<Option<T>, E>>, k: nat) -> Seq<T> {
    Seq::new(k, |i: int| source[i]->Ok_0->Some_0)
}

/// What reading an array of `n` slots from `source` gives. Answers past the
/// end of `source` are those of an exhausted source.
pub open spec fn decoded<T, E>(n: nat, source: Seq<Result<Option<T>, E>>) -> Result<
    Seq<T>,
    DecodeError<E>,
> {
    let k = leading(source);
    if k > n {
        Err(DecodeError::InvalidLength { filled: n as usize, expected: n as usize })
    } else if k < source.len() && source[k as int] is Err {
        Err(DecodeError::Element(source[k as int]->Err_0))
    } else if k == n {
        Ok(elements(source, n))
    } else {
        Err(DecodeError::InvalidLength { filled: k as usize, expected: n as usize })
    }
}

/// The answers of a source that yields `items` and is then exhausted.
pub open spec fn replay<T, E>(items: Seq<T>) -> Seq<Result<Option<T>, E>> {
    Seq::new(items.len(), |i: int| Ok(Some(items[i])))
}

/// The first `k` answers of `source` all carry an element.
pub open spec fn element_run<T, E>(source: Seq<Result<Option<T>, E>>, k: int) -> bool {
    &&& 0 <= k <= source.len()
    &&& forall|i: int| 0 <= i < k ==> is_element(#[trigger] source[i])
}

/// A run of `k` elements at the front is counted in full.
pub proof fn lemma_leading_at_least<T, E>(source: Seq<Result<Option<T>, E>>, k: int)
    requires
        element_run(source, k),
    ensures
        leading(source) >= k,
    decreases k,
{
    if k > 0 {
        let rest = source.skip(1);
        assert forall|i: int| 0 <= i < k - 1 implies is_element(#[trigger] rest[i]) by {
            assert(rest[i] == source[i + 1]);
        }
        lemma_leading_at_least(rest, k - 1);
    }
}

/// A run of `k` elements that ends the source, or is followed by an answer
/// without an element, is the whole count.
pub proof fn lemma_leading_exact<T, E>(source: Seq<Result<Option<T>, E>>, k: int)
    requires
        element_run(source, k),
        k == source.len() || !is_element(source[k]),
    ensures
        leading(source) == k,
    decreases k,
{
    if k > 0 {
        let rest = source.skip(1);
        assert forall|i: int| 0 <= i < k - 1 implies is_element(#[trigger] rest[i]) by {
            assert(rest[i] == source[i + 1]);
        }
        if k < source.len() {
            assert(rest[k - 1] == source[k]);
        }
        lemma_leading_exact(rest, k - 1);
    }
}

/// A source of exactly `n` elements gives the array of those elements.
pub proof fn lemma_exact_source<T, E>(n: nat, source: Seq<Result<Option<T>, E>>)
    requires
        element_run(source, n as int),
        n == source.len() || source[n as int] == Ok::<Option<T>, E>(None),
    ensures
        decoded(n, source) == Ok::<Seq<T>, DecodeError<E>>(elements(source, n)),
{
    lemma_leading_exact(source, n as int);
}

/// A source that ends after `k` elements, fewer than the `n` slots, gives
/// a length failure that reports `k` filled slots and the `n` expected.
pub proof fn lemma_short_source<T, E>(n: nat, source: Seq<Result<Option<T>, E>>, k: nat)
    requires
        k < n,
        element_run(source, k as int),
        k == source.len() || source[k as int] == Ok::<Option<T>, E>(None),
    ensures
        decoded(n, source) == Err::<Seq<T>, DecodeError<E>>(
            DecodeError::InvalidLength { filled: k as usize, expected: n as usize },
        ),
{
    lemma_leading_exact(source, k as int);
}

/// A source that holds one element more than the `n` slots gives a length
/// failure that reports all `n` slots filled, whatever follows that element.
pub proof fn lemma_long_source<T, E>(n: nat, source: Seq<Result<Option<T>, E>>)
    requires
        element_run(source, n as int + 1),
    ensures
        decoded(n, source) == Err::<Seq<T>, DecodeError<E>>(
            DecodeError::InvalidLength { filled: n as usize, expected: n as usize },
        ),
{
    lemma_leading_at_least(source, n as int + 1);
}

/// A source that fails after `k` elements, with a slot left for each of
/// them, gives that failure unchanged.
pub proof fn lemma_failing_source<T, E>(n: nat, source: Seq<Result<Option<T>, E>>, k: nat)
    requires
        k <= n,
        k < source.len(),
        element_run(source, k as int),
        source[k as int] is Err,
    ensures
        decoded(n, source) == Err::<Seq<T>, DecodeError<E>>(
            DecodeError::Element(source[k as int]->Err_0),
        ),
{
    lemma_leading_exact(source, k as int);
}

/// What a driver gets that hands the answers of `source` to
/// [`ArrayVisitor::visit_next`] one by one, from `filled` on, until the
/// visitor is done. Answers past the end are those of an exhausted source.
pub open spec fn driven<T, E>(n: nat, filled: Seq<T>, source: Seq<Result<Option<T>, E>>) -> Result<
    Seq<T>,
    DecodeError<E>,
>
    decreases source.len(),
{
    let next = if source.len() == 0 {
        Ok(None)
    } else {
        source[0]
    };
    match step(n, filled, next) {
        Outcome::Pending(more) => if source.len() == 0 {
            Ok(more)
        } else {
            driven(n, more, source.skip(1))
        },
        Outcome::Complete(items) => Ok(items),
        Outcome::Aborted(e) => Err(e),
    }
}

/// Answer by answer, a driver arrives at what the whole source decodes to.
pub proof fn lemma_driven_is_decoded<T, E>(n: nat, source: Seq<Result<Option<T>, E>>)
    ensures
        driven(n, Seq::<T>::empty(), source) == decoded(n, source),
{
    let done = Seq::<Result<Option<T>, E>>::empty();
    assert(elements(done, 0) =~= Seq::<T>::empty());
    assert(done + source =~= source);
    lemma_driven_from(n, Seq::<T>::empty(), done, source);
}

/// The same, from any state that a driver reaches: `done` are the answers
/// taken so far.
pub proof fn lemma_driven_from<T, E>(
    n: nat,
    filled: Seq<T>,
    done: Seq<Result<Option<T>, E>>,
    source: Seq<Result<Option<T>, E>>,
)
    requires
        done.len() <= n,
        element_run(done, done.len() as int),
        filled == elements(done, done.len()),
    ensures
        driven(n, filled, source) == decoded(n, done + source),
    decreases source.len(),
{
    let all = done + source;
    let k = done.len() as int;
    assert forall|i: int| 0 <= i < k implies is_element(#[trigger] all[i]) by {
        assert(all[i] == done[i]);
    }
    if source.len() == 0 {
        assert(all =~= done);
        lemma_leading_exact(all, k);
        assert(elements(all, n) == filled || k != n);
    } else {
        assert(all[k] == source[0]);
        if is_element(source[0]) {
            if k < n {
                let more = done.push(source[0]);
                assert(more + source.skip(1) =~= all);
                assert forall|i: int| 0 <= i < k + 1 implies is_element(#[trigger] more[i]) by {
                    if i < k {
                        assert(more[i] == done[i]);
                    }
                }
                assert(filled.push(source[0]->Ok_0->Some_0) =~= elements(more, more.len()));
                lemma_driven_from(n, filled.push(source[0]->Ok_0->Some_0), more, source.skip(1));
            } else {
                lemma_leading_at_least(all, k + 1);
            }
        } else {
            lemma_leading_exact(all, k);
            assert(elements(all, n) =~= filled || k != n);
        }
    }
}

/// The slots of an array of `N` elements while it is being read: the first
/// `self@.len()` of them hold a value, the others none.
pub struct ArrayVisitor<T, const N: usize> {
    slots: Vec<T>,
}

/// Where a decode stands after one answer of the source.
pub enum Visit<T, E, const N: usize> {
    /// The element was stored; the source is to be asked again.
    Pending(ArrayVisitor<T, N>),
    /// Every slot is filled and the source is exhausted: the array.
    Complete([T; N]),
    /// The decode was given up, and the values stored so far were released.
    Aborted(DecodeError<E>),
}

impl<T, E, const N: usize> View for Visit<T, E, N> {
    type V = Outcome<T, E>;

    open spec fn view(&self) -> Outcome<T, E> {
        match *self {
            Visit::Pending(visitor) => Outcome::Pending(visitor@),
            Visit::Complete(array) => Outcome::Complete(array@),
            Visit::Aborted(e) => Outcome::Aborted(e),
        }
    }
}

impl<T, const N: usize> View for ArrayVisitor<T, N> {
    type V = Seq<T>;

    closed spec fn view(&self) -> Seq<T> {
        self.slots@
    }
}

/// Turns a vector into an array of the same elements.
///
/// This is `TryFrom<Vec<T>>` of `[T; N]`: the array is returned where the
/// vector holds exactly `N` elements, and holds them in the same order;
/// for any other length nothing is returned.
#[verifier::external_body]
fn into_array<T, const N: usize>(items: Vec<T>) -> (r: Option<[T; N]>)
    ensures
        r is Some <==> items@.len() == N,
        r is Some ==> r->Some_0@ == items@,
{
    let converted: Result<[T; N], Vec<T>> = items.try_into();
    converted.ok()
}

impl<T, const N: usize> ArrayVisitor<T, N> {
    #[verifier::type_invariant]
    spec fn within_capacity(&self) -> bool {
        self.slots@.len() <= N
    }

    /// A visitor with no slot filled.
    pub fn new() -> (r: Self)
        ensures
            r@ == Seq::<T>::empty(),
    {
        ArrayVisitor { slots: Vec::new() }
    }

    /// Says what this visitor expects: an array of `N` elements.
    pub fn expecting(&self) -> (r: String)
        ensures
            r@ == expecting_text(N as nat),
    {
        expecting(N)
    }

    /// The number of slots that hold a value.
    pub fn filled(&self) -> (r: usize)
        ensures
            r == self@.len(),
            r <= N,
    {
        proof {
            use_type_invariant(self);
        }
        self.slots.len()
    }

    /// Takes one answer of the source.
    ///
    /// An element is stored in the next slot while one is free. The end of
    /// the source completes the array when every slot is filled. An element too
    /// many, or an end too early, is a length failure that carries the number
    /// of slots filled; a failure of the source is handed on as it came.
    pub fn visit_next<E>(self, next: Result<Option<T>, E>) -> (r: Visit<T, E, N>)
        ensures
            self@.len() <= N,
            r@ == step(N as nat, self@, next),
    {
        proof {
            use_type_invariant(&self);
        }
        let mut slots = self.slots;
        let count: usize = slots.len();
        match next {
            Err(e) => Visit::Aborted(DecodeError::Element(e)),
            Ok(Some(value)) => {
                if count < N {
                    slots.push(value);
                    Visit::Pending(ArrayVisitor { slots })
                } else {
                    Visit::Aborted(DecodeError::InvalidLength { filled: count, expected: N })
                }
            },
            Ok(None) => {
                if count == N {
                    match into_array::<T, N>(slots) {
                        Some(array) => Visit::Complete(array),
                        None => vstd::pervasive::unreached(),
                    }
                } else {
                    Visit::Aborted(DecodeError::InvalidLength { filled: count, expected: N })
                }
            },
        }
    }

    /// Reads the array from a recorded source: `source` lists what each
    /// request for the next element returned, in order, and a request past its
    /// end finds the source exhausted. The values that the visitor holds
    /// already count as elements that came before.
    pub fn visit_seq<E>(self, source: Vec<Result<Option<T>, E>>) -> (r: Result<
        [T; N],
        DecodeError<E>,
    >)
        ensures
            match decoded(N as nat, replay::<T, E>(self@) + source@) {
                Ok(items) => r is Ok && r->Ok_0@ == items,
                Err(e) => r == Err::<[T; N], DecodeError<E>>(e),
            },
    {
        let ghost answers = source@;
        let ghost all = replay::<T, E>(self@) + source@;
        let ghost base = self@.len() as int;
        proof {
            use_type_invariant(&self);
            assert(element_run(all, base));
            assert(self@ =~= elements(all, base as nat));
        }
        let mut visitor = self;
        for answer in it: source.into_iter()
            invariant
                it.seq() == answers,
                answers == source@,
                base == self@.len(),
                all == replay::<T, E>(self@) + answers,
                visitor@.len() == base + it.index(),
                element_run(all, base + it.index()),
                visitor@ == elements(all, (base + it.index()) as nat),
        {
            let ghost at = base + it.index();
            assert(all[at] == answer);
            match visitor.visit_next(answer) {
                Visit::Pending(next) => {
                    proof {
                        assert(is_element(all[at]));
                        assert(next@ =~= elements(all, (at + 1) as nat));
                    }
                    visitor = next;
                },
                Visit::Complete(array) => {
                    proof {
                        lemma_leading_exact(all, at);
                    }
                    return Ok(array);
                },
                Visit::Aborted(e) => {
                    proof {
                        if is_element(all[at]) {
                            lemma_leading_at_least(all, at + 1);
                        } else {
                            lemma_leading_exact(all, at);
                        }
                    }
                    return Err(e);
                },
            }
        }
        proof {
            lemma_leading_exact(all, all.len() as int);
        }
        match visitor.visit_next(Ok(None)) {
            Visit::Complete(array) => Ok(array),
            Visit::Aborted(e) => Err(e),
            Visit::Pending(_) => vstd::pervasive::unreached(),
        }
    }
}

} // verus!
