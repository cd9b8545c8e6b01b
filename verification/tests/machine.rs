//! The decisions of the library on plain values.

use serde_arrays::serializable::{Item, SeqKind, SeqWriter, Serializable, WriteStep};
use serde_arrays::text::{expecting, to_decimal};
use serde_arrays::visitor::{ArrayVisitor, DecodeError, Visit};
use serde_arrays::wrapper::ArrayWrap;
use serde_arrays::{deserialize, serialize};
use std::cell::Cell;
use std::rc::Rc;

type Answer<T> = Result<Option<T>, String>;

fn source_of(items: &[u32]) -> Vec<Answer<u32>> {
    items.iter().map(|item| Ok(Some(*item))).collect()
}

fn length_error(filled: usize, expected: usize) -> DecodeError<String> {
    DecodeError::InvalidLength { filled, expected }
}

fn same_error(left: &DecodeError<String>, right: &DecodeError<String>) -> bool {
    match (left, right) {
        (
            DecodeError::InvalidLength { filled: a, expected: b },
            DecodeError::InvalidLength { filled: c, expected: d },
        ) => a == c && b == d,
        (DecodeError::Element(a), DecodeError::Element(b)) => a == b,
        _ => false,
    }
}

fn failure<const N: usize>(source: Vec<Answer<u32>>) -> DecodeError<String> {
    match deserialize::<u32, String, N>(source) {
        Ok(array) => panic!("decoded {:?}", array),
        Err(e) => e,
    }
}

/// The elements that a sink gets which accepts `accept` calls after the
/// opening one, and how the writer ended.
fn written<A, const N: usize>(data: &A, accept: usize) -> (Vec<Vec<u32>>, Option<String>)
where
    A: Serializable<u32, N>,
{
    let mut out = Vec::new();
    let mut calls = 0;
    let mut step = serialize::<A, u32, N>(data).next(Ok::<(), String>(()));
    loop {
        match step {
            WriteStep::Element { index, rest } => {
                match data.item(index) {
                    Item::Plain(value) => out.push(vec![*value]),
                    Item::Array(wrap) => out.push(wrap.array().to_vec()),
                }
                calls += 1;
                let outcome = if calls <= accept { Ok(()) } else { Err(format!("call {}", calls)) };
                step = rest.next(outcome);
            }
            WriteStep::End => return (out, None),
            WriteStep::Abort(e) => return (out, Some(e)),
        }
    }
}

#[test]
fn decode_sixteen_ones() {
    let array: [u32; 16] = match deserialize::<u32, String, 16>(source_of(&[1; 16])) {
        Ok(array) => array,
        Err(_) => panic!("sixteen elements fill sixteen slots"),
    };
    assert_eq!(array, [1u32; 16]);
}

#[test]
fn decode_keeps_the_order() {
    let array = deserialize::<u32, String, 5>(source_of(&[10, 20, 30, 40, 50])).ok().unwrap();
    assert_eq!(array, [10, 20, 30, 40, 50]);
}

#[test]
fn decode_stops_at_an_explicit_end() {
    let mut source = source_of(&[1, 2, 3]);
    source.push(Ok(None));
    source.push(Ok(Some(9)));
    source.push(Err("never asked".to_string()));
    let array = deserialize::<u32, String, 3>(source).ok().unwrap();
    assert_eq!(array, [1, 2, 3]);
}

#[test]
fn decode_of_no_slots() {
    let array = deserialize::<u32, String, 0>(Vec::new()).ok().unwrap();
    assert_eq!(array, [0u32; 0]);
    assert!(same_error(&failure::<0>(source_of(&[1])), &length_error(0, 0)));
}

#[test]
fn decode_large_arrays() {
    let items: Vec<u32> = (0..64).collect();
    let array = deserialize::<u32, String, 64>(source_of(&items)).ok().unwrap();
    assert_eq!(array.to_vec(), items);
    let array = deserialize::<u32, String, 36>(source_of(&[1; 36])).ok().unwrap();
    assert_eq!(array, [1u32; 36]);
}

#[test]
fn short_source_reports_what_was_filled() {
    assert!(same_error(&failure::<16>(source_of(&[1; 15])), &length_error(15, 16)));
    assert!(same_error(&failure::<16>(Vec::new()), &length_error(0, 16)));
    let mut ended = source_of(&[1, 2]);
    ended.push(Ok(None));
    ended.push(Ok(Some(3)));
    assert!(same_error(&failure::<3>(ended), &length_error(2, 3)));
}

#[test]
fn long_source_reports_all_slots_filled() {
    assert!(same_error(&failure::<16>(source_of(&[1; 17])), &length_error(16, 16)));
    assert!(same_error(&failure::<2>(source_of(&[1; 40])), &length_error(2, 2)));
    let mut failing_later = source_of(&[1, 2, 3]);
    failing_later.push(Err("too late".to_string()));
    assert!(same_error(&failure::<2>(failing_later), &length_error(2, 2)));
}

#[test]
fn failure_of_the_source_is_kept() {
    let mut source = source_of(&[1, 2]);
    source.push(Err("broken".to_string()));
    source.push(Ok(Some(3)));
    assert!(same_error(&failure::<3>(source), &DecodeError::Element("broken".to_string())));
    let mut full = source_of(&[1, 2, 3]);
    full.push(Err("at the end".to_string()));
    assert!(same_error(&failure::<3>(full), &DecodeError::Element("at the end".to_string())));
    let first: Vec<Answer<u32>> = vec![Err("at once".to_string())];
    assert!(same_error(&failure::<3>(first), &DecodeError::Element("at once".to_string())));
}

#[test]
fn visitor_takes_answers_one_by_one() {
    let visitor = ArrayVisitor::<u32, 2>::new();
    assert_eq!(visitor.filled(), 0);
    let visitor = match visitor.visit_next(Ok::<Option<u32>, String>(Some(7))) {
        Visit::Pending(next) => next,
        _ => panic!("a slot was free"),
    };
    assert_eq!(visitor.filled(), 1);
    let visitor = match visitor.visit_next(Ok::<Option<u32>, String>(Some(8))) {
        Visit::Pending(next) => next,
        _ => panic!("a slot was free"),
    };
    assert_eq!(visitor.filled(), 2);
    match visitor.visit_next(Ok::<Option<u32>, String>(None)) {
        Visit::Complete(array) => assert_eq!(array, [7, 8]),
        _ => panic!("every slot was filled"),
    }
}

#[test]
fn visitor_refuses_an_element_too_many() {
    let visitor = ArrayVisitor::<u32, 1>::new();
    let visitor = match visitor.visit_next(Ok::<Option<u32>, String>(Some(7))) {
        Visit::Pending(next) => next,
        _ => panic!("a slot was free"),
    };
    match visitor.visit_next(Ok::<Option<u32>, String>(Some(8))) {
        Visit::Aborted(e) => assert!(same_error(&e, &length_error(1, 1))),
        _ => panic!("no slot was free"),
    }
}

struct Counted {
    dropped: Rc<Cell<usize>>,
}

impl Drop for Counted {
    fn drop(&mut self) {
        self.dropped.set(self.dropped.get() + 1);
    }
}

#[test]
fn failed_decode_releases_each_value_once() {
    let dropped = Rc::new(Cell::new(0usize));
    let mut made = 0usize;
    let mut visitor = ArrayVisitor::<Counted, 5>::new();
    for _ in 0..3 {
        made += 1;
        let value = Counted { dropped: dropped.clone() };
        visitor = match visitor.visit_next(Ok::<Option<Counted>, String>(Some(value))) {
            Visit::Pending(next) => next,
            _ => panic!("a slot was free"),
        };
    }
    assert_eq!(dropped.get(), 0);
    match visitor.visit_next(Ok::<Option<Counted>, String>(None)) {
        Visit::Aborted(e) => assert!(same_error(&e, &length_error(3, 5))),
        _ => panic!("two slots were empty"),
    }
    assert_eq!(dropped.get(), made);
}

#[test]
fn failed_decode_releases_the_element_too_many() {
    let dropped = Rc::new(Cell::new(0usize));
    let source: Vec<Answer<Counted>> =
        (0..4).map(|_| Ok(Some(Counted { dropped: dropped.clone() }))).collect();
    assert!(deserialize::<Counted, String, 2>(source).is_err());
    assert_eq!(dropped.get(), 4);
}

#[test]
fn source_failure_releases_what_was_stored() {
    let dropped = Rc::new(Cell::new(0usize));
    let mut source: Vec<Answer<Counted>> =
        (0..2).map(|_| Ok(Some(Counted { dropped: dropped.clone() }))).collect();
    source.push(Err("broken".to_string()));
    assert!(deserialize::<Counted, String, 3>(source).is_err());
    assert_eq!(dropped.get(), 2);
}

#[test]
fn successful_decode_hands_the_values_over() {
    let dropped = Rc::new(Cell::new(0usize));
    let source: Vec<Answer<Counted>> =
        (0..3).map(|_| Ok(Some(Counted { dropped: dropped.clone() }))).collect();
    let array = deserialize::<Counted, String, 3>(source).ok().unwrap();
    assert_eq!(dropped.get(), 0);
    drop(array);
    assert_eq!(dropped.get(), 3);
}

#[test]
fn decimal_digits() {
    assert_eq!(to_decimal(0), "0");
    assert_eq!(to_decimal(9), "9");
    assert_eq!(to_decimal(10), "10");
    assert_eq!(to_decimal(36), "36");
    assert_eq!(to_decimal(1234567890), "1234567890");
    assert_eq!(to_decimal(usize::MAX), usize::MAX.to_string());
}

#[test]
fn expected_shape_names_the_size() {
    assert_eq!(expecting(16), "an array of size 16");
    assert_eq!(expecting(0), "an array of size 0");
    assert_eq!(ArrayVisitor::<u8, 36>::new().expecting(), "an array of size 36");
}

#[test]
fn length_failure_in_words() {
    assert_eq!(
        length_error(15, 16).length_message(),
        Some("invalid length 15, expected an array of size 16".to_string())
    );
    assert_eq!(
        length_error(3, 3).length_message(),
        Some("invalid length 3, expected an array of size 3".to_string())
    );
    assert_eq!(DecodeError::Element("broken".to_string()).length_message(), None);
}

#[test]
fn writer_starts_by_shape() {
    let flat = serialize::<[u32; 16], u32, 16>(&[1; 16]);
    assert_eq!((flat.kind, flat.len, flat.written), (SeqKind::Tuple, 16, 0));
    let nested = serialize::<[[u32; 3]; 2], u32, 3>(&[[1; 3]; 2]);
    assert_eq!((nested.kind, nested.len, nested.written), (SeqKind::Tuple, 2, 0));
    let vector = serialize::<Vec<[u32; 3]>, u32, 3>(&vec![[1; 3]; 5]);
    assert_eq!((vector.kind, vector.len, vector.written), (SeqKind::Growable, 5, 0));
    let inner = [4u32, 5, 6];
    let wrap = ArrayWrap::new(&inner);
    let wrapped = wrap.serialize();
    assert_eq!((wrapped.kind, wrapped.len, wrapped.written), (SeqKind::Tuple, 3, 0));
    assert_eq!(wrap.array(), &inner);
}

#[test]
fn writer_steps() {
    let writer = SeqWriter::new(SeqKind::Tuple, 2);
    let rest = match writer.next(Ok::<(), String>(())) {
        WriteStep::Element { index, rest } => {
            assert_eq!(index, 0);
            assert_eq!((rest.kind, rest.len, rest.written), (SeqKind::Tuple, 2, 1));
            rest
        }
        _ => panic!("two elements are left"),
    };
    let rest = match rest.next(Ok::<(), String>(())) {
        WriteStep::Element { index, rest } => {
            assert_eq!(index, 1);
            assert_eq!(rest.written, 2);
            rest
        }
        _ => panic!("one element is left"),
    };
    assert!(matches!(rest.next(Ok::<(), String>(())), WriteStep::End));
    match rest.next(Err("full".to_string())) {
        WriteStep::Abort(e) => assert_eq!(e, "full"),
        _ => panic!("the call failed"),
    }
    match writer.next(Err("closed".to_string())) {
        WriteStep::Abort(e) => assert_eq!(e, "closed"),
        _ => panic!("the call failed"),
    }
    assert!(matches!(SeqWriter::new(SeqKind::Growable, 0).next(Ok::<(), String>(())), WriteStep::End));
}

#[test]
fn flat_array_is_written_in_order() {
    let (out, end) = written::<[u32; 4], 4>(&[5, 6, 7, 8], 4);
    assert_eq!(out, vec![vec![5], vec![6], vec![7], vec![8]]);
    assert_eq!(end, None);
    let ones = [1u32; 16];
    let (out, end) = written::<[u32; 16], 16>(&ones, 16);
    assert_eq!(out, vec![vec![1u32]; 16]);
    assert_eq!(end, None);
}

#[test]
fn failed_element_stops_the_writing() {
    let (out, end) = written::<[u32; 4], 4>(&[5, 6, 7, 8], 1);
    assert_eq!(out, vec![vec![5], vec![6]]);
    assert_eq!(end, Some("call 2".to_string()));
}

#[test]
fn nested_shapes_write_their_arrays_in_order() {
    let (out, end) = written::<[[u32; 3]; 2], 3>(&[[1, 2, 3], [4, 5, 6]], 2);
    assert_eq!(out, vec![vec![1, 2, 3], vec![4, 5, 6]]);
    assert_eq!(end, None);
    let (out, end) = written::<Vec<[u32; 2]>, 2>(&vec![[1, 2], [3, 4], [5, 6]], 3);
    assert_eq!(out, vec![vec![1, 2], vec![3, 4], vec![5, 6]]);
    assert_eq!(end, None);
    let (out, end) = written::<Vec<[u32; 2]>, 2>(&Vec::new(), 0);
    assert!(out.is_empty());
    assert_eq!(end, None);
}

#[test]
fn what_was_written_reads_back() {
    let data: [u32; 36] = core::array::from_fn(|i| (i as u32) * 3);
    let (out, _) = written::<[u32; 36], 36>(&data, 36);
    let source: Vec<Answer<u32>> = out.iter().map(|items| Ok(Some(items[0]))).collect();
    let back = deserialize::<u32, String, 36>(source).ok().unwrap();
    assert_eq!(back, data);
}
