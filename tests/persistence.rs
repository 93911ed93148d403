use std::sync::atomic::AtomicBool;

use segment::immutable_index::decode_words;
use segment::immutable_index::encode_words;
use segment::immutable_index::InvertedIndexImmutableRam;
use segment::inverted_index::InvertedIndexRam;
use segment::inverted_index::PostingElement;
use segment::inverted_index::ProgressTicker;
use segment::sparse_vector::SparseVector;

struct Quiet;

impl ProgressTicker for Quiet {
    fn tick(&mut self) {}
}

fn sample_ram() -> InvertedIndexRam {
    let vs = vec![
        SparseVector::new(vec![1, 3], vec![10, -30]).unwrap(),
        SparseVector::new(vec![], vec![]).unwrap(),
        SparseVector::new(vec![0, 3, 6], vec![i16::MIN, 7, i16::MAX]).unwrap(),
    ];
    InvertedIndexRam::build(&vs, &AtomicBool::new(false), &mut Quiet).unwrap()
}

#[test]
fn compact_index_keeps_every_list() {
    let ram = sample_ram();
    let ix = InvertedIndexImmutableRam::from_ram(&ram);
    assert_eq!(ix.offsets, vec![0, 1, 2, 2, 4, 4, 4, 5]);
    for d in 0..10u32 {
        assert_eq!(ix.posting_list(d).as_slice(), ram.posting_list(d));
    }
    assert_eq!(ix.indexed_vector_count(), 3);
}

#[test]
fn persisted_index_reopens_identically() {
    let ix = InvertedIndexImmutableRam::from_ram(&sample_ram());
    let bytes = ix.to_bytes().unwrap();
    assert_eq!(bytes.len() % 4, 0);
    let back = InvertedIndexImmutableRam::from_bytes(&bytes).unwrap();
    assert_eq!(back.offsets, ix.offsets);
    assert_eq!(back.elements, ix.elements);
    assert_eq!(back.vector_count, 3);
    for d in 0..10u32 {
        assert_eq!(back.posting_list(d), ix.posting_list(d));
    }
    assert_eq!(back.posting_list(6), vec![PostingElement { record_id: 2, weight: i16::MAX }]);
}

#[test]
fn persisted_empty_index_reopens() {
    let ix = InvertedIndexImmutableRam::from_ram(&InvertedIndexRam::empty());
    let back = InvertedIndexImmutableRam::from_bytes(&ix.to_bytes().unwrap()).unwrap();
    assert_eq!(back.offsets, vec![0]);
    assert!(back.elements.is_empty());
    assert_eq!(back.vector_count, 0);
}

#[test]
fn reopen_rejects_unknown_tag() {
    let ix = InvertedIndexImmutableRam::from_ram(&sample_ram());
    let mut bytes = ix.to_bytes().unwrap();
    bytes[0] = 9;
    assert!(InvertedIndexImmutableRam::from_bytes(&bytes).is_none());
}

#[test]
fn reopen_rejects_truncated_bytes() {
    let ix = InvertedIndexImmutableRam::from_ram(&sample_ram());
    let bytes = ix.to_bytes().unwrap();
    assert!(InvertedIndexImmutableRam::from_bytes(&bytes[..bytes.len() - 1].to_vec()).is_none());
    assert!(InvertedIndexImmutableRam::from_bytes(&bytes[..bytes.len() - 4].to_vec()).is_none());
    assert!(InvertedIndexImmutableRam::from_bytes(&vec![]).is_none());
}

#[test]
fn reopen_rejects_decreasing_offsets() {
    let words: Vec<u32> = vec![1, 0, 2, 0, 2, 1, 0, 0x8000, 0, 0x8000];
    assert!(InvertedIndexImmutableRam::from_words(&words).is_none());
    let good: Vec<u32> = vec![1, 0, 2, 0, 1, 2, 0, 0x8001, 0, 0x7fff];
    let ix = InvertedIndexImmutableRam::from_words(&good).unwrap();
    assert_eq!(ix.posting_list(0), vec![PostingElement { record_id: 0, weight: 1 }]);
    assert_eq!(ix.posting_list(1), vec![PostingElement { record_id: 0, weight: -1 }]);
}

#[test]
fn words_are_little_endian() {
    let b = encode_words(&vec![0x0403_0201, 0xffff_fffe]);
    assert_eq!(b, vec![1, 2, 3, 4, 0xfe, 0xff, 0xff, 0xff]);
    assert_eq!(decode_words(&b), Some(vec![0x0403_0201, 0xffff_fffe]));
    assert_eq!(decode_words(&vec![1, 2, 3]), None);
}
