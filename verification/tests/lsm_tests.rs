use lsm_core::iterators::IterationError;
use lsm_core::iterators::StorageIterator;
use lsm_core::iterators::VecIterator;
use lsm_core::key::KeyVec;
use lsm_core::key::key_eq;
use lsm_core::key::key_lt;
use lsm_core::lsm_iterator::FusedIterator;
use lsm_core::lsm_iterator::LsmIterator;
use lsm_core::merge_iterator::MergeIterator;

fn entry(k: &[u8], v: &[u8]) -> (Vec<u8>, Vec<u8>) {
    (k.to_vec(), v.to_vec())
}

#[test]
fn fused_latches_after_third_advance_fails() {
    // the 3rd advance call fails; after that the wrapper reports invalid
    // and every further advance fails without touching the source
    let entries = vec![
        entry(b"a", b"1"),
        entry(b"b", b"2"),
        entry(b"c", b"3"),
        entry(b"d", b"4"),
        entry(b"e", b"5"),
    ];
    let src = VecIterator::failing(entries, 2);
    let mut it = FusedIterator::new(src);
    assert!(it.is_valid());
    assert_eq!(it.next(), Ok(()));
    assert_eq!(it.next(), Ok(()));
    assert_eq!(it.next(), Err(IterationError::SourceFailure));
    assert!(!it.is_valid());
    assert_eq!(it.next(), Err(IterationError::NotValid));
    assert_eq!(it.next(), Err(IterationError::NotValid));
    assert!(!it.is_valid());
}

#[test]
fn fused_exhaustion_is_not_latched() {
    // a wrapped source that merely runs out does not latch: later advances
    // still delegate and still succeed
    let src = VecIterator::new(vec![entry(b"a", b"1")]);
    let mut it = FusedIterator::new(src);
    assert!(it.is_valid());
    assert_eq!(it.next(), Ok(()));
    assert!(!it.is_valid());
    assert_eq!(it.next(), Ok(()));
    assert!(!it.is_valid());
}

#[test]
fn lsm_iterator_reads_bytes_and_signals_exhaustion() {
    let s0 = VecIterator::new(vec![entry(b"k1", b"v1"), entry(b"k2", b"v2")]);
    let inner = MergeIterator::create(vec![s0]);
    let mut it = LsmIterator::new(inner).unwrap();
    assert!(it.is_valid());
    assert_eq!(it.key(), b"k1");
    assert_eq!(it.value(), b"v1");
    assert_eq!(it.next(), Ok(()));
    assert_eq!(it.key(), b"k2");
    // advancing off the last entry reports exhaustion as an error, distinct
    // from ordinary success
    assert_eq!(it.next(), Err(IterationError::NotValid));
    assert!(!it.is_valid());
    assert_eq!(it.next(), Err(IterationError::NotValid));
}

#[test]
fn lsm_iterator_propagates_source_failure() {
    let s0 = VecIterator::failing(vec![entry(b"a", b"1"), entry(b"b", b"2")], 0);
    let inner = MergeIterator::create(vec![s0]);
    let mut it = LsmIterator::new(inner).unwrap();
    assert!(it.is_valid());
    assert_eq!(it.next(), Err(IterationError::SourceFailure));
    assert!(!it.is_valid());
}

#[test]
fn fused_over_lsm_latches_exhaustion_error() {
    let s0 = VecIterator::new(vec![entry(b"a", b"1")]);
    let inner = MergeIterator::create(vec![s0]);
    let lsm = LsmIterator::new(inner).unwrap();
    let mut it = FusedIterator::new(lsm);
    assert!(it.is_valid());
    assert_eq!(it.key(), b"a");
    assert_eq!(it.next(), Err(IterationError::NotValid));
    assert!(!it.is_valid());
    assert_eq!(it.next(), Err(IterationError::NotValid));
}

#[test]
fn key_order_is_bytewise_lexicographic() {
    assert!(key_lt(b"", b"a"));
    assert!(key_lt(b"a", b"ab"));
    assert!(key_lt(b"ab", b"b"));
    assert!(key_lt(b"abc", b"abd"));
    assert!(!key_lt(b"b", b"ab"));
    assert!(!key_lt(b"a", b"a"));
    assert!(key_eq(b"abc", b"abc"));
    assert!(!key_eq(b"abc", b"abd"));
    assert!(!key_eq(b"ab", b"abc"));
}

#[test]
fn owned_key_copies_borrowed_bytes() {
    let k = KeyVec::from_slice(b"hello");
    assert_eq!(k.as_key_slice(), b"hello");
    assert_eq!(k.len(), 5);
    assert!(!k.is_empty());
    let e = KeyVec::new();
    assert!(e.is_empty());
    assert_eq!(e.len(), 0);
}
