use lsm_core::iterators::IterationError;
use lsm_core::iterators::StorageIterator;
use lsm_core::iterators::VecIterator;
use lsm_core::merge_iterator::MergeIterator;

fn entry(k: &[u8], v: &[u8]) -> (Vec<u8>, Vec<u8>) {
    (k.to_vec(), v.to_vec())
}

fn collect(it: &mut MergeIterator<VecIterator>) -> Vec<(Vec<u8>, Vec<u8>)> {
    let mut out = Vec::new();
    while it.is_valid() {
        out.push((it.key().to_vec(), it.value().to_vec()));
        it.next().unwrap();
    }
    out
}

#[test]
fn merge_two_sources_prefers_lower_index() {
    let s0 = VecIterator::new(vec![entry(b"a", b"1"), entry(b"c", b"3")]);
    let s1 = VecIterator::new(vec![entry(b"a", b"99"), entry(b"b", b"2")]);
    let mut it = MergeIterator::create(vec![s0, s1]);
    let got = collect(&mut it);
    assert_eq!(got, vec![entry(b"a", b"1"), entry(b"b", b"2"), entry(b"c", b"3")]);
}

#[test]
fn merge_zero_sources_starts_invalid() {
    let it = MergeIterator::<VecIterator>::create(Vec::new());
    assert!(!it.is_valid());
}

#[test]
fn merge_single_source_identity() {
    let entries = vec![entry(b"a", b"1"), entry(b"b", b"2"), entry(b"c", b"3")];
    let s0 = VecIterator::new(entries.clone());
    let mut it = MergeIterator::create(vec![s0]);
    let got = collect(&mut it);
    assert_eq!(got, entries);
}

#[test]
fn merge_duplicate_collapse_across_three_sources() {
    // every source holds key x; only the entry of source 0 is surfaced, and
    // advancing past x consumes x from every other source
    let s0 = VecIterator::new(vec![entry(b"x", b"s0")]);
    let s1 = VecIterator::new(vec![entry(b"x", b"s1"), entry(b"y", b"s1")]);
    let s2 = VecIterator::new(vec![entry(b"w", b"s2"), entry(b"x", b"s2")]);
    let mut it = MergeIterator::create(vec![s0, s1, s2]);
    let got = collect(&mut it);
    assert_eq!(got, vec![entry(b"w", b"s2"), entry(b"x", b"s0"), entry(b"y", b"s1")]);
}

#[test]
fn merge_skips_exhausted_sources_at_creation() {
    let s0 = VecIterator::new(Vec::new());
    let s1 = VecIterator::new(vec![entry(b"k", b"v")]);
    let mut it = MergeIterator::create(vec![s0, s1]);
    let got = collect(&mut it);
    assert_eq!(got, vec![entry(b"k", b"v")]);
}

#[test]
fn merge_interleaves_disjoint_sources() {
    let s0 = VecIterator::new(vec![entry(b"b", b"2"), entry(b"d", b"4")]);
    let s1 = VecIterator::new(vec![entry(b"a", b"1"), entry(b"c", b"3"), entry(b"e", b"5")]);
    let mut it = MergeIterator::create(vec![s0, s1]);
    let got = collect(&mut it);
    assert_eq!(
        got,
        vec![
            entry(b"a", b"1"),
            entry(b"b", b"2"),
            entry(b"c", b"3"),
            entry(b"d", b"4"),
            entry(b"e", b"5"),
        ]
    );
}

#[test]
fn merge_propagates_source_failure_and_clears() {
    let s0 = VecIterator::failing(vec![entry(b"a", b"1"), entry(b"b", b"2")], 0);
    let mut it = MergeIterator::create(vec![s0]);
    assert!(it.is_valid());
    assert_eq!(it.next(), Err(IterationError::SourceFailure));
    assert!(!it.is_valid());
}
