use lsm_core::block::BlockBuilder;

#[test]
fn encoder_forced_progress_oversized_first_entry() {
    // capacity 20; first entry encodes to 30 bytes (13 + 13 + 4) and is
    // accepted anyway; after that, any append is rejected
    let mut b = BlockBuilder::new(20);
    assert!(b.add(b"kkkkkkkkkkkkk", b"vvvvvvvvvvvvv"));
    assert!(!b.add(b"a", b"1"));
    assert!(!b.add(b"", b""));
}

#[test]
fn encoder_boundary_exact_fit_and_one_byte_over() {
    // empty encoder, capacity 30: an entry whose encoded size plus one
    // offset slot is exactly 30 is accepted
    let mut b = BlockBuilder::new(30);
    assert!(b.add(b"kkkkkkkkkkkk", b"vvvvvvvvvvvv")); // 12 + 12 + 4 + 2 == 30

    // when not the first entry: an exact fit is accepted...
    let mut b2 = BlockBuilder::new(40);
    assert!(b2.add(b"kkk", b"vvv")); // data is now 10 bytes
    assert!(b2.add(b"kkkkkkkkkkkk", b"vvvvvvvvvvvv")); // 10 + 28 + 2 == 40

    // ...and one byte larger is rejected
    let mut b3 = BlockBuilder::new(40);
    assert!(b3.add(b"kkk", b"vvv"));
    assert!(!b3.add(b"kkkkkkkkkkkkk", b"vvvvvvvvvvvv")); // 10 + 29 + 2 == 41
}

#[test]
fn encoder_is_empty_tracks_acceptance() {
    let mut b = BlockBuilder::new(100);
    assert!(b.is_empty());
    assert!(b.add(b"a", b"1"));
    assert!(!b.is_empty());
}

#[test]
fn block_wire_format_exact_bytes() {
    let mut b = BlockBuilder::new(100);
    assert!(b.add(b"a", b"1"));
    assert!(b.add(b"bb", b"22"));
    let block = b.build();
    assert_eq!(block.num_of_entries(), 2);
    let bytes = block.encode();
    let expected: Vec<u8> = vec![
        // data: entry "a" -> "1"
        0, 1, b'a', 0, 1, b'1', // data: entry "bb" -> "22"
        0, 2, b'b', b'b', 0, 2, b'2', b'2', // offsets: 0 and 6
        0, 0, 0, 6, // entry count
        0, 2,
    ];
    assert_eq!(bytes, expected);
}

#[test]
fn empty_builder_yields_valid_empty_block() {
    let b = BlockBuilder::new(50);
    let block = b.build();
    assert_eq!(block.num_of_entries(), 0);
    assert_eq!(block.encode(), vec![0u8, 0u8]);
}

#[test]
fn encoder_accepts_empty_value() {
    // value bytes may be empty at this layer (tombstone conventions are a
    // concern of upper layers)
    let mut b = BlockBuilder::new(100);
    assert!(b.add(b"k", b""));
    let block = b.build();
    assert_eq!(block.encode(), vec![0, 1, b'k', 0, 0, 0, 0, 0, 1]);
}
