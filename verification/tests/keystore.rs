use monokakido::key::PageIter;
use monokakido::{Error, Keys, PageItemId};

/// A minimal keystore image: one keyword "ア" in the prefix ordering,
/// whose page run holds the single reference (page 5, item 0).
fn tiny_keystore() -> Vec<u8> {
    let mut d: Vec<u8> = Vec::new();
    // file header: magic 0x20000, 0, words at 32, index set at 48, zeros
    d.extend_from_slice(&0x20000u32.to_le_bytes());
    d.extend_from_slice(&0u32.to_le_bytes());
    d.extend_from_slice(&32u32.to_le_bytes());
    d.extend_from_slice(&48u32.to_le_bytes());
    d.extend_from_slice(&[0; 16]);
    // words region (16 bytes): word entry at 0, page run at 12
    d.extend_from_slice(&12u32.to_le_bytes()); // pages offset
    d.push(3); // length byte
    d.extend_from_slice("ア".as_bytes()); // E3 82 A2
    d.push(0); // terminator
    d.extend_from_slice(&[0, 0, 0]); // padding up to the page run
    d.extend_from_slice(&[0x01, 0x00, 0x01, 0x05]); // count 1, tag 1, page 5
    // index-set header: magic 4; only the prefix ordering (second array)
    // is present, spanning offsets 20..28 of the index set.
    d.extend_from_slice(&4u32.to_le_bytes());
    d.extend_from_slice(&0u32.to_le_bytes()); // length ordering absent
    d.extend_from_slice(&20u32.to_le_bytes());
    d.extend_from_slice(&28u32.to_le_bytes());
    d.extend_from_slice(&0u32.to_le_bytes()); // fourth ordering absent
    // prefix array: its own length, then the word offset of "ア"
    d.extend_from_slice(&1u32.to_le_bytes());
    d.extend_from_slice(&0u32.to_le_bytes());
    d
}

#[test]
fn search_exact_finds_the_single_katakana_key() {
    let keys = Keys::new(&tiny_keystore()).unwrap();
    // The hiragana query folds to the stored katakana key.
    let (mid, mut pages) = keys.search_exact("あ").unwrap();
    assert_eq!(mid, 0);
    assert_eq!(pages.next(), Some(PageItemId { page: 5, item: 0 }));
    assert_eq!(pages.next(), None);

    let (mid2, _) = keys.search_exact("ア").unwrap();
    assert_eq!(mid2, 0);
}

#[test]
fn search_exact_misses_absent_and_prefix_queries() {
    let keys = Keys::new(&tiny_keystore()).unwrap();
    assert!(matches!(keys.search_exact("イ"), Err(Error::NotFound)));
    // A proper prefix of a stored key is not a match: the stored key
    // continues where the query ends.
    assert!(matches!(keys.search_exact(""), Err(Error::NotFound)));
}

#[test]
fn absent_orderings_report_index_doesnt_exist() {
    let keys = Keys::new(&tiny_keystore()).unwrap();
    assert!(matches!(keys.get_idx(&keys.index_len, 0), Err(Error::IndexDoesntExist)));
    assert!(matches!(keys.get_idx(&keys.index_d, 0), Err(Error::IndexDoesntExist)));
    // The present ordering stays functional.
    let (word, _) = keys.get_idx(&keys.index_prefix, 0).unwrap();
    assert_eq!(word, "ア");
    assert_eq!(keys.index_prefix.len(), 1);
    assert!(matches!(keys.get_idx(&keys.index_prefix, 1), Err(Error::NotFound)));
}

#[test]
fn invalid_utf8_stored_word_is_a_utf8_error() {
    let mut bad = tiny_keystore();
    bad[32 + 5] = 0xFF; // corrupt the first byte of the stored key
    let keys = Keys::new(&bad).unwrap();
    assert!(matches!(keys.get_idx(&keys.index_prefix, 0), Err(Error::Utf8Error)));
}

#[test]
fn header_validation_rejects_bad_magics() {
    let mut bad = tiny_keystore();
    bad[0] = 1; // break the first magic word
    assert!(matches!(Keys::new(&bad).map(|_| ()), Err(Error::KeyFileHeaderValidate)));

    let mut bad = tiny_keystore();
    bad[48] = 5; // break the index-set magic
    assert!(matches!(Keys::new(&bad).map(|_| ()), Err(Error::KeyIndexHeaderValidate)));

    let mut bad = tiny_keystore();
    bad[68] = 7; // break the prefix array's length prefix
    assert!(matches!(Keys::new(&bad).map(|_| ()), Err(Error::InvalidIndex)));

    assert!(matches!(Keys::new(&tiny_keystore()[..10]).map(|_| ()), Err(Error::IOError)));
}

#[test]
fn page_run_from_scenario_bytes() {
    // The documented run `02 00  02 01 2C  11 05 07`: two references,
    // (page 300, item 0) then (page 5, item 7).
    let bytes = [0x02, 0x00, 0x02, 0x01, 0x2C, 0x11, 0x05, 0x07];
    let mut it = PageIter::new(&bytes).unwrap();
    assert_eq!(it.next(), Some(PageItemId { page: 300, item: 0 }));
    assert_eq!(it.next(), Some(PageItemId { page: 5, item: 7 }));
    assert_eq!(it.next(), None);
}

#[test]
fn empty_page_run_yields_nothing() {
    let mut it = PageIter::new(&[0x00, 0x00]).unwrap();
    assert_eq!(it.next(), None);
    assert_eq!(it.next(), None);
}

#[test]
fn page_run_validation_rejects_corruption() {
    // Unknown tag.
    assert!(matches!(PageIter::new(&[0x01, 0x00, 0x03, 0x01]), Err(Error::InvalidIndex)));
    // Truncated reference.
    assert!(matches!(PageIter::new(&[0x01, 0x00, 0x04, 0x01]), Err(Error::InvalidIndex)));
    // Missing count.
    assert!(matches!(PageIter::new(&[0x01]), Err(Error::InvalidIndex)));
}

#[test]
fn page_run_yields_exactly_count_items() {
    // Five references of every shape; the iterator yields all five, in
    // order, and then stops.
    let bytes = [
        0x05, 0x00, // count
        0x01, 0x0A, // (10, 0)
        0x02, 0x01, 0x00, // (256, 0)
        0x04, 0x01, 0x00, 0x00, // (65536, 0)
        0x11, 0x07, 0x02, // (7, 2)
        0x12, 0x02, 0x01, 0x09, // (513, 9)
    ];
    let mut it = PageIter::new(&bytes).unwrap();
    let expected = [
        PageItemId { page: 10, item: 0 },
        PageItemId { page: 256, item: 0 },
        PageItemId { page: 65536, item: 0 },
        PageItemId { page: 7, item: 2 },
        PageItemId { page: 513, item: 9 },
    ];
    for e in expected {
        assert_eq!(it.next(), Some(e));
    }
    assert_eq!(it.next(), None);
}
