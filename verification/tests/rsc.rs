use monokakido::resource::rsc::{IdxRecord, MapRecord, RscIndex};
use monokakido::resource::{build_segments, cmp_range, file_offset, ResourceFile};
use monokakido::Error;

use core::cmp::Ordering;

fn idx(id: u32, idx: u32) -> IdxRecord {
    IdxRecord { item_id: id, map_idx: idx }
}

fn map(z: u32, i: u32) -> MapRecord {
    MapRecord { zoffset: z, ioffset: i }
}

#[test]
fn test_get_by_id() {
    assert_eq!(
        RscIndex { idx: Some(vec![]), map: vec![] }.get_by_id(500),
        Err(Error::NotFound)
    );

    assert_eq!(
        RscIndex { idx: Some(vec![idx(1, 0)]), map: vec![map(0, 0)] }.get_by_id(500),
        Err(Error::NotFound)
    );

    assert_eq!(
        RscIndex { idx: Some(vec![idx(1, 0), idx(2, 1)]), map: vec![map(0, 0), map(0, 10)] }
            .get_by_id(500),
        Err(Error::NotFound)
    );

    assert_eq!(
        RscIndex {
            idx: Some(vec![idx(1, 0), idx(2, 1), idx(1000, 2)]),
            map: vec![map(0, 0), map(0, 10), map(0, 20)],
        }
        .get_by_id(500),
        Err(Error::NotFound)
    );

    assert_eq!(
        RscIndex {
            idx: Some(vec![idx(1, 0), idx(2, 1), idx(500, 2), idx(1000, 3)]),
            map: vec![map(0, 0), map(0, 10), map(0, 20), map(10, 0)],
        }
        .get_by_id(500),
        Ok(map(0, 20))
    );

    assert_eq!(
        RscIndex {
            idx: Some(vec![idx(1, 0), idx(2, 1), idx(500, 2), idx(1000, 3)]),
            map: vec![map(0, 0), map(0, 10), map(0, 20), map(10, 0)],
        }
        .get_by_id(501),
        Err(Error::NotFound)
    );

    assert_eq!(
        RscIndex {
            idx: Some(vec![
                idx(1, 0),
                idx(2, 1),
                idx(499, 2),
                idx(500, 3),
                idx(501, 4),
                idx(1000, 5)
            ]),
            map: vec![map(0, 0), map(0, 10), map(0, 20), map(10, 0), map(10, 0), map(10, 0)],
        }
        .get_by_id(500),
        Ok(map(10, 0))
    );
}

#[test]
fn absent_item_index_uses_the_id_directly() {
    // Without an `.idx` file the id is its own map position; one past the
    // end of the map is an invalid index.
    let ri = RscIndex { idx: None, map: vec![map(0, 0), map(0, 10)] };
    assert_eq!(ri.get_by_id(0), Ok(map(0, 0)));
    assert_eq!(ri.get_by_id(1), Ok(map(0, 10)));
    assert_eq!(ri.get_by_id(2), Err(Error::InvalidIndex));
    assert_eq!(ri.len(), 2);
}

#[test]
fn map_position_outside_the_map_is_a_mismatch() {
    let ri = RscIndex { idx: Some(vec![idx(10, 0), idx(20, 5)]), map: vec![map(0, 0)] };
    assert_eq!(ri.get_by_id(20), Err(Error::IndexMismach));
}

#[test]
fn get_by_idx_checks_the_back_reference() {
    let ri = RscIndex {
        idx: Some(vec![idx(1, 0), idx(2, 1)]),
        map: vec![map(0, 0), map(0, 10)],
    };
    assert_eq!(ri.get_by_idx(0), Ok((1, map(0, 0))));
    assert_eq!(ri.get_by_idx(1), Ok((2, map(0, 10))));
    assert_eq!(ri.get_by_idx(2), Err(Error::InvalidIndex));
    let bad = RscIndex { idx: Some(vec![idx(1, 1)]), map: vec![map(0, 0)] };
    assert_eq!(bad.get_by_idx(0), Err(Error::InvalidIndex));
    let plain = RscIndex { idx: None, map: vec![map(3, 4)] };
    assert_eq!(plain.get_by_idx(0), Ok((0, map(3, 4))));
}

#[test]
fn idx_and_map_files_parse_exactly() {
    // .idx: count at offset 0, 8-byte header, one record (item 7, map 0).
    let mut idx_data: Vec<u8> = Vec::new();
    idx_data.extend_from_slice(&1u32.to_le_bytes());
    idx_data.extend_from_slice(&[0, 0, 0, 0]);
    idx_data.extend_from_slice(&7u32.to_le_bytes());
    idx_data.extend_from_slice(&0u32.to_le_bytes());
    assert_eq!(RscIndex::load_idx(&idx_data), Ok(vec![idx(7, 0)]));
    // A size that disagrees with the count is a stream-length fault.
    idx_data.push(0);
    assert_eq!(RscIndex::load_idx(&idx_data), Err(Error::IncorrectStreamLength));
    assert_eq!(RscIndex::load_idx(&idx_data[..2]), Err(Error::IOError));

    // .map: count at offset 4, two records.
    let mut map_data: Vec<u8> = Vec::new();
    map_data.extend_from_slice(&[0, 0, 0, 0]);
    map_data.extend_from_slice(&2u32.to_le_bytes());
    map_data.extend_from_slice(&100u32.to_le_bytes());
    map_data.extend_from_slice(&0u32.to_le_bytes());
    map_data.extend_from_slice(&100u32.to_le_bytes());
    map_data.extend_from_slice(&31u32.to_le_bytes());
    assert_eq!(RscIndex::load_map(&map_data), Ok(vec![map(100, 0), map(100, 31)]));
    assert_eq!(RscIndex::load_map(&map_data[..6]), Err(Error::IOError));
    assert_eq!(RscIndex::load_map(&map_data[..12]), Err(Error::IncorrectStreamLength));

    let ri = RscIndex::new(Some(&idx_data[..16]), &map_data).unwrap();
    assert_eq!(ri.idx, Some(vec![idx(7, 0)]));
    assert_eq!(ri.map, vec![map(100, 0), map(100, 31)]);
}

#[test]
fn test_cmp_to_range() {
    assert_eq!(cmp_range(0, 0..0), Ordering::Greater);
    assert_eq!(cmp_range(0, 0..1), Ordering::Equal);
    assert_eq!(cmp_range(0, 0..100), Ordering::Equal);
    assert_eq!(cmp_range(1, 0..100), Ordering::Equal);
    assert_eq!(cmp_range(99, 0..100), Ordering::Equal);
    assert_eq!(cmp_range(100, 0..100), Ordering::Greater);
    assert_eq!(cmp_range(101, 0..100), Ordering::Greater);
    assert_eq!(cmp_range(0, 1..100), Ordering::Less);
    assert_eq!(cmp_range(99, 100..100), Ordering::Less);
    assert_eq!(cmp_range(100, 100..100), Ordering::Greater);
}

fn seg(seqnum: u32, len: usize, offset: usize) -> ResourceFile {
    ResourceFile { seqnum, len, offset }
}

#[test]
fn test_file_offset() {
    assert_eq!(file_offset(&vec![], 0), Err(Error::InvalidIndex));

    let one_file = vec![seg(1, 100, 0)];
    assert_eq!(file_offset(&one_file, 101), Err(Error::InvalidIndex));
    assert_eq!(file_offset(&one_file, 100), Err(Error::InvalidIndex));
    assert_eq!(file_offset(&one_file, 0), Ok((0, 0)));
    assert_eq!(file_offset(&one_file, 99), Ok((0, 99)));

    let two_files = vec![seg(1, 100, 0), seg(2, 200, 100)];
    assert_eq!(file_offset(&two_files, 301), Err(Error::InvalidIndex));
    assert_eq!(file_offset(&two_files, 300), Err(Error::InvalidIndex));
    assert_eq!(file_offset(&two_files, 0), Ok((0, 0)));
    assert_eq!(file_offset(&two_files, 99), Ok((0, 99)));
    assert_eq!(file_offset(&two_files, 100), Ok((1, 0)));
    assert_eq!(file_offset(&two_files, 299), Ok((1, 199)));

    let three_files = vec![seg(1, 100, 0), seg(2, 200, 100), seg(3, 100, 300)];
    assert_eq!(file_offset(&three_files, 401), Err(Error::InvalidIndex));
    assert_eq!(file_offset(&three_files, 400), Err(Error::InvalidIndex));
    assert_eq!(file_offset(&three_files, 0), Ok((0, 0)));
    assert_eq!(file_offset(&three_files, 99), Ok((0, 99)));
    assert_eq!(file_offset(&three_files, 100), Ok((1, 0)));
    assert_eq!(file_offset(&three_files, 299), Ok((1, 199)));
    assert_eq!(file_offset(&three_files, 300), Ok((2, 0)));
    assert_eq!(file_offset(&three_files, 399), Ok((2, 99)));

    // The returned pair always satisfies offset == segment start + local.
    for g in [0usize, 1, 99, 100, 150, 299, 300, 399] {
        let (i, local) = file_offset(&three_files, g).unwrap();
        assert_eq!(three_files[i].offset + local as usize, g);
    }
}

#[test]
fn segments_are_ordered_and_dense() {
    // Directory order does not matter; offsets accumulate.
    let entries = vec![(2u32, 200usize), (1, 100), (3, 50)];
    let segs = build_segments(&entries, 1).unwrap();
    assert_eq!(segs, vec![seg(1, 100, 0), seg(2, 200, 100), seg(3, 50, 300)]);

    // A gap in the sequence numbers fails.
    let gap = vec![(1u32, 100usize), (3, 50)];
    assert_eq!(build_segments(&gap, 1), Err(Error::MissingResourceFile));

    // The NRSC flavour starts at zero.
    let zero_based = vec![(0u32, 10usize), (1, 20)];
    let segs = build_segments(&zero_based, 0).unwrap();
    assert_eq!(segs, vec![seg(0, 10, 0), seg(1, 20, 10)]);
    assert_eq!(build_segments(&vec![(1u32, 10usize)], 0), Err(Error::MissingResourceFile));

    // A duplicate sequence number leaves another one missing.
    let dup = vec![(1u32, 10usize), (1, 20)];
    assert_eq!(build_segments(&dup, 1), Err(Error::MissingResourceFile));

    // Lengths that together exceed the address space cannot be laid out.
    let huge = vec![(1u32, usize::MAX), (2, 5)];
    assert_eq!(build_segments(&huge, 1), Err(Error::IOError));
}
