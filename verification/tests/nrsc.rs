use monokakido::resource::nrsc::{Format, NrscIdxRecord, NrscIndex};
use monokakido::Error;

fn air(id_str_offset: u32) -> NrscIdxRecord {
    NrscIdxRecord { format: 0, fileseq: 0, id_str_offset, file_offset: 0, len: 0 }
}

#[test]
fn test_audio_index() {
    let mut audio_idx = NrscIndex {
        idx: vec![air(0), air(1), air(3), air(6), air(10)],
        ids: b"\0a\0bb\0ccc\0dddd".to_vec(),
    };

    // The on-disk index record is 16 bytes; ids sit after the 8-byte
    // header and the record array.
    let diff = 8 + audio_idx.idx.len() * 16;
    // Fix offsets now that they are known
    for rec in audio_idx.idx.iter_mut() {
        rec.id_str_offset += diff as u32;
    }

    assert_eq!(audio_idx.get_id_at(diff + 0).unwrap(), "");
    assert_eq!(audio_idx.get_id_at(diff + 1).unwrap(), "a");
    assert_eq!(audio_idx.get_id_at(diff + 3).unwrap(), "bb");
    assert_eq!(audio_idx.get_id_at(diff + 4), Err(Error::InvalidIndex));
    assert_eq!(audio_idx.get_id_at(diff + 6).unwrap(), "ccc");
    assert_eq!(audio_idx.get_id_at(diff + 10), Err(Error::InvalidIndex));

    audio_idx.ids = b"\0a\0bb\0ccc\0dddd\0".to_vec();
    let diff = diff as u32;
    assert_eq!(audio_idx.get_by_id("").unwrap(), air(diff + 0));
    assert_eq!(audio_idx.get_by_id("a").unwrap(), air(diff + 1));
    assert_eq!(audio_idx.get_by_id("bb").unwrap(), air(diff + 3));
    assert_eq!(audio_idx.get_by_id("ccc").unwrap(), air(diff + 6));
    assert_eq!(audio_idx.get_by_id("dddd").unwrap(), air(diff + 10));
    assert_eq!(audio_idx.get_by_id("ddd"), Err(Error::NotFound));
}

#[test]
fn id_round_trip_through_offsets() {
    // Every record's id, read back through its stored offset, leads the
    // search to that very record.
    let mut idx = NrscIndex {
        idx: vec![air(0), air(1), air(3), air(6), air(10)],
        ids: b"\0a\0bb\0ccc\0dddd\0".to_vec(),
    };
    let diff = 8 + idx.idx.len() * 16;
    for rec in idx.idx.iter_mut() {
        rec.id_str_offset += diff as u32;
    }
    for p in 0..idx.idx.len() {
        let rec = idx.idx[p];
        let id = idx.get_id_at(rec.id_str_offset as usize).unwrap();
        assert_eq!(idx.get_by_id(&id).unwrap(), rec);
        let (id2, rec2) = idx.get_by_idx(p).unwrap();
        assert_eq!(id2, id);
        assert_eq!(rec2, rec);
    }
    assert_eq!(idx.get_by_idx(5), Err(Error::InvalidIndex));
}

#[test]
fn index_file_parses_records_and_id_table() {
    // An index file with two records and the table "\0x\0".
    let mut data: Vec<u8> = Vec::new();
    data.extend_from_slice(&[0, 0, 0, 0]); // header, unread
    data.extend_from_slice(&2u32.to_le_bytes()); // record count
    // record 0: format 1 (zlib), fileseq 2, id offset 40, file offset 7, len 9
    data.extend_from_slice(&1u16.to_le_bytes());
    data.extend_from_slice(&2u16.to_le_bytes());
    data.extend_from_slice(&40u32.to_le_bytes());
    data.extend_from_slice(&7u32.to_le_bytes());
    data.extend_from_slice(&9u32.to_le_bytes());
    // record 1: format 0 (raw), fileseq 0, id offset 41, file offset 1, len 2
    data.extend_from_slice(&0u16.to_le_bytes());
    data.extend_from_slice(&0u16.to_le_bytes());
    data.extend_from_slice(&41u32.to_le_bytes());
    data.extend_from_slice(&1u32.to_le_bytes());
    data.extend_from_slice(&2u32.to_le_bytes());
    data.extend_from_slice(b"\0x\0");
    let ni = NrscIndex::new(&data).unwrap();
    assert_eq!(ni.idx.len(), 2);
    assert_eq!(ni.idx[0].format().unwrap(), Format::Zlib);
    assert_eq!(ni.idx[0].fileseq(), 2);
    assert_eq!(ni.idx[0].file_offset(), 7);
    assert_eq!(ni.idx[0].len(), 9);
    assert_eq!(ni.idx[1].format().unwrap(), Format::Uncompressed);
    assert_eq!(ni.ids, b"\0x\0".to_vec());
    // record 0's id offset points at the empty key at table start
    assert_eq!(ni.get_id_at(40).unwrap(), "");
    assert_eq!(ni.get_id_at(41).unwrap(), "x");

    // A truncated file is an I/O fault.
    assert_eq!(NrscIndex::new(&data[..20]).map(|_| ()), Err(Error::IOError));
}

#[test]
fn unknown_format_is_rejected() {
    let rec = NrscIdxRecord { format: 2, fileseq: 0, id_str_offset: 0, file_offset: 0, len: 0 };
    assert_eq!(rec.format(), Err(Error::InvalidAudioFormat));
}

#[test]
fn invalid_utf8_id_is_reported() {
    let idx = NrscIndex { idx: vec![air(24)], ids: vec![0xFF, 0] };
    assert_eq!(idx.get_id_at(24), Err(Error::Utf8Error));
}
