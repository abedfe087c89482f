//! String-id resource store: a single index file of fixed records followed
//! by a packed table of null-terminated id strings, plus numbered segment
//! files.  Records are sorted by the UTF-8 byte ordering of their ids, so
//! an id is found by binary search over the materialized keys.

use vstd::prelude::*;
use vstd::slice::slice_subrange;
use vstd::string::StrSliceExecFns;
use vstd::string::StringSliceAdditionalSpecFns;
use vstd::utf8::{encode_utf8, valid_utf8};

use core::cmp::Ordering;

use crate::abi::{
    bytes_cmp, bytes_to_str, cmp_bytes, find_zero, first_zero, le16_at, le32_at,
    lemma_bytes_cmp_equal, lemma_bytes_cmp_swap, lemma_bytes_cmp_trans, lemma_first_zero,
    read_le16, read_le32,
};
use crate::error::Error;

verus! {

/// Whether a stored blob is raw or zlib-compressed.
#[derive(Debug, Clone, Copy, PartialEq, Eq, Structural)]
pub enum Format {
    Uncompressed,
    Zlib,
}

/// One record of the `index.nidx` file, fields decoded from their
/// little-endian on-disk form.  `file_offset` is local to segment
/// `fileseq`; `id_str_offset` points into the id table, relative to the
/// start of the index file.
#[derive(Debug, Clone, Copy, PartialEq, Eq, Structural)]
pub struct NrscIdxRecord {
    pub format: u16,
    pub fileseq: u16,
    pub id_str_offset: u32,
    pub file_offset: u32,
    pub len: u32,
}

/// The index record starting at byte `8 + 16 * k` of an `index.nidx` file.
pub open spec fn nidx_rec_at(data: Seq<u8>, k: int) -> NrscIdxRecord {
    NrscIdxRecord {
        format: le16_at(data, 8 + 16 * k),
        fileseq: le16_at(data, 8 + 16 * k + 2),
        id_str_offset: le32_at(data, 8 + 16 * k + 4),
        file_offset: le32_at(data, 8 + 16 * k + 8),
        len: le32_at(data, 8 + 16 * k + 12),
    }
}

impl NrscIdxRecord {
    /// Offset of this record's id inside the index file.
    pub fn id_str_offset(&self) -> (r: usize)
        ensures
            r == self.id_str_offset as usize,
    {
        self.id_str_offset as usize
    }

    /// Decodes the format field: 0 is raw, 1 is zlib; anything else the
    /// format does not know.
    pub fn format(&self) -> (r: Result<Format, Error>)
        ensures
            r == (if self.format == 0 {
                Ok::<Format, Error>(Format::Uncompressed)
            } else if self.format == 1 {
                Ok::<Format, Error>(Format::Zlib)
            } else {
                Err::<Format, Error>(Error::InvalidAudioFormat)
            }),
    {
        match self.format {
            0 => Ok(Format::Uncompressed),
            1 => Ok(Format::Zlib),
            _ => Err(Error::InvalidAudioFormat),
        }
    }

    /// The segment file holding this record's bytes.
    pub fn fileseq(&self) -> (r: usize)
        ensures
            r == self.fileseq as usize,
    {
        self.fileseq as usize
    }

    /// Offset of this record's bytes inside its segment file.
    pub fn file_offset(&self) -> (r: u64)
        ensures
            r == self.file_offset as u64,
    {
        self.file_offset as u64
    }

    /// Stored length of this record's bytes.
    pub fn len(&self) -> (r: usize)
        ensures
            r == self.len as usize,
    {
        self.len as usize
    }
}

/// The index of one NRSC resource: the record array and the raw id table
/// (null bytes separate the ids).
pub struct NrscIndex {
    pub idx: Vec<NrscIdxRecord>,
    pub ids: Vec<u8>,
}

impl NrscIndex {
    /// Byte offset of the id table inside the index file: the 8-byte
    /// header plus the packed records.
    pub open spec fn id_table_base(&self) -> int {
        16 * self.idx@.len() as int + 8
    }

    /// A valid id offset points at the very start of the id table or just
    /// after a null terminator, and a terminator follows it.
    pub open spec fn valid_id_offset(&self, off: int) -> bool {
        let rel = off - self.id_table_base();
        &&& rel >= 0
        &&& rel <= self.ids@.len()
        &&& (rel > 0 ==> self.ids@[rel - 1] == 0)
        &&& first_zero(self.ids@, rel) < self.ids@.len()
    }

    /// The id bytes at a valid offset: from the offset up to the next null.
    pub open spec fn id_bytes_at(&self, off: int) -> Seq<u8> {
        let rel = off - self.id_table_base();
        self.ids@.subrange(rel, first_zero(self.ids@, rel))
    }

    /// The id bytes of the record at position `p`.
    pub open spec fn key_at(&self, p: int) -> Seq<u8> {
        self.id_bytes_at(self.idx@[p].id_str_offset as int)
    }

    /// The hypothesis under which lookup is exact, guaranteed by the
    /// format: every record's id offset is valid, and the records are
    /// strictly sorted by the byte ordering of their ids.
    pub open spec fn wf_keys(&self) -> bool {
        &&& forall|p: int|
            0 <= p < self.idx@.len() ==> self.valid_id_offset(
                #[trigger] self.idx@[p].id_str_offset as int,
            )
        &&& forall|i: int, j: int|
            0 <= i < j < self.idx@.len() ==> bytes_cmp(self.key_at(i), self.key_at(j))
                == Ordering::Less
    }

    /// Some record's id has exactly these bytes.
    pub open spec fn has_key(&self, kb: Seq<u8>) -> bool {
        exists|p: int| 0 <= p < self.idx@.len() && self.key_at(p) == kb
    }

    /// In a well-formed index the ids are pairwise distinct, so an id
    /// determines its record: together with `get_by_id`'s contract, looking
    /// up the id found at a record's `id_str_offset` leads back to that
    /// record and no other.
    pub proof fn lemma_key_determines_position(&self, i: int, j: int)
        requires
            self.wf_keys(),
            0 <= i < self.idx@.len(),
            0 <= j < self.idx@.len(),
            self.key_at(i) == self.key_at(j),
        ensures
            i == j,
    {
        if i < j {
            lemma_bytes_cmp_equal(self.key_at(i), self.key_at(j));
        } else if j < i {
            lemma_bytes_cmp_equal(self.key_at(i), self.key_at(j));
            lemma_bytes_cmp_swap(self.key_at(i), self.key_at(j));
        }
    }

    /// Parses an `index.nidx` file: an 8-byte header whose last four bytes
    /// hold the record count, then the packed records, then the id table.
    pub fn new(data: &[u8]) -> (r: Result<NrscIndex, Error>)
        ensures
            r is Ok <==> data@.len() >= 8 && 8 + 16 * (le32_at(data@, 4) as int) <= data@.len(),
            r matches Ok(ni) ==> {
                &&& ni.idx@.len() == le32_at(data@, 4) as int
                &&& forall|k: int| 0 <= k < ni.idx@.len() ==> ni.idx@[k] == nidx_rec_at(data@, k)
                &&& ni.ids@ == data@.subrange(8 + 16 * (le32_at(data@, 4) as int), data@.len() as int)
            },
            r matches Err(e) ==> e == Error::IOError,
    {
        if data.len() < 8 {
            return Err(Error::IOError);
        }
        let n = read_le32(data, 4) as usize;
        let dlen: usize = data.len();
        if n > (usize::MAX - 8) / 16 || 8 + 16 * n > dlen {
            return Err(Error::IOError);
        }
        let mut idx: Vec<NrscIdxRecord> = Vec::new();
        let mut i: usize = 0;
        while i < n
            invariant
                i <= n,
                8 + 16 * n <= dlen,
                dlen == data@.len(),
                idx@.len() == i,
                forall|k: int| 0 <= k < i ==> idx@[k] == nidx_rec_at(data@, k),
            decreases n - i,
        {
            let base: usize = 8 + 16 * i;
            let rec = NrscIdxRecord {
                format: read_le16(data, base),
                fileseq: read_le16(data, base + 2),
                id_str_offset: read_le32(data, base + 4),
                file_offset: read_le32(data, base + 8),
                len: read_le32(data, base + 12),
            };
            idx.push(rec);
            i = i + 1;
        }
        let ids_slice = slice_subrange(data, 8 + 16 * n, dlen);
        let ids = vstd::slice::slice_to_vec(ids_slice);
        Ok(NrscIndex { idx, ids })
    }

    /// The id bytes stored at `offset`, checked as the format requires: the
    /// offset must not point into the middle of a key (the byte before it,
    /// if any, must be a null terminator), and a terminator must follow.
    fn id_slice(&self, offset: usize) -> (r: Result<&[u8], Error>)
        ensures
            r is Ok <==> self.valid_id_offset(offset as int),
            r matches Ok(s) ==> s@ == self.id_bytes_at(offset as int),
            r matches Err(e) ==> e == Error::InvalidIndex,
    {
        let ilen: usize = self.idx.len();
        if ilen > (usize::MAX - 8) / 16 {
            return Err(Error::InvalidIndex);
        }
        let base: usize = 16 * ilen + 8;
        if offset < base {
            return Err(Error::InvalidIndex);
        }
        let rel: usize = offset - base;
        let tlen: usize = self.ids.len();
        if rel > tlen {
            return Err(Error::InvalidIndex);
        }
        if rel > 0 && self.ids[rel - 1] != 0 {
            return Err(Error::InvalidIndex);
        }
        let end: usize = find_zero(self.ids.as_slice(), rel);
        proof {
            lemma_first_zero(self.ids@, rel as int);
        }
        if end >= tlen {
            return Err(Error::InvalidIndex);
        }
        Ok(slice_subrange(self.ids.as_slice(), rel, end))
    }

    /// The id string stored at `offset`; `InvalidIndex` when the offset is
    /// not a valid key start, `Utf8Error` when the key bytes are not text.
    pub fn get_id_at(&self, offset: usize) -> (r: Result<String, Error>)
        ensures
            r is Ok <==> self.valid_id_offset(offset as int) && valid_utf8(
                self.id_bytes_at(offset as int),
            ),
            r matches Ok(s) ==> encode_utf8(s@) == self.id_bytes_at(offset as int),
            r matches Err(e) ==> e == (if self.valid_id_offset(offset as int) {
                Error::Utf8Error
            } else {
                Error::InvalidIndex
            }),
    {
        let bytes = self.id_slice(offset)?;
        match bytes_to_str(bytes) {
            Some(s) => Ok(s.to_owned()),
            None => Err(Error::Utf8Error),
        }
    }

    /// Binary-searches the record array for an id.  Materialization errors
    /// met while comparing are remembered and surfaced after the search
    /// completes, so a corrupt key never masquerades as a mere missing id.
    pub fn get_by_id(&self, id: &str) -> (r: Result<NrscIdxRecord, Error>)
        ensures
            r matches Ok(rec) ==> exists|p: int|
                0 <= p < self.idx@.len() && #[trigger] self.idx@[p] == rec && self.valid_id_offset(
                    rec.id_str_offset as int,
                ) && self.id_bytes_at(rec.id_str_offset as int) == encode_utf8(id@),
            r matches Err(e) ==> e == Error::NotFound || e == Error::InvalidIndex,
            (r matches Err(e) && e == Error::InvalidIndex) ==> exists|p: int|
                0 <= p < self.idx@.len() && !self.valid_id_offset(
                    (#[trigger] self.idx@[p]).id_str_offset as int,
                ),
            self.wf_keys() ==> match r {
                Ok(rec) => self.has_key(encode_utf8(id@)),
                Err(e) => e == Error::NotFound && !self.has_key(encode_utf8(id@)),
            },
    {
        let target: &[u8] = id.as_bytes();
        let mut idx_err: Option<Error> = None;
        let ghost mut bad_probe: int = 0;
        let mut lo: usize = 0;
        let mut hi: usize = self.idx.len();
        while lo < hi
            invariant
                lo <= hi <= self.idx@.len(),
                target@ == encode_utf8(id@),
                idx_err matches Some(e) ==> e == Error::InvalidIndex && 0 <= bad_probe
                    < self.idx@.len() && !self.valid_id_offset(
                    self.idx@[bad_probe].id_str_offset as int,
                ),
                self.wf_keys() ==> idx_err is None,
                self.wf_keys() ==> forall|p: int|
                    0 <= p < lo ==> bytes_cmp(#[trigger] self.key_at(p), target@)
                        == Ordering::Less,
                self.wf_keys() ==> forall|p: int|
                    hi <= p < self.idx@.len() ==> bytes_cmp(#[trigger] self.key_at(p), target@)
                        == Ordering::Greater,
            decreases hi - lo,
        {
            let mid: usize = lo + (hi - lo) / 2;
            let rec = self.idx[mid];
            let probe = self.id_slice(rec.id_str_offset());
            let ord = match &probe {
                Ok(kb) => cmp_bytes(kb, target),
                Err(_) => {
                    // The comparator's fallback is the empty string; the
                    // error is remembered, never masked.
                    proof {
                        bad_probe = mid as int;
                    }
                    idx_err = Some(Error::InvalidIndex);
                    if target.len() == 0 {
                        Ordering::Equal
                    } else {
                        Ordering::Less
                    }
                },
            };
            proof {
                if self.wf_keys() {
                    assert(self.valid_id_offset(self.idx@[mid as int].id_str_offset as int));
                    assert(probe is Ok);
                }
            }
            match ord {
                Ordering::Less => {
                    proof {
                        if self.wf_keys() {
                            assert forall|p: int|
                                0 <= p < mid + 1 implies bytes_cmp(
                                #[trigger] self.key_at(p),
                                target@,
                            ) == Ordering::Less by {
                                if p < mid {
                                    lemma_bytes_cmp_trans(
                                        self.key_at(p),
                                        self.key_at(mid as int),
                                        target@,
                                    );
                                }
                            }
                        }
                    }
                    lo = mid + 1;
                },
                Ordering::Greater => {
                    proof {
                        if self.wf_keys() {
                            assert forall|p: int|
                                mid <= p < self.idx@.len() implies bytes_cmp(
                                #[trigger] self.key_at(p),
                                target@,
                            ) == Ordering::Greater by {
                                if mid < p {
                                    lemma_bytes_cmp_swap(self.key_at(mid as int), target@);
                                    lemma_bytes_cmp_trans(
                                        target@,
                                        self.key_at(mid as int),
                                        self.key_at(p),
                                    );
                                    lemma_bytes_cmp_swap(self.key_at(p), target@);
                                }
                            }
                        }
                    }
                    hi = mid;
                },
                Ordering::Equal => {
                    if let Some(e) = idx_err {
                        return Err(e);
                    }
                    proof {
                        let kb = probe->Ok_0;
                        lemma_bytes_cmp_equal(kb@, target@);
                    }
                    return Ok(rec);
                },
            }
        }
        if let Some(e) = idx_err {
            return Err(e);
        }
        proof {
            if self.wf_keys() {
                assert forall|p: int|
                    0 <= p < self.idx@.len() implies #[trigger] self.key_at(p) != encode_utf8(
                    id@,
                ) by {
                    lemma_bytes_cmp_equal(self.key_at(p), target@);
                }
            }
        }
        Err(Error::NotFound)
    }

    /// Returns the id string and record at position `idx`.
    pub fn get_by_idx(&self, idx: usize) -> (r: Result<(String, NrscIdxRecord), Error>)
        ensures
            idx >= self.idx@.len() ==> (r matches Err(e) && e == Error::InvalidIndex),
            idx < self.idx@.len() ==> {
                let rec = self.idx@[idx as int];
                match r {
                    Ok((s, rr)) => rr == rec && self.valid_id_offset(rec.id_str_offset as int)
                        && encode_utf8(s@) == self.id_bytes_at(rec.id_str_offset as int),
                    Err(e) => e == (if self.valid_id_offset(rec.id_str_offset as int) {
                        Error::Utf8Error
                    } else {
                        Error::InvalidIndex
                    }) && !(self.valid_id_offset(rec.id_str_offset as int) && valid_utf8(
                        self.id_bytes_at(rec.id_str_offset as int),
                    )),
                }
            },
    {
        if idx >= self.idx.len() {
            return Err(Error::InvalidIndex);
        }
        let rec = self.idx[idx];
        let item_id = self.get_id_at(rec.id_str_offset())?;
        Ok((item_id, rec))
    }

    /// Number of records in the index.
    pub fn len(&self) -> (r: usize)
        ensures
            r == self.idx@.len(),
    {
        self.idx.len()
    }
}

/// Recognizes one segment file of an NRSC resource: `<seq>.nrsc` with a
/// decimal sequence number.  Returns the sequence number.
pub fn parse_fname(fname: &str) -> (r: Option<u32>)
    ensures
        r is Some <==> ({
            let n = fname@.len() as int;
            &&& n > 5
            &&& fname@.subrange(n - 5, n) == ".nrsc"@
            &&& crate::resource::all_digits(fname@.subrange(0, n - 5))
            &&& crate::resource::dec_value(fname@.subrange(0, n - 5)) <= u32::MAX
        }),
        r matches Some(v) ==> v == crate::resource::dec_value(
            fname@.subrange(0, fname@.len() as int - 5),
        ),
{
    let n: usize = fname.unicode_len();
    if n <= 5 {
        return None;
    }
    proof {
        reveal_strlit(".nrsc");
    }
    let ext: &str = ".nrsc";
    let mut j: usize = 0;
    while j < 5
        invariant
            j <= 5,
            n == fname@.len(),
            n > 5,
            ext@ == ".nrsc"@,
            ext@.len() == 5,
            forall|k: int| 0 <= k < j ==> fname@[n - 5 + k] == ext@[k],
        decreases 5 - j,
    {
        if fname.get_char(n - 5 + j) != ext.get_char(j) {
            proof {
                assert(fname@.subrange(n - 5, n as int)[j as int] != ".nrsc"@[j as int]);
            }
            return None;
        }
        j = j + 1;
    }
    proof {
        assert(fname@.subrange(n - 5, n as int) =~= ".nrsc"@);
    }
    crate::resource::parse_u32_digits(fname, 0, n - 5)
}

} // verus!
