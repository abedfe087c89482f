//! Numeric-id resource store: an optional item index translating item ids
//! to compression-map positions, and the compression map giving each item
//! the global offset of its compressed block and the offset of its payload
//! inside the decompressed block.

use vstd::prelude::*;
use vstd::slice::slice_subrange;
use vstd::string::StrSliceExecFns;

use crate::abi::{le32_at, read_le32};
use crate::error::Error;

verus! {

/// One record of the optional `.idx` file: an item id and the position of
/// its record in the compression map.
#[derive(Debug, Clone, Copy, PartialEq, Eq, Structural)]
pub struct IdxRecord {
    pub item_id: u32,
    pub map_idx: u32,
}

/// One record of the `.map` file: the global offset of a compressed block
/// and the offset of this item's length-prefixed payload inside the
/// decompressed block.
#[derive(Debug, Clone, Copy, PartialEq, Eq, Structural)]
pub struct MapRecord {
    pub zoffset: u32,
    pub ioffset: u32,
}

/// The item-index record starting at byte `8 + 8 * k` of an `.idx` file.
pub open spec fn idx_rec_at(data: Seq<u8>, k: int) -> IdxRecord {
    IdxRecord { item_id: le32_at(data, 8 + 8 * k), map_idx: le32_at(data, 8 + 8 * k + 4) }
}

/// The map record starting at byte `8 + 8 * k` of a `.map` file.
pub open spec fn map_rec_at(data: Seq<u8>, k: int) -> MapRecord {
    MapRecord { zoffset: le32_at(data, 8 + 8 * k), ioffset: le32_at(data, 8 + 8 * k + 4) }
}

/// Some record carries the wanted item id.
pub open spec fn has_item(s: Seq<IdxRecord>, id: u32) -> bool {
    exists|p: int| 0 <= p < s.len() && (#[trigger] s[p]).item_id == id
}

/// The records are strictly sorted by item id.  The on-disk format
/// guarantees this; the lookup functions state their search results under
/// this hypothesis.
pub open spec fn idx_sorted(s: Seq<IdxRecord>) -> bool {
    forall|i: int, j: int| 0 <= i < j < s.len() ==> s[i].item_id < s[j].item_id
}

/// Every record's map position equals its own position: the common shape
/// of an item index, which the first-guess fast path exploits.
pub open spec fn idx_self_mapped(s: Seq<IdxRecord>) -> bool {
    forall|p: int| 0 <= p < s.len() ==> (#[trigger] s[p]).map_idx == p
}

/// The lookup answered `m` for `id`: some record carries `id`, and `m` is
/// either that record's position (the fast path) or its map position (the
/// search path).
pub open spec fn found_at_pos(s: Seq<IdxRecord>, id: u32, m: int) -> bool {
    exists|p: int|
        0 <= p < s.len() && (#[trigger] s[p]).item_id == id && (m == p || m == s[p].map_idx)
}

/// Every record carrying `id` sits at a position at or past `map_len`:
/// when this holds, translating `id` lands outside the compression map.
pub open spec fn id_maps_outside(s: Seq<IdxRecord>, id: u32, map_len: int) -> bool {
    forall|p: int| 0 <= p < s.len() && (#[trigger] s[p]).item_id == id ==> p >= map_len
}

/// In a strictly sorted index an item id occurs at one position only.
pub proof fn lemma_item_position_unique(s: Seq<IdxRecord>, i: int, j: int)
    requires
        idx_sorted(s),
        0 <= i < s.len(),
        0 <= j < s.len(),
        s[i].item_id == s[j].item_id,
    ensures
        i == j,
{
}

/// The item index and compression map of one RSC resource.
pub struct RscIndex {
    /// The item-id translation table; absent when the resource has no
    /// `.idx` file, in which case ids are their own map positions.
    pub idx: Option<Vec<IdxRecord>>,
    pub map: Vec<MapRecord>,
}

impl RscIndex {
    /// Parses an `.idx` file: a `u32le` record count at offset 0, the rest
    /// of an 8-byte header, then exactly `count` packed records.  A file
    /// size disagreeing with the count is a stream-length fault.
    pub fn load_idx(data: &[u8]) -> (r: Result<Vec<IdxRecord>, Error>)
        ensures
            r is Ok <==> data@.len() >= 4 && data@.len() == 8 + 8 * (le32_at(data@, 0) as int),
            r matches Ok(v) ==> v@.len() == le32_at(data@, 0) as int && forall|k: int|
                0 <= k < v@.len() ==> v@[k] == idx_rec_at(data@, k),
            r matches Err(e) ==> e == (if data@.len() < 4 {
                Error::IOError
            } else {
                Error::IncorrectStreamLength
            }),
    {
        if data.len() < 4 {
            return Err(Error::IOError);
        }
        let n = read_le32(data, 0) as usize;
        if n > (usize::MAX - 8) / 8 {
            return Err(Error::IncorrectStreamLength);
        }
        if data.len() != 8 + 8 * n {
            return Err(Error::IncorrectStreamLength);
        }
        let dlen: usize = data.len();
        let mut v: Vec<IdxRecord> = Vec::new();
        let mut i: usize = 0;
        while i < n
            invariant
                i <= n,
                8 + 8 * n == dlen,
                dlen == data@.len(),
                v@.len() == i,
                forall|k: int| 0 <= k < i ==> v@[k] == idx_rec_at(data@, k),
            decreases n - i,
        {
            let item_id = read_le32(data, 8 + 8 * i);
            let map_idx = read_le32(data, 8 + 8 * i + 4);
            v.push(IdxRecord { item_id, map_idx });
            i = i + 1;
        }
        Ok(v)
    }

    /// Parses a `.map` file: laid out like an `.idx` file but with the
    /// record count at offset 4 (the first four bytes are unread).
    pub fn load_map(data: &[u8]) -> (r: Result<Vec<MapRecord>, Error>)
        ensures
            r is Ok <==> data@.len() >= 8 && data@.len() == 8 + 8 * (le32_at(data@, 4) as int),
            r matches Ok(v) ==> v@.len() == le32_at(data@, 4) as int && forall|k: int|
                0 <= k < v@.len() ==> v@[k] == map_rec_at(data@, k),
            r matches Err(e) ==> e == (if data@.len() < 8 {
                Error::IOError
            } else {
                Error::IncorrectStreamLength
            }),
    {
        if data.len() < 8 {
            return Err(Error::IOError);
        }
        let n = read_le32(data, 4) as usize;
        if n > (usize::MAX - 8) / 8 {
            return Err(Error::IncorrectStreamLength);
        }
        if data.len() != 8 + 8 * n {
            return Err(Error::IncorrectStreamLength);
        }
        let dlen: usize = data.len();
        let mut v: Vec<MapRecord> = Vec::new();
        let mut i: usize = 0;
        while i < n
            invariant
                i <= n,
                8 + 8 * n == dlen,
                dlen == data@.len(),
                v@.len() == i,
                forall|k: int| 0 <= k < i ==> v@[k] == map_rec_at(data@, k),
            decreases n - i,
        {
            let zoffset = read_le32(data, 8 + 8 * i);
            let ioffset = read_le32(data, 8 + 8 * i + 4);
            v.push(MapRecord { zoffset, ioffset });
            i = i + 1;
        }
        Ok(v)
    }

    /// Builds the index from the raw bytes of the optional `.idx` file and
    /// the mandatory `.map` file.
    pub fn new(idx_data: Option<&[u8]>, map_data: &[u8]) -> (r: Result<RscIndex, Error>)
        ensures
            r is Ok <==> (idx_data matches Some(d) ==> d@.len() >= 4 && d@.len() == 8 + 8 * (
            le32_at(d@, 0) as int)) && map_data@.len() >= 8 && map_data@.len() == 8 + 8 * (
            le32_at(map_data@, 4) as int),
            r matches Err(e) ==> e == Error::IOError || e == Error::IncorrectStreamLength,
            r matches Ok(ri) ==> {
                &&& (ri.idx is Some <==> idx_data is Some)
                &&& (idx_data matches Some(d) ==> ri.idx matches Some(v) && v@.len() == le32_at(
                    d@,
                    0,
                ) as int && forall|k: int| 0 <= k < v@.len() ==> v@[k] == idx_rec_at(d@, k))
                &&& ri.map@.len() == le32_at(map_data@, 4) as int
                &&& forall|k: int| 0 <= k < ri.map@.len() ==> ri.map@[k] == map_rec_at(map_data@, k)
            },
    {
        let idx = match idx_data {
            Some(d) => Some(Self::load_idx(d)?),
            None => None,
        };
        let map = Self::load_map(map_data)?;
        Ok(RscIndex { idx, map })
    }

    /// Translates an item id to its compression-map position.  Without an
    /// item index the id is its own position.  With one, the dense common
    /// case is answered by guessing positions `id` and `id - 1` before a
    /// binary search by item id; a resulting position outside the map is an
    /// index mismatch.
    fn get_map_idx_by_id(&self, id: u32) -> (r: Result<usize, Error>)
        ensures
            self.idx is None && (id as int) < self.map@.len() ==> r == Ok::<usize, Error>(
                id as usize,
            ),
            (self.idx is None && (id as int) >= self.map@.len()) ==> (r matches Err(e) && e
                == Error::InvalidIndex),
            self.idx matches Some(il) ==> {
                &&& (r matches Ok(m) ==> m < self.map@.len() && found_at_pos(il@, id, m as int))
                &&& (!has_item(il@, id) ==> (r matches Err(e) && e == Error::NotFound))
                &&& ((idx_sorted(il@) && (r matches Err(e) && e == Error::NotFound)) ==> !has_item(
                    il@,
                    id,
                ))
                &&& (r matches Err(e) ==> e == Error::NotFound || e == Error::IndexMismach)
                &&& (idx_sorted(il@) && idx_self_mapped(il@) ==> match r {
                    Ok(m) => m < il@.len() && il@[m as int].item_id == id && m < self.map@.len(),
                    Err(e) => e == Error::NotFound && !has_item(il@, id) || e
                        == Error::IndexMismach && has_item(il@, id) && id_maps_outside(
                        il@,
                        id,
                        self.map@.len() as int,
                    ),
                })
                &&& ((idx_sorted(il@) && idx_self_mapped(il@) && exists|p: int|
                    0 <= p < il@.len() && (#[trigger] il@[p]).item_id == id && p
                        < self.map@.len()) ==> r is Ok)
            },
    {
        let Some(idx_list) = &self.idx else {
            if (id as usize) < self.map.len() {
                return Ok(id as usize);
            } else {
                return Err(Error::InvalidIndex);
            }
        };
        let ilen: usize = idx_list.len();
        if ilen == 0 {
            return Err(Error::NotFound);
        }

        // Guess first: usually the ids are predictable, without gaps.
        let guess_at: usize = if (id as usize) < ilen - 1 {
            id as usize
        } else {
            ilen - 1
        };
        if idx_list[guess_at].item_id == id {
            if guess_at >= self.map.len() {
                proof {
                    if idx_sorted(idx_list@) {
                        assert forall|p: int|
                            0 <= p < idx_list@.len() && (#[trigger] idx_list@[p]).item_id
                                == id implies p >= self.map@.len() by {
                            lemma_item_position_unique(idx_list@, p, guess_at as int);
                        }
                    }
                }
                return Err(Error::IndexMismach);
            }
            return Ok(guess_at);
        }
        let id_less: u32 = if id == 0 {
            0
        } else {
            id - 1
        };
        let guess_at: usize = if (id_less as usize) < ilen - 1 {
            id_less as usize
        } else {
            ilen - 1
        };
        if idx_list[guess_at].item_id == id {
            if guess_at >= self.map.len() {
                proof {
                    if idx_sorted(idx_list@) {
                        assert forall|p: int|
                            0 <= p < idx_list@.len() && (#[trigger] idx_list@[p]).item_id
                                == id implies p >= self.map@.len() by {
                            lemma_item_position_unique(idx_list@, p, guess_at as int);
                        }
                    }
                }
                return Err(Error::IndexMismach);
            }
            return Ok(guess_at);
        }

        let mut lo: usize = 0;
        let mut hi: usize = ilen;
        while lo < hi
            invariant
                lo <= hi <= ilen,
                ilen == idx_list@.len(),
                self.idx matches Some(l) && l == *idx_list,
                idx_sorted(idx_list@) ==> forall|p: int|
                    0 <= p < lo ==> (#[trigger] idx_list@[p]).item_id < id,
                idx_sorted(idx_list@) ==> forall|p: int|
                    hi <= p < ilen ==> (#[trigger] idx_list@[p]).item_id > id,
            decreases hi - lo,
        {
            let mid: usize = lo + (hi - lo) / 2;
            let v: u32 = idx_list[mid].item_id;
            if v < id {
                lo = mid + 1;
            } else if v > id {
                hi = mid;
            } else {
                let m: usize = idx_list[mid].map_idx as usize;
                if m >= self.map.len() {
                    proof {
                        if idx_sorted(idx_list@) && idx_self_mapped(idx_list@) {
                            assert forall|p: int|
                                0 <= p < idx_list@.len() && (#[trigger] idx_list@[p]).item_id
                                    == id implies p >= self.map@.len() by {
                                lemma_item_position_unique(idx_list@, p, mid as int);
                            }
                        }
                    }
                    return Err(Error::IndexMismach);
                }
                return Ok(m);
            }
        }
        Err(Error::NotFound)
    }

    /// Looks an item id up in the compression map.
    pub fn get_by_id(&self, id: u32) -> (r: Result<MapRecord, Error>)
        ensures
            self.idx is None && (id as int) < self.map@.len() ==> r == Ok::<MapRecord, Error>(
                self.map@[id as int],
            ),
            (self.idx is None && (id as int) >= self.map@.len()) ==> (r matches Err(e) && e
                == Error::InvalidIndex),
            self.idx matches Some(il) ==> {
                &&& (r matches Ok(rec) ==> exists|m: int|
                    0 <= m < self.map@.len() && rec == self.map@[m] && found_at_pos(il@, id, m))
                &&& (!has_item(il@, id) ==> (r matches Err(e) && e == Error::NotFound))
                &&& (r matches Err(e) ==> e == Error::NotFound || e == Error::IndexMismach)
                &&& (idx_sorted(il@) && idx_self_mapped(il@) ==> match r {
                    Ok(rec) => exists|p: int|
                        0 <= p < il@.len() && (#[trigger] il@[p]).item_id == id && p
                            < self.map@.len() && rec == self.map@[p],
                    Err(e) => e == Error::NotFound && !has_item(il@, id) || e
                        == Error::IndexMismach && has_item(il@, id) && id_maps_outside(
                        il@,
                        id,
                        self.map@.len() as int,
                    ),
                })
                &&& ((idx_sorted(il@) && idx_self_mapped(il@) && exists|p: int|
                    0 <= p < il@.len() && (#[trigger] il@[p]).item_id == id && p
                        < self.map@.len()) ==> r is Ok)
            },
    {
        let idx = self.get_map_idx_by_id(id)?;
        Ok(self.map[idx])
    }

    /// Returns the item id and map record at position `idx`.  With an item
    /// index, the record there must map back to the same position.
    pub fn get_by_idx(&self, idx: usize) -> (r: Result<(u32, MapRecord), Error>)
        ensures
            self.idx matches Some(il) ==> r == (if idx < il@.len() && il@[idx as int].map_idx
                == idx && idx < self.map@.len() {
                Ok::<(u32, MapRecord), Error>(
                    (il@[idx as int].item_id, self.map@[idx as int]),
                )
            } else {
                Err::<(u32, MapRecord), Error>(Error::InvalidIndex)
            }),
            self.idx is None ==> r == (if idx < self.map@.len() {
                Ok::<(u32, MapRecord), Error>((idx as u32, self.map@[idx as int]))
            } else {
                Err::<(u32, MapRecord), Error>(Error::InvalidIndex)
            }),
    {
        let item_id: u32 = match &self.idx {
            Some(indexes) => {
                if idx >= indexes.len() {
                    return Err(Error::InvalidIndex);
                }
                let idx_rec = indexes[idx];
                if idx_rec.map_idx as usize != idx {
                    return Err(Error::InvalidIndex);
                }
                idx_rec.item_id
            },
            None => idx as u32,
        };
        if idx >= self.map.len() {
            return Err(Error::InvalidIndex);
        }
        Ok((item_id, self.map[idx]))
    }

    /// Number of map records, which is the number of stored items.
    pub fn len(&self) -> (r: usize)
        ensures
            r == self.map@.len(),
    {
        self.map.len()
    }
}

/// Recognizes one segment file of an RSC resource: `<stem>X<seq>.rsc`
/// with a decimal sequence number (the byte between the stem and the
/// number is not inspected).  Returns the sequence number.
pub fn parse_fname(rsc_name: &str, fname: &str) -> (r: Option<u32>)
    ensures
        r is Some <==> ({
            let n = fname@.len() as int;
            let nl = rsc_name@.len() as int;
            &&& n > nl + 5
            &&& fname@.subrange(0, nl) == rsc_name@
            &&& fname@.subrange(n - 4, n) == ".rsc"@
            &&& crate::resource::all_digits(fname@.subrange(nl + 1, n - 4))
            &&& crate::resource::dec_value(fname@.subrange(nl + 1, n - 4)) <= u32::MAX
        }),
        r matches Some(v) ==> v == crate::resource::dec_value(
            fname@.subrange(rsc_name@.len() as int + 1, fname@.len() as int - 4),
        ),
{
    let n: usize = fname.unicode_len();
    let nl: usize = rsc_name.unicode_len();
    if n < 6 || nl > n - 6 {
        return None;
    }
    let mut i: usize = 0;
    while i < nl
        invariant
            i <= nl,
            nl == rsc_name@.len(),
            n == fname@.len(),
            n > nl + 5,
            forall|k: int| 0 <= k < i ==> fname@[k] == rsc_name@[k],
        decreases nl - i,
    {
        if fname.get_char(i) != rsc_name.get_char(i) {
            proof {
                assert(fname@.subrange(0, nl as int)[i as int] != rsc_name@[i as int]);
            }
            return None;
        }
        i = i + 1;
    }
    proof {
        assert(fname@.subrange(0, nl as int) =~= rsc_name@);
        reveal_strlit(".rsc");
    }
    let ext: &str = ".rsc";
    let mut j: usize = 0;
    while j < 4
        invariant
            j <= 4,
            n == fname@.len(),
            n > nl + 5,
            nl == rsc_name@.len(),
            ext@ == ".rsc"@,
            ext@.len() == 4,
            forall|k: int| 0 <= k < j ==> fname@[n - 4 + k] == ext@[k],
        decreases 4 - j,
    {
        if fname.get_char(n - 4 + j) != ext.get_char(j) {
            proof {
                assert(fname@.subrange(n - 4, n as int)[j as int] != ".rsc"@[j as int]);
            }
            return None;
        }
        j = j + 1;
    }
    proof {
        assert(fname@.subrange(n - 4, n as int) =~= ".rsc"@);
    }
    crate::resource::parse_u32_digits(fname, nl + 1, n - 4)
}

/// Cuts one item's payload out of a decompressed block: at `ioffset`
/// inside the window of `window` valid bytes lies a `u32le` payload
/// length, then the payload itself.
pub fn item_payload(contents: &[u8], window: usize, ioffset: usize) -> (r: Result<&[u8], Error>)
    ensures
        r is Ok <==> window <= contents@.len() && ioffset + 4 <= window && ioffset + 4 + le32_at(
            contents@,
            ioffset as int,
        ) <= window,
        r matches Ok(s) ==> s@ == contents@.subrange(
            ioffset + 4,
            ioffset + 4 + le32_at(contents@, ioffset as int),
        ),
        r matches Err(e) ==> e == Error::InvalidIndex || e == Error::BufferTooSmall,
    {
    let clen: usize = contents.len();
    if window > clen || ioffset > window {
        return Err(Error::InvalidIndex);
    }
    if window - ioffset < 4 {
        return Err(Error::BufferTooSmall);
    }
    let len = read_le32(contents, ioffset) as usize;
    if len > window - ioffset - 4 {
        return Err(Error::InvalidIndex);
    }
    Ok(slice_subrange(contents, ioffset + 4, ioffset + 4 + len))
}

} // verus!
