//! Shared machinery of the compressed resource containers: the set of
//! numbered segment files seen as one concatenated stream, and the zlib
//! stream decoder.
//!
//! Opening the files and reading bytes out of them is the caller's work;
//! this module decides which file holds a global offset, checks that the
//! segment sequence is dense, and drives the decompression engine.

pub mod nrsc;
pub mod rsc;

use core::cmp::Ordering;
use core::ops::Range;

use vstd::prelude::*;
use vstd::slice::slice_subrange;

use crate::error::Error;

verus! {

/// One numbered segment of a sharded resource: its sequence number, its
/// length in bytes, and its starting offset in the concatenated stream.
/// The open file handle itself stays with the caller, at the same position
/// in its own list.
#[derive(Debug, Clone, Copy, PartialEq, Eq, Structural)]
pub struct ResourceFile {
    pub seqnum: u32,
    pub len: usize,
    pub offset: usize,
}

/// The segments tile the concatenated stream: the first starts at offset
/// zero and each one starts where its predecessor ends.
pub open spec fn segments_contiguous(s: Seq<ResourceFile>) -> bool {
    &&& (s.len() > 0 ==> s[0].offset == 0)
    &&& (forall|i: int|
        0 <= i < s.len() - 1 ==> s[i].offset + s[i].len == #[trigger] s[i + 1].offset)
}

/// In a contiguous segment list, every earlier segment ends no later than a
/// later one starts.
pub proof fn lemma_segments_ordered(s: Seq<ResourceFile>, i: int, j: int)
    requires
        segments_contiguous(s),
        0 <= i < j < s.len(),
    ensures
        s[i].offset + s[i].len <= s[j].offset,
    decreases j - i,
{
    assert(s[i].offset + s[i].len == s[i + 1].offset);
    if i + 1 < j {
        lemma_segments_ordered(s, i + 1, j);
    }
}

/// Places `num` relative to the half-open range: `Less` below it, `Equal`
/// inside it, `Greater` at or beyond its end (an empty range holds
/// nothing).  For a proper range the three outcomes are exactly
/// `num < start`, `start <= num < end`, and `num >= end`.
pub fn cmp_range(num: usize, range: Range<usize>) -> (r: Ordering)
    ensures
        r == Ordering::Less <==> num < range.start,
        r == Ordering::Equal <==> range.start <= num && num < range.end,
        r == Ordering::Greater <==> range.start <= num && range.end <= num,
        range.start <= range.end ==> (r == Ordering::Greater <==> num >= range.end),
{
    if num < range.start {
        Ordering::Less
    } else if range.end <= num {
        Ordering::Greater
    } else {
        Ordering::Equal
    }
}

/// Resolves a global offset to the index of the segment holding it and the
/// local offset inside that segment, by binary search.  Succeeds exactly
/// when some segment's range contains the offset (for a contiguous list:
/// when the offset lies before the end of the stream).
pub fn file_offset(contents: &Vec<ResourceFile>, offset: usize) -> (r: Result<
    (usize, u64),
    Error,
>)
    ensures
        r matches Ok((i, local)) ==> {
            &&& i < contents@.len()
            &&& contents@[i as int].offset <= offset
            &&& offset - contents@[i as int].offset < contents@[i as int].len
            &&& contents@[i as int].offset + local == offset
        },
        r matches Err(e) ==> e == Error::InvalidIndex && (segments_contiguous(contents@)
            ==> forall|i: int|
            0 <= i < contents@.len() ==> !(contents@[i].offset <= offset && offset
                - contents@[i].offset < contents@[i].len)),
{
    let n: usize = contents.len();
    let mut lo: usize = 0;
    let mut hi: usize = n;
    while lo < hi
        invariant
            lo <= hi <= n,
            n == contents@.len(),
            segments_contiguous(contents@) ==> forall|i: int|
                0 <= i < lo ==> offset >= contents@[i].offset + contents@[i].len,
            segments_contiguous(contents@) ==> forall|i: int|
                hi <= i < n ==> offset < contents@[i].offset,
        decreases hi - lo,
    {
        let mid: usize = lo + (hi - lo) / 2;
        let seg = contents[mid];
        if offset < seg.offset {
            proof {
                if segments_contiguous(contents@) {
                    assert forall|i: int| mid <= i < n implies offset < contents@[i].offset by {
                        if mid < i {
                            lemma_segments_ordered(contents@, mid as int, i);
                        }
                    }
                }
            }
            hi = mid;
        } else if offset - seg.offset >= seg.len {
            proof {
                if segments_contiguous(contents@) {
                    assert forall|i: int| 0 <= i <= mid implies offset >= contents@[i].offset
                        + contents@[i].len by {
                        if i < mid {
                            lemma_segments_ordered(contents@, i, mid as int);
                        }
                    }
                }
            }
            lo = mid + 1;
        } else {
            return Ok((mid, (offset - seg.offset) as u64));
        }
    }
    Err(Error::InvalidIndex)
}

/// Some entry carries the wanted sequence number.
pub open spec fn has_seqnum(entries: Seq<(u32, usize)>, want: int) -> bool {
    exists|j: int| 0 <= j < entries.len() && (#[trigger] entries[j]).0 == want
}

/// Every sequence number `base, base + 1, ...` up to the number of entries
/// appears among the entries.
pub open spec fn seqnums_dense(entries: Seq<(u32, usize)>, base: u32) -> bool {
    forall|i: int| 0 <= i < entries.len() ==> #[trigger] has_seqnum(entries, base + i)
}

/// The segment takes its length from an entry carrying the wanted
/// sequence number.
pub open spec fn seg_len_from_entries(
    entries: Seq<(u32, usize)>,
    seg: ResourceFile,
    want: int,
) -> bool {
    exists|j: int|
        0 <= j < entries.len() && (#[trigger] entries[j]).0 == want && seg.len == entries[j].1
}

/// Each built segment takes its length from an entry carrying the
/// segment's sequence number.
pub open spec fn segs_match_entries(
    entries: Seq<(u32, usize)>,
    segs: Seq<ResourceFile>,
    base: u32,
) -> bool {
    forall|i: int|
        0 <= i < segs.len() ==> seg_len_from_entries(entries, #[trigger] segs[i], base + i)
}

/// Total of the entries' segment lengths.
pub open spec fn lens_sum(entries: Seq<(u32, usize)>) -> int
    decreases entries.len(),
{
    if entries.len() == 0 {
        0
    } else {
        lens_sum(entries.drop_last()) + entries.last().1
    }
}

/// Sum of the lengths of the flagged entries.
spec fn lens_sum_flagged(entries: Seq<(u32, usize)>, used: Seq<bool>) -> int
    decreases entries.len(),
{
    if entries.len() == 0 {
        0
    } else {
        lens_sum_flagged(entries.drop_last(), used.drop_last()) + (if used.len() == entries.len()
            && used.last() {
            entries.last().1 as int
        } else {
            0
        })
    }
}

/// With no entry flagged the flagged sum is zero.
proof fn lemma_lens_sum_flagged_zero(entries: Seq<(u32, usize)>, used: Seq<bool>)
    requires
        used.len() == entries.len(),
        forall|j: int| 0 <= j < used.len() ==> !(#[trigger] used[j]),
    ensures
        lens_sum_flagged(entries, used) == 0,
    decreases entries.len(),
{
    if entries.len() > 0 {
        lemma_lens_sum_flagged_zero(entries.drop_last(), used.drop_last());
    }
}

/// The flagged sum never exceeds the total.
proof fn lemma_lens_sum_flagged_le(entries: Seq<(u32, usize)>, used: Seq<bool>)
    requires
        used.len() == entries.len(),
    ensures
        0 <= lens_sum_flagged(entries, used) <= lens_sum(entries),
    decreases entries.len(),
{
    if entries.len() > 0 {
        lemma_lens_sum_flagged_le(entries.drop_last(), used.drop_last());
    }
}

/// Flagging one more entry adds exactly its length to the flagged sum.
proof fn lemma_lens_sum_flagged_update(entries: Seq<(u32, usize)>, used: Seq<bool>, f: int)
    requires
        used.len() == entries.len(),
        0 <= f < used.len(),
        !used[f],
    ensures
        lens_sum_flagged(entries, used.update(f, true)) == lens_sum_flagged(entries, used)
            + entries[f].1,
    decreases entries.len(),
{
    let up = used.update(f, true);
    if f == entries.len() - 1 {
        assert(up.drop_last() =~= used.drop_last());
    } else {
        assert(up.drop_last() =~= used.drop_last().update(f, true));
        lemma_lens_sum_flagged_update(entries.drop_last(), used.drop_last(), f);
    }
}

/// Builds the ordered segment list from the `(sequence number, length)`
/// pairs found in a resource directory.  The sequence numbers must be
/// exactly `base, base + 1, ...` with no gap or duplicate; each segment's
/// offset is the sum of the lengths before it.
pub fn build_segments(entries: &Vec<(u32, usize)>, base: u32) -> (r: Result<
    Vec<ResourceFile>,
    Error,
>)
    ensures
        r matches Ok(segs) ==> {
            &&& segs@.len() == entries@.len()
            &&& segments_contiguous(segs@)
            &&& forall|i: int|
                0 <= i < segs@.len() ==> (#[trigger] segs@[i]).seqnum == base + i
            &&& segs_match_entries(entries@, segs@, base)
        },
        r matches Err(e) ==> e == Error::MissingResourceFile || e == Error::IOError,
        (r matches Err(e) && e == Error::MissingResourceFile) ==> !seqnums_dense(entries@, base),
        (r matches Err(e) && e == Error::IOError) ==> lens_sum(entries@) > usize::MAX,
        (seqnums_dense(entries@, base) && lens_sum(entries@) <= usize::MAX) ==> r is Ok,
{
    let n: usize = entries.len();
    let mut segs: Vec<ResourceFile> = Vec::new();
    let ghost mut wit: Seq<int> = Seq::empty();
    let ghost mut used: Seq<bool> = Seq::new(n as nat, |j: int| false);
    proof {
        lemma_lens_sum_flagged_zero(entries@, used);
    }
    let mut offset: usize = 0;
    let mut i: usize = 0;
    while i < n
        invariant
            i <= n,
            n == entries@.len(),
            segs@.len() == i,
            used.len() == n,
            forall|j: int| 0 <= j < n && #[trigger] used[j] ==> (entries@[j].0 as int) < base + i,
            offset == lens_sum_flagged(entries@, used),
            segments_contiguous(segs@),
            i > 0 ==> offset == segs@[i - 1].offset + segs@[i - 1].len,
            i == 0 ==> offset == 0,
            forall|k: int| 0 <= k < i ==> (#[trigger] segs@[k]).seqnum == base + k,
            wit.len() == i,
            forall|k: int|
                0 <= k < i ==> 0 <= #[trigger] wit[k] < n && entries@[wit[k]].0 == base + k
                    && segs@[k].len == entries@[wit[k]].1,
        decreases n - i,
    {
        // The sequence numbers must cover base..base + n; with n entries,
        // finding each wanted number also rules out duplicates.  A wanted
        // number past u32::MAX cannot appear among u32 entries at all.
        let cap: usize = (u32::MAX - base) as usize;
        if cap < i {
            proof {
                assert forall|j: int| 0 <= j < entries@.len() implies (#[trigger] entries@[j]).0
                    != base + i by {}
                assert(!has_seqnum(entries@, base + i));
            }
            return Err(Error::MissingResourceFile);
        }
        let want: u32 = base + (i as u32);
        let mut found: Option<usize> = None;
        let mut j: usize = 0;
        while j < n
            invariant
                j <= n,
                n == entries@.len(),
                found matches Some(f) ==> f < n && entries@[f as int].0 == want,
                found is None ==> forall|k: int| 0 <= k < j ==> (#[trigger] entries@[k]).0
                    != want,
            decreases n - j,
        {
            if found.is_none() && entries[j].0 == want {
                found = Some(j);
            }
            j = j + 1;
        }
        let Some(f) = found else {
            proof {
                assert forall|j: int| 0 <= j < entries@.len() implies (#[trigger] entries@[j]).0
                    != base + i by {}
                assert(!has_seqnum(entries@, base + i));
            }
            return Err(Error::MissingResourceFile);
        };
        let len: usize = entries[f].1;
        proof {
            assert(entries@[f as int].0 as int == base + i);
            assert(!used[f as int]);
            lemma_lens_sum_flagged_update(entries@, used, f as int);
            used = used.update(f as int, true);
        }
        if offset > usize::MAX - len {
            // The segment lengths together exceed the address space.
            proof {
                lemma_lens_sum_flagged_le(entries@, used);
            }
            return Err(Error::IOError);
        }
        segs.push(ResourceFile { seqnum: want, len, offset });
        proof {
            wit = wit.push(f as int);
        }
        offset = offset + len;
        i = i + 1;
    }
    proof {
        assert forall|k: int|
            0 <= k < segs@.len() implies seg_len_from_entries(
            entries@,
            #[trigger] segs@[k],
            base + k,
        ) by {
            assert(0 <= wit[k] < entries@.len() && entries@[wit[k]].0 == base + k && segs@[k].len
                == entries@[wit[k]].1);
        }
    }
    Ok(segs)
}

/// Numeric value of a run of decimal digit characters.
pub open spec fn dec_value(s: Seq<char>) -> int
    decreases s.len(),
{
    if s.len() == 0 {
        0
    } else {
        dec_value(s.drop_last()) * 10 + (s.last() as int - 48)
    }
}

/// Every character of the run is a decimal digit.
pub open spec fn all_digits(s: Seq<char>) -> bool {
    forall|i: int| 0 <= i < s.len() ==> 48 <= (#[trigger] s[i]) as int <= 57
}

/// A run of digits has a non-negative value.
pub proof fn lemma_dec_value_nonneg(s: Seq<char>)
    requires
        all_digits(s),
    ensures
        dec_value(s) >= 0,
    decreases s.len(),
{
    if s.len() > 0 {
        assert(all_digits(s.drop_last()));
        lemma_dec_value_nonneg(s.drop_last());
    }
}

/// Extending a run of digits never shrinks its value.
pub proof fn lemma_dec_value_monotone(s: Seq<char>, i: int)
    requires
        all_digits(s),
        0 <= i <= s.len(),
    ensures
        dec_value(s.take(i)) <= dec_value(s),
    decreases s.len() - i,
{
    if i < s.len() {
        lemma_dec_value_monotone(s, i + 1);
        assert(s.take(i + 1).drop_last() =~= s.take(i));
        assert(all_digits(s.take(i)));
        lemma_dec_value_nonneg(s.take(i));
        assert(dec_value(s.take(i + 1)) == dec_value(s.take(i)) * 10 + (s[i] as int - 48));
    } else {
        assert(s.take(i) =~= s);
    }
}

/// Parses the decimal number written in `fname` between character
/// positions `from` and `to`: the run must be non-empty, all digits, and
/// its value must fit a `u32`.
fn parse_u32_digits(fname: &str, from: usize, to: usize) -> (r: Option<u32>)
    requires
        from <= to <= fname@.len(),
    ensures
        r is Some <==> from < to && all_digits(fname@.subrange(from as int, to as int))
            && dec_value(fname@.subrange(from as int, to as int)) <= u32::MAX,
        r matches Some(v) ==> v == dec_value(fname@.subrange(from as int, to as int)),
{
    let ghost whole = fname@.subrange(from as int, to as int);
    if from >= to {
        return None;
    }
    let mut acc: u64 = 0;
    let mut i: usize = from;
    while i < to
        invariant
            from <= i <= to <= fname@.len(),
            whole == fname@.subrange(from as int, to as int),
            acc <= u32::MAX,
            all_digits(fname@.subrange(from as int, i as int)),
            acc == dec_value(fname@.subrange(from as int, i as int)),
        decreases to - i,
    {
        let u: u32 = fname.get_char(i) as u32;
        proof {
            assert(fname@.subrange(from as int, i + 1 as int).drop_last() =~= fname@.subrange(
                from as int,
                i as int,
            ));
        }
        if u < 48 || u > 57 {
            proof {
                assert(whole[i - from] == fname@[i as int]);
                assert(!all_digits(whole));
            }
            return None;
        }
        acc = acc * 10 + ((u - 48) as u64);
        i = i + 1;
        if acc > u32::MAX as u64 {
            proof {
                if all_digits(whole) {
                    assert(fname@.subrange(from as int, i as int) =~= whole.take(i - from));
                    lemma_dec_value_monotone(whole, i - from);
                }
            }
            return None;
        }
    }
    proof {
        assert(fname@.subrange(from as int, i as int) =~= whole);
    }
    Some(acc as u32)
}

/// Progress report of one decompression run.
enum InflateStatus {
    Done,
    HasMoreOutput,
    Failed,
}

#[verifier::external_type_specification]
#[verifier::external_body]
pub struct ExDecompressorOxide(miniz_oxide::inflate::core::DecompressorOxide);

/// The inflation of one complete zlib-framed stream: the decompressed
/// bytes, or nothing when the bytes are not exactly one valid stream.
/// This names what `miniz_oxide::inflate::core::decompress` produces when
/// run over the stream from a freshly reset state; the result depends on
/// the stream bytes alone.
pub uninterp spec fn zlib_inflate(s: Seq<u8>) -> Option<Seq<u8>>;

/// Relies on `miniz_oxide::inflate::core::DecompressorOxide::init` and
/// `miniz_oxide::inflate::core::decompress`: one run of the engine over
/// the whole input from a freshly reset state, writing from the start of
/// a non-wrapping output buffer.  The run is deterministic in the input,
/// so its completed result carries the name `zlib_inflate`: on `Done` the
/// consumed prefix is one complete stream and the bytes written are its
/// inflation; a complete stream is consumed whole; `HasMoreOutput` means
/// the inflation did not fit the buffer; a failure report means the input
/// is not a complete valid stream.
#[verifier::external_body]
fn inflate_from_start(
    zlib_state: &mut miniz_oxide::inflate::core::DecompressorOxide,
    in_buf: &[u8],
    out_buf: &mut Vec<u8>,
) -> (r: (InflateStatus, usize, usize))
    ensures
        final(out_buf)@.len() == old(out_buf)@.len(),
        r.1 <= in_buf@.len(),
        r.2 <= final(out_buf)@.len(),
        r.0 is Done ==> zlib_inflate(in_buf@.take(r.1 as int)) == Some(
            final(out_buf)@.subrange(0, r.2 as int),
        ),
        (r.0 is Done && zlib_inflate(in_buf@) is Some) ==> r.1 == in_buf@.len(),
        r.0 is HasMoreOutput ==> (zlib_inflate(in_buf@) matches Some(o) ==> o.len()
            > final(out_buf)@.len()),
        r.0 is Failed ==> zlib_inflate(in_buf@) is None,
{
    zlib_state.init();
    let flags = miniz_oxide::inflate::core::inflate_flags::TINFL_FLAG_PARSE_ZLIB_HEADER
        | miniz_oxide::inflate::core::inflate_flags::TINFL_FLAG_USING_NON_WRAPPING_OUTPUT_BUF;
    let (status, n_in, n_out) =
        miniz_oxide::inflate::core::decompress(zlib_state, in_buf, out_buf, 0, flags);
    let st = match status {
        miniz_oxide::inflate::TINFLStatus::Done => InflateStatus::Done,
        miniz_oxide::inflate::TINFLStatus::HasMoreOutput => InflateStatus::HasMoreOutput,
        _ => InflateStatus::Failed,
    };
    (st, n_in, n_out)
}

/// Inflates one complete zlib-framed block into the front of `out_buf`,
/// growing the buffer and rerunning the engine until the whole inflation
/// fits.  Returns the number of bytes written; that prefix of `out_buf`
/// is exactly the inflation of `in_buf`.  Input left over after the
/// stream ends is a stream-length fault.
pub fn decompress(
    zlib_state: &mut miniz_oxide::inflate::core::DecompressorOxide,
    in_buf: &[u8],
    out_buf: &mut Vec<u8>,
) -> (r: Result<usize, Error>)
    ensures
        r matches Ok(n) ==> n <= final(out_buf)@.len() && zlib_inflate(in_buf@) == Some(
            final(out_buf)@.subrange(0, n as int),
        ),
        r matches Err(e) ==> e == Error::ZlibError || e == Error::IncorrectStreamLength
            || e == Error::RecordTooLarge,
        (r matches Err(e) && e == Error::ZlibError) ==> zlib_inflate(in_buf@) is None,
        (r matches Err(e) && e == Error::IncorrectStreamLength) ==> exists|i: int|
            0 <= i < in_buf@.len() && #[trigger] zlib_inflate(in_buf@.take(i)) is Some,
        (r matches Err(e) && e == Error::RecordTooLarge) ==> (zlib_inflate(in_buf@) matches Some(
            o,
        ) ==> o.len() > (usize::MAX - 1) / 2),
        (zlib_inflate(in_buf@) matches Some(o) && o.len() <= (usize::MAX - 1) / 2) ==> r is Ok,
{
    let in_len: usize = in_buf.len();
    loop
        invariant
            in_len == in_buf@.len(),
        decreases usize::MAX - out_buf@.len(),
    {
        let (status, n_in, n_out) = inflate_from_start(zlib_state, in_buf, out_buf);
        match status {
            InflateStatus::Done => {
                if n_in != in_len {
                    proof {
                        assert(in_buf@.take(n_in as int).len() < in_buf@.len());
                    }
                    return Err(Error::IncorrectStreamLength);
                }
                proof {
                    assert(in_buf@.take(in_len as int) =~= in_buf@);
                }
                return Ok(n_out);
            },
            InflateStatus::HasMoreOutput => {
                let cur: usize = out_buf.len();
                if cur > (usize::MAX - 1) / 2 {
                    // The inflation wants more room than the address space
                    // can give.
                    return Err(Error::RecordTooLarge);
                }
                out_buf.resize(cur * 2 + 1, 0);
            },
            InflateStatus::Failed => {
                return Err(Error::ZlibError);
            },
        }
    }
}

} // verus!
