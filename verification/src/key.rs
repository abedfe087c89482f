//! The keystore: one file holding every keyword, up to four total
//! orderings of the keywords, and a variable-width run of page references
//! per keyword.  Exact keyword lookup binary-searches the prefix ordering
//! after folding the query's hiragana to katakana.

use core::cmp::Ordering;

use vstd::prelude::*;
use vstd::slice::{slice_subrange, slice_to_vec};
use vstd::string::StrSliceExecFns;
use vstd::string::StringSliceAdditionalSpecFns;
use vstd::utf8::{encode_utf8, valid_utf8};

use crate::abi::{
    bytes_cmp, bytes_to_str, char_from_u32, cmp_bytes, find_zero, first_zero, has_zero_byte,
    le16_at, le32_at, lemma_bytes_cmp_equal, lemma_bytes_cmp_swap, lemma_bytes_cmp_trans,
    lemma_encode_utf8_no_zero, lemma_first_zero, read_le16, read_le32, string_from_chars,
};
use crate::error::Error;

verus! {

// ---------------------------------------------------------------------
// Hiragana to katakana folding
// ---------------------------------------------------------------------
/// The code points folded by keyword normalization.
pub open spec fn is_foldable_hiragana(c: char) -> bool {
    0x3041 <= c as u32 <= 0x3093
}

/// How one code point folds: a foldable hiragana moves up by 0x60 to its
/// katakana counterpart; everything else passes through.
pub open spec fn folds_to(c: char, k: char) -> bool {
    if is_foldable_hiragana(c) {
        k as u32 == c as u32 + 0x60
    } else {
        k == c
    }
}

/// The folded counterpart of one code point.
pub open spec fn fold_char(c: char) -> char {
    if is_foldable_hiragana(c) {
        ((c as u32 + 0x60) as u32) as char
    } else {
        c
    }
}

/// The folded counterpart of a whole sequence of code points.
pub open spec fn fold_chars(q: Seq<char>) -> Seq<char> {
    Seq::new(q.len(), |i: int| fold_char(q[i]))
}

/// A query without the NUL character folds to a key whose UTF-8 bytes
/// hold no zero byte: folding moves characters upward or keeps them, and
/// UTF-8 encodes nonzero scalars with nonzero bytes.  Exact lookup's
/// sorted-search guarantees therefore apply to every ordinary keyword.
pub proof fn lemma_folded_query_no_zero(q: Seq<char>)
    requires
        forall|i: int| 0 <= i < q.len() ==> (#[trigger] q[i]) as u32 != 0,
    ensures
        !has_zero_byte(encode_utf8(fold_chars(q))),
{
    let f = fold_chars(q);
    assert forall|i: int| 0 <= i < f.len() implies (#[trigger] f[i]) as u32 != 0 by {
        if is_foldable_hiragana(q[i]) {
            vstd::utf8::char_is_scalar(q[i]);
            vstd::utf8::char_u32_cast(f[i], (q[i] as u32 + 0x60) as u32);
        }
    }
    lemma_encode_utf8_no_zero(f);
}

/// Folds every hiragana code point in the range `ぁ..=ん` to its katakana
/// counterpart, leaving all other code points untouched.  The fold
/// preserves the length in code points.
pub fn to_katakana(input: &str) -> (r: String)
    ensures
        r@ == fold_chars(input@),
        r@.len() == input@.len(),
        forall|i: int| 0 <= i < input@.len() ==> folds_to(input@[i], #[trigger] r@[i]),
{
    let n: usize = input.unicode_len();
    let mut out: Vec<char> = Vec::new();
    let mut i: usize = 0;
    while i < n
        invariant
            i <= n,
            n == input@.len(),
            out@.len() == i,
            forall|k: int| 0 <= k < i ==> #[trigger] out@[k] == fold_char(input@[k]),
        decreases n - i,
    {
        let c = input.get_char(i);
        let u = c as u32;
        let k: char = if 0x3041 <= u && u <= 0x3093 {
            let v: u32 = u + 0x60;
            match char_from_u32(v) {
                Some(k) => {
                    proof {
                        vstd::utf8::char_u32_cast(k, v);
                    }
                    k
                },
                None => {
                    proof {
                        assert(false);
                    }
                    c
                },
            }
        } else {
            c
        };
        out.push(k);
        i = i + 1;
    }
    proof {
        assert(out@ =~= fold_chars(input@));
        assert forall|i: int| 0 <= i < input@.len() implies folds_to(
            input@[i],
            #[trigger] out@[i],
        ) by {
            if is_foldable_hiragana(input@[i]) {
                vstd::utf8::char_is_scalar(input@[i]);
            }
        }
    }
    string_from_chars(&out)
}

// ---------------------------------------------------------------------
// Page-reference runs
// ---------------------------------------------------------------------
/// A page identifier with an optional sub-item: item 0 denotes the whole
/// page.
#[derive(Debug, Clone, Copy, PartialEq, Eq, Structural)]
pub struct PageItemId {
    pub page: u32,
    pub item: u8,
}

/// The identifier encoded by up to three page bytes (big-endian) and an
/// item byte.
pub open spec fn spec_pid(hi: u8, mid: u8, lo: u8, item: u8) -> PageItemId {
    PageItemId {
        page: (hi as int * 0x10000 + mid as int * 0x100 + lo as int) as u32,
        item,
    }
}

/// Builds a page identifier from three big-endian page bytes and an item
/// byte.
fn pid(hi: u8, mid: u8, lo: u8, item: u8) -> (r: PageItemId)
    ensures
        r == spec_pid(hi, mid, lo, item),
{
    PageItemId { page: (hi as u32) * 0x10000 + (mid as u32) * 0x100 + (lo as u32), item }
}

/// Parses exactly `count` tagged page references from the front of `b`:
/// the decoded identifiers and the number of bytes consumed, or nothing if
/// a tag is unknown or the buffer too short.  Tags 1, 2 and 4 carry one,
/// two or three big-endian page bytes; tags 17 and 18 carry one or two
/// page bytes and an item byte.
pub open spec fn parse_run(b: Seq<u8>, count: nat) -> Option<(Seq<PageItemId>, int)>
    decreases count,
{
    if count == 0 {
        Some((Seq::empty(), 0))
    } else if b.len() >= 2 && b[0] == 1 {
        match parse_run(b.skip(2), (count - 1) as nat) {
            Some(rest) => Some((seq![spec_pid(0, 0, b[1], 0)] + rest.0, rest.1 + 2)),
            None => None,
        }
    } else if b.len() >= 3 && b[0] == 2 {
        match parse_run(b.skip(3), (count - 1) as nat) {
            Some(rest) => Some((seq![spec_pid(0, b[1], b[2], 0)] + rest.0, rest.1 + 3)),
            None => None,
        }
    } else if b.len() >= 4 && b[0] == 4 {
        match parse_run(b.skip(4), (count - 1) as nat) {
            Some(rest) => Some((seq![spec_pid(b[1], b[2], b[3], 0)] + rest.0, rest.1 + 4)),
            None => None,
        }
    } else if b.len() >= 3 && b[0] == 17 {
        match parse_run(b.skip(3), (count - 1) as nat) {
            Some(rest) => Some((seq![spec_pid(0, 0, b[1], b[2])] + rest.0, rest.1 + 3)),
            None => None,
        }
    } else if b.len() >= 4 && b[0] == 18 {
        match parse_run(b.skip(4), (count - 1) as nat) {
            Some(rest) => Some((seq![spec_pid(0, b[1], b[2], b[3])] + rest.0, rest.1 + 4)),
            None => None,
        }
    } else {
        None
    }
}

/// The identifiers of a parse result.
pub open spec fn run_items(o: Option<(Seq<PageItemId>, int)>) -> Seq<PageItemId> {
    match o {
        Some(r) => r.0,
        None => Seq::empty(),
    }
}

/// The bytes consumed by a parse result.
pub open spec fn run_len(o: Option<(Seq<PageItemId>, int)>) -> int {
    match o {
        Some(r) => r.1,
        None => 0,
    }
}

/// A successful parse consumes between 2 and 4 bytes per reference and
/// yields exactly `count` identifiers.
pub proof fn lemma_parse_run_shape(b: Seq<u8>, count: nat)
    requires
        parse_run(b, count) is Some,
    ensures
        run_items(parse_run(b, count)).len() == count,
        0 <= run_len(parse_run(b, count)) <= b.len(),
    decreases count,
{
    if count != 0 {
        if b.len() >= 2 && b[0] == 1 {
            lemma_parse_run_shape(b.skip(2), (count - 1) as nat);
        } else if b.len() >= 3 && b[0] == 2 {
            lemma_parse_run_shape(b.skip(3), (count - 1) as nat);
        } else if b.len() >= 4 && b[0] == 4 {
            lemma_parse_run_shape(b.skip(4), (count - 1) as nat);
        } else if b.len() >= 3 && b[0] == 17 {
            lemma_parse_run_shape(b.skip(3), (count - 1) as nat);
        } else if b.len() >= 4 && b[0] == 18 {
            lemma_parse_run_shape(b.skip(4), (count - 1) as nat);
        }
    }
}

/// Truncating the buffer to exactly the consumed bytes parses to the same
/// result.
pub proof fn lemma_parse_run_take(b: Seq<u8>, count: nat)
    requires
        parse_run(b, count) is Some,
    ensures
        parse_run(b.take(run_len(parse_run(b, count))), count) == parse_run(b, count),
    decreases count,
{
    lemma_parse_run_shape(b, count);
    let n = run_len(parse_run(b, count));
    let t = b.take(n);
    if count == 0 {
        assert(t =~= Seq::<u8>::empty());
    } else {
        let w: int = if b[0] == 1 {
            2
        } else if b[0] == 2 || b[0] == 17 {
            3
        } else {
            4
        };
        lemma_parse_run_shape(b.skip(w), (count - 1) as nat);
        lemma_parse_run_take(b.skip(w), (count - 1) as nat);
        let rest = parse_run(b.skip(w), (count - 1) as nat);
        assert(t.skip(w) =~= b.skip(w).take(run_len(rest)));
        assert(parse_run(t, count) == parse_run(b, count));
    }
}

/// A lazy iterator over one keyword's page references.  Construction
/// validates the whole run, so emission is total: every `next` on a
/// well-formed iterator with references left yields one identifier.
#[derive(Debug, Clone)]
pub struct PageIter {
    pub span: Vec<u8>,
    pub pos: usize,
    pub count: u16,
}

impl PageIter {
    /// The remaining bytes parse to exactly `count` references and consume
    /// exactly the rest of the span: established by `new`, kept by `next`.
    pub open spec fn wf(&self) -> bool {
        &&& self.pos <= self.span@.len()
        &&& match parse_run(self.span@.skip(self.pos as int), self.count as nat) {
            Some(r) => r.1 == self.span@.len() - self.pos,
            None => false,
        }
    }

    /// The identifiers this iterator has yet to yield.
    pub open spec fn items(&self) -> Seq<PageItemId> {
        run_items(parse_run(self.span@.skip(self.pos as int), self.count as nat))
    }

    /// Validates a page-reference run: a `u16le` count, then `count`
    /// tagged references.  An unknown tag or a truncated buffer is a
    /// corrupt index.
    pub fn new(pages: &[u8]) -> (r: Result<PageIter, Error>)
        ensures
            r is Ok <==> pages@.len() >= 2 && parse_run(
                pages@.skip(2),
                le16_at(pages@, 0) as nat,
            ) is Some,
            r matches Ok(it) ==> {
                &&& it.wf()
                &&& it.count == le16_at(pages@, 0)
                &&& it.pos == 0
                &&& it.items() == run_items(parse_run(pages@.skip(2), le16_at(pages@, 0) as nat))
                &&& it.items().len() == it.count
            },
            r matches Err(e) ==> e == Error::InvalidIndex,
    {
        let plen: usize = pages.len();
        if plen < 2 {
            return Err(Error::InvalidIndex);
        }
        let count: u16 = read_le16(pages, 0);
        let ghost whole = parse_run(pages@.skip(2), count as nat);
        let mut pos: usize = 2;
        let mut k: u16 = 0;
        let ghost mut prefix: Seq<PageItemId> = Seq::empty();
        proof {
            assert(Seq::<PageItemId>::empty() + run_items(whole) =~= run_items(whole));
        }
        while k < count
            invariant
                2 <= pos <= plen,
                plen == pages@.len(),
                k <= count,
                count == le16_at(pages@, 0),
                whole == parse_run(pages@.skip(2), count as nat),
                match parse_run(pages@.skip(pos as int), (count - k) as nat) {
                    Some(rest) => whole == Some::<(Seq<PageItemId>, int)>(
                        (prefix + rest.0, pos - 2 + rest.1),
                    ),
                    None => whole is None,
                },
            decreases count - k,
        {
            let ghost before = parse_run(pages@.skip(pos as int), (count - k) as nat);
            proof {
                assert(pages@.skip(pos as int).len() == plen - pos);
            }
            if pos >= plen {
                proof {
                    assert(parse_run(pages@.skip(pos as int), (count - k) as nat) is None);
                }
                return Err(Error::InvalidIndex);
            }
            let tag: u8 = pages[pos];
            proof {
                assert(pages@.skip(pos as int)[0] == tag);
            }
            let width: usize = if tag == 1 {
                2
            } else if tag == 2 || tag == 17 {
                3
            } else if tag == 4 || tag == 18 {
                4
            } else {
                proof {
                    assert(parse_run(pages@.skip(pos as int), (count - k) as nat) is None);
                }
                return Err(Error::InvalidIndex);
            };
            if plen - pos < width {
                proof {
                    assert(parse_run(pages@.skip(pos as int), (count - k) as nat) is None);
                }
                return Err(Error::InvalidIndex);
            }
            let ghost item: PageItemId = if tag == 1 {
                spec_pid(0, 0, pages@[pos + 1], 0)
            } else if tag == 2 {
                spec_pid(0, pages@[pos + 1], pages@[pos + 2], 0)
            } else if tag == 4 {
                spec_pid(pages@[pos + 1], pages@[pos + 2], pages@[pos + 3], 0)
            } else if tag == 17 {
                spec_pid(0, 0, pages@[pos + 1], pages@[pos + 2])
            } else {
                spec_pid(0, pages@[pos + 1], pages@[pos + 2], pages@[pos + 3])
            };
            proof {
                assert(pages@.skip(pos as int).skip(width as int) =~= pages@.skip(
                    pos + width as int,
                ));
                let b = pages@.skip(pos as int);
                assert(b[0] == tag && b.len() == plen - pos);
                match parse_run(pages@.skip(pos + width as int), (count - k - 1) as nat) {
                    Some(rest2) => {
                        assert(before == Some::<(Seq<PageItemId>, int)>(
                            (seq![item] + rest2.0, rest2.1 + width),
                        ));
                        assert((prefix + (seq![item] + rest2.0)) =~= ((prefix + seq![item])
                            + rest2.0));
                    },
                    None => {
                        assert(before is None);
                    },
                }
                prefix = prefix + seq![item];
            }
            pos = pos + width;
            k = k + 1;
        }
        proof {
            let rest = parse_run(pages@.skip(pos as int), 0);
            assert(rest == Some::<(Seq<PageItemId>, int)>((Seq::empty(), 0)));
            assert(whole == Some::<(Seq<PageItemId>, int)>((prefix + Seq::empty(), pos - 2)));
            assert(prefix + Seq::<PageItemId>::empty() =~= prefix);
        }
        let span: Vec<u8> = slice_to_vec(slice_subrange(pages, 2, pos));
        proof {
            assert(span@ =~= pages@.skip(2).take(run_len(whole)));
            lemma_parse_run_take(pages@.skip(2), count as nat);
            assert(span@.skip(0) =~= span@);
            lemma_parse_run_shape(pages@.skip(2), count as nat);
        }
        Ok(PageIter { span, pos: 0, count })
    }

    /// Yields the next page identifier, or nothing when the run is
    /// exhausted.  On a well-formed iterator no other outcome exists: it
    /// yields exactly `count` identifiers and consumes exactly the
    /// validated bytes.
    pub fn next(&mut self) -> (r: Option<PageItemId>)
        requires
            old(self).wf(),
        ensures
            final(self).wf(),
            old(self).count == 0 ==> r is None && *final(self) == *old(self),
            old(self).count > 0 ==> {
                &&& r == Some::<PageItemId>(old(self).items()[0])
                &&& final(self).items() =~= old(self).items().skip(1)
                &&& final(self).count == old(self).count - 1
                &&& final(self).span == old(self).span
            },
    {
        if self.count == 0 {
            return None;
        }
        let ghost b = self.span@.skip(self.pos as int);
        let pos = self.pos;
        let slen: usize = self.span.len();
        proof {
            assert(b.len() == slen - pos);
            assert(b.len() >= 2);
        }
        let tag: u8 = self.span[pos];
        proof {
            assert(b[0] == tag);
        }
        let (id, width): (PageItemId, usize) = if tag == 1 {
            (pid(0, 0, self.span[pos + 1], 0), 2)
        } else if tag == 2 {
            proof {
                assert(b.len() >= 3);
            }
            (pid(0, self.span[pos + 1], self.span[pos + 2], 0), 3)
        } else if tag == 4 {
            proof {
                assert(b.len() >= 4);
            }
            (pid(self.span[pos + 1], self.span[pos + 2], self.span[pos + 3], 0), 4)
        } else if tag == 17 {
            proof {
                assert(b.len() >= 3);
            }
            (pid(0, 0, self.span[pos + 1], self.span[pos + 2]), 3)
        } else {
            proof {
                assert(b[0] == 18);
                assert(b.len() >= 4);
            }
            (pid(0, self.span[pos + 1], self.span[pos + 2], self.span[pos + 3]), 4)
        };
        proof {
            assert(b.skip(width as int) =~= self.span@.skip(self.pos + width as int));
            let rest = parse_run(b.skip(width as int), (self.count - 1) as nat);
            assert((seq![id] + run_items(rest)).skip(1) =~= run_items(rest));
        }
        self.pos = pos + width;
        self.count = self.count - 1;
        Some(id)
    }
}

// ---------------------------------------------------------------------
// Keystore file layout
// ---------------------------------------------------------------------
/// Rounds a byte count up to a whole number of 32-bit words, as the
/// region reader does.
pub open spec fn ceil4(n: int) -> int {
    ((n + 3) / 4) * 4
}

/// Offset of the words region, from the file header.
pub open spec fn ks_words_offset(d: Seq<u8>) -> int {
    le32_at(d, 8) as int
}

/// Offset of the index-set header, from the file header.
pub open spec fn ks_idx_offset(d: Seq<u8>) -> int {
    le32_at(d, 12) as int
}

/// The keystore file header is valid: the six magic words carry their
/// expected values and the words region precedes the index set.
pub open spec fn file_header_ok(d: Seq<u8>) -> bool {
    &&& le32_at(d, 0) == 0x20000
    &&& le32_at(d, 4) == 0
    &&& le32_at(d, 16) == 0
    &&& le32_at(d, 20) == 0
    &&& le32_at(d, 24) == 0
    &&& le32_at(d, 28) == 0
    &&& ks_words_offset(d) < ks_idx_offset(d)
}

/// The ordering the index-set header demands of two consecutive offsets:
/// ascending, except that a zero right-hand offset marks an absent index.
pub open spec fn offsets_ordered(l: int, r: int) -> bool {
    l < r || r == 0
}

/// Byte length that the region between offsets `x` and `y` occupies, zero
/// when either offset marks the region absent.
pub open spec fn region_size(x: int, y: int) -> int {
    if x != 0 && y != 0 {
        ceil4(y - x)
    } else {
        0
    }
}

/// The four index-array offsets, relative to the index-set header.
pub open spec fn ks_a(d: Seq<u8>) -> int {
    le32_at(d, ks_idx_offset(d) + 4) as int
}

pub open spec fn ks_b(d: Seq<u8>) -> int {
    le32_at(d, ks_idx_offset(d) + 8) as int
}

pub open spec fn ks_c(d: Seq<u8>) -> int {
    le32_at(d, ks_idx_offset(d) + 12) as int
}

pub open spec fn ks_d(d: Seq<u8>) -> int {
    le32_at(d, ks_idx_offset(d) + 16) as int
}

/// Bytes of the file that follow the index-set header's position.
pub open spec fn ks_file_end(d: Seq<u8>) -> int {
    d.len() - ks_idx_offset(d)
}

/// The index-set header is valid: its magic word, and the four offsets
/// monotone except for absent indexes, all bounded by the file end.
pub open spec fn index_header_ok(d: Seq<u8>) -> bool {
    &&& le32_at(d, ks_idx_offset(d)) == 4
    &&& offsets_ordered(ks_a(d), ks_b(d))
    &&& offsets_ordered(ks_b(d), ks_c(d))
    &&& offsets_ordered(ks_c(d), ks_d(d))
    &&& offsets_ordered(ks_d(d), ks_file_end(d))
}

/// Cursor positions of the four index arrays, laid out one after another
/// right behind the index-set header.
pub open spec fn ks_cursor_a(d: Seq<u8>) -> int {
    ks_idx_offset(d) + 20
}

pub open spec fn ks_cursor_b(d: Seq<u8>) -> int {
    ks_cursor_a(d) + region_size(ks_a(d), ks_b(d))
}

pub open spec fn ks_cursor_c(d: Seq<u8>) -> int {
    ks_cursor_b(d) + region_size(ks_b(d), ks_c(d))
}

pub open spec fn ks_cursor_d(d: Seq<u8>) -> int {
    ks_cursor_c(d) + region_size(ks_c(d), ks_d(d))
}

/// The consecutive 32-bit little-endian words starting at `start`.
pub open spec fn le32_run(d: Seq<u8>, start: int, words: int) -> Seq<u32> {
    Seq::new(words as nat, |k: int| le32_at(d, start + 4 * k))
}

/// The index array stored for the region between offsets `x` and `y`, or
/// nothing when the region is absent.
pub open spec fn ks_region(d: Seq<u8>, cursor: int, x: int, y: int) -> Option<Seq<u32>> {
    if x != 0 && y != 0 {
        Some(le32_run(d, cursor, region_size(x, y) / 4))
    } else {
        None
    }
}

/// The stored array's length prefix agrees with its size: absent regions
/// pass vacuously.
pub open spec fn ks_region_len_ok(d: Seq<u8>, cursor: int, x: int, y: int) -> bool {
    x != 0 && y != 0 ==> le32_at(d, cursor) as int + 1 == region_size(x, y) / 4
}

/// The whole keystore file parses: both headers valid, every region
/// inside the file, and every present index array carrying its own length
/// as its first word.
pub open spec fn keystore_ok(d: Seq<u8>) -> bool {
    &&& d.len() >= 32
    &&& file_header_ok(d)
    &&& ks_words_offset(d) != 0
    &&& ks_words_offset(d) + ceil4(ks_idx_offset(d) - ks_words_offset(d)) <= d.len()
    &&& ks_idx_offset(d) + 20 <= d.len()
    &&& index_header_ok(d)
    &&& ks_cursor_d(d) + region_size(ks_d(d), ks_file_end(d)) <= d.len()
    &&& ks_region_len_ok(d, ks_cursor_a(d), ks_a(d), ks_b(d))
    &&& ks_region_len_ok(d, ks_cursor_b(d), ks_b(d), ks_c(d))
    &&& ks_region_len_ok(d, ks_cursor_c(d), ks_c(d), ks_d(d))
    &&& ks_region_len_ok(d, ks_cursor_d(d), ks_d(d), ks_file_end(d))
}

/// The view of an optional index array.
pub open spec fn opt_view(o: Option<Vec<u32>>) -> Option<Seq<u32>> {
    match o {
        Some(v) => Some(v@),
        None => None,
    }
}

/// The keystore file header, decoded.
struct FileHeader {
    magic1: u32,
    magic2: u32,
    words_offset: u32,
    idx_offset: u32,
    magic3: u32,
    magic4: u32,
    magic5: u32,
    magic6: u32,
}

impl FileHeader {
    /// Decodes the eight header words.
    fn parse(d: &[u8]) -> (r: FileHeader)
        requires
            d@.len() >= 32,
        ensures
            r.magic1 == le32_at(d@, 0),
            r.magic2 == le32_at(d@, 4),
            r.words_offset == le32_at(d@, 8),
            r.idx_offset == le32_at(d@, 12),
            r.magic3 == le32_at(d@, 16),
            r.magic4 == le32_at(d@, 20),
            r.magic5 == le32_at(d@, 24),
            r.magic6 == le32_at(d@, 28),
    {
        FileHeader {
            magic1: read_le32(d, 0),
            magic2: read_le32(d, 4),
            words_offset: read_le32(d, 8),
            idx_offset: read_le32(d, 12),
            magic3: read_le32(d, 16),
            magic4: read_le32(d, 20),
            magic5: read_le32(d, 24),
            magic6: read_le32(d, 28),
        }
    }

    /// Checks the header magics and that the words region precedes the
    /// index set.
    fn validate(&self) -> (r: Result<(), Error>)
        ensures
            r is Ok <==> self.magic1 == 0x20000 && self.magic2 == 0 && self.magic3 == 0
                && self.magic4 == 0 && self.magic5 == 0 && self.magic6 == 0 && self.words_offset
                < self.idx_offset,
            r matches Err(e) ==> e == Error::KeyFileHeaderValidate,
    {
        if self.magic1 == 0x20000 && self.magic2 == 0 && self.magic3 == 0 && self.magic4 == 0
            && self.magic5 == 0 && self.magic6 == 0 && self.words_offset < self.idx_offset {
            Ok(())
        } else {
            Err(Error::KeyFileHeaderValidate)
        }
    }
}

/// The index-set header, decoded.
struct IndexHeader {
    magic1: u32,
    index_a_offset: u32,
    index_b_offset: u32,
    index_c_offset: u32,
    index_d_offset: u32,
}

/// The ordering check of the index-set header, as the format demands it.
fn check_order(l: u64, r: u64) -> (b: bool)
    ensures
        b == offsets_ordered(l as int, r as int),
{
    l < r || r == 0
}

impl IndexHeader {
    /// Decodes the five header words starting at `at`.
    fn parse(d: &[u8], at: usize) -> (r: IndexHeader)
        requires
            at + 20 <= d@.len(),
        ensures
            r.magic1 == le32_at(d@, at as int),
            r.index_a_offset == le32_at(d@, at + 4),
            r.index_b_offset == le32_at(d@, at + 8),
            r.index_c_offset == le32_at(d@, at + 12),
            r.index_d_offset == le32_at(d@, at + 16),
    {
        let dl: usize = d.len();
        IndexHeader {
            magic1: read_le32(d, at),
            index_a_offset: read_le32(d, at + 4),
            index_b_offset: read_le32(d, at + 8),
            index_c_offset: read_le32(d, at + 12),
            index_d_offset: read_le32(d, at + 16),
        }
    }

    /// Checks the magic word and the monotone ordering of the four
    /// offsets against the file end.
    fn validate(&self, file_end: u64) -> (r: Result<(), Error>)
        ensures
            r is Ok <==> self.magic1 == 4 && offsets_ordered(
                self.index_a_offset as int,
                self.index_b_offset as int,
            ) && offsets_ordered(self.index_b_offset as int, self.index_c_offset as int)
                && offsets_ordered(self.index_c_offset as int, self.index_d_offset as int)
                && offsets_ordered(self.index_d_offset as int, file_end as int),
            r matches Err(e) ==> e == Error::KeyIndexHeaderValidate,
    {
        if self.magic1 == 4 && check_order(self.index_a_offset as u64, self.index_b_offset as u64)
            && check_order(self.index_b_offset as u64, self.index_c_offset as u64) && check_order(
            self.index_c_offset as u64,
            self.index_d_offset as u64,
        ) && check_order(self.index_d_offset as u64, file_end) {
            Ok(())
        } else {
            Err(Error::KeyIndexHeaderValidate)
        }
    }
}

/// One of the four keyword orderings: a length-prefixed array of word
/// offsets, or nothing when the keystore does not carry this ordering.
#[derive(Debug)]
pub struct KeyIndex {
    pub index: Option<Vec<u32>>,
}

impl KeyIndex {
    /// The word offset at position `i`; the entry after the length prefix.
    pub fn get(&self, i: usize) -> (r: Result<usize, Error>)
        ensures
            self.index is None ==> (r matches Err(e) && e == Error::IndexDoesntExist),
            self.index matches Some(v) ==> r == (if i + 1 < v@.len() {
                Ok::<usize, Error>(v@[i as int + 1] as usize)
            } else {
                Err::<usize, Error>(Error::InvalidIndex)
            }),
    {
        let Some(index) = &self.index else {
            return Err(Error::IndexDoesntExist)
        };
        if index.len() == 0 || i >= index.len() - 1 {
            return Err(Error::InvalidIndex);
        }
        Ok(index[i + 1] as usize)
    }

    /// Number of keys this ordering covers: its array length without the
    /// length prefix.
    pub fn len(&self) -> (r: usize)
        requires
            self.index matches Some(v) && v@.len() >= 1,
        ensures
            self.index matches Some(v) && r == v@.len() - 1,
    {
        let Some(index) = &self.index else {
            proof {
                assert(false);
            }
            return 0;
        };
        index.len() - 1
    }
}

/// The loaded keystore: the words region and the four keyword orderings.
pub struct Keys {
    pub words: Vec<u8>,
    pub index_len: KeyIndex,
    pub index_prefix: KeyIndex,
    pub index_suffix: KeyIndex,
    pub index_d: KeyIndex,
}

impl Keys {
    /// A present index array must carry its own length: its first word
    /// plus one equals the array length.
    pub fn check_vec_len(buf: &Option<Vec<u32>>) -> (r: Result<(), Error>)
        ensures
            buf is None ==> r == Ok::<(), Error>(()),
            buf matches Some(v) ==> (r is Ok <==> v@.len() >= 1 && v@[0] as int + 1 == v@.len()),
            r matches Err(e) ==> e == Error::InvalidIndex,
    {
        let Some(buf) = buf else {
            return Ok(())
        };
        if buf.len() == 0 {
            return Err(Error::InvalidIndex);
        }
        if buf[0] as usize != buf.len() - 1 {
            return Err(Error::InvalidIndex);
        }
        Ok(())
    }

    /// Reads one index-array region out of the file image: absent when
    /// either bounding offset is zero, else the `ceil4`-sized run of
    /// words at the cursor.
    fn read_region(data: &[u8], cursor: u64, x: u32, y: u32) -> (r: Result<
        Option<Vec<u32>>,
        Error,
    >)
        requires
            x != 0 && y != 0 ==> x < y,
            cursor <= data@.len(),
        ensures
            r matches Ok(o) ==> opt_view(o) == ks_region(data@, cursor as int, x as int, y as int)
                && cursor + region_size(x as int, y as int) <= data@.len(),
            r is Ok <==> cursor + region_size(x as int, y as int) <= data@.len(),
            r matches Err(e) ==> e == Error::IOError,
    {
        if x == 0 || y == 0 {
            return Ok(None);
        }
        let diff: u64 = (y - x) as u64;
        let size: u64 = ((diff + 3) / 4) * 4;
        let dlen: usize = data.len();
        if size > (dlen as u64) - cursor {
            return Err(Error::IOError);
        }
        let words: usize = (size / 4) as usize;
        let arr = crate::abi::read_le32_run(data, cursor as usize, words);
        proof {
            assert(arr@ =~= le32_run(data@, cursor as int, region_size(x as int, y as int) / 4));
        }
        Ok(Some(arr))
    }

    /// Loads a keystore from the raw bytes of its file: validates both
    /// headers, takes the words region, and reads the four orderings,
    /// each of which must carry its own length.
    #[verifier::rlimit(50)]
    pub fn new(data: &[u8]) -> (r: Result<Keys, Error>)
        ensures
            r is Ok <==> keystore_ok(data@),
            r matches Ok(k) ==> {
                &&& k.words@ == data@.subrange(
                    ks_words_offset(data@),
                    ks_words_offset(data@) + ceil4(ks_idx_offset(data@) - ks_words_offset(data@)),
                )
                &&& opt_view(k.index_len.index) == ks_region(
                    data@,
                    ks_cursor_a(data@),
                    ks_a(data@),
                    ks_b(data@),
                )
                &&& opt_view(k.index_prefix.index) == ks_region(
                    data@,
                    ks_cursor_b(data@),
                    ks_b(data@),
                    ks_c(data@),
                )
                &&& opt_view(k.index_suffix.index) == ks_region(
                    data@,
                    ks_cursor_c(data@),
                    ks_c(data@),
                    ks_d(data@),
                )
                &&& opt_view(k.index_d.index) == ks_region(
                    data@,
                    ks_cursor_d(data@),
                    ks_d(data@),
                    ks_file_end(data@),
                )
                &&& (k.index_len.index matches Some(v) ==> v@.len() >= 1 && v@[0] as int + 1
                    == v@.len())
                &&& (k.index_prefix.index matches Some(v) ==> v@.len() >= 1 && v@[0] as int + 1
                    == v@.len())
                &&& (k.index_suffix.index matches Some(v) ==> v@.len() >= 1 && v@[0] as int + 1
                    == v@.len())
                &&& (k.index_d.index matches Some(v) ==> v@.len() >= 1 && v@[0] as int + 1
                    == v@.len())
            },
            r matches Err(e) ==> e == Error::IOError || e == Error::InvalidIndex || e
                == Error::KeyFileHeaderValidate || e == Error::KeyIndexHeaderValidate,
    {
        let dlen: usize = data.len();
        if dlen < 32 {
            return Err(Error::IOError);
        }
        let hdr = FileHeader::parse(data);
        hdr.validate()?;

        let ws: u64 = hdr.words_offset as u64;
        let ie: u64 = hdr.idx_offset as u64;
        if ws == 0 {
            return Err(Error::InvalidIndex);
        }
        let wb: u64 = (((ie - ws) + 3) / 4) * 4;
        if ws + wb > dlen as u64 {
            return Err(Error::IOError);
        }
        let words: Vec<u8> = slice_to_vec(
            slice_subrange(data, ws as usize, (ws + wb) as usize),
        );

        if ie + 20 > dlen as u64 {
            return Err(Error::IOError);
        }
        let file_end: u64 = dlen as u64 - ie;
        let ihdr = IndexHeader::parse(data, ie as usize);
        ihdr.validate(file_end)?;

        let mut cursor: u64 = ie + 20;
        let index_a = Self::read_region(
            data,
            cursor,
            ihdr.index_a_offset,
            ihdr.index_b_offset,
        )?;
        cursor = cursor + region_size_exec(ihdr.index_a_offset, ihdr.index_b_offset);
        Self::check_vec_len(&index_a)?;

        let index_b = Self::read_region(
            data,
            cursor,
            ihdr.index_b_offset,
            ihdr.index_c_offset,
        )?;
        cursor = cursor + region_size_exec(ihdr.index_b_offset, ihdr.index_c_offset);
        Self::check_vec_len(&index_b)?;

        let index_c = Self::read_region(
            data,
            cursor,
            ihdr.index_c_offset,
            ihdr.index_d_offset,
        )?;
        cursor = cursor + region_size_exec(ihdr.index_c_offset, ihdr.index_d_offset);
        Self::check_vec_len(&index_c)?;

        let index_d = Self::read_region_d(data, cursor, ihdr.index_d_offset, file_end)?;
        Self::check_vec_len(&index_d)?;

        Ok(
            Keys {
                words,
                index_len: KeyIndex { index: index_a },
                index_prefix: KeyIndex { index: index_b },
                index_suffix: KeyIndex { index: index_c },
                index_d: KeyIndex { index: index_d },
            },
        )
    }

    /// Reads the fourth index-array region, which is bounded by the file
    /// end rather than by another stored offset.
    fn read_region_d(data: &[u8], cursor: u64, x: u32, file_end: u64) -> (r: Result<
        Option<Vec<u32>>,
        Error,
    >)
        requires
            x != 0 && file_end != 0 ==> x < file_end,
            cursor <= data@.len(),
        ensures
            r matches Ok(o) ==> opt_view(o) == ks_region(
                data@,
                cursor as int,
                x as int,
                file_end as int,
            ) && cursor + region_size(x as int, file_end as int) <= data@.len(),
            r is Ok <==> cursor + region_size(x as int, file_end as int) <= data@.len(),
            r matches Err(e) ==> e == Error::IOError,
    {
        if x == 0 || file_end == 0 {
            return Ok(None);
        }
        // The fourth region can span nearly the whole file, so size it in
        // 128-bit arithmetic.
        let diff: u128 = (file_end - x as u64) as u128;
        let size: u128 = ((diff + 3) / 4) * 4;
        let dlen: usize = data.len();
        if size > (dlen as u128) - (cursor as u128) {
            return Err(Error::IOError);
        }
        let words: usize = (size / 4) as usize;
        let arr = crate::abi::read_le32_run(data, cursor as usize, words);
        proof {
            assert(arr@ =~= le32_run(data@, cursor as int, region_size(x as int, file_end as int)
                / 4));
        }
        Ok(Some(arr))
    }
}

/// Byte length of one index-array region, as `region_size` gives it.
fn region_size_exec(x: u32, y: u32) -> (r: u64)
    requires
        x != 0 && y != 0 ==> x < y,
    ensures
        r == region_size(x as int, y as int),
{
    if x == 0 || y == 0 {
        0
    } else {
        let diff: u64 = (y - x) as u64;
        ((diff + 3) / 4) * 4
    }
}

// ---------------------------------------------------------------------
// Words region and exact lookup
// ---------------------------------------------------------------------
/// The key bytes stored at word offset `off`: after the four-byte page
/// reference and the one-byte length prefix, up to the terminating null
/// (or the end of the region when unterminated).
pub open spec fn word_bytes_at(words: Seq<u8>, off: int) -> Seq<u8> {
    words.subrange(off + 5, first_zero(words, off + 5))
}

/// The stored key including its terminating null when present: what the
/// prefix ordering sorts by.
pub open spec fn keyz_at(words: Seq<u8>, base: int) -> Seq<u8> {
    let start = base + 5;
    let fz = first_zero(words, start);
    if fz < words.len() {
        words.subrange(start, fz + 1)
    } else {
        words.subrange(start, fz)
    }
}

/// How the comparator places the stored key at `base` against the query
/// bytes `t`: the first `t.len()` stored bytes decide, and on a tie the
/// next stored byte must be the terminating null, else the stored key is
/// strictly longer and counts as greater.
pub open spec fn key_cmp_at(words: Seq<u8>, base: int, t: Seq<u8>) -> Ordering {
    let s = words.subrange(base + 5, base + 5 + t.len());
    if bytes_cmp(s, t) == Ordering::Equal {
        if words[base + 5 + t.len()] == 0 {
            Ordering::Equal
        } else {
            Ordering::Greater
        }
    } else {
        bytes_cmp(s, t)
    }
}

/// The window comparison the comparator makes equals the byte-wise
/// comparison of the null-terminated stored key against the query with a
/// null appended, for null-free queries whose window fits the region.
pub proof fn lemma_window_cmp(w: Seq<u8>, base: int, t: Seq<u8>)
    requires
        0 <= base + 5,
        base + 5 + t.len() + 1 <= w.len(),
        forall|i: int| 0 <= i < t.len() ==> t[i] != 0,
    ensures
        key_cmp_at(w, base, t) == bytes_cmp(keyz_at(w, base), t.push(0)),
    decreases t.len(),
{
    let start = base + 5;
    lemma_first_zero(w, start);
    let s = w.subrange(start, start + t.len());
    let fz = first_zero(w, start);
    let kz = keyz_at(w, base);
    let tz = t.push(0);
    if t.len() == 0 {
        assert(s =~= Seq::<u8>::empty());
        assert(tz =~= seq![0u8]);
        if w[start] == 0 {
            assert(fz == start);
            assert(kz =~= seq![0u8]);
            assert(kz.skip(1) =~= Seq::<u8>::empty());
            assert(tz.skip(1) =~= Seq::<u8>::empty());
        } else {
            assert(fz > start);
            assert(kz.len() >= 1 && kz[0] == w[start]);
        }
    } else {
        assert(s.len() == t.len());
        assert(s[0] == w[start]);
        assert(kz.len() >= 1 && kz[0] == w[start]);
        assert(tz[0] == t[0]);
        assert(t[0] != 0);
        if w[start] == t[0] {
            assert(w[start] != 0);
            assert(fz == first_zero(w, start + 1));
            lemma_window_cmp(w, base + 1, t.skip(1));
            lemma_first_zero(w, start + 1);
            let s1 = w.subrange(start + 1, start + 1 + t.skip(1).len());
            assert(s.skip(1) =~= s1);
            assert(kz.skip(1) =~= keyz_at(w, base + 1));
            assert(tz.skip(1) =~= t.skip(1).push(0));
            assert(bytes_cmp(s, t) == bytes_cmp(s.skip(1), t.skip(1)));
            assert(bytes_cmp(kz, tz) == bytes_cmp(kz.skip(1), tz.skip(1)));
            assert(start + t.len() == (base + 1) + 5 + t.skip(1).len());
        }
    }
}

impl Keys {
    /// The word offset of position `p` in the prefix ordering.
    pub open spec fn prefix_entry(&self, p: int) -> int {
        match self.index_prefix.index {
            Some(v) => v@[p + 1] as int,
            None => 0,
        }
    }

    /// Number of keys the prefix ordering covers.
    pub open spec fn prefix_len(&self) -> int {
        match self.index_prefix.index {
            Some(v) => v@.len() - 1,
            None => 0,
        }
    }

    /// The null-terminated key at position `i` of the prefix ordering
    /// sorts strictly below the one at position `j`.
    pub open spec fn prefix_key_less(&self, i: int, j: int) -> bool {
        bytes_cmp(keyz_at(self.words@, self.prefix_entry(i)), keyz_at(self.words@, self.prefix_entry(j)))
            == Ordering::Less
    }

    /// The prefix ordering is strictly sorted, as the format guarantees:
    /// each key, with its terminating null appended, compares
    /// lexicographically below its successor.  Lookup is exact under this
    /// hypothesis.
    pub open spec fn prefix_keys_sorted(&self) -> bool {
        forall|i: int, j: int|
            0 <= i < j < self.prefix_len() ==> #[trigger] self.prefix_key_less(i, j)
    }

    /// Every comparator window for a query of `tlen` bytes stays inside
    /// the words region.
    pub open spec fn cmp_windows_ok(&self, tlen: int) -> bool {
        forall|p: int|
            0 <= p < self.prefix_len() ==> #[trigger] self.prefix_entry(p) + 6 + tlen
                <= self.words@.len()
    }

    /// The stored word at position `p` of the prefix ordering can be
    /// handed out: its span lies inside the words region, its key bytes
    /// are text, and its page-reference run parses.
    pub open spec fn entry_retrievable(&self, p: int) -> bool {
        let off = self.prefix_entry(p);
        let sub = self.words@.skip(le32_at(self.words@, off) as int);
        &&& off + 8 <= self.words@.len()
        &&& valid_utf8(word_bytes_at(self.words@, off))
        &&& le32_at(self.words@, off) <= self.words@.len()
        &&& sub.len() >= 2
        &&& parse_run(sub.skip(2), le16_at(sub, 0) as nat) is Some
    }

    /// Under the sortedness guarantee the stored keys are pairwise
    /// distinct: a key determines its position in the prefix ordering, so
    /// a successful exact search names the one position carrying the
    /// searched keyword.
    pub proof fn lemma_prefix_position_determined(&self, i: int, j: int)
        requires
            self.prefix_keys_sorted(),
            0 <= i < self.prefix_len(),
            0 <= j < self.prefix_len(),
            keyz_at(self.words@, self.prefix_entry(i)) == keyz_at(self.words@, self.prefix_entry(j)),
        ensures
            i == j,
    {
        if i < j {
            assert(self.prefix_key_less(i, j));
            lemma_bytes_cmp_equal(
                keyz_at(self.words@, self.prefix_entry(i)),
                keyz_at(self.words@, self.prefix_entry(j)),
            );
        } else if j < i {
            assert(self.prefix_key_less(j, i));
            lemma_bytes_cmp_equal(
                keyz_at(self.words@, self.prefix_entry(j)),
                keyz_at(self.words@, self.prefix_entry(i)),
            );
        }
    }

    /// Reads the key and the page-run offset stored at word offset
    /// `offset`: a four-byte page-run offset, a length byte, then the
    /// null-terminated UTF-8 key.
    pub fn get_word_span(&self, offset: usize) -> (r: Result<(String, usize), Error>)
        ensures
            r is Ok <==> offset + 8 <= self.words@.len() && valid_utf8(
                word_bytes_at(self.words@, offset as int),
            ),
            r matches Ok((w, po)) ==> encode_utf8(w@) == word_bytes_at(self.words@, offset as int)
                && po == le32_at(self.words@, offset as int) as usize,
            r matches Err(e) ==> e == (if offset + 8 <= self.words@.len() {
                Error::Utf8Error
            } else {
                Error::InvalidIndex
            }),
    {
        let wl: usize = self.words.len();
        if wl < 8 || offset > wl - 8 {
            return Err(Error::InvalidIndex);
        }
        let wslice: &[u8] = self.words.as_slice();
        let pages_offset: u32 = read_le32(wslice, offset);
        let end: usize = find_zero(wslice, offset + 5);
        proof {
            lemma_first_zero(self.words@, offset + 5);
        }
        let word = slice_subrange(wslice, offset + 5, end);
        match bytes_to_str(word) {
            Some(s) => Ok((s.to_owned(), pages_offset as usize)),
            None => Err(Error::Utf8Error),
        }
    }

    /// Builds the page-reference iterator for the run stored at
    /// `pages_offset` in the words region.
    pub fn get_page_iter(&self, pages_offset: usize) -> (r: Result<PageIter, Error>)
        ensures
            r is Ok <==> ({
                let sub = self.words@.skip(pages_offset as int);
                pages_offset <= self.words@.len() && sub.len() >= 2 && parse_run(
                    sub.skip(2),
                    le16_at(sub, 0) as nat,
                ) is Some
            }),
            r matches Ok(it) ==> ({
                let sub = self.words@.skip(pages_offset as int);
                &&& it.wf()
                &&& it.pos == 0
                &&& it.count == le16_at(sub, 0)
                &&& it.items() == run_items(parse_run(sub.skip(2), le16_at(sub, 0) as nat))
                &&& it.items().len() == it.count
            }),
            r matches Err(e) ==> e == Error::InvalidIndex,
    {
        let wl: usize = self.words.len();
        if pages_offset > wl {
            return Err(Error::InvalidIndex);
        }
        let sub = slice_subrange(self.words.as_slice(), pages_offset, wl);
        proof {
            assert(sub@ =~= self.words@.skip(pages_offset as int));
        }
        PageIter::new(sub)
    }

    /// Compares the stored key at position `idx` of the prefix ordering
    /// against the query bytes, null terminator included: a stored key
    /// that extends a fully matching query counts as greater.
    pub fn cmp_key(&self, target: &str, idx: usize) -> (r: Result<Ordering, Error>)
        ensures
            self.index_prefix.index is None ==> (r matches Err(e) && e
                == Error::IndexDoesntExist),
            r is Ok <==> (self.index_prefix.index matches Some(v) && idx + 1 < v@.len() && v@[idx
                as int + 1] + 6 + encode_utf8(target@).len() <= self.words@.len()),
            r matches Ok(o) ==> (self.index_prefix.index matches Some(v) && o == key_cmp_at(
                self.words@,
                v@[idx as int + 1] as int,
                encode_utf8(target@),
            )),
            r matches Err(e) ==> e == Error::IndexDoesntExist || e == Error::InvalidIndex,
    {
        let base: usize = self.index_prefix.get(idx)?;
        let tb: &[u8] = target.as_bytes();
        let tlen: usize = tb.len();
        let wl: usize = self.words.len();
        if wl < 6 || base > wl - 6 || tlen > wl - 6 - base {
            return Err(Error::InvalidIndex);
        }
        let found = slice_subrange(self.words.as_slice(), base + 5, base + 5 + tlen);
        let ord = cmp_bytes(found, tb);
        match ord {
            Ordering::Equal => {
                if self.words[base + 5 + tlen] == 0 {
                    Ok(Ordering::Equal)
                } else {
                    Ok(Ordering::Greater)
                }
            },
            _ => Ok(ord),
        }
    }

    /// Returns the key at position `idx` of the given ordering, with the
    /// iterator over its page references.
    pub fn get_idx(&self, index: &KeyIndex, idx: usize) -> (r: Result<(String, PageIter), Error>)
        ensures
            index.index is None ==> (r matches Err(e) && e == Error::IndexDoesntExist),
            (r matches Err(e) && e == Error::NotFound) <==> (index.index matches Some(v) && (
            v@.len() == 0 || idx + 1 >= v@.len())),
            r matches Err(e) ==> e == Error::IndexDoesntExist || e == Error::NotFound || e
                == Error::InvalidIndex || e == Error::Utf8Error,
            index.index matches Some(v) ==> idx + 1 < v@.len() ==> (r is Ok <==> ({
                let off = v@[idx as int + 1] as int;
                let sub = self.words@.skip(le32_at(self.words@, off) as int);
                &&& off + 8 <= self.words@.len()
                &&& valid_utf8(word_bytes_at(self.words@, off))
                &&& le32_at(self.words@, off) <= self.words@.len()
                &&& sub.len() >= 2
                &&& parse_run(sub.skip(2), le16_at(sub, 0) as nat) is Some
            })),
            index.index matches Some(v) ==> idx + 1 < v@.len() ==> ({
                let off = v@[idx as int + 1] as int;
                (off + 8 <= self.words@.len() && !valid_utf8(word_bytes_at(self.words@, off)))
                    ==> (r matches Err(e) && e == Error::Utf8Error)
            }),
            r matches Ok((w, it)) ==> (index.index matches Some(v) && idx + 1 < v@.len() && {
                let off = v@[idx as int + 1] as int;
                &&& encode_utf8(w@) == word_bytes_at(self.words@, off)
                &&& it.wf()
                &&& ({
                    let sub = self.words@.skip(le32_at(self.words@, off) as int);
                    sub.len() >= 2 && it.count == le16_at(sub, 0) && it.items() == run_items(
                        parse_run(sub.skip(2), le16_at(sub, 0) as nat),
                    )
                })
            }),
    {
        let Some(v) = &index.index else {
            return Err(Error::IndexDoesntExist)
        };
        if v.len() == 0 || idx >= v.len() - 1 {
            return Err(Error::NotFound);
        }
        let word_offset: usize = v[idx + 1] as usize;
        let (word, pages_offset) = self.get_word_span(word_offset)?;
        let pages = self.get_page_iter(pages_offset)?;
        Ok((word, pages))
    }

    /// Exact keyword lookup: folds the query's hiragana to katakana and
    /// binary-searches the prefix ordering.  When the prefix ordering is
    /// sorted as the format guarantees and the folded query contains no
    /// null byte, a `NotFound` means exactly that no stored key equals the
    /// folded query; and the lookup must succeed when the folded query is
    /// stored, every comparator window lies inside the words region, and
    /// the matching word can be handed out.
    pub fn search_exact(&self, target_key: &str) -> (r: Result<(usize, PageIter), Error>)
        ensures
            self.index_prefix.index is None ==> (r matches Err(e) && e
                == Error::IndexDoesntExist),
            r matches Ok((mid, it)) ==> {
                let tb = encode_utf8(fold_chars(target_key@));
                let off = self.prefix_entry(mid as int);
                let sub = self.words@.skip(le32_at(self.words@, off) as int);
                &&& 0 <= mid < self.prefix_len()
                &&& off + 6 + tb.len() <= self.words@.len()
                &&& key_cmp_at(self.words@, off, tb) == Ordering::Equal
                &&& it.wf()
                &&& sub.len() >= 2
                &&& it.count == le16_at(sub, 0)
                &&& it.items() == run_items(parse_run(sub.skip(2), le16_at(sub, 0) as nat))
            },
            (self.prefix_keys_sorted() && !has_zero_byte(encode_utf8(fold_chars(target_key@))) && (
            r matches Err(e) && e == Error::NotFound)) ==> forall|p: int|
                0 <= p < self.prefix_len() ==> #[trigger] keyz_at(self.words@, self.prefix_entry(p))
                    != encode_utf8(fold_chars(target_key@)).push(0),
            (self.prefix_keys_sorted() && !has_zero_byte(encode_utf8(fold_chars(target_key@)))
                && exists|p: int|
                0 <= p < self.prefix_len() && #[trigger] keyz_at(
                    self.words@,
                    self.prefix_entry(p),
                ) == encode_utf8(fold_chars(target_key@)).push(0)) ==> !(r matches Err(e) && e
                == Error::NotFound),
            (self.prefix_keys_sorted() && !has_zero_byte(encode_utf8(fold_chars(target_key@)))
                && self.cmp_windows_ok(encode_utf8(fold_chars(target_key@)).len() as int)
                && exists|p: int|
                0 <= p < self.prefix_len() && #[trigger] keyz_at(
                    self.words@,
                    self.prefix_entry(p),
                ) == encode_utf8(fold_chars(target_key@)).push(0) && self.entry_retrievable(p))
                ==> r is Ok,
    {
        let target = to_katakana(target_key);
        let ghost tb = encode_utf8(fold_chars(target_key@));
        let ghost tbz = tb.push(0);
        let Some(v) = &self.index_prefix.index else {
            return Err(Error::IndexDoesntExist)
        };
        if v.len() == 0 {
            return Err(Error::NotFound);
        }
        let n: usize = v.len() - 1;
        let mut lo: usize = 0;
        let mut hi: usize = n;
        while lo < hi
            invariant
                lo <= hi <= n,
                self.index_prefix.index matches Some(vv) && vv == *v,
                n == self.prefix_len(),
                target@ == fold_chars(target_key@),
                tb == encode_utf8(fold_chars(target_key@)),
                tbz == tb.push(0),
                (self.prefix_keys_sorted() && !has_zero_byte(tb)) ==> forall|p: int|
                    0 <= p < lo ==> bytes_cmp(
                        #[trigger] keyz_at(self.words@, self.prefix_entry(p)),
                        tbz,
                    ) == Ordering::Less,
                (self.prefix_keys_sorted() && !has_zero_byte(tb)) ==> forall|p: int|
                    hi <= p < n ==> bytes_cmp(
                        #[trigger] keyz_at(self.words@, self.prefix_entry(p)),
                        tbz,
                    ) == Ordering::Greater,
            decreases hi - lo,
        {
            let mid: usize = lo + (hi - lo) / 2;
            let cmp = match self.cmp_key(target.as_str(), mid) {
                Ok(c) => c,
                Err(e) => {
                    proof {
                        if self.prefix_keys_sorted() && !has_zero_byte(tb)
                            && self.cmp_windows_ok(tb.len() as int) {
                            // Every window is in range, so the comparator
                            // cannot have failed.
                            assert(self.prefix_entry(mid as int) + 6 + tb.len()
                                <= self.words@.len());
                            assert(false);
                        }
                    }
                    return Err(e);
                },
            };
            proof {
                if self.prefix_keys_sorted() && !has_zero_byte(tb) {
                    lemma_window_cmp(self.words@, self.prefix_entry(mid as int), tb);
                }
            }
            match cmp {
                Ordering::Less => {
                    proof {
                        if self.prefix_keys_sorted() && !has_zero_byte(tb) {
                            assert forall|p: int|
                                0 <= p < mid + 1 implies bytes_cmp(
                                #[trigger] keyz_at(self.words@, self.prefix_entry(p)),
                                tbz,
                            ) == Ordering::Less by {
                                if p < mid {
                                    assert(self.prefix_key_less(p, mid as int));
                                    lemma_bytes_cmp_trans(
                                        keyz_at(self.words@, self.prefix_entry(p)),
                                        keyz_at(self.words@, self.prefix_entry(mid as int)),
                                        tbz,
                                    );
                                }
                            }
                        }
                    }
                    lo = mid + 1;
                },
                Ordering::Greater => {
                    proof {
                        if self.prefix_keys_sorted() && !has_zero_byte(tb) {
                            let kmid = keyz_at(self.words@, self.prefix_entry(mid as int));
                            assert forall|p: int|
                                mid <= p < n implies bytes_cmp(
                                #[trigger] keyz_at(self.words@, self.prefix_entry(p)),
                                tbz,
                            ) == Ordering::Greater by {
                                if mid < p {
                                    let kp = keyz_at(self.words@, self.prefix_entry(p));
                                    assert(self.prefix_key_less(mid as int, p));
                                    lemma_bytes_cmp_swap(kmid, tbz);
                                    lemma_bytes_cmp_trans(tbz, kmid, kp);
                                    lemma_bytes_cmp_swap(kp, tbz);
                                }
                            }
                        }
                    }
                    hi = mid;
                },
                Ordering::Equal => {
                    proof {
                        if self.prefix_keys_sorted() && !has_zero_byte(tb) {
                            let kmid = keyz_at(self.words@, self.prefix_entry(mid as int));
                            lemma_bytes_cmp_equal(kmid, tbz);
                            if exists|p: int|
                                0 <= p < self.prefix_len() && #[trigger] keyz_at(
                                    self.words@,
                                    self.prefix_entry(p),
                                ) == tbz && self.entry_retrievable(p) {
                                let pw = choose|p: int|
                                    0 <= p < self.prefix_len() && #[trigger] keyz_at(
                                        self.words@,
                                        self.prefix_entry(p),
                                    ) == tbz && self.entry_retrievable(p);
                                self.lemma_prefix_position_determined(mid as int, pw);
                            }
                        }
                    }
                    let it = match self.get_idx(&self.index_prefix, mid) {
                        Ok(it) => it,
                        Err(e) => {
                            return Err(e);
                        },
                    };
                    return Ok((mid, it.1));
                },
            }
        }
        proof {
            if self.prefix_keys_sorted() && !has_zero_byte(tb) {
                assert forall|p: int|
                    0 <= p < self.prefix_len() implies #[trigger] keyz_at(
                    self.words@,
                    self.prefix_entry(p),
                ) != tbz by {
                    lemma_bytes_cmp_equal(keyz_at(self.words@, self.prefix_entry(p)), tbz);
                }
            }
        }
        Err(Error::NotFound)
    }
}

} // verus!
