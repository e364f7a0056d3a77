//! The object store: loose objects, pack index lookup, packed objects and
//! reference files.
use std::io::Read;

use vstd::prelude::*;
use vstd::string::StringSliceAdditionalSpecFns;
use vstd::utf8::{encode_utf8, encode_utf8_decode_utf8, encode_utf8_valid_utf8, is_ascii_chars, is_ascii_chars_encode_utf8};

use crate::git_parser::commit_parser::{ascii_bytes, commit_object_bytes};
use crate::git_parser::hex::{
    be_fold_u64, boundary_at, decode_spec, digit_value, encode_upper, hex_digit_value, hex_to_uint, hex_upper, is_boundary,
    law_decode_encode_upper, decode_ok_to_run, decode_defined,
};
use crate::models::git_object::{
    object_type_name, type_of_name, ErrorView, GitObject, GitObjectType, GitVizError,
};
use crate::text::{
    chars_eq, chars_of, concat, copy_range, decimal, decimal_string, find_from, find_or_len,
    from_utf8_lossy, has_prefix, is_digit, lemma_decimal_ascii, lemma_decimal_digits, lemma_decimal_len, lemma_find_or_len_after,
    lemma_parse_usize_decimal, parse_usize, parse_usize_spec, push_char, starts_with, string_of,
    string_of_range, trim, trim_chars, text_of,
};

verus! {

// ---------------------------------------------------------------------------
// Decompression
// ---------------------------------------------------------------------------

/// The bytes a zlib stream decompresses to, or the message of the error
/// flate2 reports for it.
pub uninterp spec fn zlib_inflate(data: Seq<u8>) -> Result<Seq<u8>, Seq<char>>;

/// The first `n` bytes a zlib stream decompresses to, or the message of the
/// error flate2 reports while producing them.
pub uninterp spec fn zlib_inflate_exact(data: Seq<u8>, n: nat) -> Result<Seq<u8>, Seq<char>>;

/// flate2 `ZlibDecoder::read_to_end` over `data`; the decompressed bytes or
/// the error's message.
#[verifier::external_body]
fn inflate(data: &[u8]) -> (r: Result<Vec<u8>, String>)
    ensures
        match (r, zlib_inflate(data@)) {
            (Ok(v), Ok(w)) => v@ == w,
            (Err(m), Err(n)) => m@ == n,
            _ => false,
        },
{
    let mut out = Vec::new();
    match flate2::read::ZlibDecoder::new(data).read_to_end(&mut out) {
        Ok(_) => Ok(out),
        Err(e) => Err(e.to_string()),
    }
}

/// flate2 `ZlibDecoder::read_exact` of `n` bytes from `data`; `read_exact`
/// fills the whole buffer whenever it succeeds. A buffer of more than
/// `isize::MAX` bytes cannot be made (std panics), so `n` stays below.
#[verifier::external_body]
fn inflate_exact(data: &[u8], n: usize) -> (r: Result<Vec<u8>, String>)
    requires
        n <= isize::MAX,
    ensures
        match (r, zlib_inflate_exact(data@, n as nat)) {
            (Ok(v), Ok(w)) => v@ == w,
            (Err(m), Err(k)) => m@ == k,
            _ => false,
        },
        r matches Ok(v) ==> v@.len() == n,
{
    let mut out = vec![0u8; n];
    match flate2::read::ZlibDecoder::new(data).read_exact(&mut out) {
        Ok(()) => Ok(out),
        Err(e) => Err(e.to_string()),
    }
}

// ---------------------------------------------------------------------------
// Objects
// ---------------------------------------------------------------------------

/// The fields of an object.
pub struct GitObjectSpec {
    pub obj_type: GitObjectType,
    pub hash: Seq<char>,
    pub size: usize,
    pub content: Seq<u8>,
}

impl View for GitObject {
    type V = GitObjectSpec;

    open spec fn view(&self) -> GitObjectSpec {
        GitObjectSpec {
            obj_type: self.obj_type,
            hash: self.hash@,
            size: self.size,
            content: self.content@,
        }
    }
}

/// Offset of the first zero byte, or the length when there is none.
pub open spec fn zero_at(s: Seq<u8>) -> nat
    decreases s.len(),
{
    if s.len() == 0 || s[0] == 0 {
        0
    } else {
        1 + zero_at(s.drop_first())
    }
}

/// What a decompressed loose object reads as: a header `<type> <size>`, a
/// zero byte, then the content.
pub open spec fn loose_object_outcome(d: Seq<u8>, hash: Seq<char>) -> Result<GitObjectSpec, ErrorView> {
    let he = zero_at(d);
    if he >= d.len() {
        Err(ErrorView::InvalidFormat("no null byte in object header"@))
    } else {
        let h = text_of(d.take(he as int));
        let k = find_or_len(h, ' ');
        let type_str = h.take(k as int);
        if k >= h.len() {
            Err(ErrorView::InvalidFormat("missing object size"@))
        } else {
            let rest = h.skip(k + 1 as int);
            let size_str = rest.take(find_or_len(rest, ' ') as int);
            match type_of_name(type_str) {
                None => Err(ErrorView::InvalidFormat("unknown type: "@ + type_str)),
                Some(t) => match parse_usize_spec(size_str) {
                    None => Err(ErrorView::InvalidFormat("invalid size: "@ + size_str)),
                    Some(size) => Ok(
                        GitObjectSpec { obj_type: t, hash, size, content: d.skip(he + 1 as int) },
                    ),
                },
            }
        }
    }
}

proof fn lemma_zero_at_after(a: Seq<u8>, r: Seq<u8>)
    requires
        !a.contains(0u8),
    ensures
        zero_at(a + seq![0u8] + r) == a.len(),
    decreases a.len(),
{
    if a.len() == 0 {
        assert((a + seq![0u8] + r)[0] == 0);
    } else {
        assert(a.drop_first().contains(0u8) ==> a.contains(0u8)) by {
            if a.drop_first().contains(0u8) {
                let i = choose|i: int| 0 <= i < a.drop_first().len() && a.drop_first()[i] == 0u8;
                assert(a[i + 1] == 0);
            }
        }
        lemma_zero_at_after(a.drop_first(), r);
        assert((a + seq![0u8] + r).drop_first() =~= a.drop_first() + seq![0u8] + r);
        assert(a[0] != 0) by {
            assert(a.contains(a[0]));
        }
    }
}

/// The bytes git hashes for a commit are a loose object that reads back as
/// that commit: its header names the type `commit` and the content's
/// length, and one zero byte separates it from the content.
pub proof fn law_commit_object_reads_back(content: Seq<u8>, hash: Seq<char>)
    requires
        content.len() <= usize::MAX,
    ensures
        loose_object_outcome(commit_object_bytes(content), hash) == Ok::<GitObjectSpec, ErrorView>(
            GitObjectSpec { obj_type: GitObjectType::Commit, hash, size: content.len() as usize, content },
        ),
{
    let n = content.len();
    let dec = decimal(n);
    lemma_decimal_digits(n);
    lemma_decimal_len(n);
    lemma_decimal_ascii(n);
    reveal_strlit("commit");
    let word = seq!['c', 'o', 'm', 'm', 'i', 't'];
    assert(word =~= "commit"@);
    let hs = word + seq![' '] + dec;
    assert(is_ascii_chars(hs)) by {
        assert forall|i: int| 0 <= i < hs.len() implies '\0' <= #[trigger] hs[i] <= '\u{7f}' by {
            if i >= 7 {
                assert(hs[i] == dec[i - 7]);
            } else if i < 6 {
                assert(hs[i] == word[i]);
            } else {
                assert(hs[i] == ' ');
            }
        }
    }
    is_ascii_chars_encode_utf8(hs);
    let hb = seq![0x63u8, 0x6f, 0x6d, 0x6d, 0x69, 0x74, 0x20] + ascii_bytes(dec);
    assert(hb =~= encode_utf8(hs)) by {
        assert forall|i: int| 0 <= i < hb.len() implies hb[i] == encode_utf8(hs)[i] by {
            assert(hs[i] as u8 == encode_utf8(hs)[i]);
            if i >= 7 {
                assert(hs[i] == dec[i - 7]);
            }
        }
    }
    let b = commit_object_bytes(content);
    assert(b =~= hb + seq![0u8] + content);
    assert(!hb.contains(0u8)) by {
        if hb.contains(0u8) {
            let i = choose|i: int| 0 <= i < hb.len() && hb[i] == 0u8;
            if i >= 7 {
                assert(is_digit(dec[i - 7]));
                assert(hb[i] == dec[i - 7] as u8);
            }
        }
    }
    lemma_zero_at_after(hb, content);
    assert(b.take(hb.len() as int) =~= hb);
    encode_utf8_valid_utf8(hs);
    encode_utf8_decode_utf8(hs);
    assert(text_of(b.take(hb.len() as int)) == hs);
    assert(!word.contains(' '));
    lemma_find_or_len_after(word, dec, ' ');
    assert(hs.take(6) =~= "commit"@);
    assert(hs.skip(7) =~= dec);
    assert(!dec.contains(' ')) by {
        if dec.contains(' ') {
            let i = choose|i: int| 0 <= i < dec.len() && dec[i] == ' ';
            assert(is_digit(dec[i]));
        }
    }
    lemma_find_or_len_after(dec, seq![], ' ');
    assert(dec.take(dec.len() as int) =~= dec);
    lemma_parse_usize_decimal(n);
    assert(b.skip(hb.len() as int + 1) =~= content);
}

fn zero_from(s: &[u8]) -> (r: usize)
    ensures
        r == zero_at(s@),
        r <= s@.len(),
{
    let mut q: usize = 0;
    assert(s@.skip(0) =~= s@);
    while q < s.len() && s[q] != 0
        invariant
            q <= s@.len(),
            zero_at(s@) == q + zero_at(s@.skip(q as int)),
        decreases s.len() - q,
    {
        assert(s@.skip(q as int).drop_first() =~= s@.skip(q + 1));
        q = q + 1;
    }
    q
}

/// Reads a decompressed loose object.
pub fn decode_loose_object(d: &[u8], hash: &str) -> (r: Result<GitObject, GitVizError>)
    ensures
        match (r, loose_object_outcome(d@, hash@)) {
            (Ok(o), Ok(p)) => o@ == p,
            (Err(e), Err(f)) => e@ == f,
            _ => false,
        },
{
    let he = zero_from(d);
    if he >= d.len() {
        return Err(GitVizError::InvalidFormat(string_of(&chars_of("no null byte in object header"))));
    }
    let header = from_utf8_lossy(vstd::slice::slice_subrange(d, 0, he));
    assert(d@.subrange(0, he as int) =~= d@.take(he as int));
    let h = chars_of(header.as_str());
    let k = find_from(&h, 0, ' ');
    assert(h@.skip(0) =~= h@);
    let type_str = string_of_range(&h, 0, k);
    assert(type_str@ =~= h@.take(k as int));
    if k >= h.len() {
        return Err(GitVizError::InvalidFormat(string_of(&chars_of("missing object size"))));
    }
    let k2 = find_from(&h, k + 1, ' ');
    let size_chars = copy_range(&h, k + 1, k2);
    assert(size_chars@ =~= h@.skip(k + 1).take(find_or_len(h@.skip(k + 1), ' ') as int));
    let obj_type = match GitObjectType::from_name(type_str.as_str()) {
        Ok(t) => t,
        Err(_) => return Err(GitVizError::InvalidFormat(concat("unknown type: ", type_str.as_str()))),
    };
    let size = match parse_usize(&size_chars) {
        Some(v) => v,
        None => return Err(
            GitVizError::InvalidFormat(concat("invalid size: ", string_of(&size_chars).as_str())),
        ),
    };
    let content = vstd::slice::slice_to_vec(vstd::slice::slice_subrange(d, he + 1, d.len()));
    assert(content@ =~= d@.skip(he + 1));
    Ok(GitObject { obj_type, hash: string_of(&chars_of(hash)), size, content })
}

/// What a loose object file reads as: its zlib stream decompressed, then
/// read as a loose object.
pub open spec fn loose_file_outcome(compressed: Seq<u8>, hash: Seq<char>) -> Result<GitObjectSpec, ErrorView> {
    match zlib_inflate(compressed) {
        Err(m) => Err(ErrorView::Decompression(m)),
        Ok(d) => loose_object_outcome(d, hash),
    }
}

/// Reads a loose object file's bytes: decompression, then the header.
pub fn read_loose_object(compressed: &[u8], hash: &str) -> (r: Result<GitObject, GitVizError>)
    ensures
        match (r, loose_file_outcome(compressed@, hash@)) {
            (Ok(o), Ok(p)) => o@ == p,
            (Err(e), Err(f)) => e@ == f,
            _ => false,
        },
{
    match inflate(compressed) {
        Ok(d) => decode_loose_object(d.as_slice(), hash),
        Err(m) => Err(GitVizError::Decompression(m)),
    }
}

// ---------------------------------------------------------------------------
// Pack index
// ---------------------------------------------------------------------------

/// The big-endian 32-bit number at offset `o`.
pub open spec fn be32_at(d: Seq<u8>, o: int) -> u32 {
    (d[o] as int * 0x100_0000 + d[o + 1] as int * 0x1_0000 + d[o + 2] as int * 0x100 + d[o
        + 3] as int) as u32
}

/// The big-endian 64-bit number at offset `o`.
pub open spec fn be64_at(d: Seq<u8>, o: int) -> u64 {
    (be32_at(d, o) as int * 0x1_0000_0000 + be32_at(d, o + 4) as int) as u64
}

/// The pack offset an index entry records: a 31-bit offset, or with the top
/// bit set an index into the table of 64-bit offsets. `None` where that
/// table ends early.
pub open spec fn entry_offset(d: Seq<u8>, n: int, i: int) -> Option<u64> {
    let oto = 1032 + n * 24;
    let oe = oto + i * 4;
    if oe + 4 > d.len() {
        None
    } else {
        let v = be32_at(d, oe);
        if v >= 0x8000_0000 {
            let lo = oto + n * 4 + (v - 0x8000_0000) * 8;
            if lo + 8 <= d.len() {
                Some(be64_at(d, lo))
            } else {
                None
            }
        } else {
            Some(v as u64)
        }
    }
}

/// Whether hash table entry `i` lies within the index and its last eight
/// bytes, as a number, equal `hash`.
pub open spec fn entry_hits(d: Seq<u8>, hash: u64, i: int) -> bool {
    1032 + i * 20 + 20 <= d.len() && be_fold_u64(d.subrange(1032 + i * 20, 1032 + i * 20 + 20))
        == hash
}

/// Entries `i..end` of the hash table searched for one whose last eight
/// bytes, as a number, equal `hash`; entries past the data are skipped.
pub open spec fn search_index(d: Seq<u8>, hash: u64, n: int, i: int, end: int) -> Option<u64>
    decreases end - i,
{
    if i >= end {
        None
    } else if entry_hits(d, hash, i) {
        entry_offset(d, n, i)
    } else {
        search_index(d, hash, n, i + 1, end)
    }
}

/// What looking a hash up in a version 2 pack index gives: the entries of
/// the fan-out slot of the name's first byte `first` are searched. `None`
/// where the lookup reads past the end of a short index (under 1032 bytes
/// with a valid header).
pub open spec fn index_lookup(d: Seq<u8>, hash: u64, first: u8) -> Option<Option<u64>> {
    if d.len() < 8 {
        Some(None)
    } else if be32_at(d, 0) != 0xFF744F63 {
        Some(None)
    } else if be32_at(d, 4) != 2 {
        Some(None)
    } else if d.len() < 1032 {
        None
    } else {
        let start: int = if first == 0 {
            0
        } else {
            be32_at(d, 8 + (first - 1) * 4) as int
        };
        let end = be32_at(d, 8 + first * 4) as int;
        let n = be32_at(d, 1028) as int;
        Some(search_index(d, hash, n, start, end))
    }
}

/// The first entry of the fan-out slot of names whose first byte is
/// `first`: the count of names with a smaller first byte.
pub open spec fn slot_start(d: Seq<u8>, first: u8) -> int {
    if first == 0 {
        0
    } else {
        be32_at(d, 8 + (first - 1) * 4) as int
    }
}

/// One past the last entry of the fan-out slot of `first`.
pub open spec fn slot_end(d: Seq<u8>, first: u8) -> int {
    be32_at(d, 8 + first * 4) as int
}

/// Whether the name of entry `i` of the index's name table lies within the
/// index and its last eight bytes, read big-endian, equal `hash`.
pub open spec fn name_tail_is(d: Seq<u8>, i: int, hash: u64) -> bool {
    1032 + i * 20 + 20 <= d.len() && be64_at(d, 1032 + i * 20 + 12) == hash
}

spec fn shift_in(x: u64, l: u8) -> u64 {
    (x << 8u64) | (l as u64)
}

proof fn lemma_fold_step(s: Seq<u8>)
    requires
        s.len() > 0,
    ensures
        be_fold_u64(s) == shift_in(be_fold_u64(s.drop_last()), s.last()),
{
    let r = be_fold_u64(s.drop_last());
    let b = s.last();
    assert(((r << 8u64) | (b as u64)) == (((r as int * 256) % 0x1_0000_0000_0000_0000) + b) as u64) by (bit_vector);
}

proof fn lemma_fold_take(s: Seq<u8>, m: int)
    requires
        0 < m <= s.len(),
    ensures
        be_fold_u64(s.take(m)) == shift_in(be_fold_u64(s.take(m - 1)), s[m - 1]),
{
    lemma_fold_step(s.take(m));
    assert(s.take(m).drop_last() =~= s.take(m - 1));
}

/// Folding bytes into a 64-bit number keeps only the last eight of them.
proof fn lemma_fold_last_eight(s: Seq<u8>)
    requires
        s.len() >= 8,
    ensures
        be_fold_u64(s) == be64_at(s, s.len() - 8),
{
    let k = s.len() - 8;
    let x = be_fold_u64(s.take(k));
    lemma_fold_take(s, k + 1);
    lemma_fold_take(s, k + 2);
    lemma_fold_take(s, k + 3);
    lemma_fold_take(s, k + 4);
    lemma_fold_take(s, k + 5);
    lemma_fold_take(s, k + 6);
    lemma_fold_take(s, k + 7);
    lemma_fold_take(s, k + 8);
    assert(s.take(k + 8) =~= s);
    let b0 = s[k];
    let b1 = s[k + 1];
    let b2 = s[k + 2];
    let b3 = s[k + 3];
    let b4 = s[k + 4];
    let b5 = s[k + 5];
    let b6 = s[k + 6];
    let b7 = s[k + 7];
    assert(be_fold_u64(s.take(k + 1)) == shift_in(x, b0));
    assert(be_fold_u64(s.take(k + 2)) == shift_in(be_fold_u64(s.take(k + 1)), b1));
    assert(be_fold_u64(s.take(k + 3)) == shift_in(be_fold_u64(s.take(k + 2)), b2));
    assert(be_fold_u64(s.take(k + 4)) == shift_in(be_fold_u64(s.take(k + 3)), b3));
    assert(be_fold_u64(s.take(k + 5)) == shift_in(be_fold_u64(s.take(k + 4)), b4));
    assert(be_fold_u64(s.take(k + 6)) == shift_in(be_fold_u64(s.take(k + 5)), b5));
    assert(be_fold_u64(s.take(k + 7)) == shift_in(be_fold_u64(s.take(k + 6)), b6));
    assert(be_fold_u64(s.take(k + 8)) == shift_in(be_fold_u64(s.take(k + 7)), b7));
    assert(be_fold_u64(s) == shift_in(
        shift_in(shift_in(shift_in(shift_in(shift_in(shift_in(shift_in(x, b0), b1), b2), b3), b4), b5), b6),
        b7,
    ));
    let v = shift_in(shift_in(shift_in(shift_in(shift_in(shift_in(shift_in(shift_in(x, b0), b1), b2), b3), b4), b5), b6), b7);
    assert(v == ((((((((x << 8u64) | (b0 as u64)) << 8u64 | (b1 as u64)) << 8u64 | (b2 as u64)) << 8u64 | (b3
        as u64)) << 8u64 | (b4 as u64)) << 8u64 | (b5 as u64)) << 8u64 | (b6 as u64)) << 8u64 | (b7 as u64));
    assert(((((((((x << 8u64) | (b0 as u64)) << 8u64 | (b1 as u64)) << 8u64 | (b2 as u64)) << 8u64 | (b3
        as u64)) << 8u64 | (b4 as u64)) << 8u64 | (b5 as u64)) << 8u64 | (b6 as u64)) << 8u64 | (b7 as u64)
        == (b0 as u64) * 0x100_0000_0000_0000 + (b1 as u64) * 0x1_0000_0000_0000 + (b2 as u64) * 0x100_0000_0000
        + (b3 as u64) * 0x1_0000_0000 + (b4 as u64) * 0x100_0000 + (b5 as u64) * 0x1_0000 + (b6 as u64) * 0x100
        + (b7 as u64)) by (bit_vector);
}

/// Whether entry `i` of the name table ends in `hash` is whether its name's
/// last eight bytes, read big-endian, equal `hash`.
proof fn lemma_entry_hits_tail(d: Seq<u8>, hash: u64, i: int)
    requires
        0 <= i,
    ensures
        entry_hits(d, hash, i) == name_tail_is(d, i, hash),
{
    let o = 1032 + i * 20;
    if o + 20 <= d.len() {
        let sub = d.subrange(o, o + 20);
        lemma_fold_last_eight(sub);
        assert(sub[12] == d[o + 12] && sub[13] == d[o + 13] && sub[14] == d[o + 14] && sub[15] == d[o + 15]);
        assert(sub[16] == d[o + 16] && sub[17] == d[o + 17] && sub[18] == d[o + 18] && sub[19] == d[o + 19]);
        assert(be64_at(sub, 12) == be64_at(d, o + 12));
    }
}

proof fn lemma_search_index(d: Seq<u8>, hash: u64, n: int, i: int, end: int)
    requires
        0 <= i,
    ensures
        search_index(d, hash, n, i, end) matches Some(off) ==> exists|j: int|
            i <= j < end && #[trigger] name_tail_is(d, j, hash) && entry_offset(d, n, j) == Some(off),
        (forall|j: int| i <= j < end ==> !#[trigger] name_tail_is(d, j, hash)) ==> search_index(d, hash, n, i, end)
            is None,
        forall|j: int|
            i <= j < end && #[trigger] name_tail_is(d, j, hash) && (forall|k: int| i <= k < j ==> !name_tail_is(d, k, hash))
                ==> search_index(d, hash, n, i, end) == entry_offset(d, n, j),
    decreases end - i,
{
    if i < end {
        lemma_entry_hits_tail(d, hash, i);
        lemma_search_index(d, hash, n, i + 1, end);
        if !name_tail_is(d, i, hash) {
            assert forall|j: int|
                i <= j < end && #[trigger] name_tail_is(d, j, hash) && (forall|k: int| i <= k < j ==> !name_tail_is(d, k, hash))
                    implies search_index(d, hash, n, i, end) == entry_offset(d, n, j) by {
                assert(j != i);
                assert forall|k: int| i + 1 <= k < j implies !name_tail_is(d, k, hash) by {}
            }
        }
    }
}

/// Looking a hash up in a version 2 pack index finds the entry whose name
/// ends in it: a found offset is the one recorded for an entry of the
/// hash's fan-out slot whose name's last eight bytes equal `hash` (the
/// first such entry); where no entry of the slot ends in `hash`, nothing is
/// found.
pub proof fn law_index_lookup_matches_name(d: Seq<u8>, hash: u64, first: u8)
    requires
        d.len() >= 1032,
        be32_at(d, 0) == 0xFF744F63,
        be32_at(d, 4) == 2,
    ensures
        index_lookup(d, hash, first) matches Some(Some(off)) ==> exists|j: int|
            slot_start(d, first) <= j < slot_end(d, first) && #[trigger] name_tail_is(d, j, hash) && entry_offset(
                d,
                be32_at(d, 1028) as int,
                j,
            ) == Some(off),
        (forall|j: int| slot_start(d, first) <= j < slot_end(d, first) ==> !#[trigger] name_tail_is(d, j, hash))
            ==> index_lookup(d, hash, first) == Some(None::<u64>),
        forall|j: int|
            slot_start(d, first) <= j < slot_end(d, first) && #[trigger] name_tail_is(d, j, hash) && (forall|k: int|
                slot_start(d, first) <= k < j ==> !name_tail_is(d, k, hash)) ==> index_lookup(d, hash, first)
                == Some(entry_offset(d, be32_at(d, 1028) as int, j)),
{
    lemma_search_index(d, hash, be32_at(d, 1028) as int, slot_start(d, first), slot_end(d, first));
}

/// The byte that the first two hex digits (either case) of `b` spell, or
/// zero where `b` does not begin with two hex digits.
pub open spec fn leading_hex_byte(b: Seq<u8>) -> u8 {
    if b.len() >= 2 {
        match (hex_digit_value(b[0]), hex_digit_value(b[1])) {
            (Some(x), Some(y)) => (x * 16 + y) as u8,
            _ => 0,
        }
    } else {
        0
    }
}

/// The first byte of the object name that a hex text spells.
pub open spec fn name_first_byte(s: Seq<char>) -> u8 {
    leading_hex_byte(encode_utf8(s))
}

fn leading_name_byte(b: &[u8]) -> (r: u8)
    ensures
        r == leading_hex_byte(b@),
{
    if b.len() < 2 {
        return 0;
    }
    match (digit_value(b[0]), digit_value(b[1])) {
        (Some(x), Some(y)) => x * 16 + y,
        _ => 0,
    }
}

fn read_be32(d: &[u8], o: usize) -> (r: u32)
    requires
        o + 4 <= d@.len(),
    ensures
        r == be32_at(d@, o as int),
{
    let r = (d[o] as u32) * 0x100_0000 + (d[o + 1] as u32) * 0x1_0000 + (d[o + 2] as u32) * 0x100
        + (d[o + 3] as u32);
    r
}

fn read_be64(d: &[u8], o: usize) -> (r: u64)
    requires
        o + 8 <= d@.len(),
    ensures
        r == be64_at(d@, o as int),
{
    let len = d.len();
    let hi = read_be32(d, o) as u64;
    let lo = read_be32(d, o + 4) as u64;
    hi * 0x1_0000_0000 + lo
}

fn lookup_entry_offset(d: &[u8], n: u64, i: u64) -> (r: Option<u64>)
    requires
        n < 0x1_0000_0000,
        i < 0x1_0000_0000,
    ensures
        r == entry_offset(d@, n as int, i as int),
{
    let len = d.len() as u64;
    let oto = 1032 + n * 24;
    let oe = oto + i * 4;
    if oe + 4 > len {
        return None;
    }
    let v = read_be32(d, oe as usize);
    if v & 0x8000_0000 != 0 {
        assert(v & 0x8000_0000 != 0 <==> v >= 0x8000_0000) by (bit_vector);
        assert(v & 0x7FFF_FFFF == v - 0x8000_0000) by (bit_vector)
            requires
                v >= 0x8000_0000,
        ;
        let lo = oto + n * 4 + ((v & 0x7FFF_FFFF) as u64) * 8;
        if lo + 8 <= len {
            Some(read_be64(d, lo as usize))
        } else {
            None
        }
    } else {
        assert(v & 0x8000_0000 == 0 ==> v < 0x8000_0000) by (bit_vector);
        Some(v as u64)
    }
}

// ---------------------------------------------------------------------------
// Packs
// ---------------------------------------------------------------------------

/// A pack index file and its pack file, as read from the pack directory.
pub struct PackFile {
    pub idx: Vec<u8>,
    pub pack: Vec<u8>,
}

/// Reading the size's variable-length encoding: 7 more bits from each byte
/// while the top bit of the previous one is set, shifted by `shift`; the
/// size and the offset after it, or `None` where a shift reaches the width
/// of `usize` (the shift panics there).
pub open spec fn read_varint(p: Seq<u8>, pos: int, size: usize, shift: int, cont: bool) -> Option<(usize, int)>
    decreases p.len() - pos,
{
    if !cont || pos < 0 || pos >= p.len() {
        Some((size, pos))
    } else if shift >= usize::BITS {
        None
    } else {
        let b = p[pos];
        read_varint(p, pos + 1, size | (((b & 0x7f) as usize) << (shift as usize)), shift + 7, b >= 0x80)
    }
}

/// The type a packed object's type bits denote.
pub open spec fn pack_type(bits: u8) -> Option<GitObjectType> {
    if bits == 1 {
        Some(GitObjectType::Commit)
    } else if bits == 2 {
        Some(GitObjectType::Tree)
    } else if bits == 3 {
        Some(GitObjectType::Blob)
    } else if bits == 4 {
        Some(GitObjectType::Tag)
    } else {
        None
    }
}

/// What unpacking the object at `offset` gives: `None` where unpacking
/// panics, on an over-long size header or on a size too large for a buffer,
/// else the object or the error.
pub open spec fn unpack_outcome(p: Seq<u8>, offset: u64, hash: Seq<char>) -> Option<Result<GitObjectSpec, ErrorView>> {
    if offset >= p.len() {
        Some(Err(ErrorView::InvalidFormat("pack offset out of bounds"@)))
    } else {
        let byte = p[offset as int];
        let bits = (byte >> 4u8) & 0x07;
        match pack_type(bits) {
            None => Some(Err(ErrorView::InvalidFormat("unknown pack object type: "@ + decimal(bits as nat)))),
            Some(t) => match read_varint(p, offset + 1, (byte & 0x0f) as usize, 4, byte >= 0x80) {
                None => None,
                Some((size, pos)) => if size > isize::MAX {
                    None
                } else {
                    match zlib_inflate_exact(p.skip(pos), size as nat) {
                        Err(m) => Some(Err(ErrorView::Decompression(m))),
                        Ok(content) => Some(Ok(GitObjectSpec { obj_type: t, hash, size, content })),
                    }
                },
            },
        }
    }
}

/// Whether hash table entry `i` lies within the index and its last eight
/// bytes, read through their uppercase hex digits, equal `hash`.
fn entry_matches(d: &[u8], i: u32, hash: u64) -> (r: bool)
    ensures
        r == entry_hits(d@, hash, i as int),
{
    let eo: u64 = 1032 + (i as u64) * 20;
    if eo + 20 > d.len() as u64 {
        return false;
    }
    let entry = vstd::slice::slice_subrange(d, eo as usize, (eo + 20) as usize);
    let entry_hex = encode_upper(entry);
    proof {
        law_decode_encode_upper(entry@);
    }
    match hex_to_uint(entry_hex.as_str()) {
        Ok(v) => v == hash,
        Err(_) => false,
    }
}

impl ObjectReader {
    /// Looks `hash` up in a pack index: the fan-out slot of the first byte of
    /// the name `hash_str` spells bounds the entries searched, and the first
    /// of them whose last eight bytes equal `hash` gives the object's offset
    /// in the pack.
    pub fn find_in_index(&self, idx_data: &[u8], hash: u64, hash_str: &str) -> (r: Option<u64>)
        requires
            index_lookup(idx_data@, hash, name_first_byte(hash_str@)) is Some,
        ensures
            Some(r) == index_lookup(idx_data@, hash, name_first_byte(hash_str@)),
    {
        let len = idx_data.len();
        if len < 8 {
            return None;
        }
        if read_be32(idx_data, 0) != 0xFF744F63 {
            return None;
        }
        if read_be32(idx_data, 4) != 2 {
            return None;
        }
        let hb = hash_str.as_bytes();
        let first: u8 = leading_name_byte(hb);
        let start: u32 = if first == 0 {
            0
        } else {
            read_be32(idx_data, 8 + ((first - 1) as usize) * 4)
        };
        let end = read_be32(idx_data, 8 + (first as usize) * 4);
        let n = read_be32(idx_data, 1028);
        assert(index_lookup(idx_data@, hash, name_first_byte(hash_str@)) == Some(
            search_index(idx_data@, hash, n as int, start as int, end as int),
        ));
        let mut i = start;
        while i < end
            invariant
                len == idx_data@.len(),
                len >= 1032,
                index_lookup(idx_data@, hash, name_first_byte(hash_str@)) == Some(
                    search_index(idx_data@, hash, n as int, start as int, end as int),
                ),
                search_index(idx_data@, hash, n as int, start as int, end as int) == search_index(
                    idx_data@,
                    hash,
                    n as int,
                    i as int,
                    end as int,
                ),
            decreases end - i,
        {
            if entry_matches(idx_data, i, hash) {
                return lookup_entry_offset(idx_data, n as u64, i as u64);
            }
            i = i + 1;
        }
        None
    }

    /// Reads the object at `offset` of a pack: a type and size header, then
    /// the zlib-compressed content.
    pub fn unpack_object(&self, pack_data: &[u8], offset: u64, hash_str: &str) -> (r: Result<GitObject, GitVizError>)
        requires
            unpack_outcome(pack_data@, offset, hash_str@) is Some,
        ensures
            match (r, unpack_outcome(pack_data@, offset, hash_str@)) {
                (Ok(o), Some(Ok(p))) => o@ == p,
                (Err(e), Some(Err(f))) => e@ == f,
                _ => false,
            },
    {
        if offset >= pack_data.len() as u64 {
            return Err(GitVizError::InvalidFormat(string_of(&chars_of("pack offset out of bounds"))));
        }
        let off = offset as usize;
        let byte = pack_data[off];
        let bits = (byte >> 4u8) & 0x07;
        let obj_type = if bits == 1 {
            GitObjectType::Commit
        } else if bits == 2 {
            GitObjectType::Tree
        } else if bits == 3 {
            GitObjectType::Blob
        } else if bits == 4 {
            GitObjectType::Tag
        } else {
            let m = concat("unknown pack object type: ", decimal_string(bits as u64).as_str());
            return Err(GitVizError::InvalidFormat(m));
        };
        let mut size: usize = (byte & 0x0f) as usize;
        let mut shift: usize = 4;
        let mut pos: usize = off + 1;
        let mut cont = byte & 0x80 != 0;
        assert(byte & 0x80 != 0 <==> byte >= 0x80) by (bit_vector);
        while cont && pos < pack_data.len()
            invariant
                pos <= pack_data@.len(),
                shift <= usize::BITS + 7,
                read_varint(pack_data@, off + 1, (byte & 0x0f) as usize, 4, byte >= 0x80)
                    == read_varint(pack_data@, pos as int, size, shift as int, cont),
                read_varint(pack_data@, pos as int, size, shift as int, cont) is Some,
            decreases pack_data.len() - pos,
        {
            let b = pack_data[pos];
            size = size | (((b & 0x7f) as usize) << shift);
            shift = shift + 7;
            cont = b & 0x80 != 0;
            assert(b & 0x80 != 0 <==> b >= 0x80) by (bit_vector);
            pos = pos + 1;
        }
        let content = match inflate_exact(vstd::slice::slice_subrange(pack_data, pos, pack_data.len()), size) {
            Ok(c) => c,
            Err(m) => {
                assert(pack_data@.subrange(pos as int, pack_data@.len() as int) =~= pack_data@.skip(pos as int));
                return Err(GitVizError::Decompression(m));
            },
        };
        assert(pack_data@.subrange(pos as int, pack_data@.len() as int) =~= pack_data@.skip(pos as int));
        Ok(GitObject { obj_type, hash: string_of(&chars_of(hash_str)), size, content })
    }
}

/// Whether looking a hash up in a pack index reads within the index (an
/// index with a valid header but under 1032 bytes is read past its end).
pub fn index_defined(idx_data: &[u8], hash: u64, hash_str: &str) -> (r: bool)
    ensures
        r == index_lookup(idx_data@, hash, name_first_byte(hash_str@)) is Some,
{
    let len = idx_data.len();
    if len < 8 {
        return true;
    }
    if read_be32(idx_data, 0) != 0xFF744F63 {
        return true;
    }
    if read_be32(idx_data, 4) != 2 {
        return true;
    }
    len >= 1032
}

/// Whether unpacking the object at `offset` gives the object or an error
/// rather than a panic (a size header so long that its shift reaches the
/// width of `usize` panics).
pub fn unpack_defined(pack_data: &[u8], offset: u64, hash_str: &str) -> (r: bool)
    ensures
        r == unpack_outcome(pack_data@, offset, hash_str@) is Some,
{
    if offset >= pack_data.len() as u64 {
        return true;
    }
    let off = offset as usize;
    let byte = pack_data[off];
    let bits = (byte >> 4u8) & 0x07;
    if !(bits == 1 || bits == 2 || bits == 3 || bits == 4) {
        return true;
    }
    let mut size: usize = (byte & 0x0f) as usize;
    let mut shift: usize = 4;
    let mut pos: usize = off + 1;
    let mut cont = byte & 0x80 != 0;
    assert(byte & 0x80 != 0 <==> byte >= 0x80) by (bit_vector);
    while cont && pos < pack_data.len()
        invariant
            pos <= pack_data@.len(),
            shift <= usize::BITS + 7,
            off == offset,
            offset < pack_data@.len(),
            byte == pack_data@[off as int],
            bits == (byte >> 4u8) & 0x07,
            bits == 1 || bits == 2 || bits == 3 || bits == 4,
            read_varint(pack_data@, off + 1, (byte & 0x0f) as usize, 4, byte >= 0x80)
                == read_varint(pack_data@, pos as int, size, shift as int, cont),
        decreases pack_data.len() - pos,
    {
        if shift >= usize::BITS as usize {
            assert(read_varint(pack_data@, pos as int, size, shift as int, cont) is None);
            assert(pack_type(bits) is Some);
            assert(pack_data@[offset as int] == byte);
            return false;
        }
        let b = pack_data[pos];
        size = size | (((b & 0x7f) as usize) << shift);
        shift = shift + 7;
        cont = b & 0x80 != 0;
        assert(b & 0x80 != 0 <==> b >= 0x80) by (bit_vector);
        pos = pos + 1;
    }
    size <= isize::MAX as usize
}

// ---------------------------------------------------------------------------
// The reader
// ---------------------------------------------------------------------------

/// `Path::join` on Unix: an absolute component replaces the path, otherwise
/// a `/` separates the two unless the path is empty or already ends in one.
pub open spec fn path_join(base: Seq<char>, comp: Seq<char>) -> Seq<char> {
    if comp.len() > 0 && comp[0] == '/' {
        comp
    } else if base.len() == 0 {
        comp
    } else if base.last() == '/' {
        base + comp
    } else {
        base + seq!['/'] + comp
    }
}

/// Joins a path and a component as `Path::join` does on Unix.
pub fn join_path(base: &str, comp: &str) -> (r: String)
    ensures
        r@ == path_join(base@, comp@),
{
    let b = chars_of(base);
    let c = chars_of(comp);
    if c.len() > 0 && c[0] == '/' {
        string_of(&c)
    } else if b.len() == 0 {
        string_of(&c)
    } else if b[b.len() - 1] == '/' {
        concat(base, comp)
    } else {
        let mut s = string_of(&b);
        push_char(&mut s, '/');
        let r = concat(s.as_str(), comp);
        r
    }
}

/// Where the objects of a repository lie.
pub struct ObjectReader {
    objects_dir: String,
    pack_dir: String,
}

/// What reading an object gives, from the bytes of its loose file if that
/// file exists, else from the packs: `None` where reading panics.
pub open spec fn read_object_outcome(
    hash: Seq<char>,
    loose: Option<Seq<u8>>,
    packs: Seq<(Seq<u8>, Seq<u8>)>,
) -> Option<Result<GitObjectSpec, ErrorView>> {
    let hb = encode_utf8(hash);
    if hb.len() < 4 {
        Some(Err(ErrorView::InvalidFormat("hash too short: "@ + hash)))
    } else if !boundary_at(hb, 2) {
        None
    } else {
        match loose {
            Some(c) => Some(loose_file_outcome(c, hash)),
            None => packed_outcome(hash, packs),
        }
    }
}

/// What looking an object up in the packs gives.
pub open spec fn packed_outcome(hash: Seq<char>, packs: Seq<(Seq<u8>, Seq<u8>)>) -> Option<Result<GitObjectSpec, ErrorView>> {
    let hb = encode_utf8(hash);
    if !decode_ok_to_run(hb) {
        None
    } else {
        match decode_spec(hb) {
            Err(m) => Some(Err(ErrorView::Parse(m))),
            Ok(v) => search_packs(hash, be_fold_u64(v), packs, 0),
        }
    }
}

/// The packs from `k` on searched in order: the first whose index records
/// the hash and whose pack unpacks the object gives it; the others are
/// passed over.
pub open spec fn search_packs(hash: Seq<char>, key: u64, packs: Seq<(Seq<u8>, Seq<u8>)>, k: int) -> Option<Result<GitObjectSpec, ErrorView>>
    decreases packs.len() - k,
{
    if k < 0 || k >= packs.len() {
        Some(Err(ErrorView::ObjectNotFound(hash)))
    } else {
        match index_lookup(packs[k].0, key, name_first_byte(hash)) {
            None => None,
            Some(None) => search_packs(hash, key, packs, k + 1),
            Some(Some(off)) => match unpack_outcome(packs[k].1, off, hash) {
                None => None,
                Some(Ok(o)) => Some(Ok(o)),
                Some(Err(_)) => search_packs(hash, key, packs, k + 1),
            },
        }
    }
}

/// The index and pack bytes of each pack.
pub open spec fn packs_view(packs: Seq<PackFile>) -> Seq<(Seq<u8>, Seq<u8>)> {
    packs.map_values(|p: PackFile| (p.idx@, p.pack@))
}

impl ObjectReader {
    /// A reader for the repository whose git directory is `git_dir`.
    pub fn new(git_dir: &str) -> (r: ObjectReader)
        ensures
            r.objects_dir()@ == path_join(git_dir@, "objects"@),
            r.pack_dir()@ == path_join(path_join(git_dir@, "objects"@), "pack"@),
    {
        let objects_dir = join_path(git_dir, "objects");
        let pack_dir = join_path(objects_dir.as_str(), "pack");
        ObjectReader { objects_dir, pack_dir }
    }

    pub closed spec fn objects_dir(&self) -> String {
        self.objects_dir
    }

    pub closed spec fn pack_dir(&self) -> String {
        self.pack_dir
    }

    /// The directory of loose objects.
    pub fn objects_path(&self) -> (r: &str)
        ensures
            r@ == self.objects_dir()@,
    {
        self.objects_dir.as_str()
    }

    /// The directory of pack files.
    pub fn pack_path(&self) -> (r: &str)
        ensures
            r@ == self.pack_dir()@,
    {
        self.pack_dir.as_str()
    }

    /// Where the loose object `hash` would lie: its first two bytes name a
    /// directory, the rest the file. Hashes under four bytes are refused.
    pub fn loose_path(&self, hash: &str) -> (r: Result<String, GitVizError>)
        requires
            encode_utf8(hash@).len() >= 4 ==> boundary_at(encode_utf8(hash@), 2),
        ensures
            encode_utf8(hash@).len() < 4 ==> (r matches Err(e) && e@ == ErrorView::InvalidFormat(
                "hash too short: "@ + hash@,
            )),
            encode_utf8(hash@).len() >= 4 ==> (r matches Ok(p) && exists|a: Seq<char>, b: Seq<char>|
                #![trigger encode_utf8(a), encode_utf8(b)]
                encode_utf8(a) == encode_utf8(hash@).take(2) && encode_utf8(b) == encode_utf8(
                    hash@,
                ).skip(2) && p@ == path_join(path_join(self.objects_dir()@, a), b)),
    {
        let hb = hash.as_bytes();
        if hb.len() < 4 {
            return Err(GitVizError::InvalidFormat(concat("hash too short: ", hash)));
        }
        proof {
            vstd::utf8::encode_utf8_valid_utf8(hash@);
            vstd::utf8::is_char_boundary_iff_not_is_continuation_byte(hash.spec_bytes(), 2);
        }
        let (prefix, suffix) = hash.split_at(2);
        let dir = join_path(self.objects_dir.as_str(), prefix);
        let r = join_path(dir.as_str(), suffix);
        assert(encode_utf8(prefix@) == encode_utf8(hash@).take(2));
        assert(encode_utf8(suffix@) == encode_utf8(hash@).skip(2));
        Ok(r)
    }

    /// Reads object `hash`: from the bytes of its loose file when that file
    /// exists, else from the packs in the order given.
    pub fn read_object(&self, hash: &str, loose: Option<&[u8]>, packs: &[PackFile]) -> (r: Result<GitObject, GitVizError>)
        requires
            read_object_outcome(hash@, match loose { Some(b) => Some(b@), None => None }, packs_view(packs@)) is Some,
        ensures
            match (r, read_object_outcome(hash@, match loose { Some(b) => Some(b@), None => None }, packs_view(packs@))) {
                (Ok(o), Some(Ok(p))) => o@ == p,
                (Err(e), Some(Err(f))) => e@ == f,
                _ => false,
            },
    {
        let hb = hash.as_bytes();
        if hb.len() < 4 {
            return Err(GitVizError::InvalidFormat(concat("hash too short: ", hash)));
        }
        match loose {
            Some(bytes) => read_loose_object(bytes, hash),
            None => self.read_packed_object(hash, packs),
        }
    }

    /// Whether reading object `hash` gives the object or an error rather than
    /// a panic: the hash must cut cleanly after its second byte, and, where
    /// no loose file exists, into byte pairs, and no pack index or packed
    /// object met on the way may be read past its end.
    pub fn read_object_defined(&self, hash: &str, loose: Option<&[u8]>, packs: &[PackFile]) -> (r: bool)
        ensures
            r == read_object_outcome(hash@, match loose { Some(b) => Some(b@), None => None }, packs_view(packs@)) is Some,
    {
        let hb = hash.as_bytes();
        if hb.len() < 4 {
            return true;
        }
        if !is_boundary(hb, 2) {
            return false;
        }
        match loose {
            Some(_) => true,
            None => self.packed_defined(hash, packs),
        }
    }

    /// Whether looking object `hash` up in the packs ends without a panic.
    pub fn packed_defined(&self, hash: &str, packs: &[PackFile]) -> (r: bool)
        ensures
            r == packed_outcome(hash@, packs_view(packs@)) is Some,
    {
        if !decode_defined(hash) {
            return false;
        }
        let key = match hex_to_uint(hash) {
            Ok(v) => v,
            Err(_) => return true,
        };
        let ghost pv = packs_view(packs@);
        let mut k: usize = 0;
        while k < packs.len()
            invariant
                k <= packs@.len(),
                pv == packs_view(packs@),
                pv.len() == packs@.len(),
                (packed_outcome(hash@, pv) is Some) == (search_packs(hash@, key, pv, k as int) is Some),
            decreases packs.len() - k,
        {
            let p = &packs[k];
            assert(pv[k as int] == (p.idx@, p.pack@));
            if !index_defined(p.idx.as_slice(), key, hash) {
                return false;
            }
            match self.find_in_index(p.idx.as_slice(), key, hash) {
                Some(off) => {
                    if !unpack_defined(p.pack.as_slice(), off, hash) {
                        return false;
                    }
                    if self.unpack_object(p.pack.as_slice(), off, hash).is_ok() {
                        return true;
                    }
                },
                None => {},
            }
            k = k + 1;
        }
        true
    }

    /// Looks object `hash` up in the packs.
    pub fn read_packed_object(&self, hash: &str, packs: &[PackFile]) -> (r: Result<GitObject, GitVizError>)
        requires
            packed_outcome(hash@, packs_view(packs@)) is Some,
        ensures
            match (r, packed_outcome(hash@, packs_view(packs@))) {
                (Ok(o), Some(Ok(p))) => o@ == p,
                (Err(e), Some(Err(f))) => e@ == f,
                _ => false,
            },
    {
        let key = match hex_to_uint(hash) {
            Ok(v) => v,
            Err(e) => return Err(e),
        };
        let ghost pv = packs_view(packs@);
        let mut k: usize = 0;
        while k < packs.len()
            invariant
                k <= packs@.len(),
                pv == packs_view(packs@),
                pv.len() == packs@.len(),
                packed_outcome(hash@, pv) == search_packs(hash@, key, pv, k as int),
                packed_outcome(hash@, pv) is Some,
            decreases packs.len() - k,
        {
            let p = &packs[k];
            assert(pv[k as int] == (p.idx@, p.pack@));
            match self.find_in_index(p.idx.as_slice(), key, hash) {
                Some(off) => {
                    match self.unpack_object(p.pack.as_slice(), off, hash) {
                        Ok(o) => return Ok(o),
                        Err(_) => {},
                    }
                },
                None => {},
            }
            k = k + 1;
        }
        Err(GitVizError::ObjectNotFound(string_of(&chars_of(hash))))
    }
}

// ---------------------------------------------------------------------------
// References
// ---------------------------------------------------------------------------

/// What a reference file holds: another reference to follow, or a hash.
pub enum RefTarget {
    Symbolic(String),
    Direct(String),
}

/// What a reference file's text reads as once trimmed: `ref: <name>` names
/// another reference, anything else is the hash itself.
pub open spec fn ref_target(content: Seq<char>) -> (bool, Seq<char>) {
    let t = trim(content);
    if has_prefix(t, "ref: "@) {
        (true, t.skip("ref: "@.len() as int))
    } else {
        (false, t)
    }
}

/// Reads the text of a reference file.
pub fn parse_ref_content(content: &str) -> (r: RefTarget)
    ensures
        match r {
            RefTarget::Symbolic(n) => ref_target(content@) == (true, n@),
            RefTarget::Direct(h) => ref_target(content@) == (false, h@),
        },
{
    let t = trim_chars(&chars_of(content));
    let p = chars_of("ref: ");
    if starts_with(&t, &p) {
        let n = string_of_range(&t, p.len(), t.len());
        assert(n@ =~= t@.skip("ref: "@.len() as int));
        RefTarget::Symbolic(n)
    } else {
        RefTarget::Direct(string_of(&t))
    }
}

} // verus!
