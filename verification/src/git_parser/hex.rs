//! Hexadecimal encoding and decoding of byte strings.
use vstd::prelude::*;

use crate::models::git_object::{ErrorView, GitVizError};
use crate::text::{chars_of, string_of};
use vstd::string::StringSliceAdditionalSpecFns;
use vstd::utf8::{encode_utf8, is_ascii_chars, is_ascii_chars_encode_utf8};

verus! {

/// Whether byte `i` of a UTF-8 string starts a character (or is its end):
/// slicing a `str` anywhere else panics.
pub open spec fn boundary_at(b: Seq<u8>, i: int) -> bool {
    i == b.len() || (0 <= i < b.len() && !(0x80 <= b[i] && b[i] < 0xc0))
}

pub open spec fn lower_nibble_char(n: u8) -> char {
    if n < 10 {
        (0x30 + n) as char
    } else {
        (0x57 + n) as char
    }
}

pub open spec fn upper_nibble_char(n: u8) -> char {
    if n < 10 {
        (0x30 + n) as char
    } else {
        (0x37 + n) as char
    }
}

/// Two lowercase hex digits per byte (`format!("{:02x}", b)` for each byte).
pub open spec fn hex_lower(b: Seq<u8>) -> Seq<char>
    decreases b.len(),
{
    if b.len() == 0 {
        seq![]
    } else {
        seq![lower_nibble_char(b[0] >> 4), lower_nibble_char(b[0] & 0x0f)] + hex_lower(
            b.drop_first(),
        )
    }
}

/// Two uppercase hex digits per byte (`format!("{:02X}", b)` for each byte).
pub open spec fn hex_upper(b: Seq<u8>) -> Seq<char>
    decreases b.len(),
{
    if b.len() == 0 {
        seq![]
    } else {
        seq![upper_nibble_char(b[0] >> 4), upper_nibble_char(b[0] & 0x0f)] + hex_upper(
            b.drop_first(),
        )
    }
}

/// Value of one hex digit byte, either case.
pub open spec fn hex_digit_value(b: u8) -> Option<u8> {
    if 0x30 <= b && b <= 0x39 {
        Some((b - 0x30) as u8)
    } else if 0x41 <= b && b <= 0x46 {
        Some((b - 0x37) as u8)
    } else if 0x61 <= b && b <= 0x66 {
        Some((b - 0x57) as u8)
    } else {
        None
    }
}

/// `u8::from_str_radix` of a two-byte string in base 16: two hex digits, or
/// `+` and one hex digit.
pub open spec fn pair_value(b0: u8, b1: u8) -> Option<u8> {
    if b0 == 0x2b {
        hex_digit_value(b1)
    } else {
        match (hex_digit_value(b0), hex_digit_value(b1)) {
            (Some(x), Some(y)) => Some((x * 16 + y) as u8),
            _ => None,
        }
    }
}

pub open spec fn pairs_valid(b: Seq<u8>) -> bool {
    forall|i: int| 0 <= i < b.len() / 2 ==> #[trigger] pair_value(b[2 * i], b[2 * i + 1]) is Some
}

/// The bytes a hex string denotes, or the message it is refused with.
pub open spec fn decode_spec(b: Seq<u8>) -> Result<Seq<u8>, Seq<char>> {
    if b.len() % 2 == 1 {
        Err("hex string has odd length"@)
    } else if pairs_valid(b) {
        Ok(Seq::new(b.len() / 2, |i: int| pair_value(b[2 * i], b[2 * i + 1]).unwrap()))
    } else {
        Err("invalid hex: invalid digit found in string"@)
    }
}

/// Whether decoding, which slices the string pair by pair from pair `k` on
/// and stops at the first pair that is no number, never slices inside a
/// character (slicing a `str` there panics).
pub open spec fn pairs_uncut(b: Seq<u8>, k: nat) -> bool
    decreases b.len() - 2 * k,
{
    let i = 2 * k as int;
    if i >= b.len() {
        true
    } else if !(boundary_at(b, i) && boundary_at(b, i + 2)) {
        false
    } else if pair_value(b[i], b[i + 1]) is None {
        true
    } else {
        pairs_uncut(b, k + 1)
    }
}

/// Whether decoding a hex string gives bytes or an error rather than a
/// panic: an odd length is refused before any pair is sliced.
pub open spec fn decode_ok_to_run(b: Seq<u8>) -> bool {
    b.len() % 2 == 1 || pairs_uncut(b, 0)
}

/// The bytes taken as a big-endian number, modulo 2^64 (the last eight bytes).
pub open spec fn be_fold_u64(b: Seq<u8>) -> u64
    decreases b.len(),
{
    if b.len() == 0 {
        0
    } else {
        (((be_fold_u64(b.drop_last()) as int * 256) % 0x1_0000_0000_0000_0000) + b.last()) as u64
    }
}

fn lower_nibble(n: u8) -> (c: char)
    requires
        n < 16,
    ensures
        c == lower_nibble_char(n),
{
    if n < 10 {
        (0x30u8 + n) as char
    } else {
        (0x57u8 + n) as char
    }
}

fn upper_nibble(n: u8) -> (c: char)
    requires
        n < 16,
    ensures
        c == upper_nibble_char(n),
{
    if n < 10 {
        (0x30u8 + n) as char
    } else {
        (0x37u8 + n) as char
    }
}

proof fn lemma_hex_lower_push(b: Seq<u8>, x: u8)
    ensures
        hex_lower(b.push(x)) == hex_lower(b) + seq![lower_nibble_char(x >> 4), lower_nibble_char(x & 0x0f)],
    decreases b.len(),
{
    if b.len() == 0 {
        assert(b.push(x).drop_first() =~= Seq::<u8>::empty());
        assert(hex_lower(Seq::<u8>::empty()) =~= Seq::<char>::empty());
    } else {
        assert(b.push(x).drop_first() =~= b.drop_first().push(x));
        lemma_hex_lower_push(b.drop_first(), x);
    }
}

proof fn lemma_hex_upper_push(b: Seq<u8>, x: u8)
    ensures
        hex_upper(b.push(x)) == hex_upper(b) + seq![upper_nibble_char(x >> 4), upper_nibble_char(x & 0x0f)],
    decreases b.len(),
{
    if b.len() == 0 {
        assert(b.push(x).drop_first() =~= Seq::<u8>::empty());
        assert(hex_upper(Seq::<u8>::empty()) =~= Seq::<char>::empty());
    } else {
        assert(b.push(x).drop_first() =~= b.drop_first().push(x));
        lemma_hex_upper_push(b.drop_first(), x);
    }
}

proof fn lemma_hex_upper_at(b: Seq<u8>)
    ensures
        hex_upper(b).len() == 2 * b.len(),
        forall|i: int|
            0 <= i < b.len() ==> #[trigger] hex_upper(b)[2 * i] == upper_nibble_char(b[i] >> 4)
                && hex_upper(b)[2 * i + 1] == upper_nibble_char(b[i] & 0x0f),
    decreases b.len(),
{
    if b.len() > 0 {
        lemma_hex_upper_at(b.drop_first());
        let t = b.drop_first();
        assert forall|i: int| 0 <= i < b.len() implies #[trigger] hex_upper(b)[2 * i]
            == upper_nibble_char(b[i] >> 4) && hex_upper(b)[2 * i + 1] == upper_nibble_char(
            b[i] & 0x0f,
        ) by {
            if i > 0 {
                assert(hex_upper(b)[2 * i] == hex_upper(t)[2 * (i - 1)]);
                assert(hex_upper(b)[2 * i + 1] == hex_upper(t)[2 * (i - 1) + 1]);
                assert(b[i] == t[i - 1]);
            }
        }
    }
}

proof fn lemma_upper_pair(x: u8)
    ensures
        upper_nibble_char(x >> 4) as u32 <= 0x7f,
        upper_nibble_char(x & 0x0f) as u32 <= 0x7f,
        pair_value(upper_nibble_char(x >> 4) as u8, upper_nibble_char(x & 0x0f) as u8) == Some(x),
{
    assert((x >> 4) < 16 && (x & 0x0f) < 16 && (x >> 4) * 16 + (x & 0x0f) == x) by (bit_vector);
}

proof fn lemma_lower_pair(x: u8)
    ensures
        lower_nibble_char(x >> 4) as u32 <= 0x7f,
        lower_nibble_char(x & 0x0f) as u32 <= 0x7f,
        pair_value(lower_nibble_char(x >> 4) as u8, lower_nibble_char(x & 0x0f) as u8) == Some(x),
{
    assert((x >> 4) < 16 && (x & 0x0f) < 16 && (x >> 4) * 16 + (x & 0x0f) == x) by (bit_vector);
}

proof fn lemma_hex_lower_at(b: Seq<u8>)
    ensures
        hex_lower(b).len() == 2 * b.len(),
        forall|i: int|
            0 <= i < b.len() ==> #[trigger] hex_lower(b)[2 * i] == lower_nibble_char(b[i] >> 4)
                && hex_lower(b)[2 * i + 1] == lower_nibble_char(b[i] & 0x0f),
    decreases b.len(),
{
    if b.len() > 0 {
        lemma_hex_lower_at(b.drop_first());
        let t = b.drop_first();
        assert forall|i: int| 0 <= i < b.len() implies #[trigger] hex_lower(b)[2 * i]
            == lower_nibble_char(b[i] >> 4) && hex_lower(b)[2 * i + 1] == lower_nibble_char(
            b[i] & 0x0f,
        ) by {
            if i > 0 {
                assert(hex_lower(b)[2 * i] == hex_lower(t)[2 * (i - 1)]);
                assert(hex_lower(b)[2 * i + 1] == hex_lower(t)[2 * (i - 1) + 1]);
                assert(b[i] == t[i - 1]);
            }
        }
    }
}

proof fn lemma_ascii_pairs_uncut(b: Seq<u8>, k: nat)
    requires
        b.len() % 2 == 0,
        forall|i: int| 0 <= i < b.len() ==> #[trigger] b[i] < 0x80,
    ensures
        pairs_uncut(b, k),
    decreases b.len() - 2 * k,
{
    let i = 2 * k as int;
    if i < b.len() {
        assert(b[i] < 0x80);
        if i + 2 < b.len() {
            assert(b[i + 2] < 0x80);
        }
        lemma_ascii_pairs_uncut(b, k + 1);
    }
}

/// Decoding hex digits whose pairs each spell a byte of `data` gives `data`.
proof fn lemma_decode_digits(h: Seq<char>, data: Seq<u8>)
    requires
        h.len() == 2 * data.len(),
        forall|k: int| 0 <= k < h.len() ==> '\0' <= #[trigger] h[k] <= '\u{7f}',
        forall|i: int| 0 <= i < data.len() ==> #[trigger] pair_value(h[2 * i] as u8, h[2 * i + 1] as u8) == Some(data[i]),
    ensures
        decode_ok_to_run(encode_utf8(h)),
        decode_spec(encode_utf8(h)) == Ok::<Seq<u8>, Seq<char>>(data),
{
    assert(is_ascii_chars(h));
    is_ascii_chars_encode_utf8(h);
    let b = encode_utf8(h);
    assert forall|i: int| 0 <= i < b.len() implies #[trigger] b[i] < 0x80 by {
        assert(b[i] == h[i] as u8);
    }
    lemma_ascii_pairs_uncut(b, 0);
    assert forall|i: int| 0 <= i < b.len() / 2 implies #[trigger] pair_value(b[2 * i], b[2 * i + 1]) == Some(data[i]) by {
        assert(b[2 * i] == h[2 * i] as u8);
        assert(b[2 * i + 1] == h[2 * i + 1] as u8);
    }
    assert(pairs_valid(b));
    assert(Seq::new(b.len() / 2, |i: int| pair_value(b[2 * i], b[2 * i + 1]).unwrap()) =~= data);
}

/// Decoding undoes uppercase encoding: the hex digits `encode_upper` writes
/// for any bytes decode back to those bytes, without slicing inside a
/// character.
pub proof fn law_decode_encode_upper(data: Seq<u8>)
    ensures
        decode_ok_to_run(encode_utf8(hex_upper(data))),
        decode_spec(encode_utf8(hex_upper(data))) == Ok::<Seq<u8>, Seq<char>>(data),
{
    let h = hex_upper(data);
    lemma_hex_upper_at(data);
    assert forall|k: int| 0 <= k < h.len() implies '\0' <= #[trigger] h[k] <= '\u{7f}' by {
        let i = k / 2;
        lemma_upper_pair(data[i]);
        if k % 2 == 0 {
            assert(h[2 * i] == upper_nibble_char(data[i] >> 4));
        } else {
            assert(k == 2 * i + 1);
            assert(h[2 * i] == upper_nibble_char(data[i] >> 4));
            assert(h[2 * i + 1] == upper_nibble_char(data[i] & 0x0f));
        }
    }
    assert forall|i: int| 0 <= i < data.len() implies #[trigger] pair_value(h[2 * i] as u8, h[2 * i + 1] as u8) == Some(data[i]) by {
        lemma_upper_pair(data[i]);
    }
    lemma_decode_digits(h, data);
}

/// Decoding undoes lowercase encoding too: decoding accepts either case, so
/// the digits `encode_lower` writes decode back to the bytes.
pub proof fn law_decode_encode_lower(data: Seq<u8>)
    ensures
        decode_ok_to_run(encode_utf8(hex_lower(data))),
        decode_spec(encode_utf8(hex_lower(data))) == Ok::<Seq<u8>, Seq<char>>(data),
{
    let h = hex_lower(data);
    lemma_hex_lower_at(data);
    assert forall|k: int| 0 <= k < h.len() implies '\0' <= #[trigger] h[k] <= '\u{7f}' by {
        let i = k / 2;
        lemma_lower_pair(data[i]);
        if k % 2 == 0 {
            assert(h[2 * i] == lower_nibble_char(data[i] >> 4));
        } else {
            assert(k == 2 * i + 1);
            assert(h[2 * i] == lower_nibble_char(data[i] >> 4));
            assert(h[2 * i + 1] == lower_nibble_char(data[i] & 0x0f));
        }
    }
    assert forall|i: int| 0 <= i < data.len() implies #[trigger] pair_value(h[2 * i] as u8, h[2 * i + 1] as u8) == Some(data[i]) by {
        lemma_lower_pair(data[i]);
    }
    lemma_decode_digits(h, data);
}

/// Lowercase hex digits of some bytes.
pub fn encode_lower(data: &[u8]) -> (r: String)
    ensures
        r@ == hex_lower(data@),
{
    let mut out: Vec<char> = Vec::new();
    let mut i: usize = 0;
    while i < data.len()
        invariant
            i <= data@.len(),
            out@ == hex_lower(data@.take(i as int)),
        decreases data.len() - i,
    {
        let b = data[i];
        assert(b >> 4 < 16 && b & 0x0f < 16) by (bit_vector);
        out.push(lower_nibble(b >> 4));
        out.push(lower_nibble(b & 0x0f));
        proof {
            assert(data@.take(i + 1) =~= data@.take(i as int).push(b));
            lemma_hex_lower_push(data@.take(i as int), b);
        }
        i = i + 1;
    }
    assert(data@.take(data@.len() as int) =~= data@);
    string_of(&out)
}

/// Uppercase hex digits of some bytes.
pub fn encode_upper(data: &[u8]) -> (r: String)
    ensures
        r@ == hex_upper(data@),
{
    let mut out: Vec<char> = Vec::new();
    let mut i: usize = 0;
    while i < data.len()
        invariant
            i <= data@.len(),
            out@ == hex_upper(data@.take(i as int)),
        decreases data.len() - i,
    {
        let b = data[i];
        assert(b >> 4 < 16 && b & 0x0f < 16) by (bit_vector);
        out.push(upper_nibble(b >> 4));
        out.push(upper_nibble(b & 0x0f));
        proof {
            assert(data@.take(i + 1) =~= data@.take(i as int).push(b));
            lemma_hex_upper_push(data@.take(i as int), b);
        }
        i = i + 1;
    }
    assert(data@.take(data@.len() as int) =~= data@);
    string_of(&out)
}

pub(crate) fn digit_value(b: u8) -> (r: Option<u8>)
    ensures
        r == hex_digit_value(b),
{
    if 0x30 <= b && b <= 0x39 {
        Some(b - 0x30)
    } else if 0x41 <= b && b <= 0x46 {
        Some(b - 0x37)
    } else if 0x61 <= b && b <= 0x66 {
        Some(b - 0x57)
    } else {
        None
    }
}

fn pair(b0: u8, b1: u8) -> (r: Option<u8>)
    ensures
        r == pair_value(b0, b1),
{
    if b0 == 0x2b {
        digit_value(b1)
    } else {
        match (digit_value(b0), digit_value(b1)) {
            (Some(x), Some(y)) => Some(x * 16 + y),
            _ => None,
        }
    }
}

/// Whether byte `i` of a UTF-8 string starts a character or is its end.
pub fn is_boundary(b: &[u8], i: usize) -> (r: bool)
    requires
        i <= b@.len(),
    ensures
        r == boundary_at(b@, i as int),
{
    i == b.len() || !(0x80 <= b[i] && b[i] < 0xc0)
}

/// Whether `decode` gives bytes or an error for `hex` rather than slicing
/// inside a character.
pub fn decode_defined(hex: &str) -> (r: bool)
    ensures
        r == decode_ok_to_run(hex.spec_bytes()),
{
    let b = hex.as_bytes();
    if b.len() % 2 == 1 {
        return true;
    }
    let mut k: usize = 0;
    while 2 * k < b.len()
        invariant
            b@ == hex.spec_bytes(),
            b@.len() % 2 == 0,
            2 * k <= b@.len(),
            pairs_uncut(b@, 0) == pairs_uncut(b@, k as nat),
        decreases b.len() - 2 * k,
    {
        if !(is_boundary(b, 2 * k) && is_boundary(b, 2 * k + 2)) {
            return false;
        }
        if pair(b[2 * k], b[2 * k + 1]).is_none() {
            return true;
        }
        k = k + 1;
    }
    true
}

/// Bytes of a hex string. Odd length is refused with `hex string has odd
/// length`, a pair that is no base-16 number with `invalid hex: invalid digit
/// found in string`.
pub fn decode(hex: &str) -> (r: Result<Vec<u8>, String>)
    requires
        decode_ok_to_run(hex.spec_bytes()),
    ensures
        match (r, decode_spec(hex.spec_bytes())) {
            (Ok(v), Ok(w)) => v@ == w,
            (Err(m), Err(n)) => m@ == n,
            _ => false,
        },
{
    let b = hex.as_bytes();
    if b.len() % 2 == 1 {
        return Err(string_of(&chars_of("hex string has odd length")));
    }
    let mut out: Vec<u8> = Vec::new();
    let mut i: usize = 0;
    while i < b.len() / 2
        invariant
            b@ == hex.spec_bytes(),
            b@.len() % 2 == 0,
            i <= b@.len() / 2,
            out@.len() == i,
            forall|j: int| 0 <= j < i ==> #[trigger] pair_value(b@[2 * j], b@[2 * j + 1]) == Some(out@[j]),
        decreases b.len() / 2 - i,
    {
        match pair(b[2 * i], b[2 * i + 1]) {
            Some(v) => out.push(v),
            None => {
                assert(!pairs_valid(b@));
                return Err(string_of(&chars_of("invalid hex: invalid digit found in string")));
            },
        }
        i = i + 1;
    }
    assert(pairs_valid(b@));
    assert(out@ =~= Seq::new(b@.len() / 2, |k: int| pair_value(b@[2 * k], b@[2 * k + 1]).unwrap()));
    Ok(out)
}

/// The number a hex string denotes, modulo 2^64; a string `decode` refuses
/// gives a parse error with its message.
pub fn hex_to_uint(hex: &str) -> (r: Result<u64, GitVizError>)
    requires
        decode_ok_to_run(hex.spec_bytes()),
    ensures
        match (r, decode_spec(hex.spec_bytes())) {
            (Ok(v), Ok(w)) => v == be_fold_u64(w),
            (Err(e), Err(n)) => e@ == ErrorView::Parse(n),
            _ => false,
        },
{
    let bytes = match decode(hex) {
        Ok(v) => v,
        Err(e) => return Err(GitVizError::Parse(e)),
    };
    let mut result: u64 = 0;
    let mut i: usize = 0;
    while i < bytes.len()
        invariant
            i <= bytes@.len(),
            result == be_fold_u64(bytes@.take(i as int)),
        decreases bytes.len() - i,
    {
        let b = bytes[i];
        proof {
            assert(bytes@.take(i + 1).drop_last() =~= bytes@.take(i as int));
            let r = result;
            assert(((r << 8u64) | (b as u64)) == (((r as int * 256) % 0x1_0000_0000_0000_0000)
                + b) as u64) by (bit_vector);
        }
        result = (result << 8) | (b as u64);
        i = i + 1;
    }
    assert(bytes@.take(bytes@.len() as int) =~= bytes@);
    Ok(result)
}

} // verus!
