//! Character-level text handling shared by the parsers: whitespace trimming,
//! line splitting, searching, integer literals and decimal rendering.
use vstd::prelude::*;
use vstd::utf8::{decode_utf8, valid_utf8};

verus! {

/// The characters `String::from_utf8_lossy` makes of some bytes: their UTF-8
/// decoding, with U+FFFD in place of each maximal invalid sequence.
pub uninterp spec fn utf8_lossy(b: Seq<u8>) -> Seq<char>;

/// The text some bytes read as: their decoding where they are valid UTF-8,
/// else what `String::from_utf8_lossy` makes of them.
pub open spec fn text_of(b: Seq<u8>) -> Seq<char> {
    if valid_utf8(b) {
        decode_utf8(b)
    } else {
        utf8_lossy(b)
    }
}

/// `String::from_utf8_lossy`, owned. Its documentation states that valid
/// UTF-8 comes back unchanged; how invalid sequences are replaced is left to
/// the name `utf8_lossy`.
#[verifier::external_body]
pub(crate) fn from_utf8_lossy(b: &[u8]) -> (r: String)
    ensures
        r@ == utf8_lossy(b@),
        valid_utf8(b@) ==> r@ == decode_utf8(b@),
        r@ == text_of(b@),
{
    String::from_utf8_lossy(b).into_owned()
}

// ---------------------------------------------------------------------------
// Specifications
// ---------------------------------------------------------------------------

/// Unicode `White_Space`, the set that `char::is_whitespace` accepts.
pub open spec fn is_ws(c: char) -> bool {
    let u = c as u32;
    u == 0x20 || (0x09 <= u && u <= 0x0d) || u == 0x85 || u == 0xa0 || u == 0x1680 || (0x2000
        <= u && u <= 0x200a) || u == 0x2028 || u == 0x2029 || u == 0x202f || u == 0x205f || u
        == 0x3000
}

pub open spec fn trim_start(s: Seq<char>) -> Seq<char>
    decreases s.len(),
{
    if s.len() > 0 && is_ws(s[0]) {
        trim_start(s.drop_first())
    } else {
        s
    }
}

pub open spec fn trim_end(s: Seq<char>) -> Seq<char>
    decreases s.len(),
{
    if s.len() > 0 && is_ws(s.last()) {
        trim_end(s.drop_last())
    } else {
        s
    }
}

/// `str::trim`: leading and trailing whitespace removed.
pub open spec fn trim(s: Seq<char>) -> Seq<char> {
    trim_end(trim_start(s))
}

/// Index of the last occurrence of `c` (`str::rfind` with a char pattern).
pub open spec fn rfind(s: Seq<char>, c: char) -> Option<int>
    decreases s.len(),
{
    if s.len() == 0 {
        None
    } else if s.last() == c {
        Some(s.len() - 1)
    } else {
        rfind(s.drop_last(), c)
    }
}

/// Index of the first occurrence of `c`, or the length when there is none.
pub open spec fn find_or_len(s: Seq<char>, c: char) -> nat
    decreases s.len(),
{
    if s.len() == 0 || s[0] == c {
        0
    } else {
        1 + find_or_len(s.drop_first(), c)
    }
}

pub open spec fn strip_cr(l: Seq<char>) -> Seq<char> {
    if l.len() > 0 && l.last() == '\r' {
        l.drop_last()
    } else {
        l
    }
}

/// `str::lines`: pieces split at `\n`, a `\r` before the `\n` dropped, and no
/// empty piece after a final line ending.
pub open spec fn lines(s: Seq<char>) -> Seq<Seq<char>>
    decreases s.len(),
{
    if s.len() == 0 {
        seq![]
    } else {
        let k = find_or_len(s, '\n');
        if k < s.len() {
            seq![strip_cr(s.take(k as int))] + lines(s.skip((k + 1) as int))
        } else {
            seq![s]
        }
    }
}

/// Lines joined by `\n` (`[..].join("\n")`).
pub open spec fn join_lines(ls: Seq<Seq<char>>) -> Seq<char>
    decreases ls.len(),
{
    if ls.len() == 0 {
        seq![]
    } else if ls.len() == 1 {
        ls[0]
    } else {
        join_lines(ls.drop_last()) + seq!['\n'] + ls.last()
    }
}

pub open spec fn has_prefix(s: Seq<char>, p: Seq<char>) -> bool {
    p.len() <= s.len() && s.take(p.len() as int) == p
}

/// `str::contains` with a string pattern.
pub open spec fn contains(s: Seq<char>, n: Seq<char>) -> bool {
    exists|i: int| 0 <= i && i + n.len() <= s.len() && #[trigger] s.subrange(i, i + n.len()) == n
}

pub open spec fn is_digit(c: char) -> bool {
    0x30 <= (c as u32) && (c as u32) <= 0x39
}

pub open spec fn all_digits(s: Seq<char>) -> bool {
    forall|i: int| 0 <= i < s.len() ==> is_digit(#[trigger] s[i])
}

/// Value of a run of decimal digits.
pub open spec fn digits_value(s: Seq<char>) -> int
    decreases s.len(),
{
    if s.len() == 0 {
        0
    } else {
        digits_value(s.drop_last()) * 10 + ((s.last() as u32) - 0x30)
    }
}

/// The integer an integer literal denotes as the integer `FromStr` impls of std
/// read it (an optional sign, then at least one decimal digit), before the
/// range of the target type is checked. `signed` says whether `-` is allowed.
pub open spec fn int_literal(s: Seq<char>, signed: bool) -> Option<int> {
    if s.len() == 0 {
        None
    } else if (s[0] == '+' || s[0] == '-') && s.len() == 1 {
        None
    } else if s[0] == '+' {
        if all_digits(s.drop_first()) {
            Some(digits_value(s.drop_first()))
        } else {
            None
        }
    } else if s[0] == '-' && signed {
        if all_digits(s.drop_first()) {
            Some(-digits_value(s.drop_first()))
        } else {
            None
        }
    } else if all_digits(s) {
        Some(digits_value(s))
    } else {
        None
    }
}

/// `i64::from_str`.
pub open spec fn parse_i64_spec(s: Seq<char>) -> Option<i64> {
    match int_literal(s, true) {
        Some(v) => if i64::MIN <= v <= i64::MAX {
            Some(v as i64)
        } else {
            None
        },
        None => None,
    }
}

/// `usize::from_str`.
pub open spec fn parse_usize_spec(s: Seq<char>) -> Option<usize> {
    match int_literal(s, false) {
        Some(v) => if 0 <= v <= usize::MAX {
            Some(v as usize)
        } else {
            None
        },
        None => None,
    }
}

/// `i32::from_str`.
pub open spec fn parse_i32_spec(s: Seq<char>) -> Option<i32> {
    match int_literal(s, true) {
        Some(v) => if i32::MIN <= v <= i32::MAX {
            Some(v as i32)
        } else {
            None
        },
        None => None,
    }
}

pub open spec fn digit_char(d: int) -> char {
    (0x30 + d) as char
}

/// Decimal rendering of a natural number, most significant digit first.
pub open spec fn decimal(n: nat) -> Seq<char>
    decreases n,
{
    if n < 10 {
        seq![digit_char(n as int)]
    } else {
        decimal(n / 10).push(digit_char((n % 10) as int))
    }
}

/// Decimal rendering of an integer, with `-` in front when it is negative.
pub open spec fn signed_decimal(v: int) -> Seq<char> {
    if v < 0 {
        seq!['-'] + decimal((-v) as nat)
    } else {
        decimal(v as nat)
    }
}

// ---------------------------------------------------------------------------
// Lemmas
// ---------------------------------------------------------------------------

pub proof fn lemma_digits_prefix_le(s: Seq<char>, i: int)
    requires
        all_digits(s),
        0 <= i <= s.len(),
    ensures
        0 <= digits_value(s.take(i)) <= digits_value(s),
    decreases s.len(),
{
    if i < s.len() {
        assert(s.drop_last().take(i) =~= s.take(i));
        lemma_digits_prefix_le(s.drop_last(), i);
        assert(all_digits(s.drop_last()));
    } else {
        assert(s.take(i) =~= s);
        lemma_digits_nonneg(s);
    }
}

pub proof fn lemma_digits_nonneg(s: Seq<char>)
    requires
        all_digits(s),
    ensures
        digits_value(s) >= 0,
    decreases s.len(),
{
    if s.len() > 0 {
        assert(all_digits(s.drop_last()));
        lemma_digits_nonneg(s.drop_last());
        assert(is_digit(s[s.len() - 1]));
    }
}

pub proof fn lemma_decimal_len(n: nat)
    ensures
        1 <= decimal(n).len() <= n + 1,
    decreases n,
{
    if n >= 10 {
        lemma_decimal_len(n / 10);
    }
}

/// The decimal rendering of `n` is a run of digits whose value is `n`.
pub proof fn lemma_decimal_digits(n: nat)
    ensures
        all_digits(decimal(n)),
        digits_value(decimal(n)) == n,
    decreases n,
{
    if n < 10 {
        assert(decimal(n).drop_last() =~= Seq::<char>::empty());
        assert(digit_char(n as int) as u32 == 0x30 + n);
        assert(decimal(n).last() == digit_char(n as int));
        assert(digits_value(Seq::<char>::empty()) == 0);
        assert(digits_value(decimal(n)) == digits_value(decimal(n).drop_last()) * 10 + (n as int));
    } else {
        lemma_decimal_digits(n / 10);
        let d = decimal(n / 10);
        let s = d.push(digit_char((n % 10) as int));
        assert(s.drop_last() =~= d);
        assert(digit_char((n % 10) as int) as u32 == 0x30 + n % 10);
        assert(s.last() == digit_char((n % 10) as int));
        assert(digits_value(s) == digits_value(d) * 10 + (n % 10));
        assert(n == (n / 10) * 10 + n % 10);
        assert(decimal(n) == s);
        assert(digits_value(decimal(n)) == n);
        assert forall|i: int| 0 <= i < s.len() implies is_digit(#[trigger] s[i]) by {
            if i < d.len() {
                assert(s[i] == d[i]);
            }
        }
    }
}

/// The decimal rendering of a number is ASCII.
pub proof fn lemma_decimal_ascii(n: nat)
    ensures
        forall|i: int| 0 <= i < decimal(n).len() ==> '\0' <= #[trigger] decimal(n)[i] <= '\u{7f}',
    decreases n,
{
    if n < 10 {
        assert(decimal(n)[0] == digit_char(n as int));
    } else {
        lemma_decimal_ascii(n / 10);
        let d = decimal(n / 10);
        let s = d.push(digit_char((n % 10) as int));
        assert forall|i: int| 0 <= i < s.len() implies '\0' <= #[trigger] s[i] <= '\u{7f}' by {
            if i < d.len() {
                assert(s[i] == d[i]);
            } else {
                assert(s[i] == digit_char((n % 10) as int));
            }
        }
    }
}

/// Reading the decimal rendering of a number as a `usize` gives it back.
pub proof fn lemma_parse_usize_decimal(n: nat)
    requires
        n <= usize::MAX,
    ensures
        parse_usize_spec(decimal(n)) == Some(n as usize),
{
    lemma_decimal_digits(n);
    lemma_decimal_len(n);
    let d = decimal(n);
    assert(is_digit(d[0]));
}

/// The first `c` of `a`, `c` and `r` is the one after `a` where `a` holds
/// none.
pub proof fn lemma_find_or_len_after(a: Seq<char>, r: Seq<char>, c: char)
    requires
        !a.contains(c),
    ensures
        find_or_len(a + seq![c] + r, c) == a.len(),
        find_or_len(a, c) == a.len(),
    decreases a.len(),
{
    if a.len() == 0 {
        assert((a + seq![c] + r)[0] == c);
    } else {
        assert(a.drop_first().contains(c) ==> a.contains(c)) by {
            if a.drop_first().contains(c) {
                let i = choose|i: int| 0 <= i < a.drop_first().len() && a.drop_first()[i] == c;
                assert(a[i + 1] == c);
            }
        }
        lemma_find_or_len_after(a.drop_first(), r, c);
        assert((a + seq![c] + r).drop_first() =~= a.drop_first() + seq![c] + r);
        assert(a[0] != c) by {
            assert(a.contains(a[0]));
        }
    }
}

// ---------------------------------------------------------------------------
// Executable helpers
// ---------------------------------------------------------------------------

/// Collects the characters of a string slice.
pub fn chars_of(s: &str) -> (r: Vec<char>)
    ensures
        r@ == s@,
{
    let mut r: Vec<char> = Vec::new();
    for c in it: s.chars()
        invariant
            r@ == it.seq().take(it.index() as int),
    {
        r.push(c);
    }
    r
}

/// Appends one character to a string (std `String::push`).
#[verifier::external_body]
pub(crate) fn push_char(s: &mut String, c: char)
    ensures
        final(s)@ == old(s)@.push(c),
{
    s.push(c);
}

/// Builds a string from the characters `s[lo..hi]`.
pub fn string_of_range(s: &[char], lo: usize, hi: usize) -> (r: String)
    requires
        lo <= hi <= s@.len(),
    ensures
        r@ == s@.subrange(lo as int, hi as int),
{
    let mut r = String::new();
    let mut i = lo;
    while i < hi
        invariant
            lo <= i <= hi <= s@.len(),
            r@ == s@.subrange(lo as int, i as int),
        decreases hi - i,
    {
        push_char(&mut r, s[i]);
        assert(s@.subrange(lo as int, i + 1) =~= s@.subrange(lo as int, i as int).push(s@[i as int]));
        i = i + 1;
    }
    r
}

/// Builds a string from a sequence of characters.
pub fn string_of(s: &[char]) -> (r: String)
    ensures
        r@ == s@,
{
    let r = string_of_range(s, 0, s.len());
    assert(s@.subrange(0, s@.len() as int) =~= s@);
    r
}

/// Copies `s[lo..hi]`.
pub fn copy_range(s: &[char], lo: usize, hi: usize) -> (r: Vec<char>)
    requires
        lo <= hi <= s@.len(),
    ensures
        r@ == s@.subrange(lo as int, hi as int),
{
    let mut r: Vec<char> = Vec::new();
    let mut i = lo;
    while i < hi
        invariant
            lo <= i <= hi <= s@.len(),
            r@ == s@.subrange(lo as int, i as int),
        decreases hi - i,
    {
        r.push(s[i]);
        assert(s@.subrange(lo as int, i + 1) =~= s@.subrange(lo as int, i as int).push(s@[i as int]));
        i = i + 1;
    }
    r
}

/// Concatenation of two strings into a new one.
pub fn concat(a: &str, b: &str) -> (r: String)
    ensures
        r@ == a@ + b@,
{
    let ac = chars_of(a);
    let bc = chars_of(b);
    let mut r = string_of(&ac);
    let mut i: usize = 0;
    while i < bc.len()
        invariant
            i <= bc@.len(),
            bc@ == b@,
            r@ == a@ + b@.take(i as int),
        decreases bc.len() - i,
    {
        push_char(&mut r, bc[i]);
        assert(b@.take(i + 1) =~= b@.take(i as int).push(b@[i as int]));
        i = i + 1;
    }
    assert(b@.take(b@.len() as int) =~= b@);
    r
}

/// Equality of two character sequences.
pub fn chars_eq(a: &[char], b: &[char]) -> (r: bool)
    ensures
        r == (a@ == b@),
{
    if a.len() != b.len() {
        return false;
    }
    let mut i: usize = 0;
    while i < a.len()
        invariant
            i <= a@.len(),
            a@.len() == b@.len(),
            forall|k: int| 0 <= k < i ==> a@[k] == b@[k],
        decreases a.len() - i,
    {
        if a[i] != b[i] {
            return false;
        }
        i = i + 1;
    }
    assert(a@ =~= b@);
    true
}

/// Equality of two string slices.
pub fn str_eq(a: &str, b: &str) -> (r: bool)
    ensures
        r == (a@ == b@),
{
    let ac = chars_of(a);
    let bc = chars_of(b);
    chars_eq(&ac, &bc)
}

/// Whether `s` begins with `p`.
pub fn starts_with(s: &[char], p: &[char]) -> (r: bool)
    ensures
        r == has_prefix(s@, p@),
{
    if p.len() > s.len() {
        return false;
    }
    let mut i: usize = 0;
    while i < p.len()
        invariant
            i <= p@.len() <= s@.len(),
            forall|k: int| 0 <= k < i ==> s@[k] == p@[k],
        decreases p.len() - i,
    {
        if s[i] != p[i] {
            assert(s@.take(p@.len() as int)[i as int] != p@[i as int]);
            return false;
        }
        i = i + 1;
    }
    assert(s@.take(p@.len() as int) =~= p@);
    true
}

/// Whether `n` occurs in `s` at position `i`.
fn occurs_at(s: &[char], n: &[char], i: usize) -> (r: bool)
    requires
        i + n@.len() <= s@.len(),
    ensures
        r == (s@.subrange(i as int, i + n@.len()) == n@),
{
    let mut k: usize = 0;
    let sl = s.len();
    while k < n.len()
        invariant
            sl == s@.len(),
            k <= n@.len(),
            i + n@.len() <= s@.len(),
            forall|j: int| 0 <= j < k ==> s@[i + j] == n@[j],
        decreases n.len() - k,
    {
        assert(i + k < s@.len());
        let idx: usize = i + k;
        if s[idx] != n[k] {
            assert(s@.subrange(i as int, i + n@.len())[k as int] != n@[k as int]);
            return false;
        }
        k = k + 1;
    }
    assert(s@.subrange(i as int, i + n@.len()) =~= n@);
    true
}

/// Whether `n` occurs anywhere in `s`.
pub fn contains_chars(s: &[char], n: &[char]) -> (r: bool)
    ensures
        r == contains(s@, n@),
{
    if n.len() > s.len() {
        return false;
    }
    let last = s.len() - n.len();
    let mut i: usize = 0;
    while i <= last
        invariant
            last + n@.len() == s@.len(),
            i <= last + 1,
            forall|j: int| 0 <= j < i ==> #[trigger] s@.subrange(j, j + n@.len()) != n@,
        decreases last + 1 - i,
    {
        if occurs_at(s, n, i) {
            return true;
        }
        if i == last {
            return false;
        }
        i = i + 1;
    }
    false
}

/// Whether a character is whitespace (`char::is_whitespace`).
pub fn is_whitespace(c: char) -> (r: bool)
    ensures
        r == is_ws(c),
{
    let u = c as u32;
    u == 0x20 || (0x09 <= u && u <= 0x0d) || u == 0x85 || u == 0xa0 || u == 0x1680 || (0x2000
        <= u && u <= 0x200a) || u == 0x2028 || u == 0x2029 || u == 0x202f || u == 0x205f || u
        == 0x3000
}

/// Bounds `(lo, hi)` such that `s[lo..hi]` is `s` trimmed.
pub fn trim_bounds(s: &[char]) -> (r: (usize, usize))
    ensures
        r.0 <= r.1 <= s@.len(),
        s@.subrange(r.0 as int, r.1 as int) == trim(s@),
{
    let mut lo: usize = 0;
    assert(s@.skip(0) =~= s@);
    while lo < s.len() && is_whitespace(s[lo])
        invariant
            lo <= s@.len(),
            trim_start(s@) == trim_start(s@.skip(lo as int)),
        decreases s.len() - lo,
    {
        assert(s@.skip(lo as int).drop_first() =~= s@.skip(lo + 1));
        lo = lo + 1;
    }
    let ghost t = s@.skip(lo as int);
    assert(trim_start(t) == t);
    let mut hi: usize = s.len();
    while hi > lo && is_whitespace(s[hi - 1])
        invariant
            lo <= hi <= s@.len(),
            t == s@.skip(lo as int),
            trim_end(t) == trim_end(s@.subrange(lo as int, hi as int)),
        decreases hi - lo,
    {
        assert(s@.subrange(lo as int, hi as int).drop_last() =~= s@.subrange(lo as int, hi - 1));
        hi = hi - 1;
    }
    assert(trim_end(s@.subrange(lo as int, hi as int)) == s@.subrange(lo as int, hi as int));
    assert(t =~= s@.subrange(lo as int, s@.len() as int));
    (lo, hi)
}

/// `str::trim` on a character sequence.
pub fn trim_chars(s: &[char]) -> (r: Vec<char>)
    ensures
        r@ == trim(s@),
{
    let (lo, hi) = trim_bounds(s);
    copy_range(s, lo, hi)
}

/// Index of the last occurrence of `c` in `s[..hi]`.
pub fn rfind_char(s: &[char], hi: usize, c: char) -> (r: Option<usize>)
    requires
        hi <= s@.len(),
    ensures
        r matches Some(i) ==> rfind(s@.take(hi as int), c) == Some(i as int),
        r matches Some(i) ==> i < hi && s@[i as int] == c,
        r is None ==> rfind(s@.take(hi as int), c) is None,
{
    let mut j = hi;
    while j > 0
        invariant
            j <= hi <= s@.len(),
            rfind(s@.take(hi as int), c) == rfind(s@.take(j as int), c),
        decreases j,
    {
        if s[j - 1] == c {
            return Some(j - 1);
        }
        assert(s@.take(j as int).drop_last() =~= s@.take(j - 1));
        j = j - 1;
    }
    None
}

/// Index of the first `c` at or after `lo`, or the length when there is none.
pub fn find_from(s: &[char], lo: usize, c: char) -> (r: usize)
    requires
        lo <= s@.len(),
    ensures
        r == lo + find_or_len(s@.skip(lo as int), c),
        lo <= r <= s@.len(),
        r < s@.len() ==> s@[r as int] == c,
{
    let mut q = lo;
    while q < s.len() && s[q] != c
        invariant
            lo <= q <= s@.len(),
            find_or_len(s@.skip(lo as int), c) == (q - lo) + find_or_len(s@.skip(q as int), c),
        decreases s.len() - q,
    {
        assert(s@.skip(q as int).drop_first() =~= s@.skip(q + 1));
        q = q + 1;
    }
    q
}

/// Characters of each line of `s` (`str::lines`).
pub fn split_lines(s: &[char]) -> (r: Vec<Vec<char>>)
    ensures
        r@.len() == lines(s@).len(),
        forall|i: int| 0 <= i < r@.len() ==> #[trigger] r@[i]@ == lines(s@)[i],
{
    let mut r: Vec<Vec<char>> = Vec::new();
    let ghost mut acc: Seq<Seq<char>> = seq![];
    let mut p: usize = 0;
    assert(s@.skip(0) =~= s@);
    assert(acc + lines(s@) =~= lines(s@));
    while p < s.len()
        invariant
            p <= s@.len(),
            acc.len() == r@.len(),
            forall|i: int| 0 <= i < r@.len() ==> #[trigger] r@[i]@ == acc[i],
            lines(s@) == acc + lines(s@.skip(p as int)),
        decreases s.len() - p,
    {
        let k = find_from(s, p, '\n');
        let ghost t = s@.skip(p as int);
        if k < s.len() {
            let mut e = k;
            if e > p && s[e - 1] == '\r' {
                e = e - 1;
            }
            let line = copy_range(s, p, e);
            proof {
                assert(t.take(k - p) =~= s@.subrange(p as int, k as int));
                assert(strip_cr(t.take(k - p)) =~= s@.subrange(p as int, e as int));
                assert(t.skip(k - p + 1) =~= s@.skip(k + 1));
                acc = acc.push(line@);
            }
            r.push(line);
            p = k + 1;
        } else {
            let line = copy_range(s, p, s.len());
            proof {
                assert(t =~= s@.subrange(p as int, s@.len() as int));
                assert(s@.skip(s@.len() as int) =~= Seq::<char>::empty());
                acc = acc.push(line@);
            }
            r.push(line);
            p = s.len();
        }
    }
    assert(s@.skip(p as int) =~= Seq::<char>::empty());
    assert(acc + Seq::<Seq<char>>::empty() =~= acc);
    r
}

/// Decimal rendering of an unsigned integer.
pub fn decimal_string(n: u64) -> (r: String)
    ensures
        r@ == decimal(n as nat),
{
    let mut out: Vec<char> = Vec::new();
    let mut m = n;
    while m >= 10
        invariant
            decimal(n as nat) == decimal(m as nat) + out@,
        decreases m,
    {
        let d = (m % 10) as u8;
        let c = (0x30u8 + d) as char;
        out.insert(0, c);
        m = m / 10;
    }
    let c = (0x30u8 + m as u8) as char;
    out.insert(0, c);
    string_of(&out)
}

/// Decimal rendering of a signed integer.
pub fn signed_decimal_string(v: i64) -> (r: String)
    ensures
        r@ == signed_decimal(v as int),
{
    if v < 0 {
        let mag: u64 = if v == i64::MIN {
            0x8000_0000_0000_0000u64
        } else {
            (-v) as u64
        };
        let digits = decimal_string(mag);
        let mut r = String::new();
        push_char(&mut r, '-');
        let dc = chars_of(digits.as_str());
        let mut i: usize = 0;
        while i < dc.len()
            invariant
                i <= dc@.len(),
                dc@ == decimal(mag as nat),
                r@ == seq!['-'] + dc@.take(i as int),
            decreases dc.len() - i,
        {
            push_char(&mut r, dc[i]);
            assert(dc@.take(i + 1) =~= dc@.take(i as int).push(dc@[i as int]));
            i = i + 1;
        }
        assert(dc@.take(dc@.len() as int) =~= dc@);
        r
    } else {
        decimal_string(v as u64)
    }
}

/// Reads an integer literal. `None` when `s` is no literal, or when its
/// magnitude is beyond 2^64, where it fits no target type here.
pub fn parse_literal(s: &[char], signed: bool) -> (r: Option<i128>)
    ensures
        r matches Some(v) ==> int_literal(s@, signed) == Some(v as int),
        r matches Some(v) ==> -0x1_0000_0000_0000_0000 <= v <= 0x1_0000_0000_0000_0000,
        r is None ==> (int_literal(s@, signed) matches Some(v) ==> (v < -0x1_0000_0000_0000_0000
            || v > 0x1_0000_0000_0000_0000)),
{
    if s.len() == 0 {
        return None;
    }
    if (s[0] == '+' || s[0] == '-') && s.len() == 1 {
        return None;
    }
    let (neg, start): (bool, usize) = if s[0] == '+' {
        (false, 1)
    } else if s[0] == '-' && signed {
        (true, 1)
    } else {
        (false, 0)
    };
    let ghost ds = s@.skip(start as int);
    proof {
        if start == 1 {
            assert(ds =~= s@.drop_first());
        } else {
            assert(ds =~= s@);
        }
    }
    let mut acc: u128 = 0;
    let mut i = start;
    while i < s.len()
        invariant
            start <= i <= s@.len(),
            start <= 1,
            s@.len() > 0,
            !((s@[0] == '+' || s@[0] == '-') && s@.len() == 1),
            start == 1 <==> (s@[0] == '+' || (s@[0] == '-' && signed)),
            neg <==> (s@[0] == '-' && signed),
            ds == s@.skip(start as int),
            all_digits(s@.subrange(start as int, i as int)),
            acc as int == digits_value(s@.subrange(start as int, i as int)),
            acc <= 0x1_0000_0000_0000_0000,
        decreases s.len() - i,
    {
        let c = s[i];
        if !((c as u32) >= 0x30 && (c as u32) <= 0x39) {
            proof {
                assert(ds[i - start] == c);
                assert(!is_digit(c));
                assert(!all_digits(ds));
                if start == 1 {
                    assert(ds =~= s@.drop_first());
                } else {
                    assert(ds =~= s@);
                }
                if s@[0] == '+' {
                    assert(int_literal(s@, signed) is None);
                } else if s@[0] == '-' && signed {
                    assert(int_literal(s@, signed) is None);
                } else {
                    assert(!all_digits(s@));
                    assert(int_literal(s@, signed) is None);
                }
            }
            return None;
        }
        let d = ((c as u32) - 0x30) as u128;
        assert(s@.subrange(start as int, i + 1).drop_last() =~= s@.subrange(start as int, i as int));
        acc = acc * 10 + d;
        i = i + 1;
        assert(s@.subrange(start as int, i as int).last() == c);
        assert(acc as int == digits_value(s@.subrange(start as int, i as int)));
        if acc > 0x1_0000_0000_0000_0000 {
            proof {
                if all_digits(ds) {
                    assert(ds.take(i - start) =~= s@.subrange(start as int, i as int));
                    lemma_digits_prefix_le(ds, i - start);
                }
                if start == 1 {
                    assert(ds =~= s@.drop_first());
                } else {
                    assert(ds =~= s@);
                }
            }
            return None;
        }
    }
    assert(s@.subrange(start as int, s@.len() as int) =~= ds);
    if neg {
        Some(-(acc as i128))
    } else {
        Some(acc as i128)
    }
}

/// `i64::from_str` on a character sequence.
pub fn parse_i64(s: &[char]) -> (r: Option<i64>)
    ensures
        r == parse_i64_spec(s@),
{
    match parse_literal(s, true) {
        Some(v) => {
            if v >= -0x8000_0000_0000_0000i128 && v <= 0x7fff_ffff_ffff_ffffi128 {
                Some(v as i64)
            } else {
                None
            }
        },
        None => None,
    }
}

/// `i32::from_str` on a character sequence.
pub fn parse_i32(s: &[char]) -> (r: Option<i32>)
    ensures
        r == parse_i32_spec(s@),
{
    match parse_literal(s, true) {
        Some(v) => {
            if v >= -0x8000_0000i128 && v <= 0x7fff_ffffi128 {
                Some(v as i32)
            } else {
                None
            }
        },
        None => None,
    }
}

/// `usize::from_str` on a character sequence.
pub fn parse_usize(s: &[char]) -> (r: Option<usize>)
    ensures
        r == parse_usize_spec(s@),
{
    match parse_literal(s, false) {
        Some(v) => {
            if v >= 0 && v <= usize::MAX as i128 {
                Some(v as usize)
            } else {
                None
            }
        },
        None => None,
    }
}

} // verus!
