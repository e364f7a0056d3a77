//! Commit objects: their text format, author lines, time zones, and the hash
//! git gives a commit.
use vstd::prelude::*;
use vstd::utf8::encode_utf8;

use crate::git_parser::hex::{boundary_at, hex_lower, is_boundary};
use crate::git_parser::sha1::{compute_sha1, sha1};
use crate::models::git_object::{AuthorInfo, Commit, ErrorView, GitVizError};
use crate::text::{
    chars_of, copy_range, decimal, decimal_string, from_utf8_lossy, has_prefix, join_lines, lines,
    parse_i32, parse_i32_spec, parse_i64, parse_i64_spec, rfind, rfind_char, signed_decimal,
    signed_decimal_string, split_lines, starts_with, string_of, string_of_range, trim, trim_chars,
    text_of,
};

verus! {

// ---------------------------------------------------------------------------
// Commit hash
// ---------------------------------------------------------------------------

/// ASCII characters as bytes.
pub open spec fn ascii_bytes(cs: Seq<char>) -> Seq<u8> {
    cs.map_values(|c: char| c as u8)
}

/// What git hashes for a commit: `commit <len>\0` followed by the content.
pub open spec fn commit_object_bytes(content: Seq<u8>) -> Seq<u8> {
    seq![0x63u8, 0x6f, 0x6d, 0x6d, 0x69, 0x74, 0x20] + ascii_bytes(decimal(content.len()))
        + seq![0u8] + content
}

/// The hash git gives a commit with this content: 40 lowercase hex digits of
/// the SHA-1 of the object header and content.
pub fn compute_commit_hash(content: &[u8]) -> (r: String)
    requires
        commit_object_bytes(content@).len() < 0x2000_0000_0000_0000,
    ensures
        r@ == hex_lower(sha1(commit_object_bytes(content@))),
{
    let mut data: Vec<u8> = Vec::new();
    data.push(0x63);
    data.push(0x6f);
    data.push(0x6d);
    data.push(0x6d);
    data.push(0x69);
    data.push(0x74);
    data.push(0x20);
    let digits = chars_of(decimal_string(content.len() as u64).as_str());
    proof {
        crate::text::lemma_decimal_len(content@.len());
    }
    let ghost head = data@;
    let mut i: usize = 0;
    while i < digits.len()
        invariant
            i <= digits@.len(),
            digits@ == decimal(content@.len()),
            data@ == head + ascii_bytes(digits@.take(i as int)),
        decreases digits.len() - i,
    {
        data.push(digits[i] as u8);
        assert(ascii_bytes(digits@.take(i + 1)) =~= ascii_bytes(digits@.take(i as int)).push(
            digits@[i as int] as u8,
        ));
        i = i + 1;
    }
    assert(digits@.take(digits@.len() as int) =~= digits@);
    data.push(0);
    let ghost before = data@;
    let mut j: usize = 0;
    while j < content.len()
        invariant
            j <= content@.len(),
            data@ == before + content@.take(j as int),
            before.len() == 7 + digits@.len() + 1,
            digits@.len() <= content@.len() + 1,
            digits@ == decimal(content@.len()),
            commit_object_bytes(content@).len() < 0x2000_0000_0000_0000,
        decreases content.len() - j,
    {
        data.push(content[j]);
        assert(content@.take(j + 1) =~= content@.take(j as int).push(content@[j as int]));
        j = j + 1;
    }
    assert(content@.take(content@.len() as int) =~= content@);
    assert(data@ =~= commit_object_bytes(content@));
    compute_sha1(data.as_slice())
}

// ---------------------------------------------------------------------------
// Time zones
// ---------------------------------------------------------------------------

/// Bytes read as characters, one each.
pub open spec fn bytes_as_chars(b: Seq<u8>) -> Seq<char> {
    b.map_values(|x: u8| x as char)
}

/// What reading a time zone such as `+0800` gives: `None` where slicing the
/// text at bytes 1, 3 and 5 would cut a character, else the offset in
/// minutes or the error.
pub open spec fn timezone_outcome(s: Seq<char>) -> Option<Result<i32, ErrorView>> {
    let b = encode_utf8(s);
    if b.len() < 5 {
        Some(Err(ErrorView::InvalidFormat("invalid timezone: "@ + s)))
    } else if !(boundary_at(b, 1) && boundary_at(b, 3)) {
        None
    } else {
        match parse_i32_spec(bytes_as_chars(b.subrange(1, 3))) {
            None => Some(Err(ErrorView::InvalidFormat("invalid tz hours: "@ + s))),
            Some(h) => if !boundary_at(b, 5) {
                None
            } else {
                match parse_i32_spec(bytes_as_chars(b.subrange(3, 5))) {
                    None => Some(Err(ErrorView::InvalidFormat("invalid tz minutes: "@ + s))),
                    Some(m) => {
                        let sign: int = if b[0] == 0x2d {
                            -1
                        } else {
                            1
                        };
                        Some(Ok((sign * (h * 60 + m)) as i32))
                    },
                }
            },
        }
    }
}

fn byte_chars(b: &[u8], lo: usize, hi: usize) -> (r: Vec<char>)
    requires
        lo <= hi <= b@.len(),
    ensures
        r@ == bytes_as_chars(b@.subrange(lo as int, hi as int)),
{
    let mut r: Vec<char> = Vec::new();
    let mut i = lo;
    while i < hi
        invariant
            lo <= i <= hi <= b@.len(),
            r@ == bytes_as_chars(b@.subrange(lo as int, i as int)),
        decreases hi - i,
    {
        r.push(b[i] as char);
        assert(bytes_as_chars(b@.subrange(lo as int, i + 1)) =~= bytes_as_chars(
            b@.subrange(lo as int, i as int),
        ).push(b@[i as int] as char));
        i = i + 1;
    }
    r
}

/// A time zone offset in minutes east of UTC, from `+hhmm` or `-hhmm`.
pub fn parse_timezone(s: &str) -> (r: Result<i32, GitVizError>)
    requires
        timezone_outcome(s@) is Some,
    ensures
        match (r, timezone_outcome(s@)) {
            (Ok(v), Some(Ok(w))) => v == w,
            (Err(e), Some(Err(f))) => e@ == f,
            _ => false,
        },
{
    let b = s.as_bytes();
    let sc = chars_of(s);
    if b.len() < 5 {
        return Err(GitVizError::InvalidFormat(crate::text::concat("invalid timezone: ", s)));
    }
    let hours_chars = byte_chars(b, 1, 3);
    let hours = match parse_i32(&hours_chars) {
        Some(h) => h,
        None => return Err(GitVizError::InvalidFormat(crate::text::concat("invalid tz hours: ", s))),
    };
    let mins_chars = byte_chars(b, 3, 5);
    let mins = match parse_i32(&mins_chars) {
        Some(m) => m,
        None => return Err(
            GitVizError::InvalidFormat(crate::text::concat("invalid tz minutes: ", s)),
        ),
    };
    proof {
        assert(-99 <= hours <= 99) by {
            assert(parse_i32_spec(bytes_as_chars(b@.subrange(1, 3))) == Some(hours));
            lemma_two_char_literal_bound(bytes_as_chars(b@.subrange(1, 3)));
        }
        assert(-99 <= mins <= 99) by {
            lemma_two_char_literal_bound(bytes_as_chars(b@.subrange(3, 5)));
        }
    }
    let sign: i32 = if b[0] == 0x2d {
        -1
    } else {
        1
    };
    Ok(sign * (hours * 60 + mins))
}

/// A two-character literal is at most 99 in magnitude.
proof fn lemma_two_char_literal_bound(s: Seq<char>)
    requires
        s.len() == 2,
    ensures
        parse_i32_spec(s) matches Some(v) ==> -99 <= v <= 99,
{
    reveal_with_fuel(crate::text::digits_value, 3);
    assert(s.drop_first().drop_last() =~= Seq::<char>::empty());
    assert(s.drop_last().drop_last() =~= Seq::<char>::empty());
}

// ---------------------------------------------------------------------------
// Author lines
// ---------------------------------------------------------------------------

/// Whether chrono's `DateTime::from_timestamp(secs, 0)` accepts `secs`: the
/// day it falls on lies between January 1 of year -262143 and December 31
/// of year 262142 (chrono's `NaiveDate::MIN` and `NaiveDate::MAX`).
pub open spec fn chrono_accepts_timestamp(secs: i64) -> bool {
    -8_334_601_228_800 <= secs <= 8_210_266_876_799
}

/// `chrono::DateTime::from_timestamp(secs, 0).is_some()`. Its source turns
/// `secs` into a day number and a second of the day, and accepts the
/// timestamp exactly when that day's year lies within chrono's year range,
/// -262143 to 262142; it cannot panic.
#[verifier::external_body]
fn timestamp_in_range(secs: i64) -> (r: bool)
    ensures
        r == chrono_accepts_timestamp(secs),
{
    chrono::DateTime::from_timestamp(secs, 0).is_some()
}

/// Whether a timestamp is one a date can have (one the author lines of a
/// parsed commit always have).
pub fn timestamp_accepted(secs: i64) -> (r: bool)
    ensures
        r == chrono_accepts_timestamp(secs),
        -0x100_0000_0000 <= secs <= 0x100_0000_0000 ==> r,
        r ==> -0x800_0000_0000 <= secs <= 0x800_0000_0000,
{
    timestamp_in_range(secs)
}

/// The fields of an author or committer line.
pub struct AuthorSpec {
    pub name: Seq<char>,
    pub email: Seq<char>,
    pub timestamp: i64,
    pub timezone_offset: i32,
}

impl View for AuthorInfo {
    type V = AuthorSpec;

    open spec fn view(&self) -> AuthorSpec {
        AuthorSpec {
            name: self.name@,
            email: self.email@,
            timestamp: self.timestamp,
            timezone_offset: self.timezone_offset,
        }
    }
}

/// What reading `Name <email> timestamp zone` gives: `None` where the text has
/// its last `>` before its last `<` (slicing there panics), else the fields
/// or the error.
pub open spec fn author_outcome(s0: Seq<char>) -> Option<Result<AuthorSpec, ErrorView>> {
    let s = trim(s0);
    match rfind(s, ' ') {
        None => Some(Err(ErrorView::InvalidFormat("cannot parse author info: "@ + s))),
        Some(i) => {
            let tz = s.skip(i + 1);
            let before = s.take(i);
            match rfind(before, ' ') {
                None => Some(Err(ErrorView::InvalidFormat("cannot parse author timestamp: "@ + s))),
                Some(j) => {
                    let ts = before.skip(j + 1);
                    let ne = before.take(j);
                    match (rfind(ne, '<'), rfind(ne, '>')) {
                        (Some(es), Some(ee)) => if ee < es + 1 {
                            None
                        } else {
                            let name = trim(ne.take(es));
                            let email = ne.subrange(es + 1, ee);
                            match parse_i64_spec(ts) {
                                None => Some(
                                    Err(ErrorView::InvalidFormat("invalid timestamp: "@ + ts)),
                                ),
                                Some(t) => match timezone_outcome(tz) {
                                    None => None,
                                    Some(Err(e)) => Some(Err(e)),
                                    Some(Ok(z)) => if chrono_accepts_timestamp(t) {
                                        Some(
                                            Ok(
                                                AuthorSpec {
                                                    name,
                                                    email,
                                                    timestamp: t,
                                                    timezone_offset: z,
                                                },
                                            ),
                                        )
                                    } else {
                                        Some(
                                            Err(
                                                ErrorView::Parse(
                                                    "invalid timestamp: "@ + signed_decimal(t as int),
                                                ),
                                            ),
                                        )
                                    },
                                },
                            }
                        },
                        _ => Some(Err(ErrorView::InvalidFormat("cannot parse email: "@ + ne))),
                    }
                },
            }
        },
    }
}

/// Reads an author or committer line after its keyword:
/// `Name <email> timestamp zone`.
pub fn parse_author_info(s: &str) -> (r: Result<AuthorInfo, GitVizError>)
    requires
        author_outcome(s@) is Some,
    ensures
        match (r, author_outcome(s@)) {
            (Ok(a), Some(Ok(b))) => a@ == b,
            (Err(e), Some(Err(f))) => e@ == f,
            _ => false,
        },
{
    let raw = chars_of(s);
    let sv = trim_chars(&raw);
    let ghost sg = sv@;
    assert(sv@.take(sv@.len() as int) =~= sv@);
    let i = match rfind_char(&sv, sv.len(), ' ') {
        Some(i) => i,
        None => {
            let m = crate::text::concat("cannot parse author info: ", string_of(&sv).as_str());
            return Err(GitVizError::InvalidFormat(m));
        },
    };
    let j = match rfind_char(&sv, i, ' ') {
        Some(j) => j,
        None => {
            let m = crate::text::concat("cannot parse author timestamp: ", string_of(&sv).as_str());
            return Err(GitVizError::InvalidFormat(m));
        },
    };
    let ghost before = sv@.take(i as int);
    assert(before.take(j as int) =~= sv@.take(j as int));
    let es = rfind_char(&sv, j, '<');
    let ee = rfind_char(&sv, j, '>');
    let (es, ee) = match (es, ee) {
        (Some(a), Some(b)) => (a, b),
        _ => {
            let m = crate::text::concat("cannot parse email: ", string_of_range(&sv, 0, j).as_str());
            assert(sv@.subrange(0, j as int) =~= before.take(j as int));
            return Err(GitVizError::InvalidFormat(m));
        },
    };
    let ghost ne = before.take(j as int);
    let name_raw = copy_range(&sv, 0, es);
    assert(name_raw@ =~= ne.take(es as int));
    let name = string_of(&trim_chars(&name_raw));
    let email = string_of_range(&sv, es + 1, ee);
    assert(email@ =~= ne.subrange(es + 1, ee as int));
    let ts = copy_range(&sv, j + 1, i);
    assert(ts@ =~= before.skip(j + 1));
    let timestamp = match parse_i64(&ts) {
        Some(t) => t,
        None => {
            let m = crate::text::concat("invalid timestamp: ", string_of(&ts).as_str());
            return Err(GitVizError::InvalidFormat(m));
        },
    };
    let tz = string_of_range(&sv, i + 1, sv.len());
    assert(tz@ =~= sg.skip(i + 1));
    let timezone_offset = match parse_timezone(tz.as_str()) {
        Ok(z) => z,
        Err(e) => return Err(e),
    };
    if !timestamp_in_range(timestamp) {
        let m = crate::text::concat("invalid timestamp: ", signed_decimal_string(timestamp).as_str());
        return Err(GitVizError::Parse(m));
    }
    Ok(AuthorInfo { name, email, timestamp, timezone_offset })
}

// ---------------------------------------------------------------------------
// Commits
// ---------------------------------------------------------------------------

/// The fields of a commit.
pub struct CommitSpec {
    pub hash: Seq<char>,
    pub tree_hash: Seq<char>,
    pub parent_hashes: Seq<Seq<char>>,
    pub author: AuthorSpec,
    pub committer: AuthorSpec,
    pub message: Seq<char>,
}

impl View for Commit {
    type V = CommitSpec;

    open spec fn view(&self) -> CommitSpec {
        CommitSpec {
            hash: self.hash@,
            tree_hash: self.tree_hash@,
            parent_hashes: self.parent_hashes@.map_values(|h: String| h@),
            author: self.author@,
            committer: self.committer@,
            message: self.message@,
        }
    }
}

/// What has been gathered after some lines of a commit.
pub struct ScanState {
    pub tree: Seq<char>,
    pub parents: Seq<Seq<char>>,
    pub author: Option<AuthorSpec>,
    pub committer: Option<AuthorSpec>,
    pub message: Seq<Seq<char>>,
    pub in_message: bool,
}

pub open spec fn initial_scan() -> ScanState {
    ScanState {
        tree: seq![],
        parents: seq![],
        author: None,
        committer: None,
        message: seq![],
        in_message: false,
    }
}

/// One line of a commit: header lines up to the first empty line, message
/// lines after it. `None` where reading an author line panics.
pub open spec fn scan_line(st: ScanState, line: Seq<char>) -> Option<Result<ScanState, ErrorView>> {
    if st.in_message {
        Some(Ok(ScanState { message: st.message.push(line), ..st }))
    } else if line.len() == 0 {
        Some(Ok(ScanState { in_message: true, ..st }))
    } else if has_prefix(line, "tree "@) {
        Some(Ok(ScanState { tree: line.skip("tree "@.len() as int), ..st }))
    } else if has_prefix(line, "parent "@) {
        Some(Ok(ScanState { parents: st.parents.push(line.skip("parent "@.len() as int)), ..st }))
    } else if has_prefix(line, "author "@) {
        match author_outcome(line.skip("author "@.len() as int)) {
            None => None,
            Some(Err(e)) => Some(Err(e)),
            Some(Ok(a)) => Some(Ok(ScanState { author: Some(a), ..st })),
        }
    } else if has_prefix(line, "committer "@) {
        match author_outcome(line.skip("committer "@.len() as int)) {
            None => None,
            Some(Err(e)) => Some(Err(e)),
            Some(Ok(a)) => Some(Ok(ScanState { committer: Some(a), ..st })),
        }
    } else {
        Some(Ok(st))
    }
}

/// Lines `i..` read in order, stopping at the first error.
pub open spec fn scan_lines(ls: Seq<Seq<char>>, i: int, st: ScanState) -> Option<
    Result<ScanState, ErrorView>,
>
    decreases ls.len() - i,
{
    if i < 0 || i >= ls.len() {
        Some(Ok(st))
    } else {
        match scan_line(st, ls[i]) {
            Some(Ok(next)) => scan_lines(ls, i + 1, next),
            other => other,
        }
    }
}

/// What parsing a commit object's content gives: `None` where reading an
/// author line panics, else the commit or the error.
pub open spec fn commit_outcome(content: Seq<u8>, hash: Seq<char>) -> Option<
    Result<CommitSpec, ErrorView>,
> {
    match scan_lines(lines(text_of(content)), 0, initial_scan()) {
        None => None,
        Some(Err(e)) => Some(Err(e)),
        Some(Ok(st)) => match (st.author, st.committer) {
            (None, _) => Some(Err(ErrorView::InvalidFormat("missing author"@))),
            (Some(_), None) => Some(Err(ErrorView::InvalidFormat("missing committer"@))),
            (Some(a), Some(c)) => Some(
                Ok(
                    CommitSpec {
                        hash,
                        tree_hash: st.tree,
                        parent_hashes: st.parents,
                        author: a,
                        committer: c,
                        message: trim(join_lines(st.message)),
                    },
                ),
            ),
        },
    }
}

/// Whether line `j` still belongs to the header that line `t` is in: no
/// empty line comes after `t` up to and including `j`.
pub open spec fn header_continues(ls: Seq<Seq<char>>, t: int, j: int) -> bool {
    forall|k: int| t < k <= j ==> (#[trigger] ls[k]).len() > 0
}

proof fn lemma_scan_keeps_tree(ls: Seq<Seq<char>>, i: int, st: ScanState, t: int)
    requires
        t < i,
        !st.in_message ==> header_continues(ls, t, i - 1),
        forall|j: int| t < j < ls.len() && header_continues(ls, t, j) ==> !has_prefix(#[trigger] ls[j], "tree "@),
    ensures
        scan_lines(ls, i, st) matches Some(Ok(fin)) ==> fin.tree == st.tree,
    decreases ls.len() - i,
{
    if 0 <= i < ls.len() {
        let line = ls[i];
        match scan_line(st, line) {
            Some(Ok(next)) => {
                if !st.in_message && line.len() > 0 {
                    assert(header_continues(ls, t, i)) by {
                        assert forall|k: int| t < k <= i implies (#[trigger] ls[k]).len() > 0 by {
                            if k < i {
                                assert(header_continues(ls, t, i - 1));
                            }
                        }
                    }
                    assert(!has_prefix(ls[i], "tree "@));
                }
                assert(next.tree == st.tree);
                if !next.in_message {
                    assert(!st.in_message && line.len() > 0);
                    assert forall|k: int| t < k <= i implies (#[trigger] ls[k]).len() > 0 by {
                        if k < i {
                            assert(header_continues(ls, t, i - 1));
                        }
                    }
                }
                lemma_scan_keeps_tree(ls, i + 1, next, t);
            },
            _ => {},
        }
    }
}

proof fn lemma_scan_reaches_tree(ls: Seq<Seq<char>>, i: int, st: ScanState, t: int, x: Seq<char>)
    requires
        0 <= i <= t < ls.len(),
        !st.in_message,
        ls[t] == "tree "@ + x,
        forall|k: int| i <= k < t ==> (#[trigger] ls[k]).len() > 0,
        forall|j: int| t < j < ls.len() && header_continues(ls, t, j) ==> !has_prefix(#[trigger] ls[j], "tree "@),
    ensures
        scan_lines(ls, i, st) matches Some(Ok(fin)) ==> fin.tree == x,
    decreases t - i,
{
    let line = ls[i];
    if i < t {
        assert(line.len() > 0);
        match scan_line(st, line) {
            Some(Ok(next)) => {
                lemma_scan_reaches_tree(ls, i + 1, next, t, x);
            },
            _ => {},
        }
    } else {
        reveal_strlit("tree ");
        assert(has_prefix(line, "tree "@)) by {
            assert(line.take(5) =~= "tree "@);
        }
        assert(line.skip(5) =~= x);
        let next = ScanState { tree: x, ..st };
        assert(scan_line(st, line) == Some(Ok::<ScanState, ErrorView>(next)));
        lemma_scan_keeps_tree(ls, i + 1, next, t);
    }
}

/// The tree a commit names is the text after `tree ` on its header's tree
/// line: where line `t` of the header (no empty line before it) reads
/// `tree x` and no later header line starts with `tree `, a parsed commit
/// has `x` as its tree hash.
pub proof fn law_commit_tree_line(content: Seq<u8>, hash: Seq<char>, t: int, x: Seq<char>)
    requires
        0 <= t < lines(text_of(content)).len(),
        lines(text_of(content))[t] == "tree "@ + x,
        forall|k: int| 0 <= k < t ==> (#[trigger] lines(text_of(content))[k]).len() > 0,
        forall|j: int|
            t < j < lines(text_of(content)).len() && header_continues(lines(text_of(content)), t, j) ==> !has_prefix(
                #[trigger] lines(text_of(content))[j],
                "tree "@,
            ),
    ensures
        commit_outcome(content, hash) matches Some(Ok(c)) ==> c.tree_hash == x,
{
    lemma_scan_reaches_tree(lines(text_of(content)), 0, initial_scan(), t, x);
}

/// The scan state the variables of `parse_commit` stand for.
pub open spec fn scan_view(
    tree: &Vec<char>,
    parents: &Vec<String>,
    author: &Option<AuthorInfo>,
    committer: &Option<AuthorInfo>,
    message: &Vec<Vec<char>>,
    in_message: bool,
) -> ScanState {
    ScanState {
        tree: tree@,
        parents: parents@.map_values(|h: String| h@),
        author: match author {
            Some(a) => Some(a@),
            None => None,
        },
        committer: match committer {
            Some(a) => Some(a@),
            None => None,
        },
        message: message@.map_values(|l: Vec<char>| l@),
        in_message,
    }
}

/// Lines joined with `\n`.
fn join_line_chars(ls: &Vec<Vec<char>>) -> (r: Vec<char>)
    ensures
        r@ == join_lines(ls@.map_values(|l: Vec<char>| l@)),
{
    let ghost lv = ls@.map_values(|l: Vec<char>| l@);
    let mut out: Vec<char> = Vec::new();
    let mut i: usize = 0;
    while i < ls.len()
        invariant
            i <= ls@.len(),
            lv == ls@.map_values(|l: Vec<char>| l@),
            out@ == join_lines(lv.take(i as int)),
        decreases ls.len() - i,
    {
        let ghost before = out@;
        if i > 0 {
            out.push('\n');
        }
        let line = &ls[i];
        let mut k: usize = 0;
        let ghost mid = out@;
        while k < line.len()
            invariant
                k <= line@.len(),
                out@ == mid + line@.take(k as int),
            decreases line.len() - k,
        {
            out.push(line[k]);
            assert(line@.take(k + 1) =~= line@.take(k as int).push(line@[k as int]));
            k = k + 1;
        }
        proof {
            assert(line@.take(line@.len() as int) =~= line@);
            assert(lv.take(i + 1).drop_last() =~= lv.take(i as int));
            if i == 0 {
                assert(mid =~= Seq::<char>::empty());
                assert(out@ =~= line@);
            } else {
                assert(out@ =~= before + seq!['\n'] + lv[i as int]);
            }
        }
        i = i + 1;
    }
    assert(lv.take(ls@.len() as int) =~= lv);
    out
}

/// Reads a commit object's content: header lines (`tree`, `parent`, `author`,
/// `committer`), an empty line, then the message, which is trimmed. A commit
/// without an author or committer line is refused.
pub fn parse_commit(content: &[u8], hash: &str) -> (r: Result<Commit, GitVizError>)
    requires
        commit_outcome(content@, hash@) is Some,
    ensures
        match (r, commit_outcome(content@, hash@)) {
            (Ok(c), Some(Ok(d))) => c@ == d,
            (Err(e), Some(Err(f))) => e@ == f,
            _ => false,
        },
{
    let text = from_utf8_lossy(content);
    let tc = chars_of(text.as_str());
    let ls = split_lines(&tc);
    let ghost lv = lines(text_of(content@));
    let tree_p = chars_of("tree ");
    let parent_p = chars_of("parent ");
    let author_p = chars_of("author ");
    let committer_p = chars_of("committer ");
    let mut tree: Vec<char> = Vec::new();
    let mut parents: Vec<String> = Vec::new();
    let mut author: Option<AuthorInfo> = None;
    let mut committer: Option<AuthorInfo> = None;
    let mut message: Vec<Vec<char>> = Vec::new();
    let mut in_message = false;
    let mut i: usize = 0;
    proof {
        assert(tree@ =~= Seq::<char>::empty());
        assert(parents@.map_values(|h: String| h@) =~= Seq::<Seq<char>>::empty());
        assert(message@.map_values(|l: Vec<char>| l@) =~= Seq::<Seq<char>>::empty());
        assert(lv == lines(tc@));
    }
    while i < ls.len()
        invariant
            i <= ls@.len(),
            lv == lines(text_of(content@)),
            ls@.len() == lv.len(),
            forall|k: int| 0 <= k < ls@.len() ==> #[trigger] ls@[k]@ == lv[k],
            tree_p@ == "tree "@,
            parent_p@ == "parent "@,
            author_p@ == "author "@,
            committer_p@ == "committer "@,
            scan_lines(lv, 0, initial_scan()) == scan_lines(
                lv,
                i as int,
                scan_view(&tree, &parents, &author, &committer, &message, in_message),
            ),
            scan_lines(lv, 0, initial_scan()) is Some,
        decreases ls.len() - i,
    {
        let line = &ls[i];
        let ghost st = scan_view(&tree, &parents, &author, &committer, &message, in_message);
        assert(line@ == lv[i as int]);
        if in_message {
            let ghost mv = message@.map_values(|l: Vec<char>| l@);
            message.push(line.clone());
            proof {
                assert(message@.map_values(|l: Vec<char>| l@) =~= mv.push(line@));
            }
        } else if line.len() == 0 {
            in_message = true;
        } else if starts_with(line, &tree_p) {
            tree = copy_range(line, tree_p.len(), line.len());
            assert(tree@ =~= line@.skip("tree "@.len() as int));
        } else if starts_with(line, &parent_p) {
            let p = string_of_range(line, parent_p.len(), line.len());
            let ghost pv = parents@.map_values(|h: String| h@);
            parents.push(p);
            assert(parents@.map_values(|h: String| h@) =~= pv.push(
                line@.skip("parent "@.len() as int),
            ));
        } else if starts_with(line, &author_p) {
            let rest = string_of_range(line, author_p.len(), line.len());
            assert(rest@ =~= line@.skip("author "@.len() as int));
            match parse_author_info(rest.as_str()) {
                Ok(a) => author = Some(a),
                Err(e) => {
                    assert(scan_lines(lv, i as int, st) == Some(Err::<ScanState, ErrorView>(e@)));
                    assert(scan_lines(lv, 0, initial_scan()) == Some(Err::<ScanState, ErrorView>(e@)));
                    assert(commit_outcome(content@, hash@) == Some(Err::<CommitSpec, ErrorView>(e@)));
                    return Err(e);
                },
            }
        } else if starts_with(line, &committer_p) {
            let rest = string_of_range(line, committer_p.len(), line.len());
            assert(rest@ =~= line@.skip("committer "@.len() as int));
            match parse_author_info(rest.as_str()) {
                Ok(a) => committer = Some(a),
                Err(e) => {
                    assert(scan_lines(lv, i as int, st) == Some(Err::<ScanState, ErrorView>(e@)));
                    assert(scan_lines(lv, 0, initial_scan()) == Some(Err::<ScanState, ErrorView>(e@)));
                    assert(commit_outcome(content@, hash@) == Some(Err::<CommitSpec, ErrorView>(e@)));
                    return Err(e);
                },
            }
        }
        assert(scan_line(st, lv[i as int]) == Some(
            Ok::<ScanState, ErrorView>(
                scan_view(&tree, &parents, &author, &committer, &message, in_message),
            ),
        ));
        i = i + 1;
    }
    let author = match author {
        Some(a) => a,
        None => return Err(GitVizError::InvalidFormat(string_of(&chars_of("missing author")))),
    };
    let committer = match committer {
        Some(a) => a,
        None => return Err(GitVizError::InvalidFormat(string_of(&chars_of("missing committer")))),
    };
    let joined = join_line_chars(&message);
    let msg = string_of(&trim_chars(&joined));
    Ok(
        Commit {
            hash: string_of(&chars_of(hash)),
            tree_hash: string_of(&tree),
            parent_hashes: parents,
            author,
            committer,
            message: msg,
        },
    )
}

// ---------------------------------------------------------------------------
// Where reading panics
// ---------------------------------------------------------------------------

/// Whether reading `s` as a time zone gives an offset or an error rather
/// than a panic.
pub fn timezone_defined(s: &str) -> (r: bool)
    ensures
        r == timezone_outcome(s@) is Some,
{
    let b = s.as_bytes();
    if b.len() < 5 {
        return true;
    }
    if !(is_boundary(b, 1) && is_boundary(b, 3)) {
        return false;
    }
    let hours_chars = byte_chars(b, 1, 3);
    match parse_i32(&hours_chars) {
        None => true,
        Some(_) => is_boundary(b, 5),
    }
}

/// Whether reading `s` as an author line gives the fields or an error
/// rather than a panic.
pub fn author_defined(s: &str) -> (r: bool)
    ensures
        r == author_outcome(s@) is Some,
{
    let raw = chars_of(s);
    let sv = trim_chars(&raw);
    let ghost sg = sv@;
    assert(sv@.take(sv@.len() as int) =~= sv@);
    let i = match rfind_char(&sv, sv.len(), ' ') {
        Some(i) => i,
        None => return true,
    };
    let j = match rfind_char(&sv, i, ' ') {
        Some(j) => j,
        None => return true,
    };
    let ghost before = sv@.take(i as int);
    assert(before.take(j as int) =~= sv@.take(j as int));
    let es = rfind_char(&sv, j, '<');
    let ee = rfind_char(&sv, j, '>');
    let (es, ee) = match (es, ee) {
        (Some(a), Some(b)) => (a, b),
        _ => return true,
    };
    if ee < es + 1 {
        return false;
    }
    let ts = copy_range(&sv, j + 1, i);
    assert(ts@ =~= before.skip(j + 1));
    match parse_i64(&ts) {
        None => true,
        Some(_) => {
            let tz = string_of_range(&sv, i + 1, sv.len());
            assert(tz@ =~= sg.skip(i + 1));
            timezone_defined(tz.as_str())
        },
    }
}

/// Whether the header lines from `i` on read without a panic: up to the
/// first empty line, every author or committer line either reads or fails
/// with an error (which ends the reading).
pub open spec fn header_defined(ls: Seq<Seq<char>>, i: int) -> bool
    decreases ls.len() - i,
{
    if i < 0 || i >= ls.len() || ls[i].len() == 0 {
        true
    } else if has_prefix(ls[i], "tree "@) || has_prefix(ls[i], "parent "@) {
        header_defined(ls, i + 1)
    } else {
        let who = if has_prefix(ls[i], "author "@) {
            Some(ls[i].skip("author "@.len() as int))
        } else if has_prefix(ls[i], "committer "@) {
            Some(ls[i].skip("committer "@.len() as int))
        } else {
            None
        };
        match who {
            Some(rest) => match author_outcome(rest) {
                None => false,
                Some(Err(_)) => true,
                Some(Ok(_)) => header_defined(ls, i + 1),
            },
            None => header_defined(ls, i + 1),
        }
    }
}

proof fn lemma_scan_message(ls: Seq<Seq<char>>, i: int, st: ScanState)
    requires
        st.in_message,
    ensures
        scan_lines(ls, i, st) is Some,
    decreases ls.len() - i,
{
    if 0 <= i < ls.len() {
        lemma_scan_message(ls, i + 1, ScanState { message: st.message.push(ls[i]), ..st });
    }
}

proof fn lemma_scan_defined(ls: Seq<Seq<char>>, i: int, st: ScanState)
    requires
        !st.in_message,
        i >= 0,
    ensures
        (scan_lines(ls, i, st) is Some) == header_defined(ls, i),
    decreases ls.len() - i,
{
    if i < ls.len() {
        let line = ls[i];
        if line.len() == 0 {
            lemma_scan_message(ls, i + 1, ScanState { in_message: true, ..st });
        } else if has_prefix(line, "tree "@) {
            lemma_scan_defined(ls, i + 1, ScanState { tree: line.skip("tree "@.len() as int), ..st });
        } else if has_prefix(line, "parent "@) {
            lemma_scan_defined(ls, i + 1, ScanState { parents: st.parents.push(line.skip("parent "@.len() as int)), ..st });
        } else if has_prefix(line, "author "@) {
            if let Some(Ok(a)) = author_outcome(line.skip("author "@.len() as int)) {
                lemma_scan_defined(ls, i + 1, ScanState { author: Some(a), ..st });
            }
        } else if has_prefix(line, "committer "@) {
            if let Some(Ok(a)) = author_outcome(line.skip("committer "@.len() as int)) {
                lemma_scan_defined(ls, i + 1, ScanState { committer: Some(a), ..st });
            }
        } else {
            lemma_scan_defined(ls, i + 1, st);
        }
    }
}

/// Whether reading `content` as a commit gives the commit or an error
/// rather than a panic (an author or committer line whose `>` comes before
/// its `<`, or whose time zone cannot be sliced, panics).
pub fn commit_defined(content: &[u8], hash: &str) -> (r: bool)
    ensures
        r == commit_outcome(content@, hash@) is Some,
{
    let text = from_utf8_lossy(content);
    let tc = chars_of(text.as_str());
    let ls = split_lines(&tc);
    let ghost lv = lines(text_of(content@));
    proof {
        assert(lv == lines(tc@));
        lemma_scan_defined(lv, 0, initial_scan());
    }
    let tree_p = chars_of("tree ");
    let parent_p = chars_of("parent ");
    let author_p = chars_of("author ");
    let committer_p = chars_of("committer ");
    let mut i: usize = 0;
    while i < ls.len()
        invariant
            i <= ls@.len(),
            ls@.len() == lv.len(),
            forall|k: int| 0 <= k < ls@.len() ==> #[trigger] ls@[k]@ == lv[k],
            (commit_outcome(content@, hash@) is Some) == header_defined(lv, 0),
            tree_p@ == "tree "@,
            parent_p@ == "parent "@,
            author_p@ == "author "@,
            committer_p@ == "committer "@,
            header_defined(lv, 0) == header_defined(lv, i as int),
        decreases ls.len() - i,
    {
        let line = &ls[i];
        assert(line@ == lv[i as int]);
        if line.len() == 0 {
            return true;
        }
        let who = if starts_with(line, &tree_p) || starts_with(line, &parent_p) {
            None
        } else if starts_with(line, &author_p) {
            let rest = string_of_range(line, author_p.len(), line.len());
            assert(rest@ =~= line@.skip("author "@.len() as int));
            Some(rest)
        } else if starts_with(line, &committer_p) {
            let rest = string_of_range(line, committer_p.len(), line.len());
            assert(rest@ =~= line@.skip("committer "@.len() as int));
            Some(rest)
        } else {
            None
        };
        match who {
            Some(rest) => {
                if !author_defined(rest.as_str()) {
                    return false;
                }
                if parse_author_info(rest.as_str()).is_err() {
                    return true;
                }
            },
            None => {},
        }
        i = i + 1;
    }
    true
}

} // verus!
