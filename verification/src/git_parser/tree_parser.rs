//! Tree objects, and the language a file name suggests.
use vstd::prelude::*;

use crate::git_parser::hex::{encode_lower, hex_lower};
use crate::models::git_object::{ErrorView, GitVizError, Tree, TreeEntry, TreeEntryType};
use crate::text::{chars_of, from_utf8_lossy, rfind, rfind_char, str_eq, string_of, string_of_range, text_of};

verus! {

/// Offset of the first byte `b` in `s`, or the length when there is none.
pub open spec fn find_byte(s: Seq<u8>, b: u8) -> nat
    decreases s.len(),
{
    if s.len() == 0 || s[0] == b {
        0
    } else {
        1 + find_byte(s.drop_first(), b)
    }
}

/// The fields of a tree entry.
pub struct TreeEntrySpec {
    pub mode: Seq<char>,
    pub name: Seq<char>,
    pub hash: Seq<char>,
    pub entry_type: TreeEntryType,
}

impl View for TreeEntry {
    type V = TreeEntrySpec;

    open spec fn view(&self) -> TreeEntrySpec {
        TreeEntrySpec {
            mode: self.mode@,
            name: self.name@,
            hash: self.hash@,
            entry_type: self.entry_type,
        }
    }
}

/// The fields of a tree.
pub struct TreeSpec {
    pub hash: Seq<char>,
    pub entries: Seq<TreeEntrySpec>,
}

impl View for Tree {
    type V = TreeSpec;

    open spec fn view(&self) -> TreeSpec {
        TreeSpec { hash: self.hash@, entries: self.entries@.map_values(|e: TreeEntry| e@) }
    }
}

/// The kind of entry a mode denotes: directories `40000`/`040000`,
/// submodules `160000`, anything else a file.
pub open spec fn entry_type_of_mode(mode: Seq<char>) -> TreeEntryType {
    if mode == "40000"@ || mode == "040000"@ {
        TreeEntryType::Tree
    } else if mode == "160000"@ {
        TreeEntryType::Commit
    } else {
        TreeEntryType::Blob
    }
}

/// The entry whose mode spans `c[pos..sp]` and name `c[sp + 1..np]`, with
/// the 20 hash bytes after `np`.
pub open spec fn entry_at(c: Seq<u8>, pos: int, sp: int, np: int) -> TreeEntrySpec {
    let mode = text_of(c.subrange(pos, sp));
    TreeEntrySpec {
        mode,
        name: text_of(c.subrange(sp + 1, np)),
        hash: hex_lower(c.subrange(np + 1, np + 21)),
        entry_type: entry_type_of_mode(mode),
    }
}

/// The entries from offset `pos` on: each is `<mode> <name>\0` and 20 hash
/// bytes. `None` where reading slices past the end, which panics (a hash of
/// exactly 19 bytes), else the entries or the error.
pub open spec fn entries_from(c: Seq<u8>, pos: int) -> Option<Result<Seq<TreeEntrySpec>, ErrorView>>
    decreases c.len() - pos,
{
    if pos < 0 || pos >= c.len() {
        Some(Ok(seq![]))
    } else {
        let sp = pos + find_byte(c.skip(pos), 0x20);
        if sp >= c.len() {
            Some(Err(ErrorView::InvalidFormat("missing space in tree entry"@)))
        } else {
            let np = sp + 1 + find_byte(c.skip(sp + 1), 0);
            if np >= c.len() {
                Some(Err(ErrorView::InvalidFormat("missing null in tree entry"@)))
            } else if np + 20 > c.len() {
                Some(Err(ErrorView::InvalidFormat("truncated hash in tree entry"@)))
            } else if np + 21 > c.len() {
                None
            } else {
                match entries_from(c, np + 21) {
                    Some(Ok(rest)) => Some(Ok(seq![entry_at(c, pos, sp, np)] + rest)),
                    other => other,
                }
            }
        }
    }
}

/// `acc` in front of the entries of an outcome.
pub open spec fn prepend(acc: Seq<TreeEntrySpec>, r: Option<Result<Seq<TreeEntrySpec>, ErrorView>>) -> Option<Result<Seq<TreeEntrySpec>, ErrorView>> {
    match r {
        Some(Ok(rest)) => Some(Ok(acc + rest)),
        other => other,
    }
}

fn find_byte_from(s: &[u8], lo: usize, b: u8) -> (r: usize)
    requires
        lo <= s@.len(),
    ensures
        r == lo + find_byte(s@.skip(lo as int), b),
        lo <= r <= s@.len(),
{
    let mut q = lo;
    while q < s.len() && s[q] != b
        invariant
            lo <= q <= s@.len(),
            find_byte(s@.skip(lo as int), b) == (q - lo) + find_byte(s@.skip(q as int), b),
        decreases s.len() - q,
    {
        assert(s@.skip(q as int).drop_first() =~= s@.skip(q + 1));
        q = q + 1;
    }
    q
}

fn entry_type_for(mode: &str) -> (r: TreeEntryType)
    ensures
        r == entry_type_of_mode(mode@),
{
    if str_eq(mode, "40000") || str_eq(mode, "040000") {
        TreeEntryType::Tree
    } else if str_eq(mode, "160000") {
        TreeEntryType::Commit
    } else {
        TreeEntryType::Blob
    }
}

/// Reads a tree object's content into its entries, in order.
pub fn parse_tree(content: &[u8], hash: &str) -> (r: Result<Tree, GitVizError>)
    requires
        entries_from(content@, 0) is Some,
    ensures
        match (r, entries_from(content@, 0)) {
            (Ok(t), Some(Ok(es))) => t@ == (TreeSpec { hash: hash@, entries: es }),
            (Err(e), Some(Err(f))) => e@ == f,
            _ => false,
        },
{
    let mut entries: Vec<TreeEntry> = Vec::new();
    let mut pos: usize = 0;
    let len = content.len();
    while pos < len
        invariant
            pos <= len,
            len == content@.len(),
            entries_from(content@, 0) == prepend(entries@.map_values(|e: TreeEntry| e@), entries_from(content@, pos as int)),
            entries_from(content@, 0) is Some,
        decreases len - pos,
    {
        let ghost acc = entries@.map_values(|e: TreeEntry| e@);
        let sp = find_byte_from(content, pos, 0x20);
        if sp >= len {
            return Err(GitVizError::InvalidFormat(string_of(&chars_of("missing space in tree entry"))));
        }
        let np = find_byte_from(content, sp + 1, 0);
        if np >= len {
            return Err(GitVizError::InvalidFormat(string_of(&chars_of("missing null in tree entry"))));
        }
        if len - np < 20 {
            return Err(GitVizError::InvalidFormat(string_of(&chars_of("truncated hash in tree entry"))));
        }
        assert(np + 21 <= len);
        let mode = from_utf8_lossy(vstd::slice::slice_subrange(content, pos, sp));
        let name = from_utf8_lossy(vstd::slice::slice_subrange(content, sp + 1, np));
        let entry_hash = encode_lower(vstd::slice::slice_subrange(content, np + 1, np + 21));
        let entry_type = entry_type_for(mode.as_str());
        let entry = TreeEntry { mode, name, hash: entry_hash, entry_type };
        assert(entry@ == entry_at(content@, pos as int, sp as int, np as int));
        entries.push(entry);
        assert(entries@.map_values(|e: TreeEntry| e@) =~= acc.push(entry_at(content@, pos as int, sp as int, np as int)));
        assert(acc.push(entry_at(content@, pos as int, sp as int, np as int)) =~= acc + seq![entry_at(content@, pos as int, sp as int, np as int)]);
        let ghost old_pos = pos as int;
        let ghost e = entry_at(content@, pos as int, sp as int, np as int);
        proof {
            assert(entries_from(content@, old_pos) == (match entries_from(content@, np + 21) {
                Some(Ok(rest)) => Some(Ok(seq![e] + rest)),
                other => other,
            }));
            match entries_from(content@, np + 21) {
                Some(Ok(rest)) => {
                    assert((acc + seq![e]) + rest =~= acc + (seq![e] + rest));
                },
                _ => {},
            }
        }
        pos = np + 21;
    }
    assert(entries@.map_values(|e: TreeEntry| e@) + Seq::<TreeEntrySpec>::empty() =~= entries@.map_values(|e: TreeEntry| e@));
    Ok(Tree { hash: string_of(&chars_of(hash)), entries })
}

/// Whether reading `content` as a tree gives its entries or an error rather
/// than a panic (an entry whose hash has exactly 19 bytes panics).
pub fn tree_defined(content: &[u8]) -> (r: bool)
    ensures
        r == entries_from(content@, 0) is Some,
{
    let len = content.len();
    let mut pos: usize = 0;
    while pos < len
        invariant
            pos <= len,
            len == content@.len(),
            (entries_from(content@, 0) is Some) == (entries_from(content@, pos as int) is Some),
        decreases len - pos,
    {
        let sp = find_byte_from(content, pos, 0x20);
        if sp >= len {
            return true;
        }
        let np = find_byte_from(content, sp + 1, 0);
        if np >= len {
            return true;
        }
        if len - np < 20 {
            return true;
        }
        if len - np < 21 {
            return false;
        }
        assert((entries_from(content@, pos as int) is Some) == (entries_from(content@, np + 21) is Some));
        pos = np + 21;
    }
    true
}

/// The bytes of one entry `(mode, name, hash)`: `<mode> <name>\0<hash>`.
pub open spec fn entry_bytes(e: (Seq<u8>, Seq<u8>, Seq<u8>)) -> Seq<u8> {
    e.0 + seq![0x20u8] + e.1 + seq![0u8] + e.2
}

/// The content of a tree with the given entries, in order.
pub open spec fn tree_bytes(es: Seq<(Seq<u8>, Seq<u8>, Seq<u8>)>) -> Seq<u8>
    decreases es.len(),
{
    if es.len() == 0 {
        seq![]
    } else {
        entry_bytes(es[0]) + tree_bytes(es.drop_first())
    }
}

/// The entry that reading the bytes of `(mode, name, hash)` gives.
pub open spec fn entry_read(e: (Seq<u8>, Seq<u8>, Seq<u8>)) -> TreeEntrySpec {
    TreeEntrySpec {
        mode: text_of(e.0),
        name: text_of(e.1),
        hash: hex_lower(e.2),
        entry_type: entry_type_of_mode(text_of(e.0)),
    }
}

/// Whether an entry can be written: no space in its mode, no zero byte in
/// its name, a hash of 20 bytes.
pub open spec fn entry_writable(e: (Seq<u8>, Seq<u8>, Seq<u8>)) -> bool {
    !e.0.contains(0x20u8) && !e.1.contains(0u8) && e.2.len() == 20
}

proof fn lemma_find_byte_after(a: Seq<u8>, r: Seq<u8>, b: u8)
    requires
        !a.contains(b),
    ensures
        find_byte(a + seq![b] + r, b) == a.len(),
    decreases a.len(),
{
    if a.len() == 0 {
        assert((a + seq![b] + r)[0] == b);
    } else {
        assert(a.drop_first().contains(b) ==> a.contains(b)) by {
            if a.drop_first().contains(b) {
                let i = choose|i: int| 0 <= i < a.drop_first().len() && a.drop_first()[i] == b;
                assert(a[i + 1] == b);
            }
        }
        lemma_find_byte_after(a.drop_first(), r, b);
        assert((a + seq![b] + r).drop_first() =~= a.drop_first() + seq![b] + r);
        assert((a + seq![b] + r)[0] == a[0]);
        assert(a[0] != b) by {
            assert(a.contains(a[0]));
        }
    }
}

/// Reading entries from `pos` sees only the bytes from `pos` on.
proof fn lemma_entries_from_skip(c: Seq<u8>, pos: int)
    requires
        0 <= pos <= c.len(),
    ensures
        entries_from(c, pos) == entries_from(c.skip(pos), 0),
    decreases c.len() - pos,
{
    let d = c.skip(pos);
    if pos < c.len() {
        assert(d.skip(0) =~= d);
        let sp = pos + find_byte(c.skip(pos), 0x20);
        if sp < c.len() {
            assert(d.skip(sp - pos + 1) =~= c.skip(sp + 1));
            let np = sp + 1 + find_byte(c.skip(sp + 1), 0);
            if np + 21 <= c.len() {
                assert(d.subrange(0, sp - pos) =~= c.subrange(pos, sp));
                assert(d.subrange(sp - pos + 1, np - pos) =~= c.subrange(sp + 1, np));
                assert(d.subrange(np - pos + 1, np - pos + 21) =~= c.subrange(np + 1, np + 21));
                assert(entry_at(d, 0, sp - pos, np - pos) == entry_at(c, pos, sp, np));
                lemma_entries_from_skip(c, np + 21);
                lemma_entries_from_skip(d, np - pos + 21);
                assert(d.skip(np - pos + 21) =~= c.skip(np + 21));
            }
        }
    }
}

/// Reading the content written for a list of entries gives them back, in
/// order: each mode and name as text, each hash as lowercase hex, and the
/// kind its mode denotes.
pub proof fn law_tree_round_trip(es: Seq<(Seq<u8>, Seq<u8>, Seq<u8>)>)
    requires
        forall|i: int| 0 <= i < es.len() ==> #[trigger] entry_writable(es[i]),
    ensures
        entries_from(tree_bytes(es), 0) == Some(Ok::<Seq<TreeEntrySpec>, ErrorView>(es.map_values(|e: (Seq<u8>, Seq<u8>, Seq<u8>)| entry_read(e)))),
    decreases es.len(),
{
    let want = es.map_values(|e: (Seq<u8>, Seq<u8>, Seq<u8>)| entry_read(e));
    if es.len() == 0 {
        assert(want =~= Seq::<TreeEntrySpec>::empty());
    } else {
        let e = es[0];
        let rest = es.drop_first();
        assert forall|i: int| 0 <= i < rest.len() implies #[trigger] entry_writable(rest[i]) by {
            assert(rest[i] == es[i + 1]);
        }
        law_tree_round_trip(rest);
        assert(entry_writable(es[0]));
        let tail = tree_bytes(rest);
        let c = tree_bytes(es);
        assert(c == entry_bytes(e) + tail);
        let m = e.0.len() as int;
        let n = e.1.len() as int;
        assert(c.skip(0) =~= e.0 + seq![0x20u8] + (e.1 + seq![0u8] + e.2 + tail));
        lemma_find_byte_after(e.0, e.1 + seq![0u8] + e.2 + tail, 0x20u8);
        let sp = m;
        assert(c.skip(sp + 1) =~= e.1 + seq![0u8] + (e.2 + tail));
        lemma_find_byte_after(e.1, e.2 + tail, 0u8);
        let np = m + 1 + n;
        assert(c.subrange(0, sp) =~= e.0);
        assert(c.subrange(sp + 1, np) =~= e.1);
        assert(c.subrange(np + 1, np + 21) =~= e.2);
        assert(entry_at(c, 0, sp, np) == entry_read(e));
        lemma_entries_from_skip(c, np + 21);
        assert(c.skip(np + 21) =~= tail);
        let rest_read = rest.map_values(|e: (Seq<u8>, Seq<u8>, Seq<u8>)| entry_read(e));
        assert(seq![entry_read(e)] + rest_read =~= want);
    }
}

/// The part of a file name after its last `.`, or the whole name.
pub open spec fn extension(name: Seq<char>) -> Seq<char> {
    match rfind(name, '.') {
        Some(i) => name.skip(i + 1),
        None => name,
    }
}

/// The language an extension suggests.
pub open spec fn language_of_extension(ext: Seq<char>) -> Option<Seq<char>> {
    if ext == "rs"@ {
        Some("Rust"@)
    } else if ext == "py"@ {
        Some("Python"@)
    } else if ext == "js"@ || ext == "mjs"@ {
        Some("JavaScript"@)
    } else if ext == "ts"@ || ext == "tsx"@ {
        Some("TypeScript"@)
    } else if ext == "jsx"@ {
        Some("JSX"@)
    } else if ext == "java"@ {
        Some("Java"@)
    } else if ext == "c"@ || ext == "h"@ {
        Some("C"@)
    } else if ext == "cpp"@ || ext == "cc"@ || ext == "cxx"@ || ext == "hpp"@ {
        Some("C++"@)
    } else if ext == "go"@ {
        Some("Go"@)
    } else if ext == "rb"@ {
        Some("Ruby"@)
    } else if ext == "php"@ {
        Some("PHP"@)
    } else if ext == "swift"@ {
        Some("Swift"@)
    } else if ext == "kt"@ {
        Some("Kotlin"@)
    } else if ext == "scala"@ {
        Some("Scala"@)
    } else if ext == "sh"@ || ext == "bash"@ {
        Some("Shell"@)
    } else if ext == "sql"@ {
        Some("SQL"@)
    } else if ext == "html"@ || ext == "htm"@ {
        Some("HTML"@)
    } else if ext == "css"@ || ext == "scss"@ || ext == "sass"@ || ext == "less"@ {
        Some("CSS"@)
    } else if ext == "md"@ || ext == "markdown"@ {
        Some("Markdown"@)
    } else if ext == "json"@ {
        Some("JSON"@)
    } else if ext == "yaml"@ || ext == "yml"@ {
        Some("YAML"@)
    } else if ext == "toml"@ {
        Some("TOML"@)
    } else if ext == "xml"@ {
        Some("XML"@)
    } else if ext == "dockerfile"@ {
        Some("Dockerfile"@)
    } else {
        None
    }
}

proof fn lemma_rfind_after(x: Seq<char>, e: Seq<char>, c: char)
    requires
        !e.contains(c),
    ensures
        rfind(x + seq![c] + e, c) == Some(x.len() as int),
        rfind(e, c) is None,
    decreases e.len(),
{
    let s = x + seq![c] + e;
    if e.len() == 0 {
        assert(s.last() == c);
        assert(e.len() == 0);
    } else {
        assert(e.drop_last().contains(c) ==> e.contains(c)) by {
            if e.drop_last().contains(c) {
                let i = choose|i: int| 0 <= i < e.drop_last().len() && e.drop_last()[i] == c;
                assert(e[i] == c);
            }
        }
        assert(e.last() != c) by {
            assert(e.contains(e[e.len() - 1]));
        }
        lemma_rfind_after(x, e.drop_last(), c);
        assert(s.drop_last() =~= x + seq![c] + e.drop_last());
        assert(s.last() == e.last());
    }
}

/// The language of a file name depends on the text after its last `.`
/// alone: any name that ends in `.` and `e`, where `e` holds no `.`, is
/// judged as `e` itself is.
pub proof fn law_language_by_last_extension(x: Seq<char>, e: Seq<char>)
    requires
        !e.contains('.'),
    ensures
        extension(x + seq!['.'] + e) == e,
        extension(e) == e,
        language_of_extension(extension(x + seq!['.'] + e)) == language_of_extension(extension(e)),
{
    lemma_rfind_after(x, e, '.');
    assert((x + seq!['.'] + e).skip(x.len() as int + 1) =~= e);
}

/// The language of a file, judged by the text after its last `.`.
pub fn detect_language(filename: &str) -> (r: Option<&'static str>)
    ensures
        match (r, language_of_extension(extension(filename@))) {
            (Some(a), Some(b)) => a@ == b,
            (None, None) => true,
            _ => false,
        },
{
    let c = chars_of(filename);
    assert(c@.take(c@.len() as int) =~= c@);
    let ext_string = match rfind_char(&c, c.len(), '.') {
        Some(i) => string_of_range(&c, i + 1, c.len()),
        None => string_of(&c),
    };
    proof {
        match rfind(filename@, '.') {
            Some(i) => assert(ext_string@ =~= filename@.skip(i + 1)),
            None => {},
        }
    }
    let ext = ext_string.as_str();
    if str_eq(ext, "rs") {
        Some("Rust")
    } else if str_eq(ext, "py") {
        Some("Python")
    } else if str_eq(ext, "js") || str_eq(ext, "mjs") {
        Some("JavaScript")
    } else if str_eq(ext, "ts") || str_eq(ext, "tsx") {
        Some("TypeScript")
    } else if str_eq(ext, "jsx") {
        Some("JSX")
    } else if str_eq(ext, "java") {
        Some("Java")
    } else if str_eq(ext, "c") || str_eq(ext, "h") {
        Some("C")
    } else if str_eq(ext, "cpp") || str_eq(ext, "cc") || str_eq(ext, "cxx") || str_eq(ext, "hpp") {
        Some("C++")
    } else if str_eq(ext, "go") {
        Some("Go")
    } else if str_eq(ext, "rb") {
        Some("Ruby")
    } else if str_eq(ext, "php") {
        Some("PHP")
    } else if str_eq(ext, "swift") {
        Some("Swift")
    } else if str_eq(ext, "kt") {
        Some("Kotlin")
    } else if str_eq(ext, "scala") {
        Some("Scala")
    } else if str_eq(ext, "sh") || str_eq(ext, "bash") {
        Some("Shell")
    } else if str_eq(ext, "sql") {
        Some("SQL")
    } else if str_eq(ext, "html") || str_eq(ext, "htm") {
        Some("HTML")
    } else if str_eq(ext, "css") || str_eq(ext, "scss") || str_eq(ext, "sass") || str_eq(ext, "less") {
        Some("CSS")
    } else if str_eq(ext, "md") || str_eq(ext, "markdown") {
        Some("Markdown")
    } else if str_eq(ext, "json") {
        Some("JSON")
    } else if str_eq(ext, "yaml") || str_eq(ext, "yml") {
        Some("YAML")
    } else if str_eq(ext, "toml") {
        Some("TOML")
    } else if str_eq(ext, "xml") {
        Some("XML")
    } else if str_eq(ext, "dockerfile") {
        Some("Dockerfile")
    } else {
        None
    }
}

} // verus!
