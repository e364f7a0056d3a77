//! Git objects and the values parsed out of them.
use vstd::prelude::*;

use crate::text::{chars_of, chars_eq, concat, str_eq};

verus! {

/// The four kinds of object a git object store holds.
#[derive(Debug, Clone, Copy, PartialEq, Eq, Structural)]
pub enum GitObjectType {
    Commit,
    Tree,
    Blob,
    Tag,
}

/// The name git writes for an object type in object headers.
pub open spec fn object_type_name(t: GitObjectType) -> Seq<char> {
    match t {
        GitObjectType::Commit => "commit"@,
        GitObjectType::Tree => "tree"@,
        GitObjectType::Blob => "blob"@,
        GitObjectType::Tag => "tag"@,
    }
}

/// The object type a header name denotes, if any.
pub open spec fn type_of_name(s: Seq<char>) -> Option<GitObjectType> {
    if s == "commit"@ {
        Some(GitObjectType::Commit)
    } else if s == "tree"@ {
        Some(GitObjectType::Tree)
    } else if s == "blob"@ {
        Some(GitObjectType::Blob)
    } else if s == "tag"@ {
        Some(GitObjectType::Tag)
    } else {
        None
    }
}

/// Reading the name of a type gives the type back, and the four names are
/// the only ones read.
pub proof fn law_type_name_roundtrip(t: GitObjectType, s: Seq<char>)
    ensures
        type_of_name(object_type_name(t)) == Some(t),
        type_of_name(s) matches Some(u) ==> object_type_name(u) == s,
{
    reveal_strlit("commit");
    reveal_strlit("tree");
    reveal_strlit("blob");
    reveal_strlit("tag");
    assert("commit"@ != "tree"@ && "commit"@ != "blob"@ && "commit"@ != "tag"@) by {
        assert("commit"@.len() != "tree"@.len());
        assert("commit"@[0] != "blob"@[0]);
        assert("commit"@.len() != "tag"@.len());
    }
    assert("tree"@ != "blob"@ && "tree"@ != "tag"@) by {
        assert("tree"@[0] != "blob"@[0]);
        assert("tree"@.len() != "tag"@.len());
    }
    assert("blob"@ != "tag"@) by {
        assert("blob"@.len() != "tag"@.len());
    }
}

impl GitObjectType {
    /// The name of the type (`commit`, `tree`, `blob` or `tag`).
    pub fn as_str(&self) -> (r: &'static str)
        ensures
            r@ == object_type_name(*self),
    {
        match self {
            GitObjectType::Commit => "commit",
            GitObjectType::Tree => "tree",
            GitObjectType::Blob => "blob",
            GitObjectType::Tag => "tag",
        }
    }

    /// The name of the type as an owned string.
    pub fn to_string(&self) -> (r: String)
        ensures
            r@ == object_type_name(*self),
    {
        let s = self.as_str();
        s.to_owned()
    }

    /// Reads a type name; anything but the four names is refused with
    /// `unknown git object type: <name>`.
    pub fn from_name(s: &str) -> (r: Result<GitObjectType, String>)
        ensures
            r matches Ok(t) ==> type_of_name(s@) == Some(t),
            r matches Err(m) ==> type_of_name(s@) is None && m@ == "unknown git object type: "@
                + s@,
            r is Ok <==> type_of_name(s@) is Some,
    {
        let c = chars_of(s);
        if chars_eq(&c, &chars_of("commit")) {
            Ok(GitObjectType::Commit)
        } else if chars_eq(&c, &chars_of("tree")) {
            Ok(GitObjectType::Tree)
        } else if chars_eq(&c, &chars_of("blob")) {
            Ok(GitObjectType::Blob)
        } else if chars_eq(&c, &chars_of("tag")) {
            Ok(GitObjectType::Tag)
        } else {
            Err(concat("unknown git object type: ", s))
        }
    }
}

impl std::str::FromStr for GitObjectType {
    type Err = String;

    fn from_str(s: &str) -> (r: Result<GitObjectType, String>)
        ensures
            r matches Ok(t) ==> type_of_name(s@) == Some(t),
            r matches Err(m) ==> type_of_name(s@) is None && m@ == "unknown git object type: "@ + s@,
            r is Ok <==> type_of_name(s@) is Some,
    {
        GitObjectType::from_name(s)
    }
}

/// An object as read from the object store: its type, its hash, the size
/// its header declares and its content.
#[derive(Debug, Clone)]
pub struct GitObject {
    pub obj_type: GitObjectType,
    pub hash: String,
    pub size: usize,
    pub content: Vec<u8>,
}

/// Who made a commit and when. `timestamp` is seconds since the Unix epoch,
/// UTC; `timezone_offset` is in minutes east of UTC.
#[derive(Debug, Clone)]
pub struct AuthorInfo {
    pub name: String,
    pub email: String,
    pub timestamp: i64,
    pub timezone_offset: i32,
}

#[derive(Debug, Clone)]
pub struct Commit {
    pub hash: String,
    pub tree_hash: String,
    pub parent_hashes: Vec<String>,
    pub author: AuthorInfo,
    pub committer: AuthorInfo,
    pub message: String,
}

#[derive(Debug, Clone, Copy, PartialEq, Eq, Structural)]
pub enum TreeEntryType {
    Blob,
    Tree,
    Commit,
}

#[derive(Debug, Clone)]
pub struct TreeEntry {
    pub mode: String,
    pub name: String,
    pub hash: String,
    pub entry_type: TreeEntryType,
}

#[derive(Debug, Clone)]
pub struct Tree {
    pub hash: String,
    pub entries: Vec<TreeEntry>,
}

#[derive(Debug, Clone)]
pub struct Branch {
    pub name: String,
    pub commit_hash: String,
    pub is_head: bool,
}

#[derive(Debug, Clone)]
pub struct FileChange {
    pub path: String,
    pub additions: u64,
    pub deletions: u64,
}

#[derive(Debug, Clone)]
pub struct DiffStat {
    pub commit_hash: String,
    pub changes: Vec<FileChange>,
    pub total_additions: u64,
    pub total_deletions: u64,
}

/// What can go wrong while reading a repository.
#[derive(Debug, Clone)]
pub enum GitVizError {
    ObjectNotFound(String),
    InvalidFormat(String),
    Io(String),
    Decompression(String),
    Parse(String),
    NotAGitRepo(String),
    Terminal(String),
}

/// The kind of a [`GitVizError`] with its message as characters.
pub enum ErrorView {
    ObjectNotFound(Seq<char>),
    InvalidFormat(Seq<char>),
    Io(Seq<char>),
    Decompression(Seq<char>),
    Parse(Seq<char>),
    NotAGitRepo(Seq<char>),
    Terminal(Seq<char>),
}

impl View for GitVizError {
    type V = ErrorView;

    open spec fn view(&self) -> ErrorView {
        match self {
            GitVizError::ObjectNotFound(m) => ErrorView::ObjectNotFound(m@),
            GitVizError::InvalidFormat(m) => ErrorView::InvalidFormat(m@),
            GitVizError::Io(m) => ErrorView::Io(m@),
            GitVizError::Decompression(m) => ErrorView::Decompression(m@),
            GitVizError::Parse(m) => ErrorView::Parse(m@),
            GitVizError::NotAGitRepo(m) => ErrorView::NotAGitRepo(m@),
            GitVizError::Terminal(m) => ErrorView::Terminal(m@),
        }
    }
}

impl GitVizError {
    /// The message shown for the error: what went wrong, then the detail.
    pub fn message(&self) -> (r: String)
        ensures
            r@ == error_text(self@),
    {
        match self {
            GitVizError::ObjectNotFound(m) => concat("object not found: ", m.as_str()),
            GitVizError::InvalidFormat(m) => concat("invalid object format: ", m.as_str()),
            GitVizError::Io(m) => concat("IO error: ", m.as_str()),
            GitVizError::Decompression(m) => concat("decompression error: ", m.as_str()),
            GitVizError::Parse(m) => concat("parse error: ", m.as_str()),
            GitVizError::NotAGitRepo(m) => concat("not a git repository: ", m.as_str()),
            GitVizError::Terminal(m) => concat("terminal error: ", m.as_str()),
        }
    }
}

/// The text of an error message.
pub open spec fn error_text(e: ErrorView) -> Seq<char> {
    match e {
        ErrorView::ObjectNotFound(m) => "object not found: "@ + m,
        ErrorView::InvalidFormat(m) => "invalid object format: "@ + m,
        ErrorView::Io(m) => "IO error: "@ + m,
        ErrorView::Decompression(m) => "decompression error: "@ + m,
        ErrorView::Parse(m) => "parse error: "@ + m,
        ErrorView::NotAGitRepo(m) => "not a git repository: "@ + m,
        ErrorView::Terminal(m) => "terminal error: "@ + m,
    }
}

/// The fields of a branch.
pub struct BranchSpec {
    pub name: Seq<char>,
    pub commit_hash: Seq<char>,
    pub is_head: bool,
}

impl View for Branch {
    type V = BranchSpec;

    open spec fn view(&self) -> BranchSpec {
        BranchSpec { name: self.name@, commit_hash: self.commit_hash@, is_head: self.is_head }
    }
}

/// The characters of each string in a sequence.
pub open spec fn strings_view(v: Seq<String>) -> Seq<Seq<char>> {
    v.map_values(|s: String| s@)
}

/// Whether one of the strings equals `h`.
pub fn contains_string(v: &Vec<String>, h: &str) -> (r: bool)
    ensures
        r == strings_view(v@).contains(h@),
{
    let mut i: usize = 0;
    while i < v.len()
        invariant
            i <= v@.len(),
            forall|k: int| 0 <= k < i ==> #[trigger] v@[k]@ != h@,
        decreases v.len() - i,
    {
        if str_eq(v[i].as_str(), h) {
            assert(strings_view(v@)[i as int] == h@);
            return true;
        }
        i = i + 1;
    }
    proof {
        if strings_view(v@).contains(h@) {
            let k = choose|k: int| 0 <= k < strings_view(v@).len() && strings_view(v@)[k] == h@;
            assert(v@[k]@ == h@);
        }
    }
    false
}

} // verus!
