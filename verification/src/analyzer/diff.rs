//! Line differences between file versions, by longest common subsequence.
use vstd::prelude::*;

use crate::analyzer::paths::{path_key, path_key_of};
use crate::models::git_object::{Commit, FileChange};
use crate::text::{chars_eq, chars_of, lines, split_lines, str_eq};

verus! {

// ---------------------------------------------------------------------------
// Longest common subsequence
// ---------------------------------------------------------------------------

/// Items that can be compared by their views.
pub trait ItemEq: View + Sized {
    fn eq_item(&self, other: &Self) -> (r: bool)
        ensures
            r == (self@ == other@),
    ;
}

impl ItemEq for i32 {
    fn eq_item(&self, other: &i32) -> (r: bool) {
        *self == *other
    }
}

impl ItemEq for u64 {
    fn eq_item(&self, other: &u64) -> (r: bool) {
        *self == *other
    }
}

impl ItemEq for Vec<char> {
    fn eq_item(&self, other: &Vec<char>) -> (r: bool) {
        chars_eq(self.as_slice(), other.as_slice())
    }
}

impl ItemEq for String {
    fn eq_item(&self, other: &String) -> (r: bool) {
        *self == *other
    }
}

/// The views of a sequence's items.
pub open spec fn views<T: View>(s: Seq<T>) -> Seq<T::V> {
    s.map_values(|x: T| x@)
}

pub open spec fn max_nat(x: nat, y: nat) -> nat {
    if x >= y {
        x
    } else {
        y
    }
}

/// Length of a longest common subsequence of `a` and `b`.
pub open spec fn lcs<V>(a: Seq<V>, b: Seq<V>) -> nat
    decreases a.len() + b.len(),
{
    if a.len() == 0 || b.len() == 0 {
        0
    } else if a.last() == b.last() {
        lcs(a.drop_last(), b.drop_last()) + 1
    } else {
        max_nat(lcs(a.drop_last(), b), lcs(a, b.drop_last()))
    }
}

/// A common subsequence is no longer than either sequence.
pub proof fn law_lcs_bounded<V>(a: Seq<V>, b: Seq<V>)
    ensures
        lcs(a, b) <= a.len(),
        lcs(a, b) <= b.len(),
    decreases a.len() + b.len(),
{
    if a.len() > 0 && b.len() > 0 {
        law_lcs_bounded(a.drop_last(), b.drop_last());
        law_lcs_bounded(a.drop_last(), b);
        law_lcs_bounded(a, b.drop_last());
    }
}

/// A sequence is its own longest common subsequence with itself.
pub proof fn law_lcs_self<V>(a: Seq<V>)
    ensures
        lcs(a, a) == a.len(),
    decreases a.len(),
{
    if a.len() > 0 {
        law_lcs_self(a.drop_last());
    }
}

/// The longest common subsequence does not depend on the order of the two.
pub proof fn law_lcs_symmetric<V>(a: Seq<V>, b: Seq<V>)
    ensures
        lcs(a, b) == lcs(b, a),
    decreases a.len() + b.len(),
{
    if a.len() > 0 && b.len() > 0 {
        law_lcs_symmetric(a.drop_last(), b.drop_last());
        law_lcs_symmetric(a.drop_last(), b);
        law_lcs_symmetric(a, b.drop_last());
    }
}

/// Length of a longest common subsequence, by dynamic programming over two
/// rows.
pub fn longest_common_subsequence_len<T: ItemEq>(a: &[T], b: &[T]) -> (r: usize)
    requires
        b@.len() < usize::MAX,
    ensures
        r == lcs(views(a@), views(b@)),
{
    let m = a.len();
    let n = b.len();
    let ghost av = views(a@);
    let ghost bv = views(b@);
    if m == 0 || n == 0 {
        return 0;
    }
    let mut prev: Vec<usize> = vec![0usize; n + 1];
    let mut curr: Vec<usize> = vec![0usize; n + 1];
    proof {
        assert forall|j: int| 0 <= j <= n implies #[trigger] prev@[j] == lcs(av.take(0), bv.take(j)) by {
            assert(av.take(0).len() == 0);
        }
    }
    let mut row: usize = 0;
    while row < m
        invariant
            row <= m,
            m == a@.len(),
            n == b@.len(),
            n < usize::MAX,
            av == views(a@),
            bv == views(b@),
            prev@.len() == n + 1,
            curr@.len() == n + 1,
            curr@[0] == 0,
            forall|j: int| 0 <= j <= n ==> #[trigger] prev@[j] == lcs(av.take(row as int), bv.take(j)),
        decreases m - row,
    {
        let i = row + 1;
        let mut j: usize = 1;
        while j <= n
            invariant
                1 <= i <= m,
                1 <= j <= n + 1,
                m == a@.len(),
                n == b@.len(),
                n < usize::MAX,
                av == views(a@),
                bv == views(b@),
                prev@.len() == n + 1,
                curr@.len() == n + 1,
                curr@[0] == 0,
                forall|k: int| 0 <= k <= n ==> #[trigger] prev@[k] == lcs(av.take(i - 1), bv.take(k)),
                forall|k: int| 0 <= k < j ==> #[trigger] curr@[k] == lcs(av.take(i as int), bv.take(k)),
            decreases n + 1 - j,
        {
            let ghost x = av.take(i as int);
            let ghost y = bv.take(j as int);
            proof {
                assert(x.drop_last() =~= av.take(i - 1));
                assert(y.drop_last() =~= bv.take(j - 1));
                assert(x.last() == a@[i - 1]@);
                assert(y.last() == b@[j - 1]@);
                law_lcs_bounded(av.take(i - 1), bv.take(j - 1));
                law_lcs_bounded(x, bv.take(j - 1));
                law_lcs_bounded(av.take(i - 1), y);
            }
            if a[i - 1].eq_item(&b[j - 1]) {
                let v = prev[j - 1] + 1;
                curr.set(j, v);
            } else {
                let left = curr[j - 1];
                let up = prev[j];
                let v = if left >= up {
                    left
                } else {
                    up
                };
                curr.set(j, v);
            }
            assert(curr@[j as int] == lcs(x, y));
            j = j + 1;
        }
        std::mem::swap(&mut prev, &mut curr);
        row = row + 1;
    }
    assert(av.take(m as int) =~= av);
    assert(bv.take(n as int) =~= bv);
    prev[n]
}

// ---------------------------------------------------------------------------
// Line counts
// ---------------------------------------------------------------------------

/// Lines added and removed going from `old` to `new`: the lines of each not
/// in a longest common subsequence of the two.
pub open spec fn line_diff(old: Seq<char>, new: Seq<char>) -> (u64, u64) {
    let k = lcs(lines(old), lines(new));
    ((lines(new).len() - k) as u64, (lines(old).len() - k) as u64)
}

fn line_views(s: &str) -> (r: Vec<Vec<char>>)
    ensures
        views(r@) == lines(s@),
{
    let r = split_lines(&chars_of(s));
    assert(views(r@) =~= lines(s@));
    r
}

/// Lines added and removed going from `old` to `new`.
pub fn count_line_diff(old: &str, new: &str) -> (r: (u64, u64))
    requires
        lines(new@).len() < usize::MAX,
    ensures
        r == line_diff(old@, new@),
{
    let old_lines = line_views(old);
    let new_lines = line_views(new);
    let lcs_len = longest_common_subsequence_len(old_lines.as_slice(), new_lines.as_slice());
    proof {
        law_lcs_bounded(lines(old@), lines(new@));
    }
    let additions = new_lines.len().saturating_sub(lcs_len) as u64;
    let deletions = old_lines.len().saturating_sub(lcs_len) as u64;
    (additions, deletions)
}

/// Comparing a text with itself finds nothing added or removed.
pub proof fn law_line_diff_identical(s: Seq<char>)
    ensures
        line_diff(s, s) == (0u64, 0u64),
{
    law_lcs_self(lines(s));
}

/// Going back from `new` to `old` adds what going forward removed and
/// removes what it added.
pub proof fn law_line_diff_reversed(old: Seq<char>, new: Seq<char>)
    ensures
        line_diff(new, old).0 == line_diff(old, new).1,
        line_diff(new, old).1 == line_diff(old, new).0,
{
    law_lcs_symmetric(lines(old), lines(new));
}

// ---------------------------------------------------------------------------
// File sets
// ---------------------------------------------------------------------------

/// Whether no two paths are the same path (equal as `Path`s).
pub open spec fn distinct_paths(s: Seq<(Seq<char>, Seq<char>)>) -> bool {
    forall|i: int, j: int| 0 <= i < j < s.len() ==> path_key(#[trigger] s[i].0) != path_key(#[trigger] s[j].0)
}

/// Whether some stored path has the key `k`.
pub open spec fn has_key(s: Seq<(Seq<char>, Seq<char>)>, k: Seq<char>) -> bool {
    exists|i: int| 0 <= i < s.len() && path_key(#[trigger] s[i].0) == k
}

/// Where a path with the key `k` is stored, where there is one.
pub open spec fn key_index(s: Seq<(Seq<char>, Seq<char>)>, k: Seq<char>) -> int {
    choose|i: int| 0 <= i < s.len() && path_key(#[trigger] s[i].0) == k
}

/// Whether the path `p` is present.
pub open spec fn has_path(s: Seq<(Seq<char>, Seq<char>)>, p: Seq<char>) -> bool {
    has_key(s, path_key(p))
}

/// Where the path `p` is stored, where it is.
pub open spec fn path_index(s: Seq<(Seq<char>, Seq<char>)>, p: Seq<char>) -> int {
    key_index(s, path_key(p))
}

/// The content stored under `p`, where there is one.
pub open spec fn content_at(s: Seq<(Seq<char>, Seq<char>)>, p: Seq<char>) -> Seq<char> {
    s[path_index(s, p)].1
}

/// The files after storing `c` under `p`: where the path is present its
/// content is replaced in place and the path keeps the text it was first
/// stored under; otherwise a new entry is added at the end.
pub open spec fn inserted(s: Seq<(Seq<char>, Seq<char>)>, p: Seq<char>, c: Seq<char>) -> Seq<(Seq<char>, Seq<char>)> {
    if has_path(s, p) {
        s.update(path_index(s, p), (s[path_index(s, p)].0, c))
    } else {
        s.push((p, c))
    }
}

pub(crate) proof fn lemma_path_index(s: Seq<(Seq<char>, Seq<char>)>, p: Seq<char>, i: int)
    requires
        distinct_paths(s),
        0 <= i < s.len(),
        path_key(s[i].0) == path_key(p),
    ensures
        has_path(s, p),
        path_index(s, p) == i,
        content_at(s, p) == s[i].1,
{
    assert(path_key(s[i].0) == path_key(p));
    let j = path_index(s, p);
    assert(path_key(s[j].0) == path_key(p));
    if j != i {
        if j < i {
            assert(path_key(s[j].0) != path_key(s[i].0));
        } else {
            assert(path_key(s[i].0) != path_key(s[j].0));
        }
    }
}

/// A read gives back what the last write stored, and a write changes no
/// other path: after storing `c` under `p`, `p` holds `c`, every other path
/// holds what it held, and no path occurs twice.
pub proof fn law_get_after_insert(s: Seq<(Seq<char>, Seq<char>)>, p: Seq<char>, c: Seq<char>, q: Seq<char>)
    requires
        distinct_paths(s),
    ensures
        distinct_paths(inserted(s, p, c)),
        has_path(inserted(s, p, c), p),
        content_at(inserted(s, p, c), p) == c,
        path_key(q) != path_key(p) ==> has_path(inserted(s, p, c), q) == has_path(s, q),
        path_key(q) != path_key(p) && has_path(s, q) ==> content_at(inserted(s, p, c), q) == content_at(s, q),
{
    let t = inserted(s, p, c);
    let k = if has_path(s, p) {
        path_index(s, p)
    } else {
        s.len() as int
    };
    assert(path_key(t[k].0) == path_key(p));
    assert(forall|i: int| 0 <= i < s.len() && i != k ==> #[trigger] t[i] == s[i]);
    assert forall|i: int, j: int| 0 <= i < j < t.len() implies path_key(#[trigger] t[i].0) != path_key(#[trigger] t[j].0) by {
        if i != k && j != k {
            assert(t[i] == s[i] && t[j] == s[j]);
        } else if i == k {
            if has_path(s, p) {
                assert(t[k].0 == s[k].0 && t[j] == s[j]);
            } else {
                assert(false);
            }
        } else {
            assert(t[i] == s[i]);
            if has_path(s, p) {
                assert(t[k].0 == s[k].0);
            } else {
                assert(path_key(s[i].0) != path_key(p));
            }
        }
    }
    lemma_path_index(t, p, k);
    if path_key(q) != path_key(p) {
        if has_path(t, q) {
            let i = choose|i: int| 0 <= i < t.len() && path_key(#[trigger] t[i].0) == path_key(q);
            assert(i != k);
            assert(s[i] == t[i]);
        }
        if has_path(s, q) {
            let i = path_index(s, q);
            assert(path_key(s[i].0) == path_key(q));
            assert(i != k) by {
                if has_path(s, p) {
                    assert(path_key(s[k].0) == path_key(p));
                }
            }
            assert(t[i] == s[i]);
            lemma_path_index(t, q, i);
        }
    }
}

/// The files of a tree: each path once with its content, in the order the
/// paths were first inserted. Paths are compared as `Path`s compare them.
pub struct TreeFiles {
    paths: Vec<String>,
    contents: Vec<String>,
    keys: Vec<String>,
}

impl View for TreeFiles {
    type V = Seq<(Seq<char>, Seq<char>)>;

    closed spec fn view(&self) -> Seq<(Seq<char>, Seq<char>)> {
        Seq::new(self.paths@.len(), |i: int| (self.paths@[i]@, self.contents@[i]@))
    }
}

impl TreeFiles {
    #[verifier::type_invariant]
    closed spec fn wf(self) -> bool {
        &&& self.contents@.len() == self.paths@.len()
        &&& self.keys@.len() == self.paths@.len()
        &&& forall|i: int| 0 <= i < self.keys@.len() ==> #[trigger] self.keys@[i]@ == path_key(self.paths@[i]@)
        &&& distinct_paths(self@)
    }

    /// No files.
    pub fn new() -> (r: TreeFiles)
        ensures
            r@ == Seq::<(Seq<char>, Seq<char>)>::empty(),
    {
        let r = TreeFiles { paths: Vec::new(), contents: Vec::new(), keys: Vec::new() };
        assert(r@ =~= Seq::<(Seq<char>, Seq<char>)>::empty());
        r
    }

    /// The position of `path`, if it is present.
    fn position(&self, path: &str) -> (r: Option<usize>)
        ensures
            r matches Some(i) ==> i < self@.len() && path_key(self@[i as int].0) == path_key(path@),
            r is None ==> !has_path(self@, path@),
    {
        proof {
            use_type_invariant(self);
        }
        let key = path_key_of(path);
        let mut i: usize = 0;
        while i < self.keys.len()
            invariant
                i <= self@.len(),
                self@.len() == self.keys@.len(),
                key@ == path_key(path@),
                forall|k: int| 0 <= k < self.keys@.len() ==> #[trigger] self.keys@[k]@ == path_key(self.paths@[k]@),
                forall|k: int| 0 <= k < i ==> path_key(#[trigger] self@[k].0) != path_key(path@),
            decreases self.keys.len() - i,
        {
            assert(self@[i as int].0 == self.paths@[i as int]@);
            if str_eq(self.keys[i].as_str(), key.as_str()) {
                return Some(i);
            }
            i = i + 1;
        }
        None
    }

    /// Stores `content` under `path`, in place of what was there.
    pub fn insert(&mut self, path: String, content: String)
        ensures
            final(self)@ == inserted(old(self)@, path@, content@),
            distinct_paths(final(self)@),
    {
        proof {
            use_type_invariant(&*self);
        }
        let pos = self.position(path.as_str());
        let ghost before = self@;
        let ghost pv = path@;
        let ghost cv = content@;
        proof {
            law_get_after_insert(before, pv, cv, pv);
        }
        let mut taken = TreeFiles::new();
        std::mem::swap(&mut taken, self);
        assert(taken@ == before);
        let TreeFiles { paths: mut paths, contents: mut contents, keys: mut keys } = taken;
        match pos {
            Some(i) => {
                proof {
                    lemma_path_index(before, pv, i as int);
                }
                contents.set(i, content);
            },
            None => {
                let key = path_key_of(path.as_str());
                paths.push(path);
                contents.push(content);
                keys.push(key);
            },
        }
        let ghost after = Seq::new(paths@.len(), |i: int| (paths@[i]@, contents@[i]@));
        proof {
            match pos {
                Some(i) => {
                    assert(after =~= before.update(i as int, (before[i as int].0, cv)));
                },
                None => {
                    assert(after =~= before.push((pv, cv)));
                },
            }
        }
        *self = TreeFiles { paths, contents, keys };
    }

    /// Number of files.
    pub fn len(&self) -> (r: usize)
        ensures
            r == self@.len(),
    {
        self.paths.len()
    }

    /// Whether there are no files.
    pub fn is_empty(&self) -> (r: bool)
        ensures
            r == (self@.len() == 0),
    {
        self.paths.len() == 0
    }

    /// Whether `path` is present.
    pub fn contains_key(&self, path: &str) -> (r: bool)
        ensures
            r == has_path(self@, path@),
    {
        self.position(path).is_some()
    }

    /// The content stored under `path`.
    pub fn get(&self, path: &str) -> (r: Option<&String>)
        ensures
            r matches Some(c) ==> has_path(self@, path@) && c@ == content_at(self@, path@),
            r is None ==> !has_path(self@, path@),
    {
        proof {
            use_type_invariant(self);
        }
        match self.position(path) {
            Some(i) => {
                proof {
                    lemma_path_index(self@, path@, i as int);
                }
                Some(&self.contents[i])
            },
            None => None,
        }
    }

    /// The path and content of entry `i`, in insertion order.
    fn entry(&self, i: usize) -> (r: (&String, &String))
        requires
            i < self@.len(),
        ensures
            (r.0@, r.1@) == self@[i as int],
    {
        proof {
            use_type_invariant(self);
        }
        (&self.paths[i], &self.contents[i])
    }
}

// ---------------------------------------------------------------------------
// Tree differences
// ---------------------------------------------------------------------------

/// The fields of a file change.
pub struct ChangeSpec {
    pub path: Seq<char>,
    pub additions: u64,
    pub deletions: u64,
}

impl View for FileChange {
    type V = ChangeSpec;

    open spec fn view(&self) -> ChangeSpec {
        ChangeSpec { path: self.path@, additions: self.additions, deletions: self.deletions }
    }
}

/// Number of lines of a text.
pub open spec fn line_count(c: Seq<char>) -> u64 {
    lines(c).len() as u64
}

/// The change a file of the newer tree makes: new files count all their
/// lines as added, changed files their line difference, unchanged ones
/// nothing.
pub open spec fn change_for_current(e: (Seq<char>, Seq<char>), parent: Seq<(Seq<char>, Seq<char>)>) -> Seq<ChangeSpec> {
    if has_path(parent, e.0) {
        let old = content_at(parent, e.0);
        if e.1 != old {
            let d = line_diff(old, e.1);
            seq![ChangeSpec { path: e.0, additions: d.0, deletions: d.1 }]
        } else {
            seq![]
        }
    } else {
        seq![ChangeSpec { path: e.0, additions: line_count(e.1), deletions: 0 }]
    }
}

/// The change a file of the older tree makes: removed files count all their
/// lines as deleted.
pub open spec fn change_for_parent(e: (Seq<char>, Seq<char>), current: Seq<(Seq<char>, Seq<char>)>) -> Seq<ChangeSpec> {
    if has_path(current, e.0) {
        seq![]
    } else {
        seq![ChangeSpec { path: e.0, additions: 0, deletions: line_count(e.1) }]
    }
}

pub open spec fn current_changes(cur: Seq<(Seq<char>, Seq<char>)>, par: Seq<(Seq<char>, Seq<char>)>, k: nat) -> Seq<ChangeSpec>
    decreases k,
{
    if k == 0 || k > cur.len() {
        seq![]
    } else {
        current_changes(cur, par, (k - 1) as nat) + change_for_current(cur[k - 1], par)
    }
}

pub open spec fn removed_changes(cur: Seq<(Seq<char>, Seq<char>)>, par: Seq<(Seq<char>, Seq<char>)>, k: nat) -> Seq<ChangeSpec>
    decreases k,
{
    if k == 0 || k > par.len() {
        seq![]
    } else {
        removed_changes(cur, par, (k - 1) as nat) + change_for_parent(par[k - 1], cur)
    }
}

/// The changes between two trees: those of the newer tree's files in its
/// order, then the files only the older tree has, in its order.
pub open spec fn diff_changes(cur: Seq<(Seq<char>, Seq<char>)>, par: Seq<(Seq<char>, Seq<char>)>) -> Seq<ChangeSpec> {
    current_changes(cur, par, cur.len()) + removed_changes(cur, par, par.len())
}

pub open spec fn sum_additions(cs: Seq<ChangeSpec>) -> int
    decreases cs.len(),
{
    if cs.len() == 0 {
        0
    } else {
        sum_additions(cs.drop_last()) + cs.last().additions
    }
}

pub open spec fn sum_deletions(cs: Seq<ChangeSpec>) -> int
    decreases cs.len(),
{
    if cs.len() == 0 {
        0
    } else {
        sum_deletions(cs.drop_last()) + cs.last().deletions
    }
}

/// The changes between two trees with their totals.
pub struct DiffStatResult {
    pub changes: Vec<FileChange>,
    pub total_additions: u64,
    pub total_deletions: u64,
}

/// Whether every file's line count fits the line difference's tables.
pub open spec fn line_counts_fit(s: Seq<(Seq<char>, Seq<char>)>) -> bool {
    forall|i: int| 0 <= i < s.len() ==> #[trigger] lines(s[i].1).len() < usize::MAX
}

proof fn lemma_sums_push(cs: Seq<ChangeSpec>, c: ChangeSpec)
    ensures
        sum_additions(cs.push(c)) == sum_additions(cs) + c.additions,
        sum_deletions(cs.push(c)) == sum_deletions(cs) + c.deletions,
{
    assert(cs.push(c).drop_last() =~= cs);
}

proof fn lemma_sums_prefix(cs: Seq<ChangeSpec>, k: int)
    requires
        0 <= k <= cs.len(),
    ensures
        sum_additions(cs.take(k)) <= sum_additions(cs),
        sum_deletions(cs.take(k)) <= sum_deletions(cs),
    decreases cs.len(),
{
    if k < cs.len() {
        assert(cs.drop_last().take(k) =~= cs.take(k));
        lemma_sums_prefix(cs.drop_last(), k);
    } else {
        assert(cs.take(k) =~= cs);
    }
}

proof fn lemma_current_prefix(cur: Seq<(Seq<char>, Seq<char>)>, par: Seq<(Seq<char>, Seq<char>)>, k: nat, n: nat)
    requires
        k <= n <= cur.len(),
    ensures
        current_changes(cur, par, k).len() <= current_changes(cur, par, n).len(),
        current_changes(cur, par, n).take(current_changes(cur, par, k).len() as int) == current_changes(cur, par, k),
    decreases n,
{
    if k < n {
        lemma_current_prefix(cur, par, k, (n - 1) as nat);
        let a = current_changes(cur, par, k);
        let b = current_changes(cur, par, (n - 1) as nat);
        assert((b + change_for_current(cur[n - 1], par)).take(a.len() as int) =~= b.take(a.len() as int));
    } else {
        assert(current_changes(cur, par, n).take(current_changes(cur, par, k).len() as int) =~= current_changes(cur, par, k));
    }
}

proof fn lemma_removed_prefix(cur: Seq<(Seq<char>, Seq<char>)>, par: Seq<(Seq<char>, Seq<char>)>, k: nat, n: nat)
    requires
        k <= n <= par.len(),
    ensures
        removed_changes(cur, par, k).len() <= removed_changes(cur, par, n).len(),
        removed_changes(cur, par, n).take(removed_changes(cur, par, k).len() as int) == removed_changes(cur, par, k),
    decreases n,
{
    if k < n {
        lemma_removed_prefix(cur, par, k, (n - 1) as nat);
        let a = removed_changes(cur, par, k);
        let b = removed_changes(cur, par, (n - 1) as nat);
        assert((b + change_for_parent(par[n - 1], cur)).take(a.len() as int) =~= b.take(a.len() as int));
    } else {
        assert(removed_changes(cur, par, n).take(removed_changes(cur, par, k).len() as int) =~= removed_changes(cur, par, k));
    }
}

/// The line changes between the files of a tree and those of its parent.
pub fn compute_diff_stat(current_tree_files: &TreeFiles, parent_tree_files: &TreeFiles) -> (r: DiffStatResult)
    requires
        line_counts_fit(current_tree_files@),
        sum_additions(diff_changes(current_tree_files@, parent_tree_files@)) <= u64::MAX,
        sum_deletions(diff_changes(current_tree_files@, parent_tree_files@)) <= u64::MAX,
    ensures
        views(r.changes@) == diff_changes(current_tree_files@, parent_tree_files@),
        r.total_additions == sum_additions(diff_changes(current_tree_files@, parent_tree_files@)),
        r.total_deletions == sum_deletions(diff_changes(current_tree_files@, parent_tree_files@)),
{
    let cur = current_tree_files;
    let par = parent_tree_files;
    let ghost all = diff_changes(cur@, par@);
    let mut changes: Vec<FileChange> = Vec::new();
    let mut total_additions: u64 = 0;
    let mut total_deletions: u64 = 0;
    let mut i: usize = 0;
    let n = cur.len();
    while i < n
        invariant
            i <= cur@.len(),
            cur@.len() == n,
            all == diff_changes(cur@, par@),
            line_counts_fit(cur@),
            sum_additions(all) <= u64::MAX,
            sum_deletions(all) <= u64::MAX,
            views(changes@) == current_changes(cur@, par@, i as nat),
            total_additions == sum_additions(views(changes@)),
            total_deletions == sum_deletions(views(changes@)),
        decreases n - i,
    {
        let ghost before = views(changes@);
        let (path, content) = cur.entry(i);
        assert(cur@[i as int] == (path@, content@));
        proof {
            let next = current_changes(cur@, par@, (i + 1) as nat);
            assert(before + change_for_current(cur@[i as int], par@) == next);
            lemma_current_prefix(cur@, par@, (i + 1) as nat, cur@.len());
            assert(all.take(next.len() as int) =~= next);
            lemma_sums_prefix(all, next.len() as int);
        }
        match par.get(path.as_str()) {
            Some(old_content) => {
                if !(*content == *old_content) {
                    let (add, del) = count_line_diff(old_content.as_str(), content.as_str());
                    let fc = FileChange { path: path.clone(), additions: add, deletions: del };
                    proof {
                        lemma_sums_push(before, fc@);
                    }
                    changes.push(fc);
                    assert(views(changes@) =~= before.push(fc@));
                    assert(change_for_current(cur@[i as int], par@) =~= seq![fc@]);
                    assert(views(changes@) == current_changes(cur@, par@, (i + 1) as nat));
                    total_additions = total_additions + add;
                    total_deletions = total_deletions + del;
                }
            },
            None => {
                let add = line_views(content.as_str()).len() as u64;
                let fc = FileChange { path: path.clone(), additions: add, deletions: 0 };
                proof {
                    lemma_sums_push(before, fc@);
                }
                changes.push(fc);
                assert(views(changes@) =~= before.push(fc@));
                assert(change_for_current(cur@[i as int], par@) =~= seq![fc@]);
                assert(views(changes@) == current_changes(cur@, par@, (i + 1) as nat));
                total_additions = total_additions + add;
            },
        }
        i = i + 1;
    }
    let ghost mid = views(changes@);
    let mut j: usize = 0;
    let pn = par.len();
    while j < pn
        invariant
            j <= par@.len(),
            par@.len() == pn,
            all == diff_changes(cur@, par@),
            mid == current_changes(cur@, par@, cur@.len()),
            sum_additions(all) <= u64::MAX,
            sum_deletions(all) <= u64::MAX,
            views(changes@) == mid + removed_changes(cur@, par@, j as nat),
            total_additions == sum_additions(views(changes@)),
            total_deletions == sum_deletions(views(changes@)),
        decreases pn - j,
    {
        let ghost before = views(changes@);
        let (path, content) = par.entry(j);
        assert(par@[j as int] == (path@, content@));
        proof {
            let next = mid + removed_changes(cur@, par@, (j + 1) as nat);
            assert(before + change_for_parent(par@[j as int], cur@) =~= next);
            lemma_removed_prefix(cur@, par@, (j + 1) as nat, par@.len());
            let rn = removed_changes(cur@, par@, par@.len());
            let rk = removed_changes(cur@, par@, (j + 1) as nat);
            assert(all.take(next.len() as int) =~= mid + rn.take(rk.len() as int));
            assert(all.take(next.len() as int) =~= next);
            lemma_sums_prefix(all, next.len() as int);
        }
        if !cur.contains_key(path.as_str()) {
            let del = line_views(content.as_str()).len() as u64;
            let fc = FileChange { path: path.clone(), additions: 0, deletions: del };
            proof {
                lemma_sums_push(before, fc@);
            }
            changes.push(fc);
            assert(views(changes@) =~= before.push(fc@));
            assert(change_for_parent(par@[j as int], cur@) =~= seq![fc@]);
            assert(views(changes@) =~= mid + removed_changes(cur@, par@, (j + 1) as nat));
            total_deletions = total_deletions + del;
        }
        j = j + 1;
    }
    DiffStatResult { changes, total_additions, total_deletions }
}

/// Comparing a tree with itself finds no change.
pub proof fn law_diff_identical(files: Seq<(Seq<char>, Seq<char>)>)
    requires
        distinct_paths(files),
    ensures
        diff_changes(files, files) == Seq::<ChangeSpec>::empty(),
{
    assert forall|k: nat| k <= files.len() implies #[trigger] current_changes(files, files, k) == Seq::<ChangeSpec>::empty() by {
        lemma_current_unchanged(files, k);
    }
    assert forall|k: nat| k <= files.len() implies #[trigger] removed_changes(files, files, k) == Seq::<ChangeSpec>::empty() by {
        lemma_removed_none(files, k);
    }
    assert(current_changes(files, files, files.len()) == Seq::<ChangeSpec>::empty());
    assert(removed_changes(files, files, files.len()) == Seq::<ChangeSpec>::empty());
    assert(diff_changes(files, files) =~= Seq::<ChangeSpec>::empty());
}

proof fn lemma_current_unchanged(files: Seq<(Seq<char>, Seq<char>)>, k: nat)
    requires
        distinct_paths(files),
        k <= files.len(),
    ensures
        current_changes(files, files, k) == Seq::<ChangeSpec>::empty(),
    decreases k,
{
    if k > 0 {
        lemma_current_unchanged(files, (k - 1) as nat);
        let e = files[k - 1];
        assert(has_path(files, e.0));
        let c = choose|i: int| 0 <= i < files.len() && #[trigger] files[i].0 == e.0;
        assert(c == k - 1);
        assert(change_for_current(e, files) =~= Seq::<ChangeSpec>::empty());
        assert(current_changes(files, files, k) =~= Seq::<ChangeSpec>::empty());
    }
}

proof fn lemma_removed_none(files: Seq<(Seq<char>, Seq<char>)>, k: nat)
    requires
        k <= files.len(),
    ensures
        removed_changes(files, files, k) == Seq::<ChangeSpec>::empty(),
    decreases k,
{
    if k > 0 {
        lemma_removed_none(files, (k - 1) as nat);
        let e = files[k - 1];
        assert(has_path(files, e.0));
        assert(removed_changes(files, files, k) =~= Seq::<ChangeSpec>::empty());
    }
}

// ---------------------------------------------------------------------------
// Estimates
// ---------------------------------------------------------------------------

/// The additions estimated from the sizes of the first `k` parent trees:
/// one for an empty tree, one more than a tenth of the files otherwise.
pub open spec fn estimated_additions(sizes: Seq<nat>, k: nat) -> int
    decreases k,
{
    if k == 0 || k > sizes.len() {
        0
    } else {
        estimated_additions(sizes, (k - 1) as nat) + (if sizes[k - 1] == 0 {
            1
        } else {
            sizes[k - 1] / 10 + 1
        })
    }
}

/// The deletions estimated from the sizes of the first `k` parent trees: a
/// twentieth of the files of each.
pub open spec fn estimated_deletions(sizes: Seq<nat>, k: nat) -> int
    decreases k,
{
    if k == 0 || k > sizes.len() {
        0
    } else {
        estimated_deletions(sizes, (k - 1) as nat) + sizes[k - 1] / 20
    }
}

/// The number of files of each tree.
pub open spec fn tree_sizes(trees: Seq<TreeFiles>) -> Seq<nat> {
    trees.map_values(|t: TreeFiles| t@.len())
}

/// A rough count of the lines a commit adds and removes, from the sizes of
/// its parents' trees; a root commit counts at least one addition and no
/// deletion.
pub fn estimate_commit_changes(commit: &Commit, parent_tree_files: &[TreeFiles]) -> (r: (u64, u64))
    requires
        estimated_additions(tree_sizes(parent_tree_files@), parent_tree_files@.len()) <= u64::MAX,
        estimated_deletions(tree_sizes(parent_tree_files@), parent_tree_files@.len()) <= u64::MAX,
    ensures
        ({
            let sizes = tree_sizes(parent_tree_files@);
            let add = estimated_additions(sizes, sizes.len());
            let del = estimated_deletions(sizes, sizes.len());
            if commit.parent_hashes@.len() == 0 {
                r == ((if add >= 1 {
                    add
                } else {
                    1
                }) as u64, 0u64)
            } else {
                r == (add as u64, del as u64)
            }
        }),
{
    let ghost sizes = tree_sizes(parent_tree_files@);
    let mut total_add: u64 = 0;
    let mut total_del: u64 = 0;
    let mut i: usize = 0;
    while i < parent_tree_files.len()
        invariant
            i <= parent_tree_files@.len(),
            sizes == tree_sizes(parent_tree_files@),
            estimated_additions(sizes, sizes.len()) <= u64::MAX,
            estimated_deletions(sizes, sizes.len()) <= u64::MAX,
            total_add == estimated_additions(sizes, i as nat),
            total_del == estimated_deletions(sizes, i as nat),
        decreases parent_tree_files.len() - i,
    {
        proof {
            lemma_estimates_grow(sizes, (i + 1) as nat, sizes.len());
        }
        let parent_files = &parent_tree_files[i];
        if parent_files.is_empty() {
            total_add = total_add + 1;
        } else {
            let n = parent_files.len() as u64;
            total_add = total_add + n / 10 + 1;
            total_del = total_del + n / 20;
        }
        i = i + 1;
    }
    if commit.parent_hashes.len() == 0 {
        if total_add < 1 {
            total_add = 1;
        }
        total_del = 0;
    }
    (total_add, total_del)
}

proof fn lemma_estimates_grow(sizes: Seq<nat>, k: nat, n: nat)
    requires
        k <= n <= sizes.len(),
    ensures
        estimated_additions(sizes, k) <= estimated_additions(sizes, n),
        estimated_deletions(sizes, k) <= estimated_deletions(sizes, n),
    decreases n,
{
    if k < n {
        lemma_estimates_grow(sizes, k, (n - 1) as nat);
    }
}

} // verus!
