//! What a repository's references and object graph say, once read: the
//! branches of `packed-refs` and of `refs/heads`, which of them `HEAD`
//! points at, the walk that gathers every reachable commit, and the
//! languages counted over a tree.
use vstd::prelude::*;

use crate::analyzer::diff::views;
use crate::git_parser::commit_parser::{commit_outcome, parse_commit, CommitSpec};
use crate::git_parser::object_reader::GitObjectSpec;
use crate::git_parser::tree_parser::{
    detect_language, entries_from, extension, language_of_extension, parse_tree, TreeEntrySpec, TreeSpec,
};
use crate::models::git_object::{
    contains_string, object_type_name, strings_view, Branch, BranchSpec, Commit, ErrorView, GitObject, GitObjectType, GitVizError,
    Tree, TreeEntry, TreeEntryType,
};
use crate::models::stats::{can_count, count_one, LanguageCounts};
use crate::text::{
    chars_of, concat, copy_range, has_prefix, is_whitespace, is_ws, lines, split_lines, starts_with, str_eq,
    string_of, string_of_range, trim, trim_chars, trim_start,
};

verus! {

// ---------------------------------------------------------------------------
// packed-refs
// ---------------------------------------------------------------------------

/// The length of the leading run of non-whitespace characters.
pub open spec fn word_end(s: Seq<char>) -> nat
    decreases s.len(),
{
    if s.len() == 0 || is_ws(s[0]) {
        0
    } else {
        1 + word_end(s.drop_first())
    }
}

/// The first whitespace-separated word of a text, if it has one
/// (`split_whitespace().next()`).
pub open spec fn first_word(s: Seq<char>) -> Option<Seq<char>> {
    let t = trim_start(s);
    if t.len() == 0 {
        None
    } else {
        Some(t.take(word_end(t) as int))
    }
}

/// The text after its first word.
pub open spec fn after_first_word(s: Seq<char>) -> Seq<char> {
    let t = trim_start(s);
    t.skip(word_end(t) as int)
}

/// The branch one line of `packed-refs` records: blank lines, comments and
/// peeled lines (`^...`) record none, nor do lines without a second word or
/// whose reference is not under `refs/heads/`. The branch is the head when
/// its hash is the one `HEAD` resolves to.
pub open spec fn packed_ref(line: Seq<char>, head: Option<Seq<char>>) -> Option<BranchSpec> {
    let l = trim(line);
    if l.len() == 0 || l[0] == '#' || l[0] == '^' {
        None
    } else {
        match (first_word(l), first_word(after_first_word(l))) {
            (Some(h), Some(n)) => if has_prefix(n, "refs/heads/"@) {
                Some(BranchSpec { name: n.skip(11), commit_hash: h, is_head: head == Some(h) })
            } else {
                None
            },
            _ => None,
        }
    }
}

/// The branches the lines record, in order.
pub open spec fn packed_refs_of(ls: Seq<Seq<char>>, head: Option<Seq<char>>) -> Seq<BranchSpec>
    decreases ls.len(),
{
    if ls.len() == 0 {
        seq![]
    } else {
        let rest = packed_refs_of(ls.drop_last(), head);
        match packed_ref(ls.last(), head) {
            Some(b) => rest.push(b),
            None => rest,
        }
    }
}

/// An optional string by its characters.
pub open spec fn opt_view(o: Option<&str>) -> Option<Seq<char>> {
    match o {
        Some(s) => Some(s@),
        None => None,
    }
}

/// Skips whitespace from `lo`, then a word: where the word starts and ends.
fn next_word(s: &[char], lo: usize) -> (r: (usize, usize))
    requires
        lo <= s@.len(),
    ensures
        lo <= r.0 <= r.1 <= s@.len(),
        trim_start(s@.skip(lo as int)) == s@.skip(r.0 as int),
        word_end(s@.skip(r.0 as int)) == r.1 - r.0,
{
    let mut a = lo;
    while a < s.len() && is_whitespace(s[a])
        invariant
            lo <= a <= s@.len(),
            trim_start(s@.skip(lo as int)) == trim_start(s@.skip(a as int)),
        decreases s.len() - a,
    {
        assert(s@.skip(a as int).drop_first() =~= s@.skip(a + 1));
        a = a + 1;
    }
    assert(a == s@.len() ==> s@.skip(a as int) =~= Seq::<char>::empty());
    let mut b = a;
    while b < s.len() && !is_whitespace(s[b])
        invariant
            a <= b <= s@.len(),
            word_end(s@.skip(a as int)) == (b - a) + word_end(s@.skip(b as int)),
        decreases s.len() - b,
    {
        assert(s@.skip(b as int).drop_first() =~= s@.skip(b + 1));
        b = b + 1;
    }
    assert(b == s@.len() ==> s@.skip(b as int) =~= Seq::<char>::empty());
    (a, b)
}

/// The branch a line of `packed-refs` records, if any.
fn packed_ref_line(line: &[char], head: Option<&str>) -> (r: Option<Branch>)
    ensures
        match (r, packed_ref(line@, opt_view(head))) {
            (Some(b), Some(c)) => b@ == c,
            (None, None) => true,
            _ => false,
        },
{
    let l = trim_chars(line);
    if l.len() == 0 || l[0] == '#' || l[0] == '^' {
        return None;
    }
    let (a1, b1) = next_word(&l, 0);
    assert(l@.skip(0) =~= l@);
    let ghost t = trim_start(l@);
    assert(t == l@.skip(a1 as int));
    if a1 == l.len() {
        return None;
    }
    let hash = string_of_range(&l, a1, b1);
    assert(hash@ =~= t.take(word_end(t) as int));
    let ghost rest = after_first_word(l@);
    assert(rest =~= l@.skip(b1 as int));
    let (a2, b2) = next_word(&l, b1);
    if a2 == l.len() {
        assert(trim_start(rest).len() == 0);
        return None;
    }
    let name = copy_range(&l, a2, b2);
    assert(name@ =~= trim_start(rest).take(word_end(trim_start(rest)) as int));
    let prefix = chars_of("refs/heads/");
    proof {
        reveal_strlit("refs/heads/");
    }
    if !starts_with(&name, &prefix) {
        return None;
    }
    let short = string_of_range(&name, 11, name.len());
    assert(short@ =~= name@.skip(11));
    let is_head = match head {
        Some(h) => str_eq(h, hash.as_str()),
        None => false,
    };
    Some(Branch { name: short, commit_hash: hash, is_head })
}

/// The branches a `packed-refs` file lists under `refs/heads/`, in file
/// order; `head` is the hash `HEAD` resolves to, if it resolves.
pub fn parse_packed_refs(content: &str, head: Option<&str>) -> (r: Vec<Branch>)
    ensures
        views(r@) == packed_refs_of(lines(content@), opt_view(head)),
{
    let cs = chars_of(content);
    let ls = split_lines(&cs);
    let ghost lv = lines(content@);
    let mut r: Vec<Branch> = Vec::new();
    let mut i: usize = 0;
    assert(lv.take(0) =~= Seq::<Seq<char>>::empty());
    while i < ls.len()
        invariant
            i <= ls@.len(),
            ls@.len() == lv.len(),
            forall|k: int| 0 <= k < ls@.len() ==> #[trigger] ls@[k]@ == lv[k],
            lv == lines(content@),
            views(r@) == packed_refs_of(lv.take(i as int), opt_view(head)),
        decreases ls.len() - i,
    {
        assert(lv.take(i + 1).drop_last() =~= lv.take(i as int));
        assert(lv.take(i + 1).last() == ls@[i as int]@);
        match packed_ref_line(&ls[i], head) {
            Some(b) => {
                let ghost before = views(r@);
                r.push(b);
                assert(views(r@) =~= before.push(b@));
            },
            None => {},
        }
        i = i + 1;
    }
    assert(lv.take(ls@.len() as int) =~= lv);
    r
}

// ---------------------------------------------------------------------------
// Branches
// ---------------------------------------------------------------------------

/// The name under which a `HEAD` that no branch points at is listed.
pub open spec fn detached_name() -> Seq<char> {
    "HEAD (detached)"@
}

/// Whether some branch has the name `n`.
pub open spec fn has_branch_named(bs: Seq<BranchSpec>, n: Seq<char>) -> bool {
    exists|i: int| 0 <= i < bs.len() && #[trigger] bs[i].name == n
}

/// Whether some branch points at `h`.
pub open spec fn has_branch_at(bs: Seq<BranchSpec>, h: Seq<char>) -> bool {
    exists|i: int| 0 <= i < bs.len() && #[trigger] bs[i].commit_hash == h
}

/// The branches of `bs`, then those of `packed` whose names are not taken
/// yet, each name once.
pub open spec fn add_unseen(bs: Seq<BranchSpec>, packed: Seq<BranchSpec>) -> Seq<BranchSpec>
    decreases packed.len(),
{
    if packed.len() == 0 {
        bs
    } else {
        let prev = add_unseen(bs, packed.drop_last());
        if has_branch_named(prev, packed.last().name) {
            prev
        } else {
            prev.push(packed.last())
        }
    }
}

/// The branches, with `HEAD`'s commit added as a detached head where no
/// branch points at it and none has that name yet.
pub open spec fn with_detached(bs: Seq<BranchSpec>, head: Option<Seq<char>>) -> Seq<BranchSpec> {
    match head {
        Some(t) => if !has_branch_at(bs, t) && !has_branch_named(bs, detached_name()) {
            bs.push(BranchSpec { name: detached_name(), commit_hash: t, is_head: true })
        } else {
            bs
        },
        None => bs,
    }
}

/// The branches with exactly those at `HEAD`'s commit marked as the head,
/// when `HEAD` resolves.
pub open spec fn mark_head(bs: Seq<BranchSpec>, head: Option<Seq<char>>) -> Seq<BranchSpec> {
    match head {
        Some(h) => bs.map_values(|b: BranchSpec| BranchSpec { is_head: b.commit_hash == h, ..b }),
        None => bs,
    }
}

/// The branches of a repository: those under `refs/heads`, those of
/// `packed-refs` not listed already, and a detached head where needed, each
/// marked as the head when it points where `HEAD` does.
pub open spec fn merged_branches(loose: Seq<BranchSpec>, packed: Seq<BranchSpec>, head: Option<Seq<char>>) -> Seq<BranchSpec> {
    mark_head(with_detached(add_unseen(loose, packed), head), head)
}

fn has_name(bs: &Vec<Branch>, n: &str) -> (r: bool)
    ensures
        r == has_branch_named(views(bs@), n@),
{
    let mut i: usize = 0;
    while i < bs.len()
        invariant
            i <= bs@.len(),
            forall|k: int| 0 <= k < i ==> #[trigger] bs@[k].name@ != n@,
        decreases bs.len() - i,
    {
        if str_eq(bs[i].name.as_str(), n) {
            assert(views(bs@)[i as int].name == n@);
            return true;
        }
        i = i + 1;
    }
    proof {
        if has_branch_named(views(bs@), n@) {
            let k = choose|k: int| 0 <= k < views(bs@).len() && #[trigger] views(bs@)[k].name == n@;
            assert(bs@[k].name@ == n@);
        }
    }
    false
}

fn has_hash(bs: &Vec<Branch>, h: &str) -> (r: bool)
    ensures
        r == has_branch_at(views(bs@), h@),
{
    let mut i: usize = 0;
    while i < bs.len()
        invariant
            i <= bs@.len(),
            forall|k: int| 0 <= k < i ==> #[trigger] bs@[k].commit_hash@ != h@,
        decreases bs.len() - i,
    {
        if str_eq(bs[i].commit_hash.as_str(), h) {
            assert(views(bs@)[i as int].commit_hash == h@);
            return true;
        }
        i = i + 1;
    }
    proof {
        if has_branch_at(views(bs@), h@) {
            let k = choose|k: int| 0 <= k < views(bs@).len() && #[trigger] views(bs@)[k].commit_hash == h@;
            assert(bs@[k].commit_hash@ == h@);
        }
    }
    false
}

/// The branches of a repository from those listed under `refs/heads`
/// (`loose`), those of `packed-refs` (`packed`) and the hash `HEAD`
/// resolves to, if it does.
pub fn merge_branches(loose: Vec<Branch>, packed: Vec<Branch>, head: Option<&str>) -> (r: Vec<Branch>)
    ensures
        views(r@) == merged_branches(views(loose@), views(packed@), opt_view(head)),
{
    let ghost lv = views(loose@);
    let ghost pv = views(packed@);
    let mut branches = loose;
    let mut i: usize = 0;
    assert(pv.take(0) =~= Seq::<BranchSpec>::empty());
    while i < packed.len()
        invariant
            i <= packed@.len(),
            pv == views(packed@),
            views(branches@) == add_unseen(lv, pv.take(i as int)),
        decreases packed.len() - i,
    {
        let b = &packed[i];
        assert(pv.take(i + 1).drop_last() =~= pv.take(i as int));
        assert(pv.take(i + 1).last() == b@);
        if !has_name(&branches, b.name.as_str()) {
            let ghost before = views(branches@);
            let nb = Branch { name: b.name.clone(), commit_hash: b.commit_hash.clone(), is_head: b.is_head };
            branches.push(nb);
            assert(views(branches@) =~= before.push(b@));
        }
        i = i + 1;
    }
    assert(pv.take(packed@.len() as int) =~= pv);
    let ghost unseen = views(branches@);
    match head {
        Some(t) => {
            let detached = "HEAD (detached)";
            proof {
                reveal_strlit("HEAD (detached)");
            }
            if !has_hash(&branches, t) && !has_name(&branches, detached) {
                let ghost before = views(branches@);
                branches.push(Branch { name: detached.to_owned(), commit_hash: t.to_owned(), is_head: true });
                assert(views(branches@) =~= before.push(
                    BranchSpec { name: detached_name(), commit_hash: t@, is_head: true },
                ));
            }
        },
        None => {},
    }
    assert(views(branches@) == with_detached(unseen, opt_view(head)));
    match head {
        Some(h) => {
            let ghost wd = views(branches@);
            let mut marked: Vec<Branch> = Vec::new();
            let mut k: usize = 0;
            while k < branches.len()
                invariant
                    k <= branches@.len(),
                    wd == views(branches@),
                    views(marked@) =~= mark_head(wd, Some(h@)).take(k as int),
                decreases branches.len() - k,
            {
                let b = &branches[k];
                let is_head = str_eq(b.commit_hash.as_str(), h);
                let nb = Branch { name: b.name.clone(), commit_hash: b.commit_hash.clone(), is_head };
                let ghost before = views(marked@);
                marked.push(nb);
                assert(views(marked@) =~= before.push(nb@));
                assert(mark_head(wd, Some(h@)).take(k + 1) =~= mark_head(wd, Some(h@)).take(k as int).push(
                    mark_head(wd, Some(h@))[k as int],
                ));
                k = k + 1;
            }
            assert(mark_head(wd, Some(h@)).take(branches@.len() as int) =~= mark_head(wd, Some(h@)));
            marked
        },
        None => branches,
    }
}

/// Whether no two branches share a name.
pub open spec fn distinct_branch_names(bs: Seq<BranchSpec>) -> bool {
    forall|i: int, j: int| 0 <= i < j < bs.len() ==> #[trigger] bs[i].name != #[trigger] bs[j].name
}

proof fn lemma_add_unseen(bs: Seq<BranchSpec>, packed: Seq<BranchSpec>)
    ensures
        distinct_branch_names(bs) ==> distinct_branch_names(add_unseen(bs, packed)),
        forall|n: Seq<char>| has_branch_named(add_unseen(bs, packed), n) <==> (has_branch_named(bs, n) || has_branch_named(packed, n)),
        forall|i: int| 0 <= i < bs.len() ==> add_unseen(bs, packed)[i] == bs[i],
        add_unseen(bs, packed).len() >= bs.len(),
    decreases packed.len(),
{
    if packed.len() > 0 {
        let q = packed.drop_last();
        let x = packed.last();
        lemma_add_unseen(bs, q);
        let prev = add_unseen(bs, q);
        assert forall|n: Seq<char>| has_branch_named(packed, n) <==> (has_branch_named(q, n) || x.name == n) by {
            if has_branch_named(packed, n) {
                let i = choose|i: int| 0 <= i < packed.len() && #[trigger] packed[i].name == n;
                if i < q.len() {
                    assert(q[i] == packed[i]);
                }
            }
            if has_branch_named(q, n) {
                let i = choose|i: int| 0 <= i < q.len() && #[trigger] q[i].name == n;
                assert(packed[i] == q[i]);
            }
            if x.name == n {
                assert(packed[packed.len() - 1].name == n);
            }
        }
        if !has_branch_named(prev, x.name) {
            let next = prev.push(x);
            assert forall|n: Seq<char>| has_branch_named(next, n) <==> (has_branch_named(prev, n) || x.name == n) by {
                if has_branch_named(next, n) {
                    let i = choose|i: int| 0 <= i < next.len() && #[trigger] next[i].name == n;
                    if i < prev.len() {
                        assert(prev[i] == next[i]);
                    }
                }
                if has_branch_named(prev, n) {
                    let i = choose|i: int| 0 <= i < prev.len() && #[trigger] prev[i].name == n;
                    assert(next[i] == prev[i]);
                }
                if x.name == n {
                    assert(next[prev.len() as int].name == n);
                }
            }
            if distinct_branch_names(bs) {
                assert forall|i: int, j: int| 0 <= i < j < next.len() implies #[trigger] next[i].name != #[trigger] next[j].name by {
                    if j == prev.len() {
                        assert(next[i] == prev[i]);
                        if next[i].name == x.name {
                            assert(has_branch_named(prev, x.name));
                        }
                    } else {
                        assert(next[i] == prev[i] && next[j] == prev[j]);
                    }
                }
            }
        }
    }
}

/// Listing the branches names each branch once: where the names under
/// `refs/heads` are distinct, so are those listed.
pub proof fn law_merged_names_distinct(loose: Seq<BranchSpec>, packed: Seq<BranchSpec>, head: Option<Seq<char>>)
    requires
        distinct_branch_names(loose),
    ensures
        distinct_branch_names(merged_branches(loose, packed, head)),
{
    lemma_add_unseen(loose, packed);
    let u = add_unseen(loose, packed);
    let w = with_detached(u, head);
    if let Some(t) = head {
        if !has_branch_at(u, t) && !has_branch_named(u, detached_name()) {
            assert forall|i: int, j: int| 0 <= i < j < w.len() implies #[trigger] w[i].name != #[trigger] w[j].name by {
                if j == u.len() {
                    assert(w[i] == u[i]);
                    if w[i].name == detached_name() {
                        assert(has_branch_named(u, detached_name()));
                    }
                } else {
                    assert(w[i] == u[i] && w[j] == u[j]);
                }
            }
        }
    }
    let m = merged_branches(loose, packed, head);
    assert forall|i: int, j: int| 0 <= i < j < m.len() implies #[trigger] m[i].name != #[trigger] m[j].name by {
        assert(m[i].name == w[i].name && m[j].name == w[j].name);
    }
}

/// No branch is lost: every branch name under `refs/heads` or in
/// `packed-refs` is listed.
pub proof fn law_merged_keeps_names(loose: Seq<BranchSpec>, packed: Seq<BranchSpec>, head: Option<Seq<char>>, n: Seq<char>)
    requires
        has_branch_named(loose, n) || has_branch_named(packed, n),
    ensures
        has_branch_named(merged_branches(loose, packed, head), n),
{
    lemma_add_unseen(loose, packed);
    let u = add_unseen(loose, packed);
    let w = with_detached(u, head);
    let i = choose|i: int| 0 <= i < u.len() && #[trigger] u[i].name == n;
    assert(w[i] == u[i]);
    let m = merged_branches(loose, packed, head);
    assert(m[i].name == n);
}

/// When `HEAD` resolves to `h` and no branch already bears the detached
/// name, some listed branch points at `h`, and the branches marked as the
/// head are exactly those pointing at `h`.
pub proof fn law_merged_head_marked(loose: Seq<BranchSpec>, packed: Seq<BranchSpec>, h: Seq<char>)
    requires
        !has_branch_named(loose, detached_name()),
        !has_branch_named(packed, detached_name()),
    ensures
        has_branch_at(merged_branches(loose, packed, Some(h)), h),
        forall|i: int|
            0 <= i < merged_branches(loose, packed, Some(h)).len() ==> (#[trigger] merged_branches(loose, packed, Some(h))[i]).is_head
                == (merged_branches(loose, packed, Some(h))[i].commit_hash == h),
{
    lemma_add_unseen(loose, packed);
    let u = add_unseen(loose, packed);
    let w = with_detached(u, Some(h));
    let m = merged_branches(loose, packed, Some(h));
    if has_branch_at(u, h) {
        let i = choose|i: int| 0 <= i < u.len() && #[trigger] u[i].commit_hash == h;
        assert(w[i] == u[i]);
        assert(m[i].commit_hash == h);
    } else {
        assert(w[u.len() as int].commit_hash == h);
        assert(m[u.len() as int].commit_hash == h);
    }
}

// ---------------------------------------------------------------------------
// Gathering every commit
// ---------------------------------------------------------------------------

/// The hashes at the front of the queue that were loaded already, skipped.
pub open spec fn skip_visited(pending: Seq<Seq<char>>, visited: Seq<Seq<char>>) -> Seq<Seq<char>>
    decreases pending.len(),
{
    if pending.len() > 0 && visited.contains(pending[0]) {
        skip_visited(pending.drop_first(), visited)
    } else {
        pending
    }
}

/// The parents not loaded yet, in order.
pub open spec fn unvisited(parents: Seq<Seq<char>>, visited: Seq<Seq<char>>) -> Seq<Seq<char>>
    decreases parents.len(),
{
    if parents.len() == 0 {
        seq![]
    } else {
        let rest = unvisited(parents.drop_last(), visited);
        if visited.contains(parents.last()) {
            rest
        } else {
            rest.push(parents.last())
        }
    }
}

/// The parents a delivered commit puts in the queue are exactly those not
/// loaded yet: each parent (first or later) that was not visited is
/// queued, and nothing else is.
pub proof fn law_unvisited_parents(parents: Seq<Seq<char>>, visited: Seq<Seq<char>>, p: Seq<char>)
    ensures
        unvisited(parents, visited).contains(p) <==> parents.contains(p) && !visited.contains(p),
    decreases parents.len(),
{
    if parents.len() > 0 {
        let init = parents.drop_last();
        law_unvisited_parents(init, visited, p);
        let rest = unvisited(init, visited);
        assert(parents =~= init.push(parents.last()));
        if parents.contains(p) {
            let i = choose|i: int| 0 <= i < parents.len() && parents[i] == p;
            if i < init.len() {
                assert(init[i] == p);
            }
        }
        if init.contains(p) {
            let i = choose|i: int| 0 <= i < init.len() && init[i] == p;
            assert(parents[i] == p);
        }
        if !visited.contains(parents.last()) {
            let r = rest.push(parents.last());
            if rest.contains(p) {
                let i = choose|i: int| 0 <= i < rest.len() && rest[i] == p;
                assert(r[i] == p);
            }
            if r.contains(p) {
                let i = choose|i: int| 0 <= i < r.len() && r[i] == p;
                if i < rest.len() {
                    assert(rest[i] == p);
                }
            }
            assert(r[rest.len() as int] == parents.last());
            assert(parents[parents.len() - 1] == parents.last());
        } else {
            assert(parents[parents.len() - 1] == parents.last());
        }
    }
}

/// Where a walk over the commit graph stands: the hashes waiting, those
/// loaded (or tried), and the commits found.
pub struct WalkSpec {
    pub pending: Seq<Seq<char>>,
    pub visited: Seq<Seq<char>>,
    pub commits: Seq<CommitSpec>,
}

/// A breadth-first walk from the branches' commits along parent links that
/// loads each hash once. The caller loads the commit of each hash the walk
/// asks for and hands the result back.
pub struct CommitWalk {
    queue: Vec<String>,
    next: usize,
    visited: Vec<String>,
    commits: Vec<Commit>,
}

impl View for CommitWalk {
    type V = WalkSpec;

    closed spec fn view(&self) -> WalkSpec {
        WalkSpec {
            pending: strings_view(self.queue@).skip(self.next as int),
            visited: strings_view(self.visited@),
            commits: views(self.commits@),
        }
    }
}

impl CommitWalk {
    #[verifier::type_invariant]
    closed spec fn wf(self) -> bool {
        &&& self.next <= self.queue@.len()
        &&& strings_view(self.visited@).no_duplicates()
    }

    /// A walk that starts from the commits the branches point at, in order.
    pub fn new(branches: &[Branch]) -> (r: CommitWalk)
        ensures
            r@.pending == views(branches@).map_values(|b: BranchSpec| b.commit_hash),
            r@.visited == Seq::<Seq<char>>::empty(),
            r@.commits == Seq::<CommitSpec>::empty(),
    {
        let mut queue: Vec<String> = Vec::new();
        let mut i: usize = 0;
        while i < branches.len()
            invariant
                i <= branches@.len(),
                strings_view(queue@) == views(branches@).take(i as int).map_values(|b: BranchSpec| b.commit_hash),
            decreases branches.len() - i,
        {
            let ghost before = strings_view(queue@);
            queue.push(branches[i].commit_hash.clone());
            assert(strings_view(queue@) =~= before.push(branches@[i as int].commit_hash@));
            assert(views(branches@).take(i + 1).map_values(|b: BranchSpec| b.commit_hash) =~= views(branches@).take(
                i as int,
            ).map_values(|b: BranchSpec| b.commit_hash).push(branches@[i as int].commit_hash@));
            i = i + 1;
        }
        assert(views(branches@).take(branches@.len() as int) =~= views(branches@));
        let r = CommitWalk { queue, next: 0, visited: Vec::new(), commits: Vec::new() };
        assert(r@.pending =~= strings_view(r.queue@));
        assert(r@.visited =~= Seq::<Seq<char>>::empty());
        assert(r@.commits =~= Seq::<CommitSpec>::empty());
        r
    }

    /// The next hash to load: the first waiting one not loaded yet, which
    /// now counts as loaded; `None` once no hash waits.
    pub fn next_hash(&mut self) -> (r: Option<String>)
        ensures
            skip_visited(old(self)@.pending, old(self)@.visited).len() == 0 ==> r is None && final(self)@ == (WalkSpec {
                pending: seq![],
                ..old(self)@
            }),
            skip_visited(old(self)@.pending, old(self)@.visited).len() > 0 ==> (r matches Some(h) && h@ == skip_visited(
                old(self)@.pending,
                old(self)@.visited,
            )[0] && !old(self)@.visited.contains(h@) && final(self)@ == (WalkSpec {
                pending: skip_visited(old(self)@.pending, old(self)@.visited).drop_first(),
                visited: old(self)@.visited.push(h@),
                commits: old(self)@.commits,
            })),
    {
        proof {
            use_type_invariant(&*self);
        }
        let ghost start = self@;
        loop
            invariant
                start == old(self)@,
                self.next <= self.queue@.len(),
                strings_view(self.visited@).no_duplicates(),
                self@.visited == start.visited,
                self@.commits == start.commits,
                skip_visited(start.pending, start.visited) == skip_visited(self@.pending, self@.visited),
            decreases self.queue@.len() - self.next,
        {
            if self.next >= self.queue.len() {
                assert(self@.pending =~= Seq::<Seq<char>>::empty());
                return None;
            }
            let h = self.queue[self.next].clone();
            let ghost p = self@.pending;
            assert(p[0] == h@);
            assert(p.drop_first() =~= strings_view(self.queue@).skip(self.next + 1));
            self.next = self.next + 1;
            if !contains_string(&self.visited, h.as_str()) {
                assert(skip_visited(p, start.visited) == p);
                let ghost before = self@.visited;
                let v = h.clone();
                let mut visited: Vec<String> = Vec::new();
                std::mem::swap(&mut visited, &mut self.visited);
                visited.push(v);
                proof {
                    let nv = strings_view(visited@);
                    assert(nv =~= before.push(h@));
                    assert forall|a: int, b: int| 0 <= a < nv.len() && 0 <= b < nv.len() && a != b implies nv[a] != nv[b] by {
                        if a == before.len() {
                            assert(before[b] == nv[b]);
                        } else if b == before.len() {
                            assert(before[a] == nv[a]);
                        }
                    }
                }
                self.visited = visited;
                return Some(h);
            }
            assert(skip_visited(p, start.visited) == skip_visited(p.drop_first(), start.visited));
        }
    }

    /// Records what loading the hash last handed out gave: a commit, whose
    /// parents not loaded yet join the queue, or nothing (an object that is
    /// missing or no commit), which is passed over.
    pub fn deliver(&mut self, loaded: Option<Commit>)
        ensures
            match loaded {
                Some(c) => final(self)@ == (WalkSpec {
                    pending: old(self)@.pending + unvisited(c@.parent_hashes, old(self)@.visited),
                    visited: old(self)@.visited,
                    commits: old(self)@.commits.push(c@),
                }),
                None => final(self)@ == old(self)@,
            },
            match loaded {
                Some(c) => forall|p: Seq<char>|
                    #[trigger] c@.parent_hashes.contains(p) && !old(self)@.visited.contains(p)
                        ==> final(self)@.pending.contains(p),
                None => true,
            },
    {
        proof {
            use_type_invariant(&*self);
            match &loaded {
                Some(c) => {
                    assert forall|p: Seq<char>| #[trigger] c@.parent_hashes.contains(p) && !self@.visited.contains(p)
                        implies (self@.pending + unvisited(c@.parent_hashes, self@.visited)).contains(p) by {
                        law_unvisited_parents(c@.parent_hashes, self@.visited, p);
                        let u = unvisited(c@.parent_hashes, self@.visited);
                        let q = self@.pending;
                        let i = choose|i: int| 0 <= i < u.len() && u[i] == p;
                        assert((q + u)[q.len() + i] == p);
                    }
                },
                None => {},
            }
        }
        match loaded {
            Some(c) => {
                let ghost start = self@;
                let ghost ps = c@.parent_hashes;
                let n = self.next;
                self.next = 0;
                let mut queue: Vec<String> = Vec::new();
                std::mem::swap(&mut queue, &mut self.queue);
                let mut i: usize = 0;
                assert(ps.take(0) =~= Seq::<Seq<char>>::empty());
                assert(strings_view(queue@).skip(n as int) =~= start.pending + unvisited(ps.take(0), start.visited));
                while i < c.parent_hashes.len()
                    invariant
                        i <= c.parent_hashes@.len(),
                        ps == c@.parent_hashes,
                        n <= queue@.len(),
                        start.visited == strings_view(self.visited@),
                        strings_view(queue@).skip(n as int) == start.pending + unvisited(ps.take(i as int), start.visited),
                    decreases c.parent_hashes.len() - i,
                {
                    let p = &c.parent_hashes[i];
                    assert(ps[i as int] == p@);
                    assert(ps.take(i + 1).drop_last() =~= ps.take(i as int));
                    if !contains_string(&self.visited, p.as_str()) {
                        let ghost before = strings_view(queue@);
                        queue.push(p.clone());
                        assert(strings_view(queue@) =~= before.push(p@));
                        assert(strings_view(queue@).skip(n as int) =~= before.skip(n as int).push(p@));
                    }
                    i = i + 1;
                }
                assert(ps.take(c.parent_hashes@.len() as int) =~= ps);
                self.queue = queue;
                self.next = n;
                let ghost before = views(self.commits@);
                let mut commits: Vec<Commit> = Vec::new();
                std::mem::swap(&mut commits, &mut self.commits);
                commits.push(c);
                self.commits = commits;
                assert(views(self.commits@) =~= before.push(c@));
            },
            None => {},
        }
    }

    /// The commits found, in the order they were loaded.
    pub fn into_commits(self) -> (r: Vec<Commit>)
        ensures
            views(r@) == self@.commits,
    {
        self.commits
    }
}

/// A walk hands out no hash twice: every hash it asks for was not loaded
/// before, and is loaded from then on.
pub proof fn law_walk_loads_each_hash_once(before: WalkSpec, after: WalkSpec, h: Seq<char>)
    requires
        skip_visited(before.pending, before.visited).len() > 0,
        h == skip_visited(before.pending, before.visited)[0],
        after == (WalkSpec {
            pending: skip_visited(before.pending, before.visited).drop_first(),
            visited: before.visited.push(h),
            commits: before.commits,
        }),
    ensures
        !before.visited.contains(h),
        after.visited.contains(h),
        skip_visited(after.pending, after.visited).len() == 0 || skip_visited(after.pending, after.visited)[0] != h,
{
    lemma_skip_visited(before.pending, before.visited);
    lemma_skip_visited(after.pending, after.visited);
    assert(after.visited[after.visited.len() - 1] == h);
}

proof fn lemma_skip_visited(pending: Seq<Seq<char>>, visited: Seq<Seq<char>>)
    ensures
        skip_visited(pending, visited).len() > 0 ==> !visited.contains(skip_visited(pending, visited)[0]),
    decreases pending.len(),
{
    if pending.len() > 0 && visited.contains(pending[0]) {
        lemma_skip_visited(pending.drop_first(), visited);
    }
}

// ---------------------------------------------------------------------------
// Objects of the expected type
// ---------------------------------------------------------------------------

/// What reading a commit out of a loaded object gives: the parsed commit,
/// or `expected commit, got <type>` for an object of another type.
pub open spec fn commit_of_object(o: GitObjectSpec, hash: Seq<char>) -> Option<Result<CommitSpec, ErrorView>> {
    if o.obj_type != GitObjectType::Commit {
        Some(Err(ErrorView::InvalidFormat("expected commit, got "@ + object_type_name(o.obj_type))))
    } else {
        commit_outcome(o.content, hash)
    }
}

/// Reads the commit an object holds.
pub fn expect_commit(obj: &GitObject, hash: &str) -> (r: Result<Commit, GitVizError>)
    requires
        commit_of_object(obj@, hash@) is Some,
    ensures
        match (r, commit_of_object(obj@, hash@)) {
            (Ok(c), Some(Ok(d))) => c@ == d,
            (Err(e), Some(Err(f))) => e@ == f,
            _ => false,
        },
{
    if obj.obj_type != GitObjectType::Commit {
        let name = obj.obj_type.to_string();
        return Err(GitVizError::InvalidFormat(concat("expected commit, got ", name.as_str())));
    }
    parse_commit(obj.content.as_slice(), hash)
}

/// What reading a tree out of a loaded object gives: the parsed tree, or
/// `expected tree, got <type>` for an object of another type.
pub open spec fn tree_of_object(o: GitObjectSpec, hash: Seq<char>) -> Option<Result<TreeSpec, ErrorView>> {
    if o.obj_type != GitObjectType::Tree {
        Some(Err(ErrorView::InvalidFormat("expected tree, got "@ + object_type_name(o.obj_type))))
    } else {
        match entries_from(o.content, 0) {
            None => None,
            Some(Ok(es)) => Some(Ok(TreeSpec { hash, entries: es })),
            Some(Err(e)) => Some(Err(e)),
        }
    }
}

/// Reads the tree an object holds.
pub fn expect_tree(obj: &GitObject, hash: &str) -> (r: Result<Tree, GitVizError>)
    requires
        tree_of_object(obj@, hash@) is Some,
    ensures
        match (r, tree_of_object(obj@, hash@)) {
            (Ok(t), Some(Ok(u))) => t@ == u,
            (Err(e), Some(Err(f))) => e@ == f,
            _ => false,
        },
{
    if obj.obj_type != GitObjectType::Tree {
        let name = obj.obj_type.to_string();
        return Err(GitVizError::InvalidFormat(concat("expected tree, got ", name.as_str())));
    }
    parse_tree(obj.content.as_slice(), hash)
}

// ---------------------------------------------------------------------------
// Languages over a tree
// ---------------------------------------------------------------------------

/// The path of an entry below `prefix`: its name alone at the root.
pub open spec fn child_path_spec(prefix: Seq<char>, name: Seq<char>) -> Seq<char> {
    if prefix.len() == 0 {
        name
    } else {
        prefix + seq!['/'] + name
    }
}

/// The path of an entry named `name` in the directory at `prefix`.
pub fn child_path(prefix: &str, name: &str) -> (r: String)
    ensures
        r@ == child_path_spec(prefix@, name@),
{
    if prefix.is_empty() {
        name.to_owned()
    } else {
        let head = concat(prefix, "/");
        let r = concat(head.as_str(), name);
        proof {
            reveal_strlit("/");
        }
        assert(r@ =~= prefix@ + seq!['/'] + name@);
        r
    }
}

/// Whether counting an entry leaves every count within a `u64`: a file of
/// a language whose count is `u64::MAX` cannot be counted.
pub open spec fn tally_fits(entry: TreeEntrySpec, s: Seq<(Seq<char>, u64)>) -> bool {
    entry.entry_type == TreeEntryType::Blob ==> match language_of_extension(extension(entry.name)) {
        Some(l) => can_count(s, l),
        None => true,
    }
}

/// Whether `tally_entry` can count `entry`.
pub fn can_tally(entry: &TreeEntry, languages: &LanguageCounts) -> (r: bool)
    ensures
        r == tally_fits(entry@, languages@),
{
    match entry.entry_type {
        TreeEntryType::Blob => match detect_language(entry.name.as_str()) {
            Some(lang) => languages.can_count_more(lang),
            None => true,
        },
        _ => true,
    }
}

/// Counts one entry of a tree: a file whose extension names a language
/// adds one to that language; a subtree is handed back by its hash, to be
/// counted in turn; anything else (a submodule) is passed over.
pub fn tally_entry(entry: &TreeEntry, languages: &mut LanguageCounts) -> (r: Option<String>)
    requires
        tally_fits(entry@, old(languages)@),
    ensures
        entry.entry_type == TreeEntryType::Tree ==> (r matches Some(h) && h@ == entry.hash@)
            && final(languages)@ == old(languages)@,
        entry.entry_type == TreeEntryType::Commit ==> r is None && final(languages)@ == old(languages)@,
        entry.entry_type == TreeEntryType::Blob ==> r is None && final(languages)@ == match language_of_extension(
            extension(entry.name@),
        ) {
            Some(l) => count_one(old(languages)@, l),
            None => old(languages)@,
        },
{
    match entry.entry_type {
        TreeEntryType::Tree => Some(entry.hash.clone()),
        TreeEntryType::Blob => {
            match detect_language(entry.name.as_str()) {
                Some(lang) => languages.add_one(lang),
                None => {},
            }
            None
        },
        TreeEntryType::Commit => None,
    }
}

// ---------------------------------------------------------------------------
// Where the git directory is
// ---------------------------------------------------------------------------

/// The directory a `.git` file names: its first line, trimmed, must start
/// with `gitdir:`; what follows, trimmed, is the path.
pub open spec fn gitdir_target(content: Seq<char>) -> Option<Seq<char>> {
    let first = if lines(content).len() > 0 {
        trim(lines(content)[0])
    } else {
        seq![]
    };
    if has_prefix(first, "gitdir:"@) {
        Some(trim(first.skip(7)))
    } else {
        None
    }
}

/// Reads a `.git` file: the path after `gitdir:` on its first line, or
/// `None` when the file is not in that form.
pub fn parse_gitdir_file(content: &str) -> (r: Option<String>)
    ensures
        match (r, gitdir_target(content@)) {
            (Some(p), Some(q)) => p@ == q,
            (None, None) => true,
            _ => false,
        },
{
    let cs = chars_of(content);
    let ls = split_lines(&cs);
    let first = if ls.len() > 0 {
        trim_chars(&ls[0])
    } else {
        Vec::new()
    };
    assert(first@ == (if lines(content@).len() > 0 {
        trim(lines(content@)[0])
    } else {
        seq![]
    }));
    let prefix = chars_of("gitdir:");
    proof {
        reveal_strlit("gitdir:");
    }
    if starts_with(&first, &prefix) {
        let rest = copy_range(&first, 7, first.len());
        assert(rest@ =~= first@.skip(7));
        Some(string_of(&trim_chars(&rest)))
    } else {
        None
    }
}

/// The common directory a `commondir` file names, trimmed; `None` when it
/// names none (the git directory itself is then the common one).
pub open spec fn commondir_target(content: Seq<char>) -> Option<Seq<char>> {
    if trim(content).len() == 0 {
        None
    } else {
        Some(trim(content))
    }
}

/// Reads a `commondir` file.
pub fn parse_commondir(content: &str) -> (r: Option<String>)
    ensures
        match (r, commondir_target(content@)) {
            (Some(p), Some(q)) => p@ == q,
            (None, None) => true,
            _ => false,
        },
{
    let t = trim_chars(&chars_of(content));
    if t.len() == 0 {
        None
    } else {
        Some(string_of(&t))
    }
}

} // verus!
