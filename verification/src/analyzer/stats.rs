//! Repository statistics: overview, contributors, hotspots, timeline,
//! branch graph and commits per day.
use vstd::prelude::*;

use crate::analyzer::diff::views;
use crate::git_parser::commit_parser::CommitSpec;
use crate::models::git_object::{contains_string, strings_view, Branch, BranchSpec, Commit};
use crate::models::stats::{
    AnalysisResult, BranchGraph, BranchInfo, CommitTimelineEntry, ContributorStats,
    DailyCommitCount, FileHotspot, LanguageCounts, MergePoint, RepoOverview,
};
use crate::text::{
    chars_of, concat, contains, contains_chars, decimal, decimal_string, lines, split_lines, str_eq, string_of,
};
use vstd::string::StringSliceAdditionalSpecFns;
use vstd::utf8::{decode_utf8, encode_utf8, is_char_boundary};

verus! {

// ---------------------------------------------------------------------------
// Ranking
// ---------------------------------------------------------------------------

/// Values ranked by a number, highest first.
pub trait Ranked: View + Sized {
    spec fn rank_of(v: Self::V) -> int;

    fn rank(&self) -> (r: i128)
        ensures
            r == Self::rank_of(self@),
    ;
}

/// `x` placed after every value of `s` ranked at least as high, before the
/// rest.
pub open spec fn insert_ranked<T: Ranked>(s: Seq<T::V>, x: T::V) -> Seq<T::V>
    decreases s.len(),
{
    if s.len() == 0 {
        seq![x]
    } else if T::rank_of(s.last()) >= T::rank_of(x) {
        s.push(x)
    } else {
        insert_ranked::<T>(s.drop_last(), x).push(s.last())
    }
}

/// The values ordered by rank, highest first, equal ranks in the order
/// given (the stable sort `sort_by_key(|v| Reverse(rank))`).
pub open spec fn sort_ranked<T: Ranked>(s: Seq<T::V>) -> Seq<T::V>
    decreases s.len(),
{
    if s.len() == 0 {
        seq![]
    } else {
        insert_ranked::<T>(sort_ranked::<T>(s.drop_last()), s.last())
    }
}

/// Whether ranks never rise along the sequence.
pub open spec fn ranked_desc<T: Ranked>(s: Seq<T::V>) -> bool {
    forall|i: int, j: int| 0 <= i < j < s.len() ==> T::rank_of(#[trigger] s[i]) >= T::rank_of(#[trigger] s[j])
}

proof fn lemma_insert_ranked<T: Ranked>(s: Seq<T::V>, x: T::V)
    requires
        ranked_desc::<T>(s),
    ensures
        ranked_desc::<T>(insert_ranked::<T>(s, x)),
        insert_ranked::<T>(s, x).to_multiset() == s.to_multiset().insert(x),
        insert_ranked::<T>(s, x).len() == s.len() + 1,
    decreases s.len(),
{
    broadcast use vstd::seq_lib::group_to_multiset_ensures;
    if s.len() == 0 {
        assert(insert_ranked::<T>(s, x) =~= seq![x]);
        assert(s.to_multiset() =~= vstd::multiset::Multiset::<T::V>::empty());
    } else if T::rank_of(s.last()) >= T::rank_of(x) {
    } else {
        let t = s.drop_last();
        assert(ranked_desc::<T>(t));
        lemma_insert_ranked::<T>(t, x);
        let u = insert_ranked::<T>(t, x);
        assert forall|i: int| 0 <= i < u.len() implies T::rank_of(#[trigger] u[i]) >= T::rank_of(s.last()) by {
            assert(u.to_multiset().count(u[i]) > 0);
            assert(t.to_multiset().insert(x).count(u[i]) > 0);
            if u[i] != x {
                assert(t.to_multiset().count(u[i]) > 0);
                assert(t.contains(u[i]));
                let k = choose|k: int| 0 <= k < t.len() && t[k] == u[i];
                assert(s[k] == t[k]);
                assert(s[s.len() - 1] == s.last());
            }
        }
        assert(s =~= t.push(s.last()));
    }
}

/// Ranking orders values highest first and keeps every value.
pub proof fn law_sort_ranked<T: Ranked>(s: Seq<T::V>)
    ensures
        ranked_desc::<T>(sort_ranked::<T>(s)),
        sort_ranked::<T>(s).to_multiset() == s.to_multiset(),
        sort_ranked::<T>(s).len() == s.len(),
    decreases s.len(),
{
    broadcast use vstd::seq_lib::group_to_multiset_ensures;
    if s.len() == 0 {
        assert(s.to_multiset() =~= vstd::multiset::Multiset::<T::V>::empty());
        assert(sort_ranked::<T>(s).to_multiset() =~= vstd::multiset::Multiset::<T::V>::empty());
    } else {
        law_sort_ranked::<T>(s.drop_last());
        lemma_insert_ranked::<T>(sort_ranked::<T>(s.drop_last()), s.last());
        assert(s =~= s.drop_last().push(s.last()));
    }
}

/// Sorts values by rank, highest first; equal ranks keep their order.
pub fn sort_by_rank<T: Ranked>(v: Vec<T>) -> (r: Vec<T>)
    ensures
        views(r@) == sort_ranked::<T>(views(v@)),
{
    let ghost orig = views(v@);
    let mut input = v;
    let mut out: Vec<T> = Vec::new();
    let ghost mut k: int = 0;
    proof {
        assert(orig.skip(0) =~= orig);
        assert(views(out@) =~= sort_ranked::<T>(orig.take(0)));
    }
    while input.len() > 0
        invariant
            0 <= k <= orig.len(),
            views(input@) == orig.skip(k),
            views(out@) == sort_ranked::<T>(orig.take(k)),
        decreases input.len(),
    {
        let ghost iv = views(input@);
        assert(iv.len() == input@.len());
        assert(iv[0] == orig[k]);
        let ghost ii = input@;
        let x = input.remove(0);
        let ghost xv = x@;
        assert(input@ == ii.remove(0));
        assert(views(input@) =~= iv.drop_first());
        assert(xv == orig[k]);
        let xr = x.rank();
        let ghost s = views(out@);
        let mut p = out.len();
        proof {
            assert(s.take(p as int) =~= s);
            assert(insert_ranked::<T>(s, xv) + s.skip(p as int) =~= insert_ranked::<T>(s, xv));
        }
        while p > 0 && out[p - 1].rank() < xr
            invariant
                p <= out@.len(),
                s == views(out@),
                xr == T::rank_of(xv),
                insert_ranked::<T>(s, xv) == insert_ranked::<T>(s.take(p as int), xv) + s.skip(p as int),
            decreases p,
        {
            proof {
                let t = s.take(p as int);
                assert(t.last() == s[p - 1]);
                assert(t.drop_last() =~= s.take(p - 1));
                assert(insert_ranked::<T>(t, xv) == insert_ranked::<T>(s.take(p - 1), xv).push(s[p - 1]));
                assert(insert_ranked::<T>(s.take(p - 1), xv).push(s[p - 1]) + s.skip(p as int) =~= insert_ranked::<T>(s.take(p - 1), xv) + s.skip(p - 1));
            }
            p = p - 1;
        }
        proof {
            if p == 0 {
                assert(s.take(0) =~= Seq::<T::V>::empty());
                assert(s.skip(0) =~= s);
            }
        }
        out.insert(p, x);
        proof {
            assert(views(out@) =~= s.take(p as int) + seq![xv] + s.skip(p as int));
            if p > 0 {
                assert(insert_ranked::<T>(s.take(p as int), xv) == s.take(p as int).push(xv));
            }
            assert(views(out@) =~= insert_ranked::<T>(s, xv));
            assert(orig.take(k + 1).drop_last() =~= orig.take(k));
            assert(iv.drop_first() =~= orig.skip(k + 1));
            k = k + 1;
        }
    }
    assert(orig.take(k) =~= orig);
    out
}

// ---------------------------------------------------------------------------
// Contributors
// ---------------------------------------------------------------------------

/// The fields of a contributor's statistics.
pub struct ContributorSpec {
    pub name: Seq<char>,
    pub email: Seq<char>,
    pub commit_count: int,
    pub additions: int,
    pub deletions: int,
}

impl View for ContributorStats {
    type V = ContributorSpec;

    open spec fn view(&self) -> ContributorSpec {
        ContributorSpec {
            name: self.name@,
            email: self.email@,
            commit_count: self.commit_count as int,
            additions: self.additions as int,
            deletions: self.deletions as int,
        }
    }
}

impl Ranked for ContributorStats {
    open spec fn rank_of(v: ContributorSpec) -> int {
        v.commit_count
    }

    fn rank(&self) -> (r: i128) {
        self.commit_count as i128
    }
}

/// The lines a commit is estimated to add: three per message line, plus five.
pub open spec fn line_estimate(c: CommitSpec) -> int {
    (lines(c.message).len() * 3 + 5) as int
}

/// The estimated lines of the commits authored under `email`.
pub open spec fn email_estimate(cs: Seq<CommitSpec>, email: Seq<char>) -> int
    decreases cs.len(),
{
    if cs.len() == 0 {
        0
    } else {
        email_estimate(cs.drop_last(), email) + if cs.last().author.email == email {
            line_estimate(cs.last())
        } else {
            0
        }
    }
}

/// Whether no author's estimated lines exceed `u64::MAX`.
pub open spec fn estimates_fit(cs: Seq<CommitSpec>) -> bool {
    forall|i: int| 0 <= i < cs.len() ==> email_estimate(cs, #[trigger] cs[i].author.email) <= u64::MAX
}

/// Whether no email occurs twice.
pub open spec fn distinct_emails(g: Seq<ContributorSpec>) -> bool {
    forall|i: int, j: int| 0 <= i < j < g.len() ==> #[trigger] g[i].email != #[trigger] g[j].email
}

/// The statistics after one more commit: its author's entry (found by email)
/// counts one more commit and its estimate, or a new entry starts with the
/// author's name.
pub open spec fn add_contribution(g: Seq<ContributorSpec>, c: CommitSpec) -> Seq<ContributorSpec> {
    if exists|i: int| 0 <= i < g.len() && #[trigger] g[i].email == c.author.email {
        let i = choose|i: int| 0 <= i < g.len() && #[trigger] g[i].email == c.author.email;
        g.update(
            i,
            ContributorSpec {
                commit_count: g[i].commit_count + 1,
                additions: g[i].additions + line_estimate(c),
                ..g[i]
            },
        )
    } else {
        g.push(
            ContributorSpec {
                name: c.author.name,
                email: c.author.email,
                commit_count: 1,
                additions: line_estimate(c),
                deletions: 0,
            },
        )
    }
}

/// Per-author statistics in the order authors first appear.
pub open spec fn contributor_groups(cs: Seq<CommitSpec>) -> Seq<ContributorSpec>
    decreases cs.len(),
{
    if cs.len() == 0 {
        seq![]
    } else {
        add_contribution(contributor_groups(cs.drop_last()), cs.last())
    }
}

/// The contributors, most commits first.
pub open spec fn contributors_spec(cs: Seq<CommitSpec>) -> Seq<ContributorSpec> {
    sort_ranked::<ContributorStats>(contributor_groups(cs))
}

proof fn lemma_email_estimate_step(cs: Seq<CommitSpec>, k: int, e: Seq<char>)
    requires
        0 <= k < cs.len(),
    ensures
        email_estimate(cs.take(k + 1), e) == email_estimate(cs.take(k), e) + if cs[k].author.email == e {
            line_estimate(cs[k])
        } else {
            0
        },
{
    assert(cs.take(k + 1).drop_last() =~= cs.take(k));
    assert(cs.take(k + 1).last() == cs[k]);
}

proof fn lemma_email_estimate_prefix(cs: Seq<CommitSpec>, k: int, e: Seq<char>)
    requires
        0 <= k <= cs.len(),
    ensures
        0 <= email_estimate(cs.take(k), e) <= email_estimate(cs, e),
    decreases cs.len(),
{
    if k < cs.len() {
        assert(cs.drop_last().take(k) =~= cs.take(k));
        lemma_email_estimate_prefix(cs.drop_last(), k, e);
    } else {
        assert(cs.take(k) =~= cs);
        lemma_email_estimate_nonneg(cs, e);
    }
}

proof fn lemma_email_estimate_nonneg(cs: Seq<CommitSpec>, e: Seq<char>)
    ensures
        email_estimate(cs, e) >= 0,
    decreases cs.len(),
{
    if cs.len() > 0 {
        lemma_email_estimate_nonneg(cs.drop_last(), e);
    }
}

proof fn lemma_email_estimate_absent(cs: Seq<CommitSpec>, e: Seq<char>)
    requires
        forall|q: int| 0 <= q < cs.len() ==> (#[trigger] cs[q]).author.email != e,
    ensures
        email_estimate(cs, e) == 0,
    decreases cs.len(),
{
    if cs.len() > 0 {
        let d = cs.drop_last();
        assert forall|q: int| 0 <= q < d.len() implies (#[trigger] d[q]).author.email != e by {
            assert(d[q] == cs[q]);
        }
        lemma_email_estimate_absent(d, e);
        assert(cs[cs.len() - 1] == cs.last());
    }
}

fn email_position(g: &Vec<ContributorStats>, email: &str) -> (r: Option<usize>)
    ensures
        r matches Some(i) ==> i < g@.len() && g@[i as int].email@ == email@,
        r is None ==> forall|i: int| 0 <= i < g@.len() ==> #[trigger] g@[i].email@ != email@,
{
    let mut i: usize = 0;
    while i < g.len()
        invariant
            i <= g@.len(),
            forall|k: int| 0 <= k < i ==> #[trigger] g@[k].email@ != email@,
        decreases g.len() - i,
    {
        if str_eq(g[i].email.as_str(), email) {
            return Some(i);
        }
        i = i + 1;
    }
    None
}

/// The number of lines of a text.
fn line_total(s: &str) -> (r: usize)
    ensures
        r == lines(s@).len(),
{
    split_lines(&chars_of(s)).len()
}

/// Commits, estimated additions and deletions per author email, most commits
/// first; authors with equal counts stay in the order they first appear.
pub fn build_contributor_stats(commits: &[Commit]) -> (r: Vec<ContributorStats>)
    requires
        estimates_fit(views(commits@)),
    ensures
        views(r@) == contributors_spec(views(commits@)),
{
    let ghost cv = views(commits@);
    let mut groups: Vec<ContributorStats> = Vec::new();
    let mut k: usize = 0;
    assert(views(groups@) =~= contributor_groups(cv.take(0)));
    while k < commits.len()
        invariant
            k <= commits@.len(),
            cv == views(commits@),
            estimates_fit(cv),
            views(groups@) == contributor_groups(cv.take(k as int)),
            distinct_emails(views(groups@)),
            forall|i: int|
                0 <= i < groups@.len() ==> (#[trigger] groups@[i]).commit_count <= k && groups@[i].additions
                    == email_estimate(cv.take(k as int), groups@[i].email@),
            forall|q: int|
                0 <= q < k ==> exists|i: int| 0 <= i < groups@.len() && #[trigger] groups@[i].email@ == (#[trigger] cv[q]).author.email,
        decreases commits.len() - k,
    {
        let commit = &commits[k];
        let ghost g = views(groups@);
        let ghost c = commit@;
        let ghost e = c.author.email;
        proof {
            assert(cv[k as int] == c);
            assert(cv.take(k + 1).drop_last() =~= cv.take(k as int));
            assert(cv.take(k + 1).last() == c);
            lemma_email_estimate_step(cv, k as int, e);
            lemma_email_estimate_prefix(cv, k + 1, e);
            lemma_email_estimate_prefix(cv, k as int, e);
            assert(email_estimate(cv, cv[k as int].author.email) <= u64::MAX);
            assert forall|i: int| 0 <= i < groups@.len() && groups@[i].email@ != e implies email_estimate(
                cv.take(k + 1),
                #[trigger] groups@[i].email@,
            ) == email_estimate(cv.take(k as int), groups@[i].email@) by {
                lemma_email_estimate_step(cv, k as int, groups@[i].email@);
            }
        }
        let est = (line_total(commit.message.as_str()) as u64) * 3 + 5;
        match email_position(&groups, commit.author.email.as_str()) {
            Some(i) => {
                proof {
                    let j = choose|j: int| 0 <= j < g.len() && #[trigger] g[j].email == c.author.email;
                    assert(g[i as int].email == c.author.email);
                    if j != i {
                        if j < i {
                            assert(g[j].email != g[i as int].email);
                        } else {
                            assert(g[i as int].email != g[j].email);
                        }
                    }
                }
                let old_stats = &groups[i];
                let updated = ContributorStats {
                    name: old_stats.name.clone(),
                    email: old_stats.email.clone(),
                    commit_count: old_stats.commit_count + 1,
                    additions: old_stats.additions + est,
                    deletions: old_stats.deletions,
                };
                let ghost before = groups@;
                groups.set(i, updated);
                assert(views(groups@) =~= add_contribution(g, c));
                proof {
                    assert forall|i2: int| 0 <= i2 < groups@.len() implies (#[trigger] groups@[i2]).commit_count <= k + 1
                        && groups@[i2].additions == email_estimate(cv.take(k + 1), groups@[i2].email@) by {
                        if i2 != i {
                            assert(groups@[i2] == before[i2]);
                            assert(before[i2].email@ != before[i as int].email@) by {
                                if i2 < i {
                                    assert(g[i2].email != g[i as int].email);
                                } else {
                                    assert(g[i as int].email != g[i2].email);
                                }
                            }
                        } else {
                            assert(groups@[i2].email@ == e);
                        }
                    }
                    assert forall|q: int| 0 <= q < k + 1 implies exists|i2: int|
                        0 <= i2 < groups@.len() && #[trigger] groups@[i2].email@ == (#[trigger] cv[q]).author.email by {
                        if q < k {
                            let i2 = choose|i2: int| 0 <= i2 < before.len() && #[trigger] before[i2].email@ == cv[q].author.email;
                            assert(groups@[i2].email@ == before[i2].email@);
                        } else {
                            assert(groups@[i as int].email@ == e);
                        }
                    }
                }
            },
            None => {
                proof {
                    assert forall|q: int| 0 <= q < k implies (#[trigger] cv.take(k as int)[q]).author.email != e by {
                        assert(cv.take(k as int)[q] == cv[q]);
                        let i2 = choose|i2: int| 0 <= i2 < groups@.len() && #[trigger] groups@[i2].email@ == cv[q].author.email;
                    }
                    lemma_email_estimate_absent(cv.take(k as int), e);
                }
                let fresh = ContributorStats {
                    name: commit.author.name.clone(),
                    email: commit.author.email.clone(),
                    commit_count: 1,
                    additions: est,
                    deletions: 0,
                };
                let ghost before = groups@;
                groups.push(fresh);
                assert(views(groups@) =~= add_contribution(g, c));
                proof {
                    assert forall|i2: int| 0 <= i2 < groups@.len() implies (#[trigger] groups@[i2]).commit_count <= k + 1
                        && groups@[i2].additions == email_estimate(cv.take(k + 1), groups@[i2].email@) by {
                        if i2 < before.len() {
                            assert(groups@[i2] == before[i2]);
                            assert(before[i2].email@ != e);
                        } else {
                            assert(groups@[i2].email@ == e);
                        }
                    }
                    assert forall|q: int| 0 <= q < k + 1 implies exists|i2: int|
                        0 <= i2 < groups@.len() && #[trigger] groups@[i2].email@ == (#[trigger] cv[q]).author.email by {
                        if q < k {
                            let i2 = choose|i2: int| 0 <= i2 < before.len() && #[trigger] before[i2].email@ == cv[q].author.email;
                            assert(groups@[i2] == before[i2]);
                        } else {
                            assert(groups@[before.len() as int].email@ == e);
                        }
                    }
                }
            },
        }
        k = k + 1;
    }
    assert(cv.take(commits@.len() as int) =~= cv);
    sort_by_rank(groups)
}

// ---------------------------------------------------------------------------
// Overview
// ---------------------------------------------------------------------------

/// The authors' emails, commit by commit.
pub open spec fn author_emails(cs: Seq<CommitSpec>) -> Seq<Seq<char>> {
    cs.map_values(|c: CommitSpec| c.author.email)
}

/// The earliest author timestamp, or zero (the Unix epoch) for no commits.
pub open spec fn first_timestamp(cs: Seq<CommitSpec>) -> int
    decreases cs.len(),
{
    if cs.len() == 0 {
        0
    } else if cs.len() == 1 {
        cs[0].author.timestamp as int
    } else {
        let m = first_timestamp(cs.drop_last());
        let t = cs.last().author.timestamp as int;
        if t < m {
            t
        } else {
            m
        }
    }
}

/// The latest author timestamp, or zero (the Unix epoch) for no commits.
pub open spec fn latest_timestamp(cs: Seq<CommitSpec>) -> int
    decreases cs.len(),
{
    if cs.len() == 0 {
        0
    } else if cs.len() == 1 {
        cs[0].author.timestamp as int
    } else {
        let m = latest_timestamp(cs.drop_last());
        let t = cs.last().author.timestamp as int;
        if t > m {
            t
        } else {
            m
        }
    }
}

/// Every author date lies between the earliest and the latest one, and
/// both are author dates of some commit.
pub proof fn law_timestamp_bounds(cs: Seq<CommitSpec>)
    requires
        cs.len() > 0,
    ensures
        forall|k: int|
            0 <= k < cs.len() ==> first_timestamp(cs) <= (#[trigger] cs[k]).author.timestamp <= latest_timestamp(cs),
        exists|k: int| 0 <= k < cs.len() && (#[trigger] cs[k]).author.timestamp == first_timestamp(cs),
        exists|k: int| 0 <= k < cs.len() && (#[trigger] cs[k]).author.timestamp == latest_timestamp(cs),
    decreases cs.len(),
{
    if cs.len() == 1 {
        assert(cs[0].author.timestamp == first_timestamp(cs));
    } else {
        let q = cs.drop_last();
        law_timestamp_bounds(q);
        assert forall|k: int| 0 <= k < cs.len() implies first_timestamp(cs) <= (#[trigger] cs[k]).author.timestamp
            <= latest_timestamp(cs) by {
            if k < q.len() {
                assert(q[k] == cs[k]);
            }
        }
        let i = choose|k: int| 0 <= k < q.len() && (#[trigger] q[k]).author.timestamp == first_timestamp(q);
        let j = choose|k: int| 0 <= k < q.len() && (#[trigger] q[k]).author.timestamp == latest_timestamp(q);
        assert(cs[i] == q[i] && cs[j] == q[j]);
        assert(cs[cs.len() - 1] == cs.last());
    }
}

/// The number of distinct author emails.
fn count_distinct_emails(commits: &[Commit]) -> (r: usize)
    ensures
        r == author_emails(views(commits@)).to_set().len(),
{
    let ghost cv = views(commits@);
    let mut seen: Vec<String> = Vec::new();
    let mut k: usize = 0;
    proof {
        assert(views(seen@).to_set() =~= author_emails(cv).take(0).to_set());
    }
    while k < commits.len()
        invariant
            k <= commits@.len(),
            cv == views(commits@),
            views(seen@).no_duplicates(),
            views(seen@).to_set() == author_emails(cv).take(k as int).to_set(),
            seen@.len() <= k,
        decreases commits.len() - k,
    {
        let email = &commits[k].author.email;
        let ghost sv = views(seen@);
        let ghost ek = author_emails(cv).take(k as int);
        proof {
            assert(author_emails(cv).take(k + 1) =~= ek.push(email@));
            ek.lemma_push_to_set_commute(email@);
        }
        let mut found = false;
        let mut j: usize = 0;
        while j < seen.len()
            invariant
                j <= seen@.len(),
                sv == views(seen@),
                found ==> sv.contains(email@),
                !found ==> forall|q: int| 0 <= q < j ==> #[trigger] sv[q] != email@,
            decreases seen.len() - j,
        {
            if str_eq(seen[j].as_str(), email.as_str()) {
                found = true;
                assert(sv[j as int] == email@);
            }
            j = j + 1;
        }
        if !found {
            seen.push(email.clone());
            proof {
                assert(views(seen@) =~= sv.push(email@));
                sv.lemma_push_to_set_commute(email@);
            }
        } else {
            proof {
                assert(sv.to_set().contains(email@));
                assert(sv.to_set().insert(email@) =~= sv.to_set());
            }
        }
        k = k + 1;
    }
    proof {
        assert(author_emails(cv).take(commits@.len() as int) =~= author_emails(cv));
        views(seen@).unique_seq_to_set();
    }
    seen.len()
}

/// The earliest and latest author timestamps.
fn timestamp_bounds(commits: &[Commit]) -> (r: (i64, i64))
    ensures
        r.0 as int == first_timestamp(views(commits@)),
        r.1 as int == latest_timestamp(views(commits@)),
{
    let ghost cv = views(commits@);
    let mut first: i64 = 0;
    let mut latest: i64 = 0;
    let mut k: usize = 0;
    while k < commits.len()
        invariant
            k <= commits@.len(),
            cv == views(commits@),
            first as int == first_timestamp(cv.take(k as int)),
            latest as int == latest_timestamp(cv.take(k as int)),
        decreases commits.len() - k,
    {
        let t = commits[k].author.timestamp;
        proof {
            assert(cv.take(k + 1).drop_last() =~= cv.take(k as int));
            assert(cv.take(k + 1).last() == cv[k as int]);
            assert(cv[k as int].author.timestamp == t);
        }
        if k == 0 || t < first {
            first = t;
        }
        if k == 0 || t > latest {
            latest = t;
        }
        k = k + 1;
    }
    assert(cv.take(commits@.len() as int) =~= cv);
    (first, latest)
}

/// The figures of the overview.
pub struct OverviewSpec {
    pub total_commits: int,
    pub total_contributors: int,
    pub first_commit_date: int,
    pub latest_commit_date: int,
    pub total_branches: int,
    pub language_distribution: Seq<(Seq<char>, u64)>,
}

impl View for RepoOverview {
    type V = OverviewSpec;

    open spec fn view(&self) -> OverviewSpec {
        OverviewSpec {
            total_commits: self.total_commits as int,
            total_contributors: self.total_contributors as int,
            first_commit_date: self.first_commit_date as int,
            latest_commit_date: self.latest_commit_date as int,
            total_branches: self.total_branches as int,
            language_distribution: self.language_distribution@,
        }
    }
}

/// The overview of some commits, branches and language counts.
pub open spec fn overview_spec(cs: Seq<CommitSpec>, branch_count: int, languages: Seq<(Seq<char>, u64)>) -> OverviewSpec {
    OverviewSpec {
        total_commits: cs.len() as int,
        total_contributors: author_emails(cs).to_set().len() as int,
        first_commit_date: first_timestamp(cs),
        latest_commit_date: latest_timestamp(cs),
        total_branches: branch_count,
        language_distribution: languages,
    }
}

/// Totals, the distinct author emails, the earliest and latest author dates
/// and the language counts.
pub fn build_overview(commits: &[Commit], branches: &[Branch], languages: &LanguageCounts) -> (r: RepoOverview)
    ensures
        r@ == overview_spec(views(commits@), branches@.len() as int, languages@),
{
    let total_contributors = count_distinct_emails(commits);
    let (first, latest) = timestamp_bounds(commits);
    RepoOverview {
        total_commits: commits.len(),
        total_contributors,
        first_commit_date: first,
        latest_commit_date: latest,
        total_branches: branches.len(),
        language_distribution: languages.duplicate(),
    }
}

// ---------------------------------------------------------------------------
// Hotspots
// ---------------------------------------------------------------------------

/// The fields of a hotspot.
pub struct HotspotSpec {
    pub path: Seq<char>,
    pub change_count: int,
    pub total_additions: int,
    pub total_deletions: int,
}

impl View for FileHotspot {
    type V = HotspotSpec;

    open spec fn view(&self) -> HotspotSpec {
        HotspotSpec {
            path: self.path@,
            change_count: self.change_count as int,
            total_additions: self.total_additions as int,
            total_deletions: self.total_deletions as int,
        }
    }
}

impl Ranked for FileHotspot {
    open spec fn rank_of(v: HotspotSpec) -> int {
        v.change_count
    }

    fn rank(&self) -> (r: i128) {
        self.change_count as i128
    }
}

/// The directory names a commit message is searched for.
pub open spec fn hotspot_keywords() -> Seq<Seq<char>> {
    seq![
        "src/"@,
        "lib/"@,
        "pkg/"@,
        "cmd/"@,
        "internal/"@,
        "app/"@,
        "test/"@,
        "tests/"@,
        "spec/"@,
        "docs/"@,
        "scripts/"@,
        "config/"@,
        "build/"@,
    ]
}

/// A name without its trailing `/`s (`trim_end_matches('/')`).
pub open spec fn trim_slashes(s: Seq<char>) -> Seq<char>
    decreases s.len(),
{
    if s.len() > 0 && s.last() == '/' {
        trim_slashes(s.drop_last())
    } else {
        s
    }
}

/// The hotspots after `changes` more changes to `path` adding `adds` and
/// deleting `dels` lines: its entry grows, or a new one is added.
pub open spec fn bump(g: Seq<HotspotSpec>, path: Seq<char>, adds: int, dels: int) -> Seq<HotspotSpec> {
    if exists|i: int| 0 <= i < g.len() && #[trigger] g[i].path == path {
        let i = choose|i: int| 0 <= i < g.len() && #[trigger] g[i].path == path;
        g.update(
            i,
            HotspotSpec {
                change_count: g[i].change_count + 1,
                total_additions: g[i].total_additions + adds,
                total_deletions: g[i].total_deletions + dels,
                ..g[i]
            },
        )
    } else {
        g.push(HotspotSpec { path, change_count: 1, total_additions: adds, total_deletions: dels })
    }
}

/// The keywords from the `j`-th on that a message names, each counted once
/// with five lines added.
pub open spec fn bump_keywords(g: Seq<HotspotSpec>, msg: Seq<char>, j: nat) -> Seq<HotspotSpec>
    decreases 13 - j,
{
    if j >= 13 {
        g
    } else {
        let kw = hotspot_keywords()[j as int];
        let next = if contains(msg, kw) {
            bump(g, trim_slashes(kw), 5, 0)
        } else {
            g
        };
        bump_keywords(next, msg, j + 1)
    }
}

/// One commit's contribution: the keywords its message names, then `src`
/// once more, with three lines added and one removed, when it speaks of a
/// fix, an update or a refactoring.
pub open spec fn hotspot_step(g: Seq<HotspotSpec>, c: CommitSpec) -> Seq<HotspotSpec> {
    let after = bump_keywords(g, c.message, 0);
    if contains(c.message, "fix"@) || contains(c.message, "update"@) || contains(c.message, "refactor"@) {
        bump(after, "src"@, 3, 1)
    } else {
        after
    }
}

/// The hotspots of the last `k` commits, taken newest first.
pub open spec fn hotspot_groups(cs: Seq<CommitSpec>, k: nat) -> Seq<HotspotSpec>
    decreases k,
{
    if k == 0 || k > cs.len() {
        seq![]
    } else {
        hotspot_step(hotspot_groups(cs, (k - 1) as nat), cs[cs.len() - k])
    }
}

/// The twenty paths named most often, most changes first.
pub open spec fn hotspots_spec(cs: Seq<CommitSpec>) -> Seq<HotspotSpec> {
    let sorted = sort_ranked::<FileHotspot>(hotspot_groups(cs, cs.len()));
    if sorted.len() > 20 {
        sorted.take(20)
    } else {
        sorted
    }
}

/// Whether no path occurs twice.
pub open spec fn distinct_hotspot_paths(g: Seq<HotspotSpec>) -> bool {
    forall|i: int, j: int| 0 <= i < j < g.len() ==> #[trigger] g[i].path != #[trigger] g[j].path
}

/// The changes, added lines and deleted lines recorded for `path`, or zeros
/// where it has no entry.
pub open spec fn hotspot_totals(g: Seq<HotspotSpec>, path: Seq<char>) -> (int, int, int) {
    if exists|i: int| 0 <= i < g.len() && #[trigger] g[i].path == path {
        let i = choose|i: int| 0 <= i < g.len() && #[trigger] g[i].path == path;
        (g[i].change_count, g[i].total_additions, g[i].total_deletions)
    } else {
        (0, 0, 0)
    }
}

proof fn lemma_totals_at(g: Seq<HotspotSpec>, i: int)
    requires
        distinct_hotspot_paths(g),
        0 <= i < g.len(),
    ensures
        hotspot_totals(g, g[i].path) == (g[i].change_count, g[i].total_additions, g[i].total_deletions),
{
    let p = g[i].path;
    assert(g[i].path == p);
    let j = choose|j: int| 0 <= j < g.len() && #[trigger] g[j].path == p;
    if j != i {
        if j < i {
            assert(g[j].path != g[i].path);
        } else {
            assert(g[i].path != g[j].path);
        }
    }
}

/// Counting a change to `p` adds one change and its lines to `p` and leaves
/// every other path as it was.
proof fn lemma_bump_totals(g: Seq<HotspotSpec>, p: Seq<char>, adds: int, dels: int, q: Seq<char>)
    requires
        distinct_hotspot_paths(g),
    ensures
        distinct_hotspot_paths(bump(g, p, adds, dels)),
        q == p ==> hotspot_totals(bump(g, p, adds, dels), q) == (
            hotspot_totals(g, q).0 + 1,
            hotspot_totals(g, q).1 + adds,
            hotspot_totals(g, q).2 + dels,
        ),
        q != p ==> hotspot_totals(bump(g, p, adds, dels), q) == hotspot_totals(g, q),
{
    let h = bump(g, p, adds, dels);
    let k = if exists|i: int| 0 <= i < g.len() && #[trigger] g[i].path == p {
        choose|i: int| 0 <= i < g.len() && #[trigger] g[i].path == p
    } else {
        g.len() as int
    };
    assert(h[k].path == p);
    assert(forall|i: int| 0 <= i < g.len() && i != k ==> #[trigger] h[i] == g[i]);
    assert forall|i: int, j: int| 0 <= i < j < h.len() implies #[trigger] h[i].path != #[trigger] h[j].path by {
        if i != k && j != k {
            assert(h[i] == g[i] && h[j] == g[j]);
        } else if i == k {
            if k < g.len() {
                assert(h[j] == g[j] && g[k].path == p);
            }
        } else {
            assert(h[i] == g[i]);
            if k < g.len() {
                assert(g[k].path == p);
            } else {
                assert(g[i].path != p);
            }
        }
    }
    lemma_totals_at(h, k);
    if k < g.len() {
        lemma_totals_at(g, k);
    } else {
        assert(!(exists|i: int| 0 <= i < g.len() && #[trigger] g[i].path == q) || q != p);
    }
    if q != p {
        if exists|i: int| 0 <= i < g.len() && #[trigger] g[i].path == q {
            let i = choose|i: int| 0 <= i < g.len() && #[trigger] g[i].path == q;
            assert(i != k);
            assert(h[i] == g[i]);
            lemma_totals_at(g, i);
            lemma_totals_at(h, i);
        } else {
            assert forall|i: int| 0 <= i < h.len() implies #[trigger] h[i].path != q by {
                if i != k {
                    assert(h[i] == g[i]);
                }
            }
        }
    }
}

proof fn lemma_trim_keeps_front(s: Seq<char>, m: int)
    requires
        0 <= m <= s.len(),
        forall|i: int| 0 <= i < m ==> s[i] != '/',
    ensures
        trim_slashes(s).len() >= m,
        forall|i: int| 0 <= i < m ==> #[trigger] trim_slashes(s)[i] == s[i],
    decreases s.len(),
{
    if s.len() > 0 && s.last() == '/' {
        assert(m < s.len());
        lemma_trim_keeps_front(s.drop_last(), m);
    }
}

/// Of the keywords, only `src/` is counted under `src`.
proof fn lemma_keyword_src(j: int)
    requires
        0 <= j < 13,
    ensures
        (trim_slashes(hotspot_keywords()[j]) == "src"@) == (j == 0),
{
    reveal_strlit("src");
    reveal_strlit("src/");
    reveal_strlit("lib/");
    reveal_strlit("pkg/");
    reveal_strlit("cmd/");
    reveal_strlit("internal/");
    reveal_strlit("app/");
    reveal_strlit("test/");
    reveal_strlit("tests/");
    reveal_strlit("spec/");
    reveal_strlit("docs/");
    reveal_strlit("scripts/");
    reveal_strlit("config/");
    reveal_strlit("build/");
    let kw = hotspot_keywords()[j];
    if j == 0 {
        assert(kw.drop_last() =~= "src"@);
        assert(trim_slashes(kw.drop_last()) == kw.drop_last());
    } else {
        lemma_trim_keeps_front(kw, 2);
        let t = trim_slashes(kw);
        assert(t[0] == kw[0] && t[1] == kw[1]);
        assert(!(kw[0] == 's' && kw[1] == 'r'));
        if t == "src"@ {
            assert(t[0] == 's' && t[1] == 'r');
        }
    }
}

/// The directory keywords of a message, from the `j`-th on, count under
/// `src` once with five added lines when `j` is 0 and the message names
/// `src/`, and leave `src` alone otherwise.
proof fn lemma_bump_keywords_src(g: Seq<HotspotSpec>, msg: Seq<char>, j: nat)
    requires
        distinct_hotspot_paths(g),
    ensures
        distinct_hotspot_paths(bump_keywords(g, msg, j)),
        hotspot_totals(bump_keywords(g, msg, j), "src"@) == (if j == 0 && contains(msg, "src/"@) {
            (hotspot_totals(g, "src"@).0 + 1, hotspot_totals(g, "src"@).1 + 5, hotspot_totals(g, "src"@).2)
        } else {
            hotspot_totals(g, "src"@)
        }),
    decreases 13 - j,
{
    if j < 13 {
        let kw = hotspot_keywords()[j as int];
        let next = if contains(msg, kw) {
            bump(g, trim_slashes(kw), 5, 0)
        } else {
            g
        };
        lemma_keyword_src(j as int);
        lemma_bump_totals(g, trim_slashes(kw), 5, 0, "src"@);
        lemma_bump_keywords_src(next, msg, j + 1);
        if j == 0 {
            reveal_strlit("src/");
            assert(kw == "src/"@);
        }
    }
}

/// One commit adds to `src`: one change and five lines where its message
/// names `src/`, and one change, three added lines and one deleted line
/// where it speaks of a fix, an update or a refactoring.
proof fn lemma_hotspot_step_src(g: Seq<HotspotSpec>, c: CommitSpec)
    requires
        distinct_hotspot_paths(g),
    ensures
        distinct_hotspot_paths(hotspot_step(g, c)),
        hotspot_totals(hotspot_step(g, c), "src"@) == (
            hotspot_totals(g, "src"@).0 + (if contains(c.message, "src/"@) { 1int } else { 0int }) + (if contains(c.message, "fix"@)
                || contains(c.message, "update"@) || contains(c.message, "refactor"@) { 1int } else { 0int }),
            hotspot_totals(g, "src"@).1 + (if contains(c.message, "src/"@) { 5int } else { 0int }) + (if contains(c.message, "fix"@)
                || contains(c.message, "update"@) || contains(c.message, "refactor"@) { 3int } else { 0int }),
            hotspot_totals(g, "src"@).2 + (if contains(c.message, "fix"@) || contains(c.message, "update"@) || contains(
                c.message,
                "refactor"@,
            ) { 1int } else { 0int }),
        ),
{
    let after = bump_keywords(g, c.message, 0);
    lemma_bump_keywords_src(g, c.message, 0);
    lemma_bump_totals(after, "src"@, 3, 1, "src"@);
}

/// How many of the commits' messages contain `w`.
pub open spec fn messages_naming(cs: Seq<CommitSpec>, w: Seq<char>) -> nat
    decreases cs.len(),
{
    if cs.len() == 0 {
        0
    } else {
        (if contains(cs[0].message, w) {
            1nat
        } else {
            0nat
        }) + messages_naming(cs.drop_first(), w)
    }
}

/// How many of the commits' messages speak of a fix, an update or a
/// refactoring (contain `fix`, `update` or `refactor`).
pub open spec fn change_messages(cs: Seq<CommitSpec>) -> nat
    decreases cs.len(),
{
    if cs.len() == 0 {
        0
    } else {
        (if contains(cs[0].message, "fix"@) || contains(cs[0].message, "update"@) || contains(
            cs[0].message,
            "refactor"@,
        ) {
            1nat
        } else {
            0nat
        }) + change_messages(cs.drop_first())
    }
}

proof fn lemma_groups_src(cs: Seq<CommitSpec>, k: nat)
    requires
        k <= cs.len(),
    ensures
        distinct_hotspot_paths(hotspot_groups(cs, k)),
        hotspot_totals(hotspot_groups(cs, k), "src"@) == (
            (messages_naming(cs.skip(cs.len() - k), "src/"@) + change_messages(cs.skip(cs.len() - k))) as int,
            (5 * messages_naming(cs.skip(cs.len() - k), "src/"@) + 3 * change_messages(cs.skip(cs.len() - k))) as int,
            change_messages(cs.skip(cs.len() - k)) as int,
        ),
    decreases k,
{
    let t = cs.skip(cs.len() - k);
    if k == 0 {
        assert(t.len() == 0);
        assert(hotspot_groups(cs, 0) =~= Seq::<HotspotSpec>::empty());
    } else {
        lemma_groups_src(cs, (k - 1) as nat);
        assert(t.drop_first() =~= cs.skip(cs.len() - (k - 1)));
        assert(t[0] == cs[cs.len() - k]);
        lemma_hotspot_step_src(hotspot_groups(cs, (k - 1) as nat), cs[cs.len() - k]);
    }
}

/// What the `src` hotspot records, over all commits: one change and five
/// added lines for each message that names `src/`, and one change, three
/// added lines and one deleted line for each message that speaks of a fix,
/// an update or a refactoring; the ranked hotspots report it so.
pub proof fn law_src_hotspot(cs: Seq<CommitSpec>)
    ensures
        hotspot_totals(hotspot_groups(cs, cs.len()), "src"@) == (
            (messages_naming(cs, "src/"@) + change_messages(cs)) as int,
            (5 * messages_naming(cs, "src/"@) + 3 * change_messages(cs)) as int,
            change_messages(cs) as int,
        ),
        forall|i: int|
            0 <= i < hotspots_spec(cs).len() && (#[trigger] hotspots_spec(cs)[i]).path == "src"@ ==> hotspots_spec(cs)[i].change_count
                == messages_naming(cs, "src/"@) + change_messages(cs) && hotspots_spec(cs)[i].total_additions == 5
                * messages_naming(cs, "src/"@) + 3 * change_messages(cs) && hotspots_spec(cs)[i].total_deletions
                == change_messages(cs),
{
    broadcast use vstd::seq_lib::group_to_multiset_ensures;
    lemma_groups_src(cs, cs.len());
    assert(cs.skip(0) =~= cs);
    let g = hotspot_groups(cs, cs.len());
    let sorted = sort_ranked::<FileHotspot>(g);
    law_sort_ranked::<FileHotspot>(g);
    assert forall|i: int|
        0 <= i < hotspots_spec(cs).len() && (#[trigger] hotspots_spec(cs)[i]).path == "src"@ implies hotspot_totals(
            g,
            "src"@,
        ) == (
        hotspots_spec(cs)[i].change_count,
        hotspots_spec(cs)[i].total_additions,
        hotspots_spec(cs)[i].total_deletions,
    ) by {
        let x = hotspots_spec(cs)[i];
        assert(x == sorted[i]);
        assert(sorted.contains(x));
        assert(sorted.to_multiset().count(x) > 0);
        assert(g.to_multiset().count(x) > 0);
        assert(g.contains(x));
        let j = choose|j: int| 0 <= j < g.len() && g[j] == x;
        lemma_totals_at(g, j);
    }
}

/// Counts one change to `path`.
fn bump_exec(g: &mut Vec<FileHotspot>, path: &str, adds: u64, dels: u64, bound: Ghost<int>)
    requires
        distinct_hotspot_paths(views(old(g)@)),
        forall|i: int| 0 <= i < old(g)@.len() ==> (#[trigger] old(g)@[i]).change_count <= bound@
            && old(g)@[i].total_additions <= 5 * bound@ && old(g)@[i].total_deletions <= bound@,
        adds <= 5,
        dels <= 1,
        0 <= bound@,
        5 * (bound@ + 1) <= u64::MAX,
        bound@ + 1 <= usize::MAX,
    ensures
        views(final(g)@) == bump(views(old(g)@), path@, adds as int, dels as int),
        distinct_hotspot_paths(views(final(g)@)),
        forall|i: int| 0 <= i < final(g)@.len() ==> (#[trigger] final(g)@[i]).change_count <= bound@ + 1
            && final(g)@[i].total_additions <= 5 * (bound@ + 1) && final(g)@[i].total_deletions <= bound@ + 1,
{
    let ghost before = views(g@);
    let mut i: usize = 0;
    while i < g.len()
        invariant
            i <= g@.len(),
            g@ == old(g)@,
            before == views(g@),
            distinct_hotspot_paths(before),
            forall|k: int| 0 <= k < g@.len() ==> (#[trigger] g@[k]).change_count <= bound@
                && g@[k].total_additions <= 5 * bound@ && g@[k].total_deletions <= bound@,
            adds <= 5,
            dels <= 1,
            0 <= bound@,
            5 * (bound@ + 1) <= u64::MAX,
            bound@ + 1 <= usize::MAX,
            forall|k: int| 0 <= k < i ==> #[trigger] g@[k].path@ != path@,
        decreases g.len() - i,
    {
        if str_eq(g[i].path.as_str(), path) {
            proof {
                assert(before[i as int].path == path@);
                let j = choose|j: int| 0 <= j < before.len() && #[trigger] before[j].path == path@;
                if j != i {
                    if j < i {
                        assert(before[j].path != before[i as int].path);
                    } else {
                        assert(before[i as int].path != before[j].path);
                    }
                }
                assert(j == i);
            }
            let old_h = &g[i];
            let updated = FileHotspot {
                path: old_h.path.clone(),
                change_count: old_h.change_count + 1,
                total_additions: old_h.total_additions + adds,
                total_deletions: old_h.total_deletions + dels,
            };
            g.set(i, updated);
            assert(views(g@) =~= bump(before, path@, adds as int, dels as int));
            return;
        }
        i = i + 1;
    }
    g.push(FileHotspot { path: path.to_owned(), change_count: 1, total_additions: adds, total_deletions: dels });
    assert(views(g@) =~= bump(before, path@, adds as int, dels as int));
}

/// Paths named in commit messages, newest commit first, ranked by how often
/// they are named; at most twenty.
pub fn build_file_hotspots(commits: &[Commit]) -> (r: Vec<FileHotspot>)
    requires
        commits@.len() <= usize::MAX / 16,
        commits@.len() <= 0x0100_0000_0000_0000,
    ensures
        views(r@) == hotspots_spec(views(commits@)),
{
    let ghost cv = views(commits@);
    let n = commits.len();
    let mut kws: Vec<Vec<char>> = Vec::new();
    kws.push(chars_of("src/"));
    kws.push(chars_of("lib/"));
    kws.push(chars_of("pkg/"));
    kws.push(chars_of("cmd/"));
    kws.push(chars_of("internal/"));
    kws.push(chars_of("app/"));
    kws.push(chars_of("test/"));
    kws.push(chars_of("tests/"));
    kws.push(chars_of("spec/"));
    kws.push(chars_of("docs/"));
    kws.push(chars_of("scripts/"));
    kws.push(chars_of("config/"));
    kws.push(chars_of("build/"));
    assert(views(kws@) =~= hotspot_keywords());
    let fix = chars_of("fix");
    let update = chars_of("update");
    let refactor = chars_of("refactor");
    let mut groups: Vec<FileHotspot> = Vec::new();
    let mut k: usize = 0;
    while k < n
        invariant
            k <= n,
            n == commits@.len(),
            n <= usize::MAX / 16,
            n <= 0x0100_0000_0000_0000,
            cv == views(commits@),
            views(kws@) == hotspot_keywords(),
            fix@ == "fix"@,
            update@ == "update"@,
            refactor@ == "refactor"@,
            views(groups@) == hotspot_groups(cv, k as nat),
            distinct_hotspot_paths(views(groups@)),
            kws@.len() == 13,
            forall|i: int| 0 <= i < groups@.len() ==> (#[trigger] groups@[i]).change_count <= 14 * k
                && groups@[i].total_additions <= 5 * (14 * k) && groups@[i].total_deletions <= 14 * k,
        decreases n - k,
    {
        let commit = &commits[n - 1 - k];
        assert(cv[cv.len() - (k + 1)] == commit@);
        let msg = chars_of(commit.message.as_str());
        let ghost start = views(groups@);
        let mut j: usize = 0;
        while j < 13
            invariant
                j <= 13,
                views(kws@) == hotspot_keywords(),
                kws@.len() == 13,
                msg@ == commit.message@,
                k < n,
                n <= usize::MAX / 16,
                n <= 0x0100_0000_0000_0000,
                bump_keywords(start, msg@, 0) == bump_keywords(views(groups@), msg@, j as nat),
                distinct_hotspot_paths(views(groups@)),
                forall|i: int| 0 <= i < groups@.len() ==> (#[trigger] groups@[i]).change_count <= 14 * k + j
                    && groups@[i].total_additions <= 5 * (14 * k + j) && groups@[i].total_deletions <= 14 * k + j,
            decreases 13 - j,
        {
            let kw = &kws[j];
            assert(kw@ == hotspot_keywords()[j as int]);
            if contains_chars(&msg, kw) {
                let mut e = kw.len();
                assert(kw@.take(e as int) =~= kw@);
                while e > 0 && kw[e - 1] == '/'
                    invariant
                        e <= kw@.len(),
                        trim_slashes(kw@) == trim_slashes(kw@.take(e as int)),
                    decreases e,
                {
                    assert(kw@.take(e as int).drop_last() =~= kw@.take(e - 1));
                    e = e - 1;
                }
                let path = crate::text::string_of_range(kw, 0, e);
                assert(path@ =~= kw@.take(e as int));
                bump_exec(&mut groups, path.as_str(), 5, 0, Ghost(14 * k + j));
            }
            j = j + 1;
        }
        if contains_chars(&msg, &fix) || contains_chars(&msg, &update) || contains_chars(&msg, &refactor) {
            bump_exec(&mut groups, "src", 3, 1, Ghost(14 * k + 13));
        }
        k = k + 1;
    }
    let mut sorted = sort_by_rank(groups);
    if sorted.len() > 20 {
        let ghost before = views(sorted@);
        sorted.truncate(20);
        assert(views(sorted@) =~= before.take(20));
    }
    sorted
}

// ---------------------------------------------------------------------------
// Timeline
// ---------------------------------------------------------------------------

/// `&h[..7.min(h.len())]`: the first seven bytes of a hash, or all of it
/// when it is shorter.
pub open spec fn short_hash(h: Seq<char>) -> Seq<char> {
    let b = encode_utf8(h);
    if b.len() >= 7 {
        decode_utf8(b.take(7))
    } else {
        h
    }
}

/// Whether cutting a hash after its seventh byte splits no character (where
/// it would, the slicing panics).
pub open spec fn cuts_cleanly(h: Seq<char>) -> bool {
    encode_utf8(h).len() >= 7 ==> is_char_boundary(encode_utf8(h), 7)
}

/// The first seven bytes of a hash, or all of it when it is shorter.
pub fn short_hash_of(h: &str) -> (r: String)
    requires
        cuts_cleanly(h@),
    ensures
        r@ == short_hash(h@),
{
    let n = h.as_bytes().len();
    if n >= 7 {
        let (head, _) = h.split_at(7);
        proof {
            broadcast use vstd::utf8::encode_utf8_decode_utf8;

            assert(head.spec_bytes() =~= encode_utf8(h@).take(7));
            assert(decode_utf8(encode_utf8(head@)) == head@);
        }
        head.to_owned()
    } else {
        h.to_owned()
    }
}

/// The names of the branches that point at `h`, in branch order.
pub open spec fn branch_names_at(bs: Seq<BranchSpec>, h: Seq<char>) -> Seq<Seq<char>>
    decreases bs.len(),
{
    if bs.len() == 0 {
        seq![]
    } else {
        let rest = branch_names_at(bs.drop_last(), h);
        if bs.last().commit_hash == h {
            rest.push(bs.last().name)
        } else {
            rest
        }
    }
}

/// The first line of a message, or nothing when it has none.
pub open spec fn first_line(msg: Seq<char>) -> Seq<char> {
    if lines(msg).len() > 0 {
        lines(msg)[0]
    } else {
        seq![]
    }
}

/// The fields of a timeline entry.
pub struct TimelineSpec {
    pub hash: Seq<char>,
    pub short_hash: Seq<char>,
    pub author: Seq<char>,
    pub date: int,
    pub message: Seq<char>,
    pub branch_names: Seq<Seq<char>>,
}

impl View for CommitTimelineEntry {
    type V = TimelineSpec;

    open spec fn view(&self) -> TimelineSpec {
        TimelineSpec {
            hash: self.hash@,
            short_hash: self.short_hash@,
            author: self.author@,
            date: self.date as int,
            message: self.message@,
            branch_names: strings_view(self.branch_names@),
        }
    }
}

impl Ranked for CommitTimelineEntry {
    open spec fn rank_of(v: TimelineSpec) -> int {
        v.date
    }

    fn rank(&self) -> (r: i128) {
        self.date as i128
    }
}

/// A commit's timeline entry.
pub open spec fn timeline_entry(c: CommitSpec, bs: Seq<BranchSpec>) -> TimelineSpec {
    TimelineSpec {
        hash: c.hash,
        short_hash: short_hash(c.hash),
        author: c.author.name,
        date: c.author.timestamp as int,
        message: first_line(c.message),
        branch_names: branch_names_at(bs, c.hash),
    }
}

/// One entry per commit, newest author date first, commits of one date in
/// their given order.
pub open spec fn timeline_spec(cs: Seq<CommitSpec>, bs: Seq<BranchSpec>) -> Seq<TimelineSpec> {
    sort_ranked::<CommitTimelineEntry>(cs.map_values(|c: CommitSpec| timeline_entry(c, bs)))
}

/// The names of the branches that point at `h`.
fn branch_names_for(branches: &[Branch], h: &str) -> (r: Vec<String>)
    ensures
        strings_view(r@) == branch_names_at(views(branches@), h@),
{
    let ghost bv = views(branches@);
    let mut r: Vec<String> = Vec::new();
    let mut i: usize = 0;
    let n = branches.len();
    assert(bv.take(0) =~= Seq::<BranchSpec>::empty());
    while i < n
        invariant
            i <= n,
            n == branches@.len(),
            bv == views(branches@),
            strings_view(r@) == branch_names_at(bv.take(i as int), h@),
        decreases n - i,
    {
        assert(bv.take(i + 1).drop_last() =~= bv.take(i as int));
        assert(bv.take(i + 1).last() == branches@[i as int]@);
        if str_eq(branches[i].commit_hash.as_str(), h) {
            let ghost before = r@;
            r.push(branches[i].name.clone());
            assert(strings_view(r@) =~= strings_view(before).push(branches@[i as int].name@));
        }
        i = i + 1;
    }
    assert(bv.take(n as int) =~= bv);
    r
}

/// The first line of a message.
fn first_line_of(msg: &str) -> (r: String)
    ensures
        r@ == first_line(msg@),
{
    let cs = chars_of(msg);
    let ls = split_lines(&cs);
    if ls.len() > 0 {
        string_of(&ls[0])
    } else {
        String::new()
    }
}

/// One entry per commit with its short hash, first message line and the
/// branches pointing at it, newest first.
pub fn build_timeline(commits: &[Commit], branches: &[Branch]) -> (r: Vec<CommitTimelineEntry>)
    requires
        forall|i: int| 0 <= i < commits@.len() ==> cuts_cleanly(#[trigger] commits@[i].hash@),
    ensures
        views(r@) == timeline_spec(views(commits@), views(branches@)),
{
    let ghost cv = views(commits@);
    let ghost bv = views(branches@);
    let ghost f = |c: CommitSpec| timeline_entry(c, bv);
    let n = commits.len();
    let mut entries: Vec<CommitTimelineEntry> = Vec::new();
    let mut i: usize = 0;
    while i < n
        invariant
            i <= n,
            n == commits@.len(),
            cv == views(commits@),
            bv == views(branches@),
            f == (|c: CommitSpec| timeline_entry(c, bv)),
            forall|k: int| 0 <= k < commits@.len() ==> cuts_cleanly(#[trigger] commits@[k].hash@),
            views(entries@) == cv.take(i as int).map_values(f),
        decreases n - i,
    {
        let c = &commits[i];
        let e = CommitTimelineEntry {
            hash: c.hash.clone(),
            short_hash: short_hash_of(c.hash.as_str()),
            author: c.author.name.clone(),
            date: c.author.timestamp,
            message: first_line_of(c.message.as_str()),
            branch_names: branch_names_for(branches, c.hash.as_str()),
        };
        let ghost before = views(entries@);
        proof {
            assert(cv[i as int] == c@);
            let t = timeline_entry(c@, bv);
            assert(e@.hash == t.hash);
            assert(e@.short_hash == t.short_hash);
            assert(e@.author == t.author);
            assert(e@.date == t.date);
            assert(e@.message == t.message);
            assert(e@.branch_names == t.branch_names);
            assert(e@ == t);
            assert(f(cv[i as int]) == t);
        }
        entries.push(e);
        proof {
            assert(views(entries@) =~= before.push(e@));
            assert(cv.take(i + 1).map_values(f) =~= cv.take(i as int).map_values(f).push(f(cv[i as int])));
        }
        i = i + 1;
    }
    assert(cv.take(n as int) =~= cv);
    sort_by_rank(entries)
}

// ---------------------------------------------------------------------------
// Branch graph
// ---------------------------------------------------------------------------

/// The fields of a branch's history.
pub struct BranchInfoSpec {
    pub name: Seq<char>,
    pub commit_hashes: Seq<Seq<char>>,
    pub is_head: bool,
}

impl View for BranchInfo {
    type V = BranchInfoSpec;

    open spec fn view(&self) -> BranchInfoSpec {
        BranchInfoSpec {
            name: self.name@,
            commit_hashes: strings_view(self.commit_hashes@),
            is_head: self.is_head,
        }
    }
}

/// The fields of a merge point.
pub struct MergePointSpec {
    pub merge_commit_hash: Seq<char>,
    pub source_branch: Seq<char>,
    pub target_branch: Seq<char>,
}

impl View for MergePoint {
    type V = MergePointSpec;

    open spec fn view(&self) -> MergePointSpec {
        MergePointSpec {
            merge_commit_hash: self.merge_commit_hash@,
            source_branch: self.source_branch@,
            target_branch: self.target_branch@,
        }
    }
}

/// The fields of a branch graph.
pub struct BranchGraphSpec {
    pub branches: Seq<BranchInfoSpec>,
    pub merge_points: Seq<MergePointSpec>,
}

impl View for BranchGraph {
    type V = BranchGraphSpec;

    open spec fn view(&self) -> BranchGraphSpec {
        BranchGraphSpec { branches: views(self.branches@), merge_points: views(self.merge_points@) }
    }
}

/// The index of the last commit with hash `h`: where two commits share a
/// hash, the later one is the one looked up.
pub open spec fn last_with_hash(cs: Seq<CommitSpec>, h: Seq<char>) -> Option<int>
    decreases cs.len(),
{
    if cs.len() == 0 {
        None
    } else if cs.last().hash == h {
        Some(cs.len() - 1)
    } else {
        last_with_hash(cs.drop_last(), h)
    }
}

/// The hashes met following first parents from `h`, after those in `seen`,
/// in at most `fuel` steps. The walk stops at a hash that names no commit, at
/// one met before, and after a commit without parents.
pub open spec fn first_parent_walk(cs: Seq<CommitSpec>, h: Seq<char>, seen: Seq<Seq<char>>, fuel: nat) -> Seq<Seq<char>>
    decreases fuel,
{
    if fuel == 0 {
        seen
    } else {
        match last_with_hash(cs, h) {
            None => seen,
            Some(i) => {
                if seen.contains(h) {
                    seen
                } else if cs[i].parent_hashes.len() > 0 {
                    first_parent_walk(cs, cs[i].parent_hashes[0], seen.push(h), (fuel - 1) as nat)
                } else {
                    seen.push(h)
                }
            },
        }
    }
}

/// The history of a branch at `h`: `h` and its first parents, each commit
/// once. Every step meets a new commit, so one step more than there are
/// commits is never reached (`law_first_parent_walk_ends`).
pub open spec fn branch_history(cs: Seq<CommitSpec>, h: Seq<char>) -> Seq<Seq<char>> {
    first_parent_walk(cs, h, seq![], cs.len() + 1)
}

/// Whether every hash of `seen` is the hash of one of the commits.
pub open spec fn all_commit_hashes(cs: Seq<CommitSpec>, seen: Seq<Seq<char>>) -> bool {
    forall|j: int| 0 <= j < seen.len() ==> exists|k: int| 0 <= k < cs.len() && #[trigger] cs[k].hash == #[trigger] seen[j]
}

proof fn lemma_last_with_hash(cs: Seq<CommitSpec>, h: Seq<char>)
    ensures
        last_with_hash(cs, h) matches Some(i) ==> 0 <= i < cs.len() && cs[i].hash == h,
    decreases cs.len(),
{
    if cs.len() > 0 && cs.last().hash != h {
        lemma_last_with_hash(cs.drop_last(), h);
    }
}

proof fn lemma_seen_bounded(cs: Seq<CommitSpec>, seen: Seq<Seq<char>>)
    requires
        seen.no_duplicates(),
        all_commit_hashes(cs, seen),
    ensures
        seen.len() <= cs.len(),
{
    let hs = cs.map_values(|c: CommitSpec| c.hash);
    assert forall|x: Seq<char>| seen.to_set().contains(x) implies hs.to_set().contains(x) by {
        let j = choose|j: int| 0 <= j < seen.len() && seen[j] == x;
        let k = choose|k: int| 0 <= k < cs.len() && #[trigger] cs[k].hash == #[trigger] seen[j];
        assert(hs[k] == x);
    }
    seen.unique_seq_to_set();
    hs.lemma_cardinality_of_set();
    vstd::set_lib::lemma_len_subset(seen.to_set(), hs.to_set());
}

proof fn lemma_walk_fuel(cs: Seq<CommitSpec>, h: Seq<char>, seen: Seq<Seq<char>>, f1: nat, f2: nat)
    requires
        seen.no_duplicates(),
        all_commit_hashes(cs, seen),
        f1 >= cs.len() - seen.len() + 1,
        f2 >= cs.len() - seen.len() + 1,
    ensures
        first_parent_walk(cs, h, seen, f1) == first_parent_walk(cs, h, seen, f2),
    decreases f1,
{
    lemma_seen_bounded(cs, seen);
    lemma_last_with_hash(cs, h);
    if let Some(i) = last_with_hash(cs, h) {
        if !seen.contains(h) && cs[i].parent_hashes.len() > 0 {
            let next = seen.push(h);
            assert forall|a: int, b: int| 0 <= a < next.len() && 0 <= b < next.len() && a != b implies next[a] != next[b] by {
                if a == seen.len() {
                    assert(seen[b] == next[b]);
                } else if b == seen.len() {
                    assert(seen[a] == next[a]);
                }
            }
            assert forall|j: int| 0 <= j < next.len() implies exists|k: int| 0 <= k < cs.len() && #[trigger] cs[k].hash == #[trigger] next[j] by {
                if j == seen.len() {
                    assert(cs[i].hash == next[j]);
                } else {
                    assert(next[j] == seen[j]);
                }
            }
            lemma_walk_fuel(cs, cs[i].parent_hashes[0], next, (f1 - 1) as nat, (f2 - 1) as nat);
        }
    }
}

/// The first-parent walk always ends by itself: any bound beyond the number
/// of commits gives the same history.
pub proof fn law_first_parent_walk_ends(cs: Seq<CommitSpec>, h: Seq<char>, fuel: nat)
    requires
        fuel >= cs.len() + 1,
    ensures
        first_parent_walk(cs, h, seq![], fuel) == branch_history(cs, h),
{
    lemma_walk_fuel(cs, h, seq![], fuel, cs.len() + 1);
}

/// Where the last commit with hash `h` stands.
fn last_index_with_hash(commits: &[Commit], h: &str) -> (r: Option<usize>)
    ensures
        match (r, last_with_hash(views(commits@), h@)) {
            (None, None) => true,
            (Some(j), Some(i)) => j == i,
            _ => false,
        },
{
    let ghost cv = views(commits@);
    let n = commits.len();
    let mut i = n;
    assert(cv.take(n as int) =~= cv);
    while i > 0
        invariant
            i <= n,
            n == commits@.len(),
            cv == views(commits@),
            last_with_hash(cv, h@) == last_with_hash(cv.take(i as int), h@),
        decreases i,
    {
        let ghost t = cv.take(i as int);
        assert(t.drop_last() =~= cv.take(i - 1));
        assert(t.last() == commits@[i - 1]@);
        if str_eq(commits[i - 1].hash.as_str(), h) {
            return Some(i - 1);
        }
        i = i - 1;
    }
    None
}

/// The history of the branch whose tip is `start`.
fn branch_commits(commits: &[Commit], start: &str) -> (r: Vec<String>)
    ensures
        strings_view(r@) == branch_history(views(commits@), start@),
{
    let ghost cv = views(commits@);
    let mut seen: Vec<String> = Vec::new();
    let mut current: String = start.to_owned();
    let mut done = false;
    assert(strings_view(seen@) =~= Seq::<Seq<char>>::empty());
    while !done
        invariant
            cv == views(commits@),
            strings_view(seen@).no_duplicates(),
            all_commit_hashes(cv, strings_view(seen@)),
            seen@.len() <= cv.len(),
            done ==> strings_view(seen@) == branch_history(cv, start@),
            !done ==> branch_history(cv, start@) == first_parent_walk(
                cv,
                current@,
                strings_view(seen@),
                (cv.len() + 1 - seen@.len()) as nat,
            ),
        decreases cv.len() - seen@.len() + (if done { 0int } else { 1int }),
    {
        let ghost sv = strings_view(seen@);
        let ghost fuel = (cv.len() + 1 - seen@.len()) as nat;
        proof {
            lemma_last_with_hash(cv, current@);
        }
        match last_index_with_hash(commits, current.as_str()) {
            None => {
                done = true;
            },
            Some(i) => {
                proof {
                    let i2 = last_with_hash(cv, current@)->0;
                    assert(0 <= i2 < cv.len());
                    assert(i as int == i2);
                    assert(cv[i as int].hash == current@);
                }
                if contains_string(&seen, current.as_str()) {
                    done = true;
                } else {
                    seen.push(current.clone());
                    proof {
                        let next = sv.push(current@);
                        assert(strings_view(seen@) =~= next);
                        assert forall|a: int, b: int| 0 <= a < next.len() && 0 <= b < next.len() && a != b implies next[a] != next[b] by {
                            if a == sv.len() {
                                assert(sv[b] == next[b]);
                            } else if b == sv.len() {
                                assert(sv[a] == next[a]);
                            }
                        }
                        assert forall|j: int| 0 <= j < next.len() implies exists|k: int| 0 <= k < cv.len() && #[trigger] cv[k].hash == #[trigger] next[j] by {
                            if j == sv.len() {
                                assert(cv[i as int].hash == next[j]);
                            } else {
                                assert(next[j] == sv[j]);
                            }
                        }
                        lemma_seen_bounded(cv, next);
                    }
                    let c = &commits[i];
                    assert(cv[i as int].parent_hashes.len() == c.parent_hashes@.len());
                    if c.parent_hashes.len() > 0 {
                        current = c.parent_hashes[0].clone();
                        assert(current@ == cv[i as int].parent_hashes[0]);
                    } else {
                        done = true;
                    }
                }
            },
        }
    }
    seen
}

/// The merge commits, in order, with the short hashes of their first two
/// parents.
pub open spec fn merge_points_spec(cs: Seq<CommitSpec>) -> Seq<MergePointSpec>
    decreases cs.len(),
{
    if cs.len() == 0 {
        seq![]
    } else {
        let rest = merge_points_spec(cs.drop_last());
        let c = cs.last();
        if c.parent_hashes.len() > 1 {
            rest.push(
                MergePointSpec {
                    merge_commit_hash: c.hash,
                    source_branch: short_hash(c.parent_hashes[1]),
                    target_branch: short_hash(c.parent_hashes[0]),
                },
            )
        } else {
            rest
        }
    }
}

/// The history of one branch.
pub open spec fn branch_info_spec(cs: Seq<CommitSpec>, b: BranchSpec) -> BranchInfoSpec {
    BranchInfoSpec { name: b.name, commit_hashes: branch_history(cs, b.commit_hash), is_head: b.is_head }
}

/// Whether the first two parents of every merge can be shortened.
pub open spec fn merge_parents_cut_cleanly(cs: Seq<CommitSpec>) -> bool {
    forall|i: int|
        0 <= i < cs.len() && (#[trigger] cs[i]).parent_hashes.len() > 1 ==> cuts_cleanly(cs[i].parent_hashes[0])
            && cuts_cleanly(cs[i].parent_hashes[1])
}

/// Each branch's first-parent history and the merge commits.
pub fn build_branch_graph(commits: &[Commit], branches: &[Branch]) -> (r: BranchGraph)
    requires
        merge_parents_cut_cleanly(views(commits@)),
    ensures
        r@.branches == views(branches@).map_values(|b: BranchSpec| branch_info_spec(views(commits@), b)),
        r@.merge_points == merge_points_spec(views(commits@)),
{
    let ghost cv = views(commits@);
    let ghost bv = views(branches@);
    let ghost f = |b: BranchSpec| branch_info_spec(cv, b);
    let mut infos: Vec<BranchInfo> = Vec::new();
    let mut i: usize = 0;
    while i < branches.len()
        invariant
            i <= branches@.len(),
            cv == views(commits@),
            bv == views(branches@),
            f == (|b: BranchSpec| branch_info_spec(cv, b)),
            views(infos@) == bv.take(i as int).map_values(f),
        decreases branches.len() - i,
    {
        let b = &branches[i];
        let info = BranchInfo {
            name: b.name.clone(),
            commit_hashes: branch_commits(commits, b.commit_hash.as_str()),
            is_head: b.is_head,
        };
        let ghost before = views(infos@);
        proof {
            assert(bv[i as int] == b@);
            assert(info@ == branch_info_spec(cv, b@));
        }
        infos.push(info);
        proof {
            assert(views(infos@) =~= before.push(info@));
            assert(bv.take(i + 1).map_values(f) =~= bv.take(i as int).map_values(f).push(f(bv[i as int])));
        }
        i = i + 1;
    }
    assert(bv.take(branches@.len() as int) =~= bv);
    let mut merges: Vec<MergePoint> = Vec::new();
    let mut j: usize = 0;
    assert(cv.take(0) =~= Seq::<CommitSpec>::empty());
    while j < commits.len()
        invariant
            j <= commits@.len(),
            cv == views(commits@),
            merge_parents_cut_cleanly(cv),
            views(merges@) == merge_points_spec(cv.take(j as int)),
        decreases commits.len() - j,
    {
        let c = &commits[j];
        assert(cv.take(j + 1).drop_last() =~= cv.take(j as int));
        assert(cv.take(j + 1).last() == cv[j as int]);
        assert(cv[j as int] == c@);
        if c.parent_hashes.len() > 1 {
            assert(cv[j as int].parent_hashes.len() > 1);
            let m = MergePoint {
                merge_commit_hash: c.hash.clone(),
                source_branch: short_hash_of(c.parent_hashes[1].as_str()),
                target_branch: short_hash_of(c.parent_hashes[0].as_str()),
            };
            let ghost before = views(merges@);
            merges.push(m);
            assert(views(merges@) =~= before.push(m@));
        }
        j = j + 1;
    }
    assert(cv.take(commits@.len() as int) =~= cv);
    BranchGraph { branches: infos, merge_points: merges }
}

// ---------------------------------------------------------------------------
// Commits per day
// ---------------------------------------------------------------------------

/// The day a timestamp falls on, counted in days from 1970-01-01 (UTC);
/// days before it are negative.
pub open spec fn day_of(ts: int) -> int {
    ts / 86400
}

/// How many of the commits were authored on day `day`.
pub open spec fn commits_on_day(cs: Seq<CommitSpec>, day: int) -> nat
    decreases cs.len(),
{
    if cs.len() == 0 {
        0
    } else {
        commits_on_day(cs.drop_last(), day) + if day_of(cs.last().author.timestamp as int) == day {
            1nat
        } else {
            0nat
        }
    }
}

/// The fields of a day's count.
pub struct DailySpec {
    pub date: int,
    pub count: nat,
}

impl View for DailyCommitCount {
    type V = DailySpec;

    open spec fn view(&self) -> DailySpec {
        DailySpec { date: self.date as int, count: self.count as nat }
    }
}

/// Whether `r` lists once each day on which a commit was authored, by its
/// midnight, with the number of commits authored that day, earliest first.
pub open spec fn daily_counts_of(cs: Seq<CommitSpec>, r: Seq<DailySpec>) -> bool {
    &&& forall|i: int, j: int| 0 <= i < j < r.len() ==> (#[trigger] r[i]).date < (#[trigger] r[j]).date
    &&& forall|i: int|
        0 <= i < r.len() ==> (#[trigger] r[i]).date % 86400 == 0 && r[i].count == commits_on_day(cs, r[i].date / 86400)
            && r[i].count > 0
    &&& forall|k: int| 0 <= k < cs.len() ==> lists_date(r, day_of((#[trigger] cs[k]).author.timestamp as int) * 86400)
}

/// Whether one of the counts is for the day starting at `date`.
pub open spec fn lists_date(r: Seq<DailySpec>, date: int) -> bool {
    exists|i: int| 0 <= i < r.len() && #[trigger] r[i].date == date
}

/// Whether every author date lies in the range that a date can have.
pub open spec fn timestamps_representable(cs: Seq<CommitSpec>) -> bool {
    forall|k: int| 0 <= k < cs.len() ==> -0x800_0000_0000 <= #[trigger] cs[k].author.timestamp <= 0x800_0000_0000
}

proof fn lemma_commits_on_day_positive(cs: Seq<CommitSpec>, day: int)
    requires
        commits_on_day(cs, day) > 0,
    ensures
        exists|k: int| 0 <= k < cs.len() && day_of((#[trigger] cs[k]).author.timestamp as int) == day,
    decreases cs.len(),
{
    if day_of(cs.last().author.timestamp as int) == day {
        assert(day_of(cs[cs.len() - 1].author.timestamp as int) == day);
    } else {
        lemma_commits_on_day_positive(cs.drop_last(), day);
        let k = choose|k: int| 0 <= k < cs.drop_last().len() && day_of((#[trigger] cs.drop_last()[k]).author.timestamp as int) == day;
        assert(cs.drop_last()[k] == cs[k]);
    }
}

/// Commits per day, earliest day first.
pub fn build_daily_commit_counts(commits: &[Commit]) -> (r: Vec<DailyCommitCount>)
    requires
        timestamps_representable(views(commits@)),
    ensures
        daily_counts_of(views(commits@), views(r@)),
{
    let ghost cv = views(commits@);
    let n = commits.len();
    let mut counts: Vec<DailyCommitCount> = Vec::new();
    let mut k: usize = 0;
    while k < n
        invariant
            k <= n,
            n == commits@.len(),
            cv == views(commits@),
            timestamps_representable(cv),
            forall|i: int, j: int| 0 <= i < j < counts@.len() ==> (#[trigger] counts@[i]).date < (#[trigger] counts@[j]).date,
            forall|i: int|
                0 <= i < counts@.len() ==> (#[trigger] counts@[i]).date % 86400 == 0
                    && counts@[i].count == commits_on_day(cv.take(k as int), counts@[i].date / 86400)
                    && counts@[i].count > 0 && counts@[i].count <= k,
            forall|q: int|
                0 <= q < k ==> exists|i: int| 0 <= i < counts@.len() && #[trigger] counts@[i].date == day_of((#[trigger] cv[q]).author.timestamp as int) * 86400,
        decreases n - k,
    {
        let ts = commits[k].author.timestamp;
        assert(cv[k as int].author.timestamp == ts);
        let day: i64 = match ts.checked_div_euclid(86400) {
            Some(d) => d,
            None => 0,
        };
        assert(day == day_of(ts as int));
        assert(-0x800_0000_0000int / 86400 - 1 <= day <= 0x800_0000_0000int / 86400);
        let date: i64 = day * 86400;
        let mut p: usize = 0;
        while p < counts.len() && counts[p].date < date
            invariant
                p <= counts@.len(),
                forall|i: int| 0 <= i < p ==> (#[trigger] counts@[i]).date < date,
            decreases counts.len() - p,
        {
            p = p + 1;
        }
        let ghost old_counts = counts@;
        let ghost next = cv.take(k + 1);
        proof {
            assert(next.drop_last() =~= cv.take(k as int));
            assert(next.last() == cv[k as int]);
            assert(date % 86400 == 0) by (nonlinear_arith)
                requires
                    date == day * 86400,
            ;
            assert(date / 86400 == day) by (nonlinear_arith)
                requires
                    date == day * 86400,
            ;
        }
        if p < counts.len() && counts[p].date == date {
            let updated = DailyCommitCount { date, count: counts[p].count + 1 };
            counts.set(p, updated);
            proof {
                assert forall|i: int| 0 <= i < counts@.len() implies (#[trigger] counts@[i]).count == commits_on_day(next, counts@[i].date / 86400) by {
                    if i != p {
                        assert(counts@[i] == old_counts[i]);
                        assert(old_counts[i].date != date);
                        assert(old_counts[i].date / 86400 != day) by (nonlinear_arith)
                            requires
                                old_counts[i].date % 86400 == 0,
                                old_counts[i].date != date,
                                date == day * 86400,
                        ;
                    }
                }
                assert forall|q: int| 0 <= q < k + 1 implies exists|i: int| 0 <= i < counts@.len() && #[trigger] counts@[i].date == day_of((#[trigger] cv[q]).author.timestamp as int) * 86400 by {
                    if q < k {
                        let i = choose|i: int| 0 <= i < old_counts.len() && #[trigger] old_counts[i].date == day_of(cv[q].author.timestamp as int) * 86400;
                        assert(counts@[i].date == old_counts[i].date);
                    } else {
                        assert(counts@[p as int].date == date);
                    }
                }
            }
        } else {
            proof {
                if commits_on_day(cv.take(k as int), day as int) > 0 {
                    lemma_commits_on_day_positive(cv.take(k as int), day as int);
                    let q = choose|q: int| 0 <= q < cv.take(k as int).len() && day_of((#[trigger] cv.take(k as int)[q]).author.timestamp as int) == day;
                    assert(cv.take(k as int)[q] == cv[q]);
                    let i = choose|i: int| 0 <= i < old_counts.len() && #[trigger] old_counts[i].date == day_of(cv[q].author.timestamp as int) * 86400;
                    if i < p {
                    } else if i == p {
                    } else {
                        assert(old_counts[p as int].date < old_counts[i].date);
                    }
                    assert(false);
                }
            }
            counts.insert(p, DailyCommitCount { date, count: 1 });
            proof {
                assert forall|i: int, j: int| 0 <= i < j < counts@.len() implies (#[trigger] counts@[i]).date < (#[trigger] counts@[j]).date by {
                    if j < p {
                        assert(counts@[i] == old_counts[i] && counts@[j] == old_counts[j]);
                    } else if j == p {
                        assert(counts@[i] == old_counts[i]);
                    } else if i < p {
                        assert(counts@[i] == old_counts[i] && counts@[j] == old_counts[j - 1]);
                        assert(old_counts[j - 1].date >= date) by {
                            if j - 1 > p {
                                assert(old_counts[p as int].date < old_counts[j - 1].date);
                            }
                        }
                    } else if i == p {
                        assert(counts@[j] == old_counts[j - 1]);
                        assert(old_counts[j - 1].date > date) by {
                            if j - 1 > p {
                                assert(old_counts[p as int].date < old_counts[j - 1].date);
                            }
                        }
                    } else {
                        assert(counts@[i] == old_counts[i - 1] && counts@[j] == old_counts[j - 1]);
                    }
                }
                assert forall|i: int| 0 <= i < counts@.len() implies (#[trigger] counts@[i]).date % 86400 == 0
                    && counts@[i].count == commits_on_day(next, counts@[i].date / 86400)
                    && counts@[i].count > 0 && counts@[i].count <= k + 1 by {
                    if i != p {
                        let o = if i < p { i } else { i - 1 };
                        assert(counts@[i] == old_counts[o]);
                        assert(old_counts[o].date != date);
                        assert(old_counts[o].date / 86400 != day) by (nonlinear_arith)
                            requires
                                old_counts[o].date % 86400 == 0,
                                old_counts[o].date != date,
                                date == day * 86400,
                        ;
                    }
                }
                assert forall|q: int| 0 <= q < k + 1 implies exists|i: int| 0 <= i < counts@.len() && #[trigger] counts@[i].date == day_of((#[trigger] cv[q]).author.timestamp as int) * 86400 by {
                    if q < k {
                        let i = choose|i: int| 0 <= i < old_counts.len() && #[trigger] old_counts[i].date == day_of(cv[q].author.timestamp as int) * 86400;
                        if i < p {
                            assert(counts@[i] == old_counts[i]);
                        } else {
                            assert(counts@[i + 1] == old_counts[i]);
                        }
                    } else {
                        assert(counts@[p as int].date == date);
                    }
                }
            }
        }
        k = k + 1;
    }
    assert(cv.take(n as int) =~= cv);
    assert forall|i: int, j: int| 0 <= i < j < views(counts@).len() implies (#[trigger] views(counts@)[i]).date < (#[trigger] views(counts@)[j]).date by {
        assert(counts@[i].date < counts@[j].date);
    }
    assert forall|i: int| 0 <= i < views(counts@).len() implies (#[trigger] views(counts@)[i]).date % 86400 == 0
        && views(counts@)[i].count == commits_on_day(cv, views(counts@)[i].date / 86400)
        && views(counts@)[i].count > 0 by {
        assert(views(counts@)[i] == counts@[i]@);
    }
    assert forall|k2: int| 0 <= k2 < cv.len() implies lists_date(views(counts@), day_of((#[trigger] cv[k2]).author.timestamp as int) * 86400) by {
        let i = choose|i: int| 0 <= i < counts@.len() && #[trigger] counts@[i].date == day_of(cv[k2].author.timestamp as int) * 86400;
        assert(views(counts@)[i].date == counts@[i].date);
    }
    counts
}

// ---------------------------------------------------------------------------
// Durations
// ---------------------------------------------------------------------------

/// How long it is from `from` to `to` (seconds since the epoch), in whole
/// days rounded toward zero: under a day, days, thirty-day months, or
/// 365-day years with the months left over.
pub open spec fn duration_text(from: int, to: int) -> Seq<char> {
    let secs = to - from;
    if secs < 86400 {
        "less than a day"@
    } else {
        let days = secs / 86400;
        if days < 30 {
            decimal(days as nat) + " days"@
        } else if days < 365 {
            decimal((days / 30) as nat) + " months"@
        } else {
            let years = days / 365;
            let months = (days % 365) / 30;
            if months > 0 {
                decimal(years as nat) + " years "@ + decimal(months as nat) + " months"@
            } else {
                decimal(years as nat) + " years"@
            }
        }
    }
}

/// Renders the time between two moments, given in seconds since the epoch.
pub fn format_duration(from: i64, to: i64) -> (r: String)
    ensures
        r@ == duration_text(from as int, to as int),
{
    let diff: i128 = to as i128 - from as i128;
    if diff < 86400 {
        return "less than a day".to_owned();
    }
    let days: u64 = (diff as u128 / 86400) as u64;
    assert(days == (to - from) / 86400);
    if days < 30 {
        concat(decimal_string(days).as_str(), " days")
    } else if days < 365 {
        concat(decimal_string(days / 30).as_str(), " months")
    } else {
        let years = days / 365;
        let months = (days % 365) / 30;
        if months > 0 {
            let head = concat(decimal_string(years).as_str(), " years ");
            let tail = concat(decimal_string(months).as_str(), " months");
            let r = concat(head.as_str(), tail.as_str());
            assert(r@ =~= decimal(years as nat) + " years "@ + decimal(months as nat) + " months"@);
            r
        } else {
            concat(decimal_string(years).as_str(), " years")
        }
    }
}

// ---------------------------------------------------------------------------
// Everything together
// ---------------------------------------------------------------------------

/// Whether the commits can be analysed: each author's estimated lines fit
/// in a `u64`, their hashes and merge parents can be shortened, and their
/// author dates lie where a date can. (No slice of commits in memory comes
/// near the bounds on its length.)
pub open spec fn analysable(cs: Seq<CommitSpec>) -> bool {
    &&& estimates_fit(cs)
    &&& cs.len() <= usize::MAX / 16
    &&& cs.len() <= 0x0100_0000_0000_0000
    &&& forall|i: int| 0 <= i < cs.len() ==> cuts_cleanly(#[trigger] cs[i].hash)
    &&& merge_parents_cut_cleanly(cs)
    &&& timestamps_representable(cs)
}

/// Every statistic of the commits, the branches and the language counts.
pub fn build_analysis(commits: &[Commit], branches: &[Branch], languages: &LanguageCounts) -> (r: AnalysisResult)
    requires
        analysable(views(commits@)),
    ensures
        r.overview matches Some(o) && o@ == overview_spec(views(commits@), branches@.len() as int, languages@),
        views(r.contributors@) == contributors_spec(views(commits@)),
        views(r.hotspots@) == hotspots_spec(views(commits@)),
        views(r.timeline@) == timeline_spec(views(commits@), views(branches@)),
        r.branch_graph matches Some(g) && g@.branches == views(branches@).map_values(
            |b: BranchSpec| branch_info_spec(views(commits@), b),
        ) && g@.merge_points == merge_points_spec(views(commits@)),
        daily_counts_of(views(commits@), views(r.daily_counts@)),
{
    proof {
        assert forall|i: int| 0 <= i < commits@.len() implies cuts_cleanly(#[trigger] commits@[i].hash@) by {
            assert(views(commits@)[i].hash == commits@[i].hash@);
        }
    }
    let overview = build_overview(commits, branches, languages);
    let contributors = build_contributor_stats(commits);
    let hotspots = build_file_hotspots(commits);
    let timeline = build_timeline(commits, branches);
    let branch_graph = build_branch_graph(commits, branches);
    let daily_counts = build_daily_commit_counts(commits);
    AnalysisResult {
        overview: Some(overview),
        contributors,
        hotspots,
        timeline,
        branch_graph: Some(branch_graph),
        daily_counts,
    }
}

/// Whether a hash can be shortened to seven bytes without a panic.
pub fn hash_cuts_cleanly(h: &str) -> (r: bool)
    ensures
        r == cuts_cleanly(h@),
{
    let n = h.as_bytes().len();
    n < 7 || h.is_char_boundary(7)
}

/// Whether each author's estimated lines fit in a `u64`.
pub fn estimates_fit_check(commits: &[Commit]) -> (r: bool)
    ensures
        r == estimates_fit(views(commits@)),
{
    let ghost cv = views(commits@);
    let n = commits.len();
    let mut sums: Vec<(String, u64)> = Vec::new();
    let mut k: usize = 0;
    while k < n
        invariant
            k <= n,
            n == commits@.len(),
            cv == views(commits@),
            forall|i: int, j: int| 0 <= i < j < sums@.len() ==> (#[trigger] sums@[i]).0@ != (#[trigger] sums@[j]).0@,
            forall|i: int| 0 <= i < sums@.len() ==> (#[trigger] sums@[i]).1 == email_estimate(cv.take(k as int), sums@[i].0@),
            forall|q: int|
                0 <= q < k ==> exists|i: int| 0 <= i < sums@.len() && #[trigger] sums@[i].0@ == (#[trigger] cv[q]).author.email,
        decreases n - k,
    {
        let c = &commits[k];
        let ghost e = c@.author.email;
        proof {
            assert(cv[k as int] == c@);
            lemma_email_estimate_step(cv, k as int, e);
            lemma_email_estimate_prefix(cv, k + 1, e);
            lemma_email_estimate_prefix(cv, k as int, e);
            assert forall|i: int| 0 <= i < sums@.len() && sums@[i].0@ != e implies email_estimate(
                cv.take(k + 1),
                #[trigger] sums@[i].0@,
            ) == email_estimate(cv.take(k as int), sums@[i].0@) by {
                lemma_email_estimate_step(cv, k as int, sums@[i].0@);
            }
        }
        let lc = line_total(c.message.as_str());
        if lc as u64 > (u64::MAX - 5) / 3 {
            assert(email_estimate(cv, cv[k as int].author.email) > u64::MAX);
            return false;
        }
        let est = (lc as u64) * 3 + 5;
        let mut pos: Option<usize> = None;
        let mut j: usize = 0;
        while j < sums.len()
            invariant
                j <= sums@.len(),
                e == c.author.email@,
                pos matches Some(p) ==> p < sums@.len() && sums@[p as int].0@ == e,
                pos is None ==> forall|q: int| 0 <= q < j ==> #[trigger] sums@[q].0@ != e,
            decreases sums.len() - j,
        {
            if pos.is_none() && str_eq(sums[j].0.as_str(), c.author.email.as_str()) {
                pos = Some(j);
            }
            j = j + 1;
        }
        let ghost before = sums@;
        match pos {
            Some(p) => {
                if sums[p].1 > u64::MAX - est {
                    assert(email_estimate(cv, cv[k as int].author.email) > u64::MAX);
                    return false;
                }
                let name = sums[p].0.clone();
                let total = sums[p].1 + est;
                sums.set(p, (name, total));
                proof {
                    assert forall|i: int| 0 <= i < sums@.len() implies (#[trigger] sums@[i]).1 == email_estimate(
                        cv.take(k + 1),
                        sums@[i].0@,
                    ) by {
                        if i != p {
                            assert(sums@[i] == before[i]);
                            assert(before[i].0@ != before[p as int].0@);
                        }
                    }
                    assert forall|i: int, j2: int| 0 <= i < j2 < sums@.len() implies (#[trigger] sums@[i]).0@ != (
                    #[trigger] sums@[j2]).0@ by {
                        assert(sums@[i].0@ == before[i].0@ && sums@[j2].0@ == before[j2].0@);
                    }
                    assert forall|q: int| 0 <= q < k + 1 implies exists|i: int|
                        0 <= i < sums@.len() && #[trigger] sums@[i].0@ == (#[trigger] cv[q]).author.email by {
                        if q < k {
                            let i = choose|i: int| 0 <= i < before.len() && #[trigger] before[i].0@ == cv[q].author.email;
                            assert(sums@[i].0@ == before[i].0@);
                        } else {
                            assert(sums@[p as int].0@ == e);
                        }
                    }
                }
            },
            None => {
                proof {
                    assert forall|q: int| 0 <= q < k implies (#[trigger] cv.take(k as int)[q]).author.email != e by {
                        assert(cv.take(k as int)[q] == cv[q]);
                        let i = choose|i: int| 0 <= i < before.len() && #[trigger] before[i].0@ == cv[q].author.email;
                    }
                    lemma_email_estimate_absent(cv.take(k as int), e);
                }
                sums.push((c.author.email.clone(), est));
                proof {
                    assert forall|i: int| 0 <= i < sums@.len() implies (#[trigger] sums@[i]).1 == email_estimate(
                        cv.take(k + 1),
                        sums@[i].0@,
                    ) by {
                        if i < before.len() {
                            assert(sums@[i] == before[i]);
                        }
                    }
                    assert forall|i: int, j2: int| 0 <= i < j2 < sums@.len() implies (#[trigger] sums@[i]).0@ != (
                    #[trigger] sums@[j2]).0@ by {
                        if j2 < before.len() {
                            assert(sums@[i] == before[i] && sums@[j2] == before[j2]);
                        } else {
                            assert(sums@[i] == before[i]);
                        }
                    }
                    assert forall|q: int| 0 <= q < k + 1 implies exists|i: int|
                        0 <= i < sums@.len() && #[trigger] sums@[i].0@ == (#[trigger] cv[q]).author.email by {
                        if q < k {
                            let i = choose|i: int| 0 <= i < before.len() && #[trigger] before[i].0@ == cv[q].author.email;
                            assert(sums@[i] == before[i]);
                        } else {
                            assert(sums@[before.len() as int].0@ == e);
                        }
                    }
                }
            },
        }
        k = k + 1;
    }
    assert(cv.take(n as int) =~= cv);
    assert forall|i: int| 0 <= i < cv.len() implies email_estimate(cv, #[trigger] cv[i].author.email) <= u64::MAX by {
        let j = choose|j: int| 0 <= j < sums@.len() && #[trigger] sums@[j].0@ == cv[i].author.email;
    }
    true
}

/// Whether the commits can be analysed without a panic or an overflow.
pub fn is_analysable(commits: &[Commit]) -> (r: bool)
    ensures
        r == analysable(views(commits@)),
{
    let ghost cv = views(commits@);
    let n = commits.len();
    if n > usize::MAX / 16 || n as u64 > 0x0100_0000_0000_0000u64 {
        return false;
    }
    let mut k: usize = 0;
    while k < n
        invariant
            k <= n,
            n == commits@.len(),
            cv == views(commits@),
            forall|i: int| 0 <= i < k ==> cuts_cleanly(#[trigger] cv[i].hash),
            forall|i: int| 0 <= i < k && (#[trigger] cv[i]).parent_hashes.len() > 1 ==> cuts_cleanly(cv[i].parent_hashes[0])
                && cuts_cleanly(cv[i].parent_hashes[1]),
            forall|i: int| 0 <= i < k ==> -0x800_0000_0000 <= #[trigger] cv[i].author.timestamp <= 0x800_0000_0000,
        decreases n - k,
    {
        let c = &commits[k];
        assert(cv[k as int] == c@);
        if !hash_cuts_cleanly(c.hash.as_str()) {
            assert(!cuts_cleanly(cv[k as int].hash));
            return false;
        }
        if c.parent_hashes.len() > 1 {
            assert(c@.parent_hashes[0] == c.parent_hashes@[0]@);
            assert(c@.parent_hashes[1] == c.parent_hashes@[1]@);
            if !hash_cuts_cleanly(c.parent_hashes[0].as_str()) || !hash_cuts_cleanly(c.parent_hashes[1].as_str()) {
                return false;
            }
        }
        let ts = c.author.timestamp;
        if ts < -0x800_0000_0000i64 || ts > 0x800_0000_0000i64 {
            assert(!(-0x800_0000_0000 <= cv[k as int].author.timestamp <= 0x800_0000_0000));
            return false;
        }
        k = k + 1;
    }
    estimates_fit_check(commits)
}

/// Contributors are listed most commits first, each author once with all
/// of their commits.
pub proof fn law_contributors_ranked(cs: Seq<CommitSpec>)
    ensures
        ranked_desc::<ContributorStats>(contributors_spec(cs)),
        contributors_spec(cs).to_multiset() == contributor_groups(cs).to_multiset(),
{
    law_sort_ranked::<ContributorStats>(contributor_groups(cs));
}

/// The hotspots are at most twenty, most changes first.
pub proof fn law_hotspots_ranked(cs: Seq<CommitSpec>)
    ensures
        hotspots_spec(cs).len() <= 20,
        ranked_desc::<FileHotspot>(hotspots_spec(cs)),
{
    let sorted = sort_ranked::<FileHotspot>(hotspot_groups(cs, cs.len()));
    law_sort_ranked::<FileHotspot>(hotspot_groups(cs, cs.len()));
    if sorted.len() > 20 {
        let t = sorted.take(20);
        assert forall|i: int, j: int| 0 <= i < j < t.len() implies FileHotspot::rank_of(#[trigger] t[i]) >= FileHotspot::rank_of(#[trigger] t[j]) by {
            assert(t[i] == sorted[i] && t[j] == sorted[j]);
        }
    }
}

/// The timeline has one entry per commit, newest author date first.
pub proof fn law_timeline_newest_first(cs: Seq<CommitSpec>, bs: Seq<BranchSpec>)
    ensures
        timeline_spec(cs, bs).len() == cs.len(),
        forall|i: int, j: int|
            0 <= i < j < timeline_spec(cs, bs).len() ==> (#[trigger] timeline_spec(cs, bs)[i]).date >= (
            #[trigger] timeline_spec(cs, bs)[j]).date,
{
    let es = cs.map_values(|c: CommitSpec| timeline_entry(c, bs));
    law_sort_ranked::<CommitTimelineEntry>(es);
    let t = timeline_spec(cs, bs);
    assert forall|i: int, j: int| 0 <= i < j < t.len() implies (#[trigger] t[i]).date >= (#[trigger] t[j]).date by {
        assert(CommitTimelineEntry::rank_of(t[i]) >= CommitTimelineEntry::rank_of(t[j]));
    }
}

/// The counts of the days listed, added up.
pub open spec fn sum_counts(r: Seq<DailySpec>) -> int
    decreases r.len(),
{
    if r.len() == 0 {
        0
    } else {
        sum_counts(r.drop_last()) + r.last().count
    }
}

/// The commits of `cs` on each listed day, added up over the days.
spec fn day_total(cs: Seq<CommitSpec>, r: Seq<DailySpec>) -> int
    decreases r.len(),
{
    if r.len() == 0 {
        0
    } else {
        day_total(cs, r.drop_last()) + commits_on_day(cs, r.last().date / 86400)
    }
}

/// How many listed days start at midnight of day `d`.
spec fn occurrences(r: Seq<DailySpec>, d: int) -> int
    decreases r.len(),
{
    if r.len() == 0 {
        0
    } else {
        occurrences(r.drop_last(), d) + if r.last().date == d * 86400 {
            1int
        } else {
            0int
        }
    }
}

proof fn lemma_midnight_day(date: int, d: int)
    requires
        date % 86400 == 0,
    ensures
        (date / 86400 == d) == (date == d * 86400),
{
    assert((date / 86400 == d) == (date == d * 86400)) by (nonlinear_arith)
        requires
            date % 86400 == 0,
    ;
}

proof fn lemma_day_total_push(cs: Seq<CommitSpec>, c: CommitSpec, r: Seq<DailySpec>)
    requires
        forall|i: int| 0 <= i < r.len() ==> (#[trigger] r[i]).date % 86400 == 0,
    ensures
        day_total(cs.push(c), r) == day_total(cs, r) + occurrences(r, day_of(c.author.timestamp as int)),
    decreases r.len(),
{
    if r.len() > 0 {
        let q = r.drop_last();
        assert forall|i: int| 0 <= i < q.len() implies (#[trigger] q[i]).date % 86400 == 0 by {
            assert(q[i] == r[i]);
        }
        lemma_day_total_push(cs, c, q);
        assert(cs.push(c).drop_last() =~= cs);
        assert(r[r.len() - 1] == r.last());
        lemma_midnight_day(r.last().date, day_of(c.author.timestamp as int));
    }
}

proof fn lemma_occurrences(r: Seq<DailySpec>, d: int)
    requires
        forall|i: int, j: int| 0 <= i < j < r.len() ==> (#[trigger] r[i]).date < (#[trigger] r[j]).date,
    ensures
        occurrences(r, d) == if lists_date(r, d * 86400) {
            1int
        } else {
            0int
        },
    decreases r.len(),
{
    if r.len() > 0 {
        let q = r.drop_last();
        assert forall|i: int, j: int| 0 <= i < j < q.len() implies (#[trigger] q[i]).date < (#[trigger] q[j]).date by {
            assert(q[i] == r[i] && q[j] == r[j]);
        }
        lemma_occurrences(q, d);
        if lists_date(q, d * 86400) {
            let i = choose|i: int| 0 <= i < q.len() && #[trigger] q[i].date == d * 86400;
            assert(r[i] == q[i]);
            assert(r[i].date < r[r.len() - 1].date);
        } else if r.last().date == d * 86400 {
            assert(r[r.len() - 1].date == d * 86400);
        } else {
            assert forall|i: int| 0 <= i < r.len() implies #[trigger] r[i].date != d * 86400 by {
                if i < q.len() {
                    assert(q[i] == r[i]);
                }
            }
        }
    }
}

proof fn lemma_day_total_empty(r: Seq<DailySpec>)
    ensures
        day_total(Seq::<CommitSpec>::empty(), r) == 0,
    decreases r.len(),
{
    if r.len() > 0 {
        lemma_day_total_empty(r.drop_last());
    }
}

proof fn lemma_sum_counts(cs: Seq<CommitSpec>, r: Seq<DailySpec>)
    requires
        forall|i: int| 0 <= i < r.len() ==> (#[trigger] r[i]).count == commits_on_day(cs, r[i].date / 86400),
    ensures
        sum_counts(r) == day_total(cs, r),
    decreases r.len(),
{
    if r.len() > 0 {
        let q = r.drop_last();
        assert forall|i: int| 0 <= i < q.len() implies (#[trigger] q[i]).count == commits_on_day(cs, q[i].date / 86400) by {
            assert(q[i] == r[i]);
        }
        lemma_sum_counts(cs, q);
        assert(r[r.len() - 1] == r.last());
    }
}

proof fn lemma_day_total_prefix(cs: Seq<CommitSpec>, r: Seq<DailySpec>, k: int)
    requires
        0 <= k <= cs.len(),
        daily_counts_of(cs, r),
    ensures
        day_total(cs.take(k), r) == k,
    decreases k,
{
    assert forall|i: int| 0 <= i < r.len() implies (#[trigger] r[i]).date % 86400 == 0 by {}
    if k == 0 {
        assert(cs.take(0) =~= Seq::<CommitSpec>::empty());
        lemma_day_total_empty(r);
    } else {
        lemma_day_total_prefix(cs, r, k - 1);
        let c = cs[k - 1];
        assert(cs.take(k) =~= cs.take(k - 1).push(c));
        lemma_day_total_push(cs.take(k - 1), c, r);
        lemma_occurrences(r, day_of(c.author.timestamp as int));
        assert(lists_date(r, day_of(cs[k - 1].author.timestamp as int) * 86400));
    }
}

/// Every commit is counted on exactly one day: the counts per day add up
/// to the number of commits.
pub proof fn law_daily_counts_total(cs: Seq<CommitSpec>, r: Seq<DailySpec>)
    requires
        daily_counts_of(cs, r),
    ensures
        sum_counts(r) == cs.len(),
{
    lemma_day_total_prefix(cs, r, cs.len() as int);
    assert(cs.take(cs.len() as int) =~= cs);
    lemma_sum_counts(cs, r);
}

/// The commits counted over all contributors.
pub open spec fn total_commits(g: Seq<ContributorSpec>) -> int
    decreases g.len(),
{
    if g.len() == 0 {
        0
    } else {
        total_commits(g.drop_last()) + g.last().commit_count
    }
}

proof fn lemma_total_commits_update(g: Seq<ContributorSpec>, i: int, x: ContributorSpec)
    requires
        0 <= i < g.len(),
    ensures
        total_commits(g.update(i, x)) == total_commits(g) - g[i].commit_count + x.commit_count,
    decreases g.len(),
{
    let u = g.update(i, x);
    if i == g.len() - 1 {
        assert(u.drop_last() =~= g.drop_last());
    } else {
        assert(u.drop_last() =~= g.drop_last().update(i, x));
        lemma_total_commits_update(g.drop_last(), i, x);
    }
}

proof fn lemma_total_commits_insert(s: Seq<ContributorSpec>, x: ContributorSpec)
    ensures
        total_commits(insert_ranked::<ContributorStats>(s, x)) == total_commits(s) + x.commit_count,
    decreases s.len(),
{
    if s.len() == 0 {
        assert(seq![x].drop_last() =~= Seq::<ContributorSpec>::empty());
        assert(total_commits(Seq::<ContributorSpec>::empty()) == 0);
        assert(seq![x].last() == x);
        assert(insert_ranked::<ContributorStats>(s, x) == seq![x]);
    } else if ContributorStats::rank_of(s.last()) >= ContributorStats::rank_of(x) {
        assert(s.push(x).drop_last() =~= s);
        assert(insert_ranked::<ContributorStats>(s, x) == s.push(x));
    } else {
        lemma_total_commits_insert(s.drop_last(), x);
        let i = insert_ranked::<ContributorStats>(s.drop_last(), x);
        assert(insert_ranked::<ContributorStats>(s, x) == i.push(s.last()));
        assert(i.push(s.last()).drop_last() =~= i);
        assert(total_commits(i.push(s.last())) == total_commits(i) + s.last().commit_count);
    }
}

proof fn lemma_total_commits_sort(s: Seq<ContributorSpec>)
    ensures
        total_commits(sort_ranked::<ContributorStats>(s)) == total_commits(s),
    decreases s.len(),
{
    if s.len() > 0 {
        lemma_total_commits_sort(s.drop_last());
        lemma_total_commits_insert(sort_ranked::<ContributorStats>(s.drop_last()), s.last());
    }
}

/// Every commit is counted for exactly one contributor: the commit counts
/// of the contributors add up to the number of commits.
pub proof fn law_contributor_commits_total(cs: Seq<CommitSpec>)
    ensures
        total_commits(contributors_spec(cs)) == cs.len(),
    decreases cs.len(),
{
    lemma_total_commits_sort(contributor_groups(cs));
    lemma_groups_total(cs);
}

proof fn lemma_groups_total(cs: Seq<CommitSpec>)
    ensures
        total_commits(contributor_groups(cs)) == cs.len(),
    decreases cs.len(),
{
    if cs.len() > 0 {
        lemma_groups_total(cs.drop_last());
        let g = contributor_groups(cs.drop_last());
        let c = cs.last();
        if exists|i: int| 0 <= i < g.len() && #[trigger] g[i].email == c.author.email {
            let i = choose|i: int| 0 <= i < g.len() && #[trigger] g[i].email == c.author.email;
            lemma_total_commits_update(
                g,
                i,
                ContributorSpec { commit_count: g[i].commit_count + 1, additions: g[i].additions + line_estimate(c), ..g[i] },
            );
        } else {
            let x = ContributorSpec {
                name: c.author.name,
                email: c.author.email,
                commit_count: 1,
                additions: line_estimate(c),
                deletions: 0,
            };
            assert(g.push(x).drop_last() =~= g);
        }
    }
}

} // verus!
