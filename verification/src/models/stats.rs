//! What the analysis of a repository finds.
use vstd::prelude::*;

use crate::text::str_eq;

verus! {

/// How many files of each language a tree holds: each language once, in the
/// order first met.
#[derive(Debug)]
pub struct LanguageCounts {
    entries: Vec<(String, u64)>,
}

/// Whether no language occurs twice.
pub open spec fn distinct_names(s: Seq<(Seq<char>, u64)>) -> bool {
    forall|i: int, j: int| 0 <= i < j < s.len() ==> #[trigger] s[i].0 != #[trigger] s[j].0
}

impl View for LanguageCounts {
    type V = Seq<(Seq<char>, u64)>;

    closed spec fn view(&self) -> Seq<(Seq<char>, u64)> {
        self.entries@.map_values(|e: (String, u64)| (e.0@, e.1))
    }
}

/// The counts after one more file of `lang`: its count goes up by one, or
/// it is added with a count of one.
pub open spec fn count_one(s: Seq<(Seq<char>, u64)>, lang: Seq<char>) -> Seq<(Seq<char>, u64)> {
    if exists|i: int| 0 <= i < s.len() && #[trigger] s[i].0 == lang {
        let i = choose|i: int| 0 <= i < s.len() && #[trigger] s[i].0 == lang;
        s.update(i, (lang, (s[i].1 + 1) as u64))
    } else {
        s.push((lang, 1u64))
    }
}

/// The count of `lang`: zero when it has none.
pub open spec fn count_of(s: Seq<(Seq<char>, u64)>, lang: Seq<char>) -> int {
    if exists|i: int| 0 <= i < s.len() && #[trigger] s[i].0 == lang {
        s[choose|i: int| 0 <= i < s.len() && #[trigger] s[i].0 == lang].1 as int
    } else {
        0
    }
}

/// Counting a file of `lang` raises its count by one and leaves every
/// other language's count as it was, each language still listed once.
pub proof fn law_count_one(s: Seq<(Seq<char>, u64)>, lang: Seq<char>, other: Seq<char>)
    requires
        distinct_names(s),
        count_of(s, lang) < u64::MAX,
    ensures
        distinct_names(count_one(s, lang)),
        count_of(count_one(s, lang), lang) == count_of(s, lang) + 1,
        other != lang ==> count_of(count_one(s, lang), other) == count_of(s, other),
{
    let t = count_one(s, lang);
    let found = exists|i: int| 0 <= i < s.len() && #[trigger] s[i].0 == lang;
    let k = if found {
        choose|i: int| 0 <= i < s.len() && #[trigger] s[i].0 == lang
    } else {
        s.len() as int
    };
    assert(t[k].0 == lang);
    assert(forall|i: int| 0 <= i < s.len() && i != k ==> #[trigger] t[i] == s[i]);
    assert forall|i: int, j: int| 0 <= i < j < t.len() implies #[trigger] t[i].0 != #[trigger] t[j].0 by {
        if i != k && j != k {
            assert(t[i] == s[i] && t[j] == s[j]);
        } else if i == k {
            if found {
                assert(s[k].0 == lang && t[j] == s[j]);
            }
        } else {
            assert(t[i] == s[i]);
            if !found {
                assert(s[i].0 != lang);
            }
        }
    }
    let kt = choose|i: int| 0 <= i < t.len() && #[trigger] t[i].0 == lang;
    if kt != k {
        if kt < k {
            assert(t[kt].0 != t[k].0);
        } else {
            assert(t[k].0 != t[kt].0);
        }
    }
    if other != lang {
        if exists|i: int| 0 <= i < t.len() && #[trigger] t[i].0 == other {
            let i = choose|i: int| 0 <= i < t.len() && #[trigger] t[i].0 == other;
            assert(i != k);
            assert(s[i] == t[i]);
        }
        if exists|i: int| 0 <= i < s.len() && #[trigger] s[i].0 == other {
            let i = choose|i: int| 0 <= i < s.len() && #[trigger] s[i].0 == other;
            assert(i != k) by {
                if found {
                    assert(s[k].0 == lang);
                }
            }
            assert(t[i] == s[i]);
            let it = choose|j: int| 0 <= j < t.len() && #[trigger] t[j].0 == other;
            if it != i {
                if it < i {
                    assert(t[it].0 != t[i].0);
                } else {
                    assert(t[i].0 != t[it].0);
                }
            }
        }
    }
}

/// Whether the count of `lang`, if it has one, can still grow by one.
pub open spec fn can_count(s: Seq<(Seq<char>, u64)>, lang: Seq<char>) -> bool {
    forall|i: int| 0 <= i < s.len() && #[trigger] s[i].0 == lang ==> s[i].1 < u64::MAX
}

impl LanguageCounts {
    #[verifier::type_invariant]
    closed spec fn wf(self) -> bool {
        distinct_names(self@)
    }

    /// No languages.
    pub fn new() -> (r: LanguageCounts)
        ensures
            r@ == Seq::<(Seq<char>, u64)>::empty(),
    {
        let r = LanguageCounts { entries: Vec::new() };
        assert(r@ =~= Seq::<(Seq<char>, u64)>::empty());
        r
    }

    fn position(&self, lang: &str) -> (r: Option<usize>)
        ensures
            r matches Some(i) ==> i < self@.len() && self@[i as int].0 == lang@,
            r is None ==> forall|i: int| 0 <= i < self@.len() ==> #[trigger] self@[i].0 != lang@,
    {
        let mut i: usize = 0;
        while i < self.entries.len()
            invariant
                i <= self@.len(),
                self@.len() == self.entries@.len(),
                forall|k: int| 0 <= k < i ==> #[trigger] self@[k].0 != lang@,
            decreases self.entries.len() - i,
        {
            if str_eq(self.entries[i].0.as_str(), lang) {
                return Some(i);
            }
            i = i + 1;
        }
        None
    }

    /// Counts one more file of `lang` (`*entry(lang).or_insert(0) += 1`).
    pub fn add_one(&mut self, lang: &str)
        requires
            can_count(old(self)@, lang@),
        ensures
            final(self)@ == count_one(old(self)@, lang@),
    {
        proof {
            use_type_invariant(&*self);
        }
        let pos = self.position(lang);
        let ghost before = self@;
        let mut entries: Vec<(String, u64)> = Vec::new();
        std::mem::swap(&mut entries, &mut self.entries);
        assert(entries@.map_values(|e: (String, u64)| (e.0@, e.1)) == before);
        match pos {
            Some(i) => {
                let c = entries[i].1;
                assert(before[i as int] == (entries@[i as int].0@, entries@[i as int].1));
                assert(before == old(self)@);
                assert(old(self)@[i as int].1 < u64::MAX);
                let name = entries[i].0.clone();
                entries.set(i, (name, c + 1));
                proof {
                    let j = choose|j: int| 0 <= j < before.len() && #[trigger] before[j].0 == lang@;
                    assert(j == i);
                }
                assert(entries@.map_values(|e: (String, u64)| (e.0@, e.1)) =~= count_one(before, lang@));
            },
            None => {
                let name = lang.to_owned();
                entries.push((name, 1));
                assert(entries@.map_values(|e: (String, u64)| (e.0@, e.1)) =~= count_one(before, lang@));
            },
        }
        self.entries = entries;
    }

    /// Whether the count of `lang` can still grow by one.
    pub fn can_count_more(&self, lang: &str) -> (r: bool)
        ensures
            r == can_count(self@, lang@),
    {
        proof {
            use_type_invariant(self);
        }
        match self.position(lang) {
            Some(i) => {
                assert(self@[i as int] == (self.entries@[i as int].0@, self.entries@[i as int].1));
                assert forall|j: int| 0 <= j < self@.len() && #[trigger] self@[j].0 == lang@ implies j == i by {
                    if j < i {
                        assert(self@[j].0 != self@[i as int].0);
                    } else if j > i {
                        assert(self@[i as int].0 != self@[j].0);
                    }
                }
                self.entries[i].1 < u64::MAX
            },
            None => true,
        }
    }

    /// Number of languages.
    pub fn len(&self) -> (r: usize)
        ensures
            r == self@.len(),
    {
        self.entries.len()
    }

    /// The count of `lang`, if it has one.
    pub fn get(&self, lang: &str) -> (r: Option<u64>)
        ensures
            r matches Some(c) ==> exists|i: int| 0 <= i < self@.len() && #[trigger] self@[i] == (lang@, c),
            r is None ==> forall|i: int| 0 <= i < self@.len() ==> #[trigger] self@[i].0 != lang@,
    {
        match self.position(lang) {
            Some(i) => Some(self.entries[i].1),
            None => None,
        }
    }

    /// The languages with their counts, in the order first met.
    pub fn entries(&self) -> (r: &Vec<(String, u64)>)
        ensures
            r@.map_values(|e: (String, u64)| (e.0@, e.1)) == self@,
    {
        &self.entries
    }

    /// A copy.
    pub fn duplicate(&self) -> (r: LanguageCounts)
        ensures
            r@ == self@,
    {
        proof {
            use_type_invariant(self);
        }
        let mut entries: Vec<(String, u64)> = Vec::new();
        let mut i: usize = 0;
        let ghost sv = self@;
        assert(sv.take(0) =~= Seq::<(Seq<char>, u64)>::empty());
        while i < self.entries.len()
            invariant
                i <= self.entries@.len(),
                sv == self@,
                sv.len() == self.entries@.len(),
                entries@.map_values(|e: (String, u64)| (e.0@, e.1)) == sv.take(i as int),
            decreases self.entries.len() - i,
        {
            let name = self.entries[i].0.clone();
            let ghost before = entries@.map_values(|e: (String, u64)| (e.0@, e.1));
            entries.push((name, self.entries[i].1));
            assert(sv[i as int] == (self.entries@[i as int].0@, self.entries@[i as int].1));
            assert(entries@.map_values(|e: (String, u64)| (e.0@, e.1)) =~= before.push(sv[i as int]));
            assert(sv.take(i + 1) =~= sv.take(i as int).push(sv[i as int]));
            i = i + 1;
        }
        assert(sv.take(sv.len() as int) =~= sv);
        LanguageCounts { entries }
    }
}

#[derive(Debug, Clone)]
pub struct RepoOverview {
    pub total_commits: usize,
    pub total_contributors: usize,
    /// Seconds since the Unix epoch, UTC.
    pub first_commit_date: i64,
    /// Seconds since the Unix epoch, UTC.
    pub latest_commit_date: i64,
    pub total_branches: usize,
    pub language_distribution: LanguageCounts,
}

impl Clone for LanguageCounts {
    fn clone(&self) -> (r: LanguageCounts)
        ensures
            r@ == self@,
    {
        self.duplicate()
    }
}

#[derive(Debug, Clone)]
pub struct ContributorStats {
    pub name: String,
    pub email: String,
    pub commit_count: usize,
    pub additions: u64,
    pub deletions: u64,
}

#[derive(Debug, Clone)]
pub struct FileHotspot {
    pub path: String,
    pub change_count: usize,
    pub total_additions: u64,
    pub total_deletions: u64,
}

#[derive(Debug, Clone)]
pub struct CommitTimelineEntry {
    pub hash: String,
    pub short_hash: String,
    pub author: String,
    /// Seconds since the Unix epoch, UTC.
    pub date: i64,
    pub message: String,
    pub branch_names: Vec<String>,
}

#[derive(Debug, Clone)]
pub struct BranchInfo {
    pub name: String,
    pub commit_hashes: Vec<String>,
    pub is_head: bool,
}

#[derive(Debug, Clone)]
pub struct MergePoint {
    pub merge_commit_hash: String,
    pub source_branch: String,
    pub target_branch: String,
}

#[derive(Debug, Clone)]
pub struct BranchGraph {
    pub branches: Vec<BranchInfo>,
    pub merge_points: Vec<MergePoint>,
}

#[derive(Debug, Clone)]
pub struct DailyCommitCount {
    /// Midnight UTC of the day, in seconds since the Unix epoch.
    pub date: i64,
    pub count: usize,
}

#[derive(Debug, Clone)]
pub struct AnalysisResult {
    pub overview: Option<RepoOverview>,
    pub contributors: Vec<ContributorStats>,
    pub hotspots: Vec<FileHotspot>,
    pub timeline: Vec<CommitTimelineEntry>,
    pub branch_graph: Option<BranchGraph>,
    pub daily_counts: Vec<DailyCommitCount>,
}

impl Default for AnalysisResult {
    fn default() -> (r: AnalysisResult)
        ensures
            r.overview is None,
            r.contributors@.len() == 0,
            r.hotspots@.len() == 0,
            r.timeline@.len() == 0,
            r.branch_graph is None,
            r.daily_counts@.len() == 0,
    {
        AnalysisResult {
            overview: None,
            contributors: Vec::new(),
            hotspots: Vec::new(),
            timeline: Vec::new(),
            branch_graph: None,
            daily_counts: Vec::new(),
        }
    }
}

} // verus!
