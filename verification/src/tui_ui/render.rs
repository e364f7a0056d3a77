//! The text the browser shows: titles, labels and the lines of each view,
//! computed from the analysis. Laying them out on the terminal is left to
//! the program around the library.
use vstd::prelude::*;

use crate::analyzer::diff::views;
use crate::analyzer::stats::{
    cuts_cleanly, duration_text, format_duration, short_hash, short_hash_of, Ranked,
};
use crate::git_parser::commit_parser::{chrono_accepts_timestamp, timestamp_accepted};
use crate::models::git_object::strings_view;
use crate::models::stats::{BranchInfo, CommitTimelineEntry, LanguageCounts, RepoOverview};
use crate::text::{concat, decimal, decimal_string, push_char};
use crate::tui_ui::app::{sat_inc, App, InputMode};

verus! {

// ---------------------------------------------------------------------------
// Numbers and dates
// ---------------------------------------------------------------------------

/// `n` in decimal, as a string.
fn number(n: usize) -> (r: String)
    ensures
        r@ == decimal(n as nat),
{
    decimal_string(n as u64)
}

/// `s` right-aligned in a field of `width` characters (`{:>width}`).
pub open spec fn pad_left(s: Seq<char>, width: nat) -> Seq<char> {
    if s.len() < width {
        Seq::new((width - s.len()) as nat, |i: int| ' ') + s
    } else {
        s
    }
}

/// The date `(year, month, day)` of the day `days` after 1970-01-01 in the
/// proleptic Gregorian calendar (years counted astronomically: 0 is 1 BCE).
pub open spec fn civil_from_days(days: int) -> (int, int, int) {
    let z = days + 719468;
    let era = z / 146097;
    let doe = z - era * 146097;
    let yoe = (doe - doe / 1460 + doe / 36524 - doe / 146096) / 365;
    let doy = doe - (365 * yoe + yoe / 4 - yoe / 100);
    let mp = (5 * doy + 2) / 153;
    let d = doy - (153 * mp + 2) / 5 + 1;
    let m = if mp < 10 {
        mp + 3
    } else {
        mp - 9
    };
    (yoe + era * 400 + if m <= 2 {
        1int
    } else {
        0int
    }, m, d)
}

/// `n` in decimal, with zeros in front up to `w` digits.
pub open spec fn zero_padded(n: nat, w: nat) -> Seq<char> {
    let d = decimal(n);
    if d.len() < w {
        Seq::new((w - d.len()) as nat, |i: int| '0') + d
    } else {
        d
    }
}

/// A year as chrono's `%Y` writes it: at least four digits, with a sign in
/// front of a year before 0 or after 9999.
pub open spec fn year_text(y: int) -> Seq<char> {
    if 0 <= y <= 9999 {
        zero_padded(y as nat, 4)
    } else if y < 0 {
        seq!['-'] + zero_padded((-y) as nat, 4)
    } else {
        seq!['+'] + zero_padded(y as nat, 4)
    }
}

/// The text chrono's `format("%Y-%m-%d")` gives for the day of a timestamp
/// (in UTC): the year, then the month and the day in two digits each.
pub open spec fn chrono_day_text(secs: i64) -> Seq<char> {
    let (y, m, d) = civil_from_days(secs as int / 86400);
    year_text(y) + seq!['-'] + zero_padded(m as nat, 2) + seq!['-'] + zero_padded(d as nat, 2)
}

/// `DateTime::from_timestamp(secs, 0)` formatted with `%Y-%m-%d` (chrono).
/// chrono counts days in the proleptic Gregorian calendar from the day of
/// the timestamp (`secs.div_euclid(86_400)`), and writes the year with at
/// least four digits, signed outside 0 to 9999, and month and day in two
/// digits.
#[verifier::external_body]
fn day_text(secs: i64) -> (r: String)
    requires
        chrono_accepts_timestamp(secs),
    ensures
        r@ == chrono_day_text(secs),
{
    chrono::DateTime::from_timestamp(secs, 0).map(|d| d.naive_utc().format("%Y-%m-%d").to_string()).unwrap_or_default()
}

// ---------------------------------------------------------------------------
// Header and footer
// ---------------------------------------------------------------------------

/// The title of the tab bar.
pub fn header_title(repo_path: &str) -> (r: String)
    ensures
        r@ == " GitViz - "@ + repo_path@ + " "@,
{
    let head = concat(" GitViz - ", repo_path);
    concat(head.as_str(), " ")
}

/// The mode shown at the left of the footer: ` NORMAL `, or the search
/// being typed.
pub open spec fn mode_text_spec(mode: InputMode, query: Seq<char>) -> Seq<char> {
    match mode {
        InputMode::Normal => " NORMAL "@,
        InputMode::Search => " SEARCH: "@ + query + " "@,
    }
}

/// The footer's mode text.
pub fn mode_text(app: &App) -> (r: String)
    ensures
        r@ == mode_text_spec(app.input_mode, app.search_query@),
{
    match app.input_mode {
        InputMode::Normal => " NORMAL ".to_owned(),
        InputMode::Search => {
            let head = concat(" SEARCH: ", app.search_query.as_str());
            concat(head.as_str(), " ")
        },
    }
}

/// The key help shown in the footer.
pub open spec fn help_text_spec(mode: InputMode) -> Seq<char> {
    match mode {
        InputMode::Normal => " h/l:switch  j/k:scroll  /:search  q:quit  1-5:goto view "@,
        InputMode::Search => " Enter/Esc:confirm  type to search "@,
    }
}

/// The footer's key help.
pub fn help_text(app: &App) -> (r: String)
    ensures
        r@ == help_text_spec(app.input_mode),
{
    match app.input_mode {
        InputMode::Normal => " h/l:switch  j/k:scroll  /:search  q:quit  1-5:goto view ".to_owned(),
        InputMode::Search => " Enter/Esc:confirm  type to search ".to_owned(),
    }
}

/// A list title with the number of items: ` <name> (<n>) `.
pub fn counted_title(name: &str, n: usize) -> (r: String)
    ensures
        r@ == " "@ + name@ + " ("@ + decimal(n as nat) + ") "@,
{
    let a = concat(" ", name);
    let b = concat(a.as_str(), " (");
    let c = concat(b.as_str(), number(n).as_str());
    concat(c.as_str(), ") ")
}

// ---------------------------------------------------------------------------
// Overview
// ---------------------------------------------------------------------------

/// The time the history spans, or `N/A` when the dates are out of order.
pub open spec fn span_text(first: i64, latest: i64) -> Seq<char> {
    if first <= latest {
        duration_text(first as int, latest as int)
    } else {
        "N/A"@
    }
}

/// The rows of the overview: a label and a value each.
pub open spec fn overview_rows_spec(o: &RepoOverview) -> Seq<(Seq<char>, Seq<char>)> {
    seq![
        ("  Commits:      "@, decimal(o.total_commits as nat)),
        ("  Contributors: "@, decimal(o.total_contributors as nat)),
        ("  Branches:     "@, decimal(o.total_branches as nat)),
        ("  Time Span:    "@, span_text(o.first_commit_date, o.latest_commit_date)),
        ("  First Commit: "@, chrono_day_text(o.first_commit_date)),
        ("  Latest:       "@, chrono_day_text(o.latest_commit_date)),
    ]
}

/// The overview's rows, label and value.
pub fn overview_rows(o: &RepoOverview) -> (r: Vec<(String, String)>)
    requires
        chrono_accepts_timestamp(o.first_commit_date),
        chrono_accepts_timestamp(o.latest_commit_date),
    ensures
        r@.map_values(|p: (String, String)| (p.0@, p.1@)) == overview_rows_spec(o),
{
    let span = if o.first_commit_date <= o.latest_commit_date {
        format_duration(o.first_commit_date, o.latest_commit_date)
    } else {
        "N/A".to_owned()
    };
    let mut r: Vec<(String, String)> = Vec::new();
    r.push(("  Commits:      ".to_owned(), number(o.total_commits)));
    r.push(("  Contributors: ".to_owned(), number(o.total_contributors)));
    r.push(("  Branches:     ".to_owned(), number(o.total_branches)));
    r.push(("  Time Span:    ".to_owned(), span));
    r.push(("  First Commit: ".to_owned(), day_text(o.first_commit_date)));
    r.push(("  Latest:       ".to_owned(), day_text(o.latest_commit_date)));
    assert(r@.map_values(|p: (String, String)| (p.0@, p.1@)) =~= overview_rows_spec(o));
    r
}

/// The overview's rows, or `None` where one of its dates lies outside the
/// range of a date.
pub fn try_overview_rows(o: &RepoOverview) -> (r: Option<Vec<(String, String)>>)
    ensures
        r is Some <==> (chrono_accepts_timestamp(o.first_commit_date) && chrono_accepts_timestamp(
            o.latest_commit_date,
        )),
        r matches Some(v) ==> v@.map_values(|p: (String, String)| (p.0@, p.1@)) == overview_rows_spec(o),
{
    if timestamp_accepted(o.first_commit_date) && timestamp_accepted(o.latest_commit_date) {
        Some(overview_rows(o))
    } else {
        None
    }
}

/// A language and how many files it has.
pub struct LanguageShare {
    pub name: String,
    pub count: u64,
}

impl View for LanguageShare {
    type V = (Seq<char>, u64);

    open spec fn view(&self) -> (Seq<char>, u64) {
        (self.name@, self.count)
    }
}

impl Ranked for LanguageShare {
    open spec fn rank_of(v: (Seq<char>, u64)) -> int {
        v.1 as int
    }

    fn rank(&self) -> (r: i128) {
        self.count as i128
    }
}

/// The sum of the counts.
pub open spec fn count_total(s: Seq<(Seq<char>, u64)>) -> int
    decreases s.len(),
{
    if s.len() == 0 {
        0
    } else {
        count_total(s.drop_last()) + s.last().1
    }
}

/// The languages, most files first (equal counts in the order first met),
/// and the number of files in all.
pub fn language_chart(languages: &LanguageCounts) -> (r: (Vec<LanguageShare>, u64))
    requires
        count_total(languages@) <= u64::MAX,
    ensures
        views(r.0@) == crate::analyzer::stats::sort_ranked::<LanguageShare>(languages@),
        r.1 == count_total(languages@),
{
    let entries = languages.entries();
    let ghost lv = languages@;
    let mut shares: Vec<LanguageShare> = Vec::new();
    let mut total: u64 = 0;
    let mut i: usize = 0;
    assert(lv.take(0) =~= Seq::<(Seq<char>, u64)>::empty());
    while i < entries.len()
        invariant
            i <= entries@.len(),
            entries@.map_values(|e: (String, u64)| (e.0@, e.1)) == lv,
            count_total(lv) <= u64::MAX,
            views(shares@) == lv.take(i as int),
            total == count_total(lv.take(i as int)),
        decreases entries.len() - i,
    {
        let e = &entries[i];
        assert(lv[i as int] == (e.0@, e.1));
        proof {
            assert(lv.take(i + 1).drop_last() =~= lv.take(i as int));
            lemma_count_total_prefix(lv, i + 1);
        }
        let ghost before = views(shares@);
        shares.push(LanguageShare { name: e.0.clone(), count: e.1 });
        assert(views(shares@) =~= before.push(lv[i as int]));
        assert(lv.take(i + 1) =~= lv.take(i as int).push(lv[i as int]));
        total = total + e.1;
        i = i + 1;
    }
    assert(lv.take(entries@.len() as int) =~= lv);
    (crate::analyzer::stats::sort_by_rank(shares), total)
}

/// Whether the counts add up to no more than `u64::MAX`.
pub fn count_total_fits(languages: &LanguageCounts) -> (r: bool)
    ensures
        r == (count_total(languages@) <= u64::MAX),
{
    let entries = languages.entries();
    let ghost lv = languages@;
    let mut total: u64 = 0;
    let mut i: usize = 0;
    assert(lv.take(0) =~= Seq::<(Seq<char>, u64)>::empty());
    while i < entries.len()
        invariant
            i <= entries@.len(),
            entries@.map_values(|e: (String, u64)| (e.0@, e.1)) == lv,
            lv == languages@,
            total == count_total(lv.take(i as int)),
        decreases entries.len() - i,
    {
        assert(lv[i as int] == (entries@[i as int].0@, entries@[i as int].1));
        assert(lv.take(i + 1).drop_last() =~= lv.take(i as int));
        proof {
            lemma_count_total_prefix(lv, i + 1);
        }
        assert(lv.take(i + 1).last() == lv[i as int]);
        assert(count_total(lv.take(i + 1)) == total + entries@[i as int].1);
        if total > u64::MAX - entries[i].1 {
            return false;
        }
        total = total + entries[i].1;
        i = i + 1;
    }
    assert(lv.take(entries@.len() as int) =~= lv);
    true
}

proof fn lemma_count_total_prefix(s: Seq<(Seq<char>, u64)>, k: int)
    requires
        0 <= k <= s.len(),
    ensures
        0 <= count_total(s.take(k)) <= count_total(s),
    decreases s.len(),
{
    if k < s.len() {
        assert(s.drop_last().take(k) =~= s.take(k));
        lemma_count_total_prefix(s.drop_last(), k);
    } else {
        assert(s.take(k) =~= s);
        lemma_count_total_nonneg(s);
    }
}

proof fn lemma_count_total_nonneg(s: Seq<(Seq<char>, u64)>)
    ensures
        count_total(s) >= 0,
    decreases s.len(),
{
    if s.len() > 0 {
        lemma_count_total_nonneg(s.drop_last());
    }
}

// ---------------------------------------------------------------------------
// Lists
// ---------------------------------------------------------------------------

/// The position of an item, counted from one and right-aligned in three
/// characters: ` <n>. `.
pub fn rank_label(i: usize) -> (r: String)
    requires
        i < usize::MAX,
    ensures
        r@ == " "@ + pad_left(decimal((i + 1) as nat), 3) + ". "@,
{
    let digits = number(i + 1);
    let mut padded = String::new();
    let n = crate::text::chars_of(digits.as_str()).len();
    let ghost d = decimal((i + 1) as nat);
    assert(n == d.len());
    let mut k: usize = n;
    while k < 3
        invariant
            k == n || n < k <= 3,
            padded@ == Seq::new((k - n) as nat, |j: int| ' '),
        decreases 3 - k,
    {
        push_char(&mut padded, ' ');
        assert(padded@ =~= Seq::new((k + 1 - n) as nat, |j: int| ' '));
        k = k + 1;
    }
    let body = concat(padded.as_str(), digits.as_str());
    assert(body@ =~= pad_left(d, 3)) by {
        if n >= 3 {
            assert(padded@ =~= Seq::<char>::empty());
        }
    }
    let head = concat(" ", body.as_str());
    concat(head.as_str(), ". ")
}

/// The title of the timeline: which entry is selected, out of how many.
pub fn timeline_title(scroll: usize, shown: usize) -> (r: String)
    ensures
        r@ == " Commit Timeline ("@ + decimal(sat_inc(scroll as int) as nat) + "/"@ + decimal(shown as nat) + ") "@,
{
    let sel = number(scroll.saturating_add(1));
    let a = concat(" Commit Timeline (", sel.as_str());
    let b = concat(a.as_str(), "/");
    let c = concat(b.as_str(), number(shown).as_str());
    concat(c.as_str(), ") ")
}

/// Names joined with `, `.
pub open spec fn join_names(ns: Seq<Seq<char>>) -> Seq<char>
    decreases ns.len(),
{
    if ns.len() == 0 {
        seq![]
    } else if ns.len() == 1 {
        ns[0]
    } else {
        join_names(ns.drop_last()) + ", "@ + ns.last()
    }
}

/// The branches pointing at a timeline entry, as ` [a, b]`, or nothing.
pub open spec fn branches_label_spec(names: Seq<Seq<char>>) -> Seq<char> {
    if names.len() == 0 {
        seq![]
    } else {
        " ["@ + join_names(names) + "]"@
    }
}

/// The labels of one timeline entry: its short hash, its day and the
/// branches pointing at it.
pub fn timeline_labels(e: &CommitTimelineEntry) -> (r: (String, String, String))
    requires
        chrono_accepts_timestamp(e.date),
    ensures
        r.0@ == " "@ + e.short_hash@ + " "@,
        r.1@ == chrono_day_text(e.date),
        r.2@ == branches_label_spec(strings_view(e.branch_names@)),
{
    let a = concat(" ", e.short_hash.as_str());
    let hash_label = concat(a.as_str(), " ");
    let date_label = day_text(e.date);
    let ghost names = strings_view(e.branch_names@);
    let branches = if e.branch_names.len() == 0 {
        String::new()
    } else {
        let mut joined = String::new();
        let mut i: usize = 0;
        while i < e.branch_names.len()
            invariant
                i <= e.branch_names@.len(),
                names == strings_view(e.branch_names@),
                joined@ == join_names(names.take(i as int)),
            decreases e.branch_names.len() - i,
        {
            assert(names.take(i + 1).drop_last() =~= names.take(i as int));
            if i == 0 {
                joined = e.branch_names[0].clone();
                assert(names.take(1) =~= seq![names[0]]);
            } else {
                let sep = concat(joined.as_str(), ", ");
                joined = concat(sep.as_str(), e.branch_names[i].as_str());
            }
            i = i + 1;
        }
        assert(names.take(e.branch_names@.len() as int) =~= names);
        let head = concat(" [", joined.as_str());
        concat(head.as_str(), "]")
    };
    (hash_label, date_label, branches)
}

/// The labels of a timeline entry, or `None` where its date lies outside
/// the range of a date.
pub fn try_timeline_labels(e: &CommitTimelineEntry) -> (r: Option<(String, String, String)>)
    ensures
        r is Some <==> chrono_accepts_timestamp(e.date),
        r matches Some(t) ==> t.0@ == " "@ + e.short_hash@ + " "@ && t.1@ == chrono_day_text(e.date) && t.2@
            == branches_label_spec(strings_view(e.branch_names@)),
{
    if timestamp_accepted(e.date) {
        Some(timeline_labels(e))
    } else {
        None
    }
}

/// The marker and summary of a branch: ` * ` for the head, and how many
/// commits it has with the short hash of its tip.
pub open spec fn branch_summary_spec(b: &BranchInfo) -> Seq<char> {
    let hs = strings_view(b.commit_hashes@);
    decimal(hs.len()) + " commits | tip: "@ + if hs.len() > 0 {
        short_hash(hs[0])
    } else {
        seq![]
    }
}

/// The labels of a branch in the branch list.
pub fn branch_labels(b: &BranchInfo) -> (r: (String, String))
    requires
        b.commit_hashes@.len() > 0 ==> cuts_cleanly(b.commit_hashes@[0]@),
    ensures
        r.0@ == (if b.is_head {
            " * "@
        } else {
            "   "@
        }),
        r.1@ == branch_summary_spec(b),
{
    let marker = if b.is_head {
        " * ".to_owned()
    } else {
        "   ".to_owned()
    };
    let tip = if b.commit_hashes.len() > 0 {
        short_hash_of(b.commit_hashes[0].as_str())
    } else {
        String::new()
    };
    let a = concat(number(b.commit_hashes.len()).as_str(), " commits | tip: ");
    let summary = concat(a.as_str(), tip.as_str());
    (marker, summary)
}

/// The short hash of a merge commit, as the merge list shows it.
pub fn merge_label(merge_commit_hash: &str) -> (r: String)
    requires
        cuts_cleanly(merge_commit_hash@),
    ensures
        r@ == " "@ + short_hash(merge_commit_hash@) + " "@,
{
    let s = short_hash_of(merge_commit_hash);
    let a = concat(" ", s.as_str());
    concat(a.as_str(), " ")
}

/// How many commits or changes an item has: ` <n> <unit>`.
pub fn count_label(n: usize, unit: &str) -> (r: String)
    ensures
        r@ == " "@ + decimal(n as nat) + " "@ + unit@,
{
    let a = concat(" ", number(n).as_str());
    let b = concat(a.as_str(), " ");
    concat(b.as_str(), unit)
}

/// A contributor's email as the list shows it: ` <email>`.
pub fn email_label(email: &str) -> (r: String)
    ensures
        r@ == " <"@ + email@ + ">"@,
{
    let a = concat(" <", email);
    concat(a.as_str(), ">")
}

} // verus!
