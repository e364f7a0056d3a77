//! The state of the terminal browser: which view is shown, how far each
//! list is scrolled, and the search being typed.
use vstd::prelude::*;

use crate::analyzer::diff::views;
use crate::analyzer::stats::TimelineSpec;
use crate::models::stats::{AnalysisResult, CommitTimelineEntry};
use crate::text::{chars_of, contains, contains_chars};

verus! {

/// The five views, in the order the tabs show them.
#[derive(Debug, Clone, Copy, PartialEq, Eq, Structural)]
pub enum ViewMode {
    Overview,
    Timeline,
    Contributors,
    Hotspots,
    Branches,
}

/// The position of a view among the tabs.
pub open spec fn view_index(v: ViewMode) -> int {
    match v {
        ViewMode::Overview => 0,
        ViewMode::Timeline => 1,
        ViewMode::Contributors => 2,
        ViewMode::Hotspots => 3,
        ViewMode::Branches => 4,
    }
}

/// The view at a tab position (taken modulo five).
pub open spec fn view_at(i: int) -> ViewMode {
    let k = i % 5;
    if k == 0 {
        ViewMode::Overview
    } else if k == 1 {
        ViewMode::Timeline
    } else if k == 2 {
        ViewMode::Contributors
    } else if k == 3 {
        ViewMode::Hotspots
    } else {
        ViewMode::Branches
    }
}

/// The tab title of a view.
pub open spec fn view_title(v: ViewMode) -> Seq<char> {
    match v {
        ViewMode::Overview => "Overview"@,
        ViewMode::Timeline => "Timeline"@,
        ViewMode::Contributors => "Contributors"@,
        ViewMode::Hotspots => "Hotspots"@,
        ViewMode::Branches => "Branches"@,
    }
}

/// The view after `v` in tab order, the first after the last.
pub open spec fn next_view(v: ViewMode) -> ViewMode {
    view_at(view_index(v) + 1)
}

/// The view before `v` in tab order, the last before the first.
pub open spec fn prev_view(v: ViewMode) -> ViewMode {
    view_at(view_index(v) + 4)
}

impl ViewMode {
    /// All views in tab order.
    pub fn all() -> (r: [ViewMode; 5])
        ensures
            forall|i: int| 0 <= i < 5 ==> #[trigger] r@[i] == view_at(i),
    {
        [ViewMode::Overview, ViewMode::Timeline, ViewMode::Contributors, ViewMode::Hotspots, ViewMode::Branches]
    }

    /// The position of the view among the tabs.
    pub fn index(self) -> (r: usize)
        ensures
            r == view_index(self),
    {
        match self {
            ViewMode::Overview => 0,
            ViewMode::Timeline => 1,
            ViewMode::Contributors => 2,
            ViewMode::Hotspots => 3,
            ViewMode::Branches => 4,
        }
    }

    /// The tab title.
    pub fn title(self) -> (r: &'static str)
        ensures
            r@ == view_title(self),
    {
        match self {
            ViewMode::Overview => "Overview",
            ViewMode::Timeline => "Timeline",
            ViewMode::Contributors => "Contributors",
            ViewMode::Hotspots => "Hotspots",
            ViewMode::Branches => "Branches",
        }
    }

    /// The next view, wrapping round to the first.
    pub fn next(self) -> (r: ViewMode)
        ensures
            r == next_view(self),
    {
        let all = ViewMode::all();
        let idx = self.index();
        all[(idx + 1) % 5]
    }

    /// The previous view, wrapping round to the last.
    pub fn prev(self) -> (r: ViewMode)
        ensures
            r == prev_view(self),
    {
        let all = ViewMode::all();
        let idx = self.index();
        if idx == 0 {
            all[4]
        } else {
            all[idx - 1]
        }
    }
}

/// Going to the previous view undoes going to the next one, and the other
/// way round.
pub proof fn law_next_prev(v: ViewMode)
    ensures
        prev_view(next_view(v)) == v,
        next_view(prev_view(v)) == v,
{
}

/// The view `k` steps after `v`.
pub open spec fn steps_forward(v: ViewMode, k: nat) -> ViewMode
    decreases k,
{
    if k == 0 {
        v
    } else {
        next_view(steps_forward(v, (k - 1) as nat))
    }
}

/// Going to the next view steps through the tabs in order: `k` steps lead
/// `k` places on, modulo five.
pub proof fn law_next_steps(v: ViewMode, k: nat)
    ensures
        view_index(steps_forward(v, k)) == (view_index(v) + k) % 5,
    decreases k,
{
    if k > 0 {
        law_next_steps(v, (k - 1) as nat);
        let w = steps_forward(v, (k - 1) as nat);
        let a = view_index(v) + k - 1;
        assert(view_index(w) == a % 5);
        assert((a % 5 + 1) % 5 == (a + 1) % 5) by (nonlinear_arith)
            requires
                a >= 0,
        ;
        assert(view_index(next_view(w)) == (view_index(w) + 1) % 5);
    }
}

/// Five steps to the next view, each visiting another view, come back.
pub proof fn law_next_cycles(v: ViewMode)
    ensures
        steps_forward(v, 5) == v,
{
    law_next_steps(v, 5);
    {
        let w = steps_forward(v, 5);
        assert(view_index(w) == view_index(v));
        assert(w == v) by {
            match w {
                ViewMode::Overview => {},
                ViewMode::Timeline => {},
                ViewMode::Contributors => {},
                ViewMode::Hotspots => {},
                ViewMode::Branches => {},
            }
            match v {
                ViewMode::Overview => {},
                ViewMode::Timeline => {},
                ViewMode::Contributors => {},
                ViewMode::Hotspots => {},
                ViewMode::Branches => {},
            }
        }
    }
}

/// Whether keys browse the views or type a search.
#[derive(Debug, Clone, Copy, PartialEq, Eq, Structural)]
pub enum InputMode {
    Normal,
    Search,
}

/// The browser's state.
pub struct App {
    pub should_quit: bool,
    pub current_view: ViewMode,
    pub input_mode: InputMode,
    pub search_query: String,
    pub analysis: AnalysisResult,
    pub timeline_scroll: usize,
    pub contributors_scroll: usize,
    pub hotspots_scroll: usize,
    pub branches_scroll: usize,
    pub repo_path: String,
}

/// `a - 1`, or 0 when `a` is 0.
pub open spec fn sat_dec(a: int) -> int {
    if a > 0 {
        a - 1
    } else {
        0
    }
}

/// `a + 1`, held at `usize::MAX`.
pub open spec fn sat_inc(a: int) -> int {
    if a < usize::MAX {
        a + 1
    } else {
        usize::MAX as int
    }
}

pub open spec fn min_int(a: int, b: int) -> int {
    if a <= b {
        a
    } else {
        b
    }
}

impl App {
    /// The number of items of the list that view `v` scrolls (the overview
    /// scrolls none; without a branch graph there are no branches).
    pub open spec fn list_len(&self, v: ViewMode) -> int {
        match v {
            ViewMode::Timeline => self.analysis.timeline@.len() as int,
            ViewMode::Contributors => self.analysis.contributors@.len() as int,
            ViewMode::Hotspots => self.analysis.hotspots@.len() as int,
            ViewMode::Branches => match self.analysis.branch_graph {
                Some(g) => g.branches@.len() as int,
                None => 0,
            },
            ViewMode::Overview => 0,
        }
    }

    /// How far view `v` may scroll: to its last item.
    pub open spec fn max_scroll(&self, v: ViewMode) -> int {
        sat_dec(self.list_len(v))
    }

    /// How far view `v` is scrolled (the overview never is).
    pub open spec fn scroll_of(&self, v: ViewMode) -> int {
        match v {
            ViewMode::Timeline => self.timeline_scroll as int,
            ViewMode::Contributors => self.contributors_scroll as int,
            ViewMode::Hotspots => self.hotspots_scroll as int,
            ViewMode::Branches => self.branches_scroll as int,
            ViewMode::Overview => 0,
        }
    }

    /// Whether `b` is `a` with only the scroll position of the current view
    /// changed, to `n` (nothing changes on the overview).
    pub open spec fn scrolled_to(a: &App, b: &App, n: int) -> bool {
        &&& b.should_quit == a.should_quit
        &&& b.current_view == a.current_view
        &&& b.input_mode == a.input_mode
        &&& b.search_query@ == a.search_query@
        &&& b.analysis == a.analysis
        &&& b.repo_path@ == a.repo_path@
        &&& b.timeline_scroll == (if a.current_view == ViewMode::Timeline {
            n
        } else {
            a.timeline_scroll as int
        })
        &&& b.contributors_scroll == (if a.current_view == ViewMode::Contributors {
            n
        } else {
            a.contributors_scroll as int
        })
        &&& b.hotspots_scroll == (if a.current_view == ViewMode::Hotspots {
            n
        } else {
            a.hotspots_scroll as int
        })
        &&& b.branches_scroll == (if a.current_view == ViewMode::Branches {
            n
        } else {
            a.branches_scroll as int
        })
    }

    /// A browser on the overview, nothing scrolled, not searching.
    pub fn new(analysis: AnalysisResult, repo_path: String) -> (r: App)
        ensures
            !r.should_quit,
            r.current_view == ViewMode::Overview,
            r.input_mode == InputMode::Normal,
            r.search_query@ == Seq::<char>::empty(),
            r.analysis == analysis,
            r.repo_path == repo_path,
            r.timeline_scroll == 0,
            r.contributors_scroll == 0,
            r.hotspots_scroll == 0,
            r.branches_scroll == 0,
    {
        App {
            should_quit: false,
            current_view: ViewMode::Overview,
            input_mode: InputMode::Normal,
            search_query: String::new(),
            analysis,
            timeline_scroll: 0,
            contributors_scroll: 0,
            hotspots_scroll: 0,
            branches_scroll: 0,
            repo_path,
        }
    }

    /// Moves the current list up one item, stopping at the top.
    pub fn scroll_up(&mut self)
        ensures
            App::scrolled_to(old(self), final(self), sat_dec(old(self).scroll_of(old(self).current_view))),
    {
        match self.current_view {
            ViewMode::Timeline => {
                self.timeline_scroll = self.timeline_scroll.saturating_sub(1);
            },
            ViewMode::Contributors => {
                self.contributors_scroll = self.contributors_scroll.saturating_sub(1);
            },
            ViewMode::Hotspots => {
                self.hotspots_scroll = self.hotspots_scroll.saturating_sub(1);
            },
            ViewMode::Branches => {
                self.branches_scroll = self.branches_scroll.saturating_sub(1);
            },
            ViewMode::Overview => {},
        }
    }

    /// Moves the current list down one item, stopping at its last item.
    pub fn scroll_down(&mut self)
        ensures
            App::scrolled_to(
                old(self),
                final(self),
                min_int(sat_inc(old(self).scroll_of(old(self).current_view)), old(self).max_scroll(old(self).current_view)),
            ),
    {
        let max = self.scroll_max();
        match self.current_view {
            ViewMode::Timeline => {
                self.timeline_scroll = self.timeline_scroll.saturating_add(1).min(max);
            },
            ViewMode::Contributors => {
                self.contributors_scroll = self.contributors_scroll.saturating_add(1).min(max);
            },
            ViewMode::Hotspots => {
                self.hotspots_scroll = self.hotspots_scroll.saturating_add(1).min(max);
            },
            ViewMode::Branches => {
                self.branches_scroll = self.branches_scroll.saturating_add(1).min(max);
            },
            ViewMode::Overview => {},
        }
    }

    /// Scrolls the current list to its first item.
    pub fn scroll_top(&mut self)
        ensures
            App::scrolled_to(old(self), final(self), 0),
    {
        match self.current_view {
            ViewMode::Timeline => self.timeline_scroll = 0,
            ViewMode::Contributors => self.contributors_scroll = 0,
            ViewMode::Hotspots => self.hotspots_scroll = 0,
            ViewMode::Branches => self.branches_scroll = 0,
            ViewMode::Overview => {},
        }
    }

    /// Scrolls the current list to its last item.
    pub fn scroll_bottom(&mut self)
        ensures
            App::scrolled_to(old(self), final(self), old(self).max_scroll(old(self).current_view)),
    {
        let max = self.scroll_max();
        match self.current_view {
            ViewMode::Timeline => self.timeline_scroll = max,
            ViewMode::Contributors => self.contributors_scroll = max,
            ViewMode::Hotspots => self.hotspots_scroll = max,
            ViewMode::Branches => self.branches_scroll = max,
            ViewMode::Overview => {},
        }
    }

    /// How far the current list may scroll.
    pub fn scroll_max(&self) -> (r: usize)
        ensures
            r == self.max_scroll(self.current_view),
    {
        match self.current_view {
            ViewMode::Timeline => self.analysis.timeline.len().saturating_sub(1),
            ViewMode::Contributors => self.analysis.contributors.len().saturating_sub(1),
            ViewMode::Hotspots => self.analysis.hotspots.len().saturating_sub(1),
            ViewMode::Branches => match &self.analysis.branch_graph {
                Some(g) => g.branches.len().saturating_sub(1),
                None => 0,
            },
            ViewMode::Overview => 0,
        }
    }

    /// How far the current list is scrolled.
    pub fn current_scroll(&self) -> (r: usize)
        ensures
            r == self.scroll_of(self.current_view),
    {
        match self.current_view {
            ViewMode::Timeline => self.timeline_scroll,
            ViewMode::Contributors => self.contributors_scroll,
            ViewMode::Hotspots => self.hotspots_scroll,
            ViewMode::Branches => self.branches_scroll,
            ViewMode::Overview => 0,
        }
    }
}

/// What `str::to_lowercase` makes of a text: each character replaced by its
/// lowercase form under Unicode's rules.
pub uninterp spec fn unicode_lowercase(s: Seq<char>) -> Seq<char>;

/// `str::to_lowercase`. Its result depends on the text alone (no locale is
/// consulted); which characters it changes is left to the name.
#[verifier::external_body]
fn to_lowercase(s: &str) -> (r: String)
    ensures
        r@ == unicode_lowercase(s@),
{
    s.to_lowercase()
}

/// Whether a search, already lowercased, occurs in the lowercased message,
/// author or hash of a commit.
pub fn matches_query(message: &str, author: &str, hash: &str, query: &str) -> (r: bool)
    ensures
        r == (contains(message@, query@) || contains(author@, query@) || contains(hash@, query@)),
{
    let q = chars_of(query);
    contains_chars(&chars_of(message), &q) || contains_chars(&chars_of(author), &q) || contains_chars(
        &chars_of(hash),
        &q,
    )
}

/// Whether a timeline entry matches a search, case being ignored.
pub open spec fn entry_matches(e: TimelineSpec, query: Seq<char>) -> bool {
    let q = unicode_lowercase(query);
    contains(unicode_lowercase(e.message), q) || contains(unicode_lowercase(e.author), q) || contains(
        unicode_lowercase(e.hash),
        q,
    )
}

/// The entries that match a search, in order.
pub open spec fn matching_entries(s: Seq<TimelineSpec>, query: Seq<char>) -> Seq<TimelineSpec>
    decreases s.len(),
{
    if s.len() == 0 {
        seq![]
    } else {
        let rest = matching_entries(s.drop_last(), query);
        if entry_matches(s.last(), query) {
            rest.push(s.last())
        } else {
            rest
        }
    }
}

impl App {
    /// The timeline entries shown: all of them, or those matching the search
    /// when one has been typed.
    pub fn filtered_timeline(&self) -> (r: Vec<&CommitTimelineEntry>)
        ensures
            views(r@) == (if self.search_query@.len() == 0 {
                views(self.analysis.timeline@)
            } else {
                matching_entries(views(self.analysis.timeline@), self.search_query@)
            }),
    {
        let tl = &self.analysis.timeline;
        let ghost tv = views(tl@);
        let n = tl.len();
        let mut r: Vec<&CommitTimelineEntry> = Vec::new();
        let empty = self.search_query.as_str().is_empty();
        let query = to_lowercase(self.search_query.as_str());
        let mut i: usize = 0;
        assert(tv.take(0) =~= Seq::<TimelineSpec>::empty());
        while i < n
            invariant
                i <= n,
                n == tl@.len(),
                tv == views(tl@),
                empty == (self.search_query@.len() == 0),
                query@ == unicode_lowercase(self.search_query@),
                views(r@) == (if empty {
                    tv.take(i as int)
                } else {
                    matching_entries(tv.take(i as int), self.search_query@)
                }),
            decreases n - i,
        {
            let e = &tl[i];
            let ghost before = views(r@);
            proof {
                assert(tv.take(i + 1).drop_last() =~= tv.take(i as int));
                assert(tv.take(i + 1).last() == e@);
            }
            if empty {
                r.push(e);
                assert(views(r@) =~= before.push(e@));
            } else {
                let m = to_lowercase(e.message.as_str());
                let a = to_lowercase(e.author.as_str());
                let h = to_lowercase(e.hash.as_str());
                if matches_query(m.as_str(), a.as_str(), h.as_str(), query.as_str()) {
                    r.push(e);
                    assert(views(r@) =~= before.push(e@));
                }
            }
            i = i + 1;
        }
        assert(tv.take(n as int) =~= tv);
        r
    }
}

} // verus!
