//! What each key press does to the browser.
use vstd::prelude::*;

use crate::text::{chars_of, push_char, string_of_range};
use crate::tui_ui::app::{min_int, next_view, prev_view, sat_dec, sat_inc, App, InputMode, ViewMode};

verus! {

/// The keys the browser tells apart.
#[derive(Debug, Clone, Copy, PartialEq, Eq, Structural)]
pub enum Key {
    Char(char),
    Esc,
    Enter,
    Backspace,
    Left,
    Right,
    Up,
    Down,
    PageUp,
    PageDown,
    Other,
}

/// Whether `b` is `a` with its flag, view, mode and search set as given and
/// nothing else changed.
pub open spec fn set_to(a: &App, b: &App, quit: bool, view: ViewMode, mode: InputMode, query: Seq<char>) -> bool {
    &&& b.should_quit == quit
    &&& b.current_view == view
    &&& b.input_mode == mode
    &&& b.search_query@ == query
    &&& b.analysis == a.analysis
    &&& b.repo_path@ == a.repo_path@
    &&& b.timeline_scroll == a.timeline_scroll
    &&& b.contributors_scroll == a.contributors_scroll
    &&& b.hotspots_scroll == a.hotspots_scroll
    &&& b.branches_scroll == a.branches_scroll
}

/// Whether `b` is `a` with the view changed to `v`.
pub open spec fn viewing(a: &App, b: &App, v: ViewMode) -> bool {
    set_to(a, b, a.should_quit, v, a.input_mode, a.search_query@)
}

/// What a key does while browsing: `q` or Esc quits; `h`/Left and `l`/Right
/// go to the previous and next view; `1` to `5` pick a view; `j`/Down and
/// `k`/Up scroll one item, PageDown and PageUp ten; `G` and `g` go to the
/// bottom and the top; `/` starts a new search. Other keys do nothing.
pub open spec fn normal_key(a: &App, b: &App, key: Key) -> bool {
    let s = a.scroll_of(a.current_view);
    let max = a.max_scroll(a.current_view);
    match key {
        Key::Esc => set_to(a, b, true, a.current_view, a.input_mode, a.search_query@),
        Key::Left => viewing(a, b, prev_view(a.current_view)),
        Key::Right => viewing(a, b, next_view(a.current_view)),
        Key::Down => App::scrolled_to(a, b, min_int(sat_inc(s), max)),
        Key::Up => App::scrolled_to(a, b, sat_dec(s)),
        Key::PageDown => App::scrolled_to(a, b, min_int(s + 10, max)),
        Key::PageUp => App::scrolled_to(a, b, if s >= 10 { s - 10 } else { 0 }),
        Key::Char(c) => if c == 'q' {
            set_to(a, b, true, a.current_view, a.input_mode, a.search_query@)
        } else if c == 'h' {
            viewing(a, b, prev_view(a.current_view))
        } else if c == 'l' {
            viewing(a, b, next_view(a.current_view))
        } else if c == '1' {
            viewing(a, b, ViewMode::Overview)
        } else if c == '2' {
            viewing(a, b, ViewMode::Timeline)
        } else if c == '3' {
            viewing(a, b, ViewMode::Contributors)
        } else if c == '4' {
            viewing(a, b, ViewMode::Hotspots)
        } else if c == '5' {
            viewing(a, b, ViewMode::Branches)
        } else if c == 'j' {
            App::scrolled_to(a, b, min_int(sat_inc(s), max))
        } else if c == 'k' {
            App::scrolled_to(a, b, sat_dec(s))
        } else if c == 'G' {
            App::scrolled_to(a, b, max)
        } else if c == 'g' {
            App::scrolled_to(a, b, 0)
        } else if c == '/' {
            set_to(a, b, a.should_quit, a.current_view, InputMode::Search, seq![])
        } else {
            set_to(a, b, a.should_quit, a.current_view, a.input_mode, a.search_query@)
        },
        _ => set_to(a, b, a.should_quit, a.current_view, a.input_mode, a.search_query@),
    }
}

/// What a key does while typing a search: Esc drops the search and Enter
/// keeps it, both going back to browsing; Backspace removes the last
/// character; any other character is added. Other keys do nothing.
pub open spec fn search_key(a: &App, b: &App, key: Key) -> bool {
    match key {
        Key::Esc => set_to(a, b, a.should_quit, a.current_view, InputMode::Normal, seq![]),
        Key::Enter => set_to(a, b, a.should_quit, a.current_view, InputMode::Normal, a.search_query@),
        Key::Backspace => set_to(
            a,
            b,
            a.should_quit,
            a.current_view,
            a.input_mode,
            if a.search_query@.len() > 0 {
                a.search_query@.drop_last()
            } else {
                a.search_query@
            },
        ),
        Key::Char(c) => set_to(a, b, a.should_quit, a.current_view, a.input_mode, a.search_query@.push(c)),
        _ => set_to(a, b, a.should_quit, a.current_view, a.input_mode, a.search_query@),
    }
}

/// Drops the last character of the search.
fn pop_query(app: &mut App)
    ensures
        set_to(
            old(app),
            final(app),
            old(app).should_quit,
            old(app).current_view,
            old(app).input_mode,
            if old(app).search_query@.len() > 0 {
                old(app).search_query@.drop_last()
            } else {
                old(app).search_query@
            },
        ),
{
    let cs = chars_of(app.search_query.as_str());
    if cs.len() > 0 {
        let shorter = string_of_range(&cs, 0, cs.len() - 1);
        assert(shorter@ =~= old(app).search_query@.drop_last());
        app.search_query = shorter;
    }
}

/// Handles a key while browsing.
pub fn handle_normal_mode(app: &mut App, key: Key)
    ensures
        normal_key(old(app), final(app), key),
{
    match key {
        Key::Esc => app.should_quit = true,
        Key::Left => app.current_view = app.current_view.prev(),
        Key::Right => app.current_view = app.current_view.next(),
        Key::Down => app.scroll_down(),
        Key::Up => app.scroll_up(),
        Key::PageDown => page_down(app),
        Key::PageUp => page_up(app),
        Key::Char(c) => {
            if c == 'q' {
                app.should_quit = true;
            } else if c == 'h' {
                app.current_view = app.current_view.prev();
            } else if c == 'l' {
                app.current_view = app.current_view.next();
            } else if c == '1' {
                app.current_view = ViewMode::Overview;
            } else if c == '2' {
                app.current_view = ViewMode::Timeline;
            } else if c == '3' {
                app.current_view = ViewMode::Contributors;
            } else if c == '4' {
                app.current_view = ViewMode::Hotspots;
            } else if c == '5' {
                app.current_view = ViewMode::Branches;
            } else if c == 'j' {
                app.scroll_down();
            } else if c == 'k' {
                app.scroll_up();
            } else if c == 'G' {
                app.scroll_bottom();
            } else if c == 'g' {
                app.scroll_top();
            } else if c == '/' {
                app.input_mode = InputMode::Search;
                app.search_query = String::new();
            }
        },
        _ => {},
    }
}

/// Scrolls down ten items, one at a time.
fn page_down(app: &mut App)
    ensures
        App::scrolled_to(
            old(app),
            final(app),
            min_int(old(app).scroll_of(old(app).current_view) + 10, old(app).max_scroll(old(app).current_view)),
        ),
{
    let ghost s0 = app.scroll_of(app.current_view);
    let max = app.scroll_max();
    let mut i: usize = 0;
    while i < 10
        invariant
            i <= 10,
            s0 == old(app).scroll_of(old(app).current_view),
            max == old(app).max_scroll(old(app).current_view),
            App::scrolled_to(old(app), app, if i == 0 { s0 } else { min_int(s0 + i, max as int) }),
            app.max_scroll(app.current_view) == max,
        decreases 10 - i,
    {
        app.scroll_down();
        i = i + 1;
    }
}

/// Scrolls up ten items, one at a time.
fn page_up(app: &mut App)
    ensures
        App::scrolled_to(
            old(app),
            final(app),
            if old(app).scroll_of(old(app).current_view) >= 10 {
                old(app).scroll_of(old(app).current_view) - 10
            } else {
                0
            },
        ),
{
    let ghost s0 = app.scroll_of(app.current_view);
    let mut i: usize = 0;
    while i < 10
        invariant
            i <= 10,
            s0 == old(app).scroll_of(old(app).current_view),
            App::scrolled_to(old(app), app, if s0 >= i { s0 - i } else { 0 }),
        decreases 10 - i,
    {
        app.scroll_up();
        i = i + 1;
    }
}

/// Handles a key while typing a search.
pub fn handle_search_mode(app: &mut App, key: Key)
    ensures
        search_key(old(app), final(app), key),
{
    match key {
        Key::Esc => {
            app.input_mode = InputMode::Normal;
            app.search_query = String::new();
        },
        Key::Enter => {
            app.input_mode = InputMode::Normal;
        },
        Key::Backspace => pop_query(app),
        Key::Char(c) => push_char(&mut app.search_query, c),
        _ => {},
    }
}

/// Handles a key press in the mode the browser is in.
pub fn handle_key(app: &mut App, key: Key)
    ensures
        old(app).input_mode == InputMode::Normal ==> normal_key(old(app), final(app), key),
        old(app).input_mode == InputMode::Search ==> search_key(old(app), final(app), key),
{
    match app.input_mode {
        InputMode::Normal => handle_normal_mode(app, key),
        InputMode::Search => handle_search_mode(app, key),
    }
}

/// Whether every list is scrolled no further than its last item.
pub open spec fn scrolls_in_range(a: &App) -> bool {
    &&& a.scroll_of(ViewMode::Timeline) <= a.max_scroll(ViewMode::Timeline)
    &&& a.scroll_of(ViewMode::Contributors) <= a.max_scroll(ViewMode::Contributors)
    &&& a.scroll_of(ViewMode::Hotspots) <= a.max_scroll(ViewMode::Hotspots)
    &&& a.scroll_of(ViewMode::Branches) <= a.max_scroll(ViewMode::Branches)
}

/// A browser whose lists are all at their first item has them in range,
/// as a new one has; with `law_keys_keep_scrolls_in_range`, no sequence of
/// keys moves a list past its end.
pub proof fn law_fresh_scrolls_in_range(a: &App)
    requires
        a.timeline_scroll == 0,
        a.contributors_scroll == 0,
        a.hotspots_scroll == 0,
        a.branches_scroll == 0,
    ensures
        scrolls_in_range(a),
{
}

/// No key moves a list past its last item: a browser whose lists are all
/// in range keeps them so, whatever key it is given in either mode.
pub proof fn law_keys_keep_scrolls_in_range(a: &App, b: &App, key: Key)
    requires
        scrolls_in_range(a),
        a.input_mode == InputMode::Normal ==> normal_key(a, b, key),
        a.input_mode == InputMode::Search ==> search_key(a, b, key),
    ensures
        scrolls_in_range(b),
{
}

/// Going one view right and then one view left comes back to the view one
/// started from, with nothing else changed.
pub proof fn law_right_then_left(a: &App, b: &App, c: &App)
    requires
        normal_key(a, b, Key::Right),
        normal_key(b, c, Key::Left),
    ensures
        viewing(a, c, a.current_view),
{
    crate::tui_ui::app::law_next_prev(a.current_view);
}

/// Typing a character into a search and then deleting it gives the search
/// back as it was.
pub proof fn law_type_then_backspace(a: &App, b: &App, c: &App, ch: char)
    requires
        search_key(a, b, Key::Char(ch)),
        search_key(b, c, Key::Backspace),
    ensures
        c.search_query@ == a.search_query@,
        c.input_mode == a.input_mode,
        c.current_view == a.current_view,
{
    assert(a.search_query@.push(ch).drop_last() =~= a.search_query@);
}

/// Starting a search and leaving it with Esc comes back to browsing with an
/// empty search.
pub proof fn law_search_then_escape(a: &App, b: &App, c: &App)
    requires
        normal_key(a, b, Key::Char('/')),
        search_key(b, c, Key::Esc),
    ensures
        c.input_mode == InputMode::Normal,
        c.search_query@.len() == 0,
        c.current_view == a.current_view,
{
}

} // verus!
