//! What a key press does to the interactive view, and when it refreshes.

use crate::commands::top::app::{sat_sub, App, AppState};
use vstd::prelude::*;

verus! {

/// The bit that the Control key sets in `KeyEvent::modifiers`.
pub const CONTROL: u8 = 0b0000_0010;

/// The keys that the view tells apart.
#[derive(Clone, Copy, Debug, PartialEq, Eq, Structural)]
pub enum KeyCode {
    Char(char),
    Up,
    Down,
    /// Any other key.
    Other,
}

/// One key press: the key and the set of modifier bits held with it.
#[derive(Clone, Copy, Debug, PartialEq, Eq, Structural)]
pub struct KeyEvent {
    pub code: KeyCode,
    pub modifiers: u8,
}

/// `q` or `Q` with any modifiers, or `c` with exactly Control: leave.
pub open spec fn is_quit_key(key: KeyEvent) -> bool {
    ||| key.code == KeyCode::Char('q')
    ||| key.code == KeyCode::Char('Q')
    ||| (key.code == KeyCode::Char('c') && key.modifiers == CONTROL)
}

/// `r`: refresh now.
pub open spec fn is_refresh_key(key: KeyEvent) -> bool {
    key.code == KeyCode::Char('r')
}

/// `j` or the Down arrow.
pub open spec fn is_down_key(key: KeyEvent) -> bool {
    key.code == KeyCode::Char('j') || key.code == KeyCode::Down
}

/// `k` or the Up arrow.
pub open spec fn is_up_key(key: KeyEvent) -> bool {
    key.code == KeyCode::Char('k') || key.code == KeyCode::Up
}

/// `o` scrolled one row down, stopping at the largest offset.
pub open spec fn one_down(o: usize) -> usize {
    if o < usize::MAX {
        (o + 1) as usize
    } else {
        o
    }
}

/// `o` scrolled one row up, stopping at the top.
pub open spec fn one_up(o: usize) -> usize {
    sat_sub(o as int, 1) as usize
}

/// `new` and `r` are what `handle_key_event` makes of `old` and `key`.
pub open spec fn key_handled(old: App, new: App, key: KeyEvent, r: Option<()>) -> bool {
    &&& r.is_some() <==> is_quit_key(key)
    &&& new.state == old.state
    &&& (is_quit_key(key) || !(is_refresh_key(key) || is_down_key(key) || is_up_key(key)))
        ==> new == old
    &&& is_refresh_key(key) ==> new == old.with_force_refresh(true)
    &&& is_down_key(key) ==> new.scroll_offset == one_down(old.scroll_offset)
    &&& is_up_key(key) ==> new.scroll_offset == one_up(old.scroll_offset)
    &&& (is_down_key(key) || is_up_key(key)) ==> new == old.with_scroll_and_force(
        new.scroll_offset,
        old.force_refresh || old.state == AppState::SortScreen,
    )
}

/// What each key does, by key: `k` or Up moves one row up, stopping at the
/// top; `j` or Down one row down, stopping at the last offset; `q` and `Q`
/// leave without touching the view; `r` asks for a refresh and nothing
/// else; any other key without Control does nothing.
pub proof fn lemma_key_law(old: App, new: App, key: KeyEvent, r: Option<()>)
    requires
        key_handled(old, new, key, r),
    ensures
        (key.code == KeyCode::Char('k') || key.code == KeyCode::Up) ==> r is None
            && new.scroll_offset == (if old.scroll_offset >= 1 {
            old.scroll_offset - 1
        } else {
            0
        }),
        (key.code == KeyCode::Char('j') || key.code == KeyCode::Down) ==> r is None
            && new.scroll_offset == (if old.scroll_offset < usize::MAX {
            old.scroll_offset + 1
        } else {
            old.scroll_offset as int
        }),
        (key.code == KeyCode::Char('q') || key.code == KeyCode::Char('Q')) ==> r is Some && new
            == old,
        key.code == KeyCode::Char('r') ==> r is None && new.force_refresh && new.scroll_offset
            == old.scroll_offset,
        (key.code == KeyCode::Other && key.modifiers != CONTROL) ==> r is None && new == old,
        new.state == old.state,
{
}

/// What `key` does on the screen the view shows: quit keys answer `Some`,
/// every other key `None`; `r` asks for a refresh; `j`/Down and `k`/Up
/// scroll one row, and on the sort screen also ask for a refresh; other
/// keys change nothing. No key changes the screen.
pub fn handle_key_event(app: &mut App, key: KeyEvent) -> (r: Option<()>)
    ensures
        r.is_some() <==> is_quit_key(key),
        final(app).state == old(app).state,
        (is_quit_key(key) || !(is_refresh_key(key) || is_down_key(key) || is_up_key(key)))
            ==> *final(app) == *old(app),
        is_refresh_key(key) ==> *final(app) == old(app).with_force_refresh(true),
        is_down_key(key) ==> final(app).scroll_offset == one_down(old(app).scroll_offset),
        is_up_key(key) ==> final(app).scroll_offset == one_up(old(app).scroll_offset),
        (is_down_key(key) || is_up_key(key)) ==> *final(app) == old(app).with_scroll_and_force(
            final(app).scroll_offset,
            old(app).force_refresh || old(app).state == AppState::SortScreen,
        ),
        key_handled(*old(app), *final(app), key, r),
{
    match app.state {
        AppState::Main => event_main_state(app, key),
        AppState::SortScreen => event_feedback_state(app, key),
    }
}

fn event_main_state(app: &mut App, key: KeyEvent) -> (r: Option<()>)
    requires
        old(app).state == AppState::Main,
    ensures
        r.is_some() <==> is_quit_key(key),
        (is_quit_key(key) || !(is_refresh_key(key) || is_down_key(key) || is_up_key(key)))
            ==> *final(app) == *old(app),
        is_refresh_key(key) ==> *final(app) == old(app).with_force_refresh(true),
        is_down_key(key) ==> *final(app) == old(app).with_scroll(one_down(old(app).scroll_offset)),
        is_up_key(key) ==> *final(app) == old(app).with_scroll(one_up(old(app).scroll_offset)),
{
    match key.code {
        KeyCode::Char('q') | KeyCode::Char('Q') => {
            return Some(());
        },
        KeyCode::Char('c') if key.modifiers == CONTROL => {
            return Some(());
        },
        KeyCode::Char('r') => {
            app.force_refresh = true;
        },
        KeyCode::Char('j') | KeyCode::Down => {
            app.scroll_down(1);
        },
        KeyCode::Char('k') | KeyCode::Up => {
            app.scroll_up(1);
        },
        _ => {},
    }
    None
}

fn event_feedback_state(app: &mut App, key: KeyEvent) -> (r: Option<()>)
    requires
        old(app).state == AppState::SortScreen,
    ensures
        r.is_some() <==> is_quit_key(key),
        (is_quit_key(key) || !(is_refresh_key(key) || is_down_key(key) || is_up_key(key)))
            ==> *final(app) == *old(app),
        is_refresh_key(key) ==> *final(app) == old(app).with_force_refresh(true),
        is_down_key(key) ==> *final(app) == old(app).with_scroll_and_force(
            one_down(old(app).scroll_offset),
            true,
        ),
        is_up_key(key) ==> *final(app) == old(app).with_scroll_and_force(
            one_up(old(app).scroll_offset),
            true,
        ),
{
    match key.code {
        KeyCode::Char('q') | KeyCode::Char('Q') => {
            return Some(());
        },
        KeyCode::Char('c') if key.modifiers == CONTROL => {
            return Some(());
        },
        KeyCode::Char('r') => {
            app.force_refresh = true;
        },
        KeyCode::Char('j') | KeyCode::Down => {
            app.scroll_offset = app.scroll_offset.saturating_add(1);
            app.force_refresh = true;
        },
        KeyCode::Char('k') | KeyCode::Up => {
            app.scroll_offset = app.scroll_offset.saturating_sub(1);
            app.force_refresh = true;
        },
        _ => {},
    }
    None
}

/// One turn of the event loop decides whether to refresh: when a refresh is
/// due at `now`, or else when one was asked for, which the request then
/// uses up; a request made while a refresh is due stays for the next turn.
pub fn poll_refresh(app: &mut App, now: u128) -> (r: bool)
    ensures
        r == (old(app).refresh_due(now) || old(app).force_refresh),
        *final(app) == old(app).with_force_refresh(
            old(app).refresh_due(now) && old(app).force_refresh,
        ),
{
    if app.should_refresh(now) {
        true
    } else {
        let requested = app.force_refresh;
        app.force_refresh = false;
        requested
    }
}

} // verus!
