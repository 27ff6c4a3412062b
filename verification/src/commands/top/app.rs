//! The state of the interactive counter table.

use crate::commands::top::json::{FsJsonOutput, StatsError};
use crate::counters::{lex_sorted, string_views};
use vstd::prelude::*;

verus! {

/// Which screen the interactive view shows.
#[derive(Clone, Copy, Debug, PartialEq, Eq, Structural)]
pub enum AppState {
    Main,
    SortScreen,
}

/// The order of the rows of the counter table.
#[derive(Clone, Copy, Debug, PartialEq, Eq, Structural)]
pub enum SortedBy {
    AlphabeticalAscending,
    AlphabeticalDecending,
    TotalAscending,
    TotalDescending,
    SinceStartTotalDiffAscending,
    SinceStartTotalDiffDecending,
}

/// The interactive view: what it monitors, the three snapshots it compares
/// and where the table is scrolled to. Times are nanoseconds on the
/// caller's monotonic clock.
#[derive(Debug)]
pub struct App {
    /// Seconds between two automatic refreshes.
    pub refresh_rate: u64,
    pub mountpoint: String,
    pub state: AppState,
    pub sort_algo: SortedBy,
    /// When the last snapshot was taken.
    pub last_refresh: u128,
    /// A refresh was asked for by a key press.
    pub force_refresh: bool,
    pub current_stats: FsJsonOutput,
    pub previous_stats: FsJsonOutput,
    pub starting_stats: FsJsonOutput,
    pub scroll_offset: usize,
    /// The counter names in alphabetical order.
    pub alphabetical_sort: Vec<String>,
}

/// `a - b`, or 0 where `b` is the larger.
pub open spec fn sat_sub(a: int, b: int) -> int {
    if a >= b {
        a - b
    } else {
        0
    }
}

impl App {
    /// The view as `new` makes it at time `now`.
    pub open spec fn is_fresh(self, now: u128) -> bool {
        &&& self.refresh_rate == 0
        &&& self.mountpoint@ == Seq::<char>::empty()
        &&& self.fresh_monitoring(now)
    }

    /// Everything but the configuration (mountpoint and refresh rate) is as
    /// `new` makes it at time `now`.
    pub open spec fn fresh_monitoring(self, now: u128) -> bool {
        &&& self.state == AppState::Main
        &&& self.sort_algo == SortedBy::AlphabeticalAscending
        &&& self.last_refresh == now
        &&& !self.force_refresh
        &&& self.current_stats@ == FsJsonOutput::empty_view()
        &&& self.previous_stats@ == FsJsonOutput::empty_view()
        &&& self.starting_stats@ == FsJsonOutput::empty_view()
        &&& self.scroll_offset == 0
        &&& self.alphabetical_sort@.len() == 0
    }

    /// `self` with only the scroll position set to `offset`.
    pub open spec fn with_scroll(self, offset: usize) -> App {
        App { scroll_offset: offset, ..self }
    }

    /// `self` with only the refresh request set to `requested`.
    pub open spec fn with_force_refresh(self, requested: bool) -> App {
        App { force_refresh: requested, ..self }
    }

    /// `self` with only the scroll position and the refresh request set.
    pub open spec fn with_scroll_and_force(self, offset: usize, requested: bool) -> App {
        App { scroll_offset: offset, force_refresh: requested, ..self }
    }

    /// A refresh is due at `now`: at least `refresh_rate` seconds have passed
    /// since the last one (no time has passed if `now` is earlier).
    pub open spec fn refresh_due(self, now: u128) -> bool {
        sat_sub(now as int, self.last_refresh as int) >= self.refresh_rate * 1_000_000_000
    }

    /// When a refresh is due, in elapsed time: from `last_refresh` on, once
    /// `refresh_rate` whole seconds of nanoseconds have passed, and before
    /// `last_refresh` only with a rate of 0; once due, due at every later time.
    pub proof fn lemma_refresh_due_law(self, now: u128, later: u128)
        ensures
            now >= self.last_refresh ==> (self.refresh_due(now) <==> now - self.last_refresh
                >= self.refresh_rate * 1_000_000_000),
            now >= self.last_refresh && now - self.last_refresh < self.refresh_rate * 1_000_000_000
                ==> !self.refresh_due(now),
            now < self.last_refresh ==> (self.refresh_due(now) <==> self.refresh_rate == 0),
            self.refresh_due(now) && later >= now ==> self.refresh_due(later),
    {
    }

    /// An empty view on the Main screen, sorted alphabetically, last
    /// refreshed at `now`.
    pub fn new(now: u128) -> (r: Self)
        ensures
            r.is_fresh(now),
    {
        let mountpoint = String::new();
        App {
            refresh_rate: 0,
            mountpoint,
            sort_algo: SortedBy::AlphabeticalAscending,
            state: AppState::Main,
            last_refresh: now,
            force_refresh: false,
            current_stats: FsJsonOutput::default(),
            previous_stats: FsJsonOutput::default(),
            starting_stats: FsJsonOutput::default(),
            scroll_offset: 0,
            alphabetical_sort: Vec::new(),
        }
    }

    /// A fresh view of `mountpoint`, refreshing every `time_secs` seconds,
    /// or every second when `time_secs` is 0.
    pub fn with_cli_builder(mountpoint: String, time_secs: u64, now: u128) -> (r: Self)
        ensures
            r.mountpoint == mountpoint,
            r.refresh_rate == if time_secs > 0 {
                time_secs
            } else {
                1
            },
            r.fresh_monitoring(now),
    {
        let mut app = Self::new(now);
        let refresh_rate = if time_secs > 0 {
            time_secs
        } else {
            1
        };
        app.mountpoint = mountpoint;
        app.refresh_rate = refresh_rate;
        app
    }

    /// Whether a refresh is due at `now`.
    pub fn should_refresh(&self, now: u128) -> (r: bool)
        ensures
            r == self.refresh_due(now),
    {
        let elapsed = if now >= self.last_refresh {
            now - self.last_refresh
        } else {
            0
        };
        elapsed >= (self.refresh_rate as u128) * 1_000_000_000
    }

    /// Takes in a new snapshot fetched at `now`: the snapshot shown so far
    /// becomes the previous one; on success the new one is shown and `now`
    /// becomes the time of the last refresh, on failure both stay and the
    /// error is handed back.
    pub fn refresh_stats(
        &mut self,
        fetched: Result<FsJsonOutput, StatsError>,
        now: u128,
    ) -> (r: Result<(), StatsError>)
        ensures
            final(self).previous_stats@ == old(self).current_stats@,
            final(self).refresh_rate == old(self).refresh_rate,
            final(self).mountpoint == old(self).mountpoint,
            final(self).state == old(self).state,
            final(self).sort_algo == old(self).sort_algo,
            final(self).force_refresh == old(self).force_refresh,
            final(self).starting_stats == old(self).starting_stats,
            final(self).scroll_offset == old(self).scroll_offset,
            final(self).alphabetical_sort == old(self).alphabetical_sort,
            (match fetched {
                Ok(s) => {
                    &&& r is Ok
                    &&& final(self).current_stats == s
                    &&& final(self).last_refresh == now
                },
                Err(e) => {
                    &&& r == Err::<(), StatsError>(e)
                    &&& final(self).current_stats == old(self).current_stats
                    &&& final(self).last_refresh == old(self).last_refresh
                },
            }),
    {
        self.previous_stats = self.current_stats.clone();
        match fetched {
            Ok(s) => {
                self.current_stats = s;
                self.last_refresh = now;
                Ok(())
            },
            Err(e) => Err(e),
        }
    }

    /// Starts monitoring from the snapshot shown now: it becomes the start
    /// and the previous snapshot, and its counter names, sorted, the
    /// alphabetical order of the table.
    pub fn begin_monitoring(&mut self)
        ensures
            final(self).starting_stats@ == old(self).current_stats@,
            final(self).previous_stats@ == old(self).current_stats@,
            final(self).current_stats == old(self).current_stats,
            string_views(final(self).alphabetical_sort@).no_duplicates(),
            string_views(final(self).alphabetical_sort@).to_set()
                == old(self).current_stats.counters@.dom(),
            lex_sorted(string_views(final(self).alphabetical_sort@)),
            final(self).refresh_rate == old(self).refresh_rate,
            final(self).mountpoint == old(self).mountpoint,
            final(self).state == old(self).state,
            final(self).sort_algo == old(self).sort_algo,
            final(self).last_refresh == old(self).last_refresh,
            final(self).force_refresh == old(self).force_refresh,
            final(self).scroll_offset == old(self).scroll_offset,
    {
        self.starting_stats = self.current_stats.clone();
        self.previous_stats = self.current_stats.clone();
        self.alphabetical_sort = self.current_stats.counters.sorted_keys();
    }

    /// Scrolls `amount` rows down, stopping at the largest offset.
    pub fn scroll_down(&mut self, amount: usize)
        ensures
            *final(self) == old(self).with_scroll(
                if old(self).scroll_offset + amount <= usize::MAX {
                    (old(self).scroll_offset + amount) as usize
                } else {
                    usize::MAX
                },
            ),
    {
        self.scroll_offset = self.scroll_offset.saturating_add(amount);
    }

    /// Scrolls `amount` rows up, stopping at the top.
    pub fn scroll_up(&mut self, amount: usize)
        ensures
            *final(self) == old(self).with_scroll(
                sat_sub(old(self).scroll_offset as int, amount as int) as usize,
            ),
    {
        self.scroll_offset = self.scroll_offset.saturating_sub(amount);
    }

    /// The largest offset that still fills `visible_rows` rows with counters.
    pub fn max_scroll_offset(&self, visible_rows: usize) -> (r: usize)
        ensures
            r == sat_sub(self.alphabetical_sort@.len() as int, visible_rows as int),
    {
        self.alphabetical_sort.len().saturating_sub(visible_rows)
    }
}

/// Scrolling down and back up by the same amount returns to the same row,
/// unless scrolling down stopped at the largest offset.
pub proof fn lemma_scroll_round_trip(offset: usize, amount: usize)
    requires
        offset + amount <= usize::MAX,
    ensures
        sat_sub((offset + amount) as int, amount as int) == offset,
{
}

} // verus!
