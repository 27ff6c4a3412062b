//! What the counter table shows: its rows, in the order the view is sorted
//! by, and the first row on screen.

use crate::commands::top::app::{sat_sub, App, SortedBy};
use crate::commands::top::utils::{calculate_diffs, diff_map, diffs_defined_spec};
use crate::counters::{
    entry_views, has_key, keys_distinct, lemma_map_of_entry, lemma_same_names_position,
    lemma_strictly_sorted_unique, position_of, string_views, Counters,
};
use vstd::prelude::*;

verus! {

/// One line of the counter table.
#[derive(Debug)]
pub struct StatsRow {
    pub key: String,
    /// Growth since the previous snapshot.
    pub delta: u64,
    /// Growth since monitoring began.
    pub since_start: u64,
    /// The counter's current value.
    pub total: u64,
}

/// The value of `k` in `m`, or 0 where `m` has no `k`.
pub open spec fn value_or_zero(m: Map<Seq<char>, u64>, k: Seq<char>) -> u64 {
    if m.dom().contains(k) {
        m[k]
    } else {
        0
    }
}

/// `keys` lists each name of `m` once, in ascending (`descending`) order of
/// value, names of equal value in the order in which they stand in `order`.
pub open spec fn ordered_by_value(
    keys: Seq<Seq<char>>,
    m: Map<Seq<char>, u64>,
    order: Seq<(Seq<char>, u64)>,
    descending: bool,
) -> bool {
    &&& keys.no_duplicates()
    &&& keys.to_set() == m.dom()
    &&& forall|a: int, b: int|
        0 <= a < b < keys.len() ==> if descending {
            m[#[trigger] keys[a]] >= m[#[trigger] keys[b]]
        } else {
            m[keys[a]] <= m[keys[b]]
        }
    &&& forall|a: int, b: int|
        0 <= a < b < keys.len() && m[#[trigger] keys[a]] == m[#[trigger] keys[b]] ==> position_of(
            order,
            keys[a],
        ) < position_of(order, keys[b])
}

/// The names of the rows follow the order that the view is sorted by.
pub open spec fn row_order(app: App, keys: Seq<Seq<char>>) -> bool {
    let alpha = string_views(app.alphabetical_sort@);
    let total = app.current_stats.counters@;
    let since = diff_map(app.starting_stats.counters@, total);
    let order = app.current_stats.counters.entries_view();
    match app.sort_algo {
        SortedBy::AlphabeticalAscending => keys == alpha,
        SortedBy::AlphabeticalDecending => keys == alpha.reverse(),
        SortedBy::TotalAscending => ordered_by_value(keys, total, order, false),
        SortedBy::TotalDescending => ordered_by_value(keys, total, order, true),
        SortedBy::SinceStartTotalDiffAscending => ordered_by_value(keys, since, order, false),
        SortedBy::SinceStartTotalDiffDecending => ordered_by_value(keys, since, order, true),
    }
}

/// The names of a list of rows.
pub open spec fn row_keys(rows: Seq<StatsRow>) -> Seq<Seq<char>> {
    rows.map_values(|row: StatsRow| row.key@)
}

/// The names of `c` in ascending (`descending`) order of value, names of
/// equal value in storage order.
fn ordered_keys(c: &Counters, descending: bool) -> (r: Vec<String>)
    ensures
        ordered_by_value(string_views(r@), c@, c.entries_view(), descending),
        keys_distinct(c.entries_view()),
{
    let pairs = c.sorted_by_value(descending);
    let ghost ev = entry_views(pairs@);
    let mut out: Vec<String> = Vec::new();
    let mut i: usize = 0;
    while i < pairs.len()
        invariant
            0 <= i <= pairs.len(),
            ev == entry_views(pairs@),
            string_views(out@) == ev.take(i as int).map_values(|e: (Seq<char>, u64)| e.0),
        decreases pairs.len() - i,
    {
        let name = pairs[i].0.clone();
        assert(name@ == ev[i as int].0);
        let ghost before = out@;
        out.push(name);
        assert(out@ == before.push(name));
        assert(string_views(out@) =~= string_views(before).push(name@));
        assert(string_views(out@) =~= ev.take(i + 1).map_values(|e: (Seq<char>, u64)| e.0));
        i += 1;
    }
    let ghost names = string_views(out@);
    assert(ev.take(i as int) =~= ev);
    assert forall|a: int, b: int| 0 <= a < names.len() && 0 <= b < names.len() && a != b implies names[a]
        != names[b] by {
        assert(names[a] == ev[a].0);
        assert(names[b] == ev[b].0);
    }
    assert forall|k: Seq<char>| names.contains(k) <==> c@.dom().contains(k) by {
        if names.contains(k) {
            let a = choose|a: int| 0 <= a < names.len() && names[a] == k;
            lemma_map_of_entry(ev, a);
        }
        if c@.dom().contains(k) {
            let a = choose|a: int| 0 <= a < ev.len() && #[trigger] ev[a].0 == k;
            assert(names[a] == k);
        }
    }
    assert(names.to_set() =~= c@.dom());
    assert forall|a: int, b: int| 0 <= a < b < names.len() implies if descending {
        c@[#[trigger] names[a]] >= c@[#[trigger] names[b]]
    } else {
        c@[names[a]] <= c@[names[b]]
    } by {
        lemma_map_of_entry(ev, a);
        lemma_map_of_entry(ev, b);
        assert(names[a] == ev[a].0);
        assert(names[b] == ev[b].0);
    }
    assert forall|a: int, b: int|
        0 <= a < b < names.len() && c@[#[trigger] names[a]] == c@[#[trigger] names[b]] implies position_of(
        c.entries_view(),
        names[a],
    ) < position_of(c.entries_view(), names[b]) by {
        lemma_map_of_entry(ev, a);
        lemma_map_of_entry(ev, b);
        assert(names[a] == ev[a].0);
        assert(names[b] == ev[b].0);
        assert(ev[a].1 == ev[b].1);
    }
    out
}

/// A copy of `v`, or of `v` reversed.
fn copy_names(v: &Vec<String>, reversed: bool) -> (r: Vec<String>)
    ensures
        string_views(r@) == if reversed {
            string_views(v@).reverse()
        } else {
            string_views(v@)
        },
{
    let ghost src = string_views(v@);
    let n = v.len();
    let mut out: Vec<String> = Vec::new();
    let mut i: usize = 0;
    while i < n
        invariant
            n == v.len(),
            src == string_views(v@),
            0 <= i <= n,
            out@.len() == i,
            forall|m: int|
                0 <= m < i ==> #[trigger] string_views(out@)[m] == if reversed {
                    src[n - 1 - m]
                } else {
                    src[m]
                },
        decreases n - i,
    {
        let name = if reversed {
            v[n - 1 - i].clone()
        } else {
            v[i].clone()
        };
        let ghost before = out@;
        let ghost name_v = name@;
        out.push(name);
        assert(out@ == before.push(name));
        assert(string_views(out@) =~= string_views(before).push(name_v));
        i += 1;
    }
    if reversed {
        assert(string_views(out@) =~= src.reverse());
    } else {
        assert(string_views(out@) =~= src);
    }
    out
}

/// The value stored under `key`, or 0.
fn get_or_zero(c: &Counters, key: &String) -> (r: u64)
    ensures
        r == value_or_zero(c@, key@),
{
    match c.get(key) {
        Some(v) => v,
        None => 0,
    }
}

/// `rows` are the rows of the table of `app`: in the order the view is
/// sorted by, each name with its growth since the previous snapshot and
/// since the start and its current value, each 0 where the name is missing.
pub open spec fn rows_match(app: App, rows: Seq<StatsRow>) -> bool {
    &&& row_order(app, row_keys(rows))
    &&& forall|i: int|
        0 <= i < rows.len() ==> {
            let k = (#[trigger] rows[i]).key@;
            &&& rows[i].delta == value_or_zero(
                diff_map(app.previous_stats.counters@, app.current_stats.counters@),
                k,
            )
            &&& rows[i].since_start == value_or_zero(
                diff_map(app.starting_stats.counters@, app.current_stats.counters@),
                k,
            )
            &&& rows[i].total == value_or_zero(app.current_stats.counters@, k)
        }
}

/// The rows of the counter table in the order the view is sorted by: for
/// each name, its growth since the previous snapshot and since the start,
/// and its current value, each 0 where the name is missing.
pub fn stats_rows(app: &App) -> (r: Vec<StatsRow>)
    requires
        diffs_defined_spec(app.previous_stats.counters@, app.current_stats.counters@),
        diffs_defined_spec(app.starting_stats.counters@, app.current_stats.counters@),
    ensures
        rows_match(*app, r@),
{
    let diffs = calculate_diffs(&app.previous_stats, &app.current_stats).counters;
    let total_diffs = calculate_diffs(&app.starting_stats, &app.current_stats).counters;
    let keys = match app.sort_algo {
        SortedBy::AlphabeticalAscending => copy_names(&app.alphabetical_sort, false),
        SortedBy::AlphabeticalDecending => copy_names(&app.alphabetical_sort, true),
        SortedBy::SinceStartTotalDiffAscending => ordered_keys(&total_diffs, false),
        SortedBy::SinceStartTotalDiffDecending => ordered_keys(&total_diffs, true),
        SortedBy::TotalAscending => ordered_keys(&app.current_stats.counters, false),
        SortedBy::TotalDescending => ordered_keys(&app.current_stats.counters, true),
    };
    let ghost names = string_views(keys@);
    proof {
        let order = app.current_stats.counters.entries_view();
        let tev = total_diffs.entries_view();
        if app.sort_algo == SortedBy::SinceStartTotalDiffAscending || app.sort_algo
            == SortedBy::SinceStartTotalDiffDecending {
            assert forall|k: Seq<char>| #[trigger] total_diffs@.dom().contains(k) implies position_of(
                tev,
                k,
            ) == position_of(order, k) by {
                assert(has_key(tev, k));
                lemma_same_names_position(tev, order, k);
            }
            assert forall|a: int, b: int|
                0 <= a < b < names.len() && total_diffs@[#[trigger] names[a]]
                    == total_diffs@[#[trigger] names[b]] implies position_of(order, names[a])
                < position_of(order, names[b]) by {
                assert(names.to_set().contains(names[a]));
                assert(names.to_set().contains(names[b]));
            }
        }
    }
    assert(row_order(*app, names));
    let mut rows: Vec<StatsRow> = Vec::new();
    let mut i: usize = 0;
    while i < keys.len()
        invariant
            0 <= i <= keys.len(),
            names == string_views(keys@),
            row_keys(rows@) == names.take(i as int),
            diffs@ == diff_map(app.previous_stats.counters@, app.current_stats.counters@),
            total_diffs@ == diff_map(app.starting_stats.counters@, app.current_stats.counters@),
            forall|m: int|
                0 <= m < rows@.len() ==> {
                    let k = (#[trigger] rows@[m]).key@;
                    &&& rows@[m].delta == value_or_zero(diffs@, k)
                    &&& rows@[m].since_start == value_or_zero(total_diffs@, k)
                    &&& rows@[m].total == value_or_zero(app.current_stats.counters@, k)
                },
        decreases keys.len() - i,
    {
        let key = &keys[i];
        let row = StatsRow {
            key: key.clone(),
            delta: get_or_zero(&diffs, key),
            since_start: get_or_zero(&total_diffs, key),
            total: get_or_zero(&app.current_stats.counters, key),
        };
        let ghost before = rows@;
        let ghost row_key = row.key@;
        assert(row_key == names[i as int]);
        rows.push(row);
        assert(rows@ == before.push(row));
        assert(row_keys(rows@) =~= row_keys(before).push(row_key));
        assert(row_keys(rows@) =~= names.take(i + 1));
        i += 1;
    }
    assert(names.take(i as int) =~= names);
    rows
}

/// Drawing the table twice from the same view gives the same rows: the
/// order of the view, with ties between equal values broken by where the
/// names stand among the current counters, leaves no choice.
pub proof fn lemma_rows_determined(app: App, r1: Seq<StatsRow>, r2: Seq<StatsRow>)
    requires
        rows_match(app, r1),
        rows_match(app, r2),
    ensures
        row_keys(r1) == row_keys(r2),
        forall|i: int|
            0 <= i < r1.len() ==> (#[trigger] r1[i]).delta == r2[i].delta && r1[i].since_start
                == r2[i].since_start && r1[i].total == r2[i].total,
{
    let k1 = row_keys(r1);
    let k2 = row_keys(r2);
    let order = app.current_stats.counters.entries_view();
    let total = app.current_stats.counters@;
    let since = diff_map(app.starting_stats.counters@, total);
    match app.sort_algo {
        SortedBy::AlphabeticalAscending => {},
        SortedBy::AlphabeticalDecending => {},
        _ => {
            let m = if app.sort_algo == SortedBy::TotalAscending || app.sort_algo
                == SortedBy::TotalDescending {
                total
            } else {
                since
            };
            let descending = app.sort_algo == SortedBy::TotalDescending || app.sort_algo
                == SortedBy::SinceStartTotalDiffDecending;
            assert(ordered_by_value(k1, m, order, descending));
            assert(ordered_by_value(k2, m, order, descending));
            let lt = |x: Seq<char>, y: Seq<char>|
                if descending {
                    m[x] > m[y] || (m[x] == m[y] && position_of(order, x) < position_of(order, y))
                } else {
                    m[x] < m[y] || (m[x] == m[y] && position_of(order, x) < position_of(order, y))
                };
            assert forall|i: int, j: int| 0 <= i < j < k1.len() implies lt(
                #[trigger] k1[i],
                #[trigger] k1[j],
            ) by {
                assert(if descending {
                    m[k1[i]] >= m[k1[j]]
                } else {
                    m[k1[i]] <= m[k1[j]]
                });
            }
            assert forall|i: int, j: int| 0 <= i < j < k2.len() implies lt(
                #[trigger] k2[i],
                #[trigger] k2[j],
            ) by {
                assert(if descending {
                    m[k2[i]] >= m[k2[j]]
                } else {
                    m[k2[i]] <= m[k2[j]]
                });
            }
            lemma_strictly_sorted_unique(k1, k2, lt);
        },
    }
    assert(k1 == k2);
    assert(k1.len() == r1.len() && k2.len() == r2.len());
    assert forall|i: int| 0 <= i < r1.len() implies (#[trigger] r1[i]).delta == r2[i].delta
        && r1[i].since_start == r2[i].since_start && r1[i].total == r2[i].total by {
        assert(k1[i] == r1[i].key@);
        assert(k2[i] == r2[i].key@);
        let k = r1[i].key@;
        assert(r2[i].key@ == k);
        assert(r1[i].total == value_or_zero(app.current_stats.counters@, k));
        assert(r2[i].total == value_or_zero(app.current_stats.counters@, k));
    }
}

/// What the table shows, in terms of the snapshots: each row of a current
/// counter carries its current value and what it grew by since the previous
/// snapshot and since the start, other rows carry zeros; sorted by total,
/// the rows hold every current counter once and follow the current values;
/// sorted since start, they follow the growth since the start; sorted
/// alphabetically, they follow the stored list of names.
pub proof fn lemma_rows_law(app: App, rows: Seq<StatsRow>)
    requires
        rows_match(app, rows),
        diffs_defined_spec(app.previous_stats.counters@, app.current_stats.counters@),
        diffs_defined_spec(app.starting_stats.counters@, app.current_stats.counters@),
    ensures
        forall|i: int|
            0 <= i < rows.len() && app.current_stats.counters@.dom().contains(
                (#[trigger] rows[i]).key@,
            ) ==> {
                let k = rows[i].key@;
                &&& rows[i].total == app.current_stats.counters@[k]
                &&& rows[i].delta + app.previous_stats.counters@[k]
                    == app.current_stats.counters@[k]
                &&& rows[i].since_start + app.starting_stats.counters@[k]
                    == app.current_stats.counters@[k]
            },
        forall|i: int|
            0 <= i < rows.len() && !app.current_stats.counters@.dom().contains(
                (#[trigger] rows[i]).key@,
            ) ==> rows[i].total == 0 && rows[i].delta == 0 && rows[i].since_start == 0,
        app.sort_algo != SortedBy::AlphabeticalAscending && app.sort_algo
            != SortedBy::AlphabeticalDecending ==> (forall|i: int|
            0 <= i < rows.len() ==> app.current_stats.counters@.dom().contains(
                (#[trigger] rows[i]).key@,
            )) && (forall|k: Seq<char>|
            #[trigger] app.current_stats.counters@.dom().contains(k) ==> exists|i: int|
                0 <= i < rows.len() && rows[i].key@ == k) && (forall|i: int, j: int|
            0 <= i < j < rows.len() ==> (#[trigger] rows[i]).key@ != (#[trigger] rows[j]).key@),
        app.sort_algo == SortedBy::TotalAscending ==> forall|i: int, j: int|
            0 <= i < j < rows.len() ==> app.current_stats.counters@[(#[trigger] rows[i]).key@]
                <= app.current_stats.counters@[(#[trigger] rows[j]).key@],
        app.sort_algo == SortedBy::TotalDescending ==> forall|i: int, j: int|
            0 <= i < j < rows.len() ==> app.current_stats.counters@[(#[trigger] rows[i]).key@]
                >= app.current_stats.counters@[(#[trigger] rows[j]).key@],
        app.sort_algo == SortedBy::SinceStartTotalDiffAscending ==> forall|i: int, j: int|
            0 <= i < j < rows.len() ==> app.current_stats.counters@[(#[trigger] rows[i]).key@]
                - app.starting_stats.counters@[rows[i].key@] <= app.current_stats.counters@[(
            #[trigger] rows[j]).key@] - app.starting_stats.counters@[rows[j].key@],
        app.sort_algo == SortedBy::SinceStartTotalDiffDecending ==> forall|i: int, j: int|
            0 <= i < j < rows.len() ==> app.current_stats.counters@[(#[trigger] rows[i]).key@]
                - app.starting_stats.counters@[rows[i].key@] >= app.current_stats.counters@[(
            #[trigger] rows[j]).key@] - app.starting_stats.counters@[rows[j].key@],
        app.sort_algo == SortedBy::AlphabeticalAscending ==> rows.len()
            == app.alphabetical_sort@.len() && forall|i: int|
            0 <= i < rows.len() ==> (#[trigger] rows[i]).key@ == app.alphabetical_sort@[i]@,
        app.sort_algo == SortedBy::AlphabeticalDecending ==> rows.len()
            == app.alphabetical_sort@.len() && forall|i: int|
            0 <= i < rows.len() ==> (#[trigger] rows[i]).key@ == app.alphabetical_sort@[rows.len()
                - 1 - i]@,
{
    let cur = app.current_stats.counters@;
    let prev = app.previous_stats.counters@;
    let start = app.starting_stats.counters@;
    let keys = row_keys(rows);
    assert forall|i: int| 0 <= i < rows.len() implies keys[i] == (#[trigger] rows[i]).key@ by {}
    let since = diff_map(start, cur);
    match app.sort_algo {
        SortedBy::AlphabeticalAscending => {
            let alpha = string_views(app.alphabetical_sort@);
            assert(row_order(app, keys));
            assert(keys == alpha);
            assert(rows.len() == keys.len());
            assert forall|i: int| 0 <= i < rows.len() implies (#[trigger] rows[i]).key@
                == app.alphabetical_sort@[i]@ by {
                assert(keys[i] == rows[i].key@);
                assert(alpha[i] == app.alphabetical_sort@[i]@);
            }
        },
        SortedBy::AlphabeticalDecending => {
            let alpha = string_views(app.alphabetical_sort@);
            assert(row_order(app, keys));
            assert(keys == alpha.reverse());
            assert(rows.len() == keys.len());
            assert forall|i: int| 0 <= i < rows.len() implies (#[trigger] rows[i]).key@
                == app.alphabetical_sort@[rows.len() - 1 - i]@ by {
                assert(keys[i] == rows[i].key@);
                assert(alpha.reverse()[i] == alpha[alpha.len() - 1 - i]);
                assert(alpha[rows.len() - 1 - i] == app.alphabetical_sort@[rows.len() - 1 - i]@);
            }
        },
        _ => {
            let m = if app.sort_algo == SortedBy::TotalAscending || app.sort_algo
                == SortedBy::TotalDescending {
                cur
            } else {
                since
            };
            assert(m.dom() == cur.dom());
            assert forall|i: int| 0 <= i < rows.len() implies cur.dom().contains(
                (#[trigger] rows[i]).key@,
            ) by {
                assert(keys.to_set().contains(keys[i]));
            }
            assert forall|k: Seq<char>| #[trigger] cur.dom().contains(k) implies exists|i: int|
                0 <= i < rows.len() && rows[i].key@ == k by {
                assert(keys.to_set().contains(k));
                let i = choose|i: int| 0 <= i < keys.len() && keys[i] == k;
                assert(rows[i].key@ == k);
            }
            assert forall|i: int, j: int| 0 <= i < j < rows.len() implies (#[trigger] rows[i]).key@
                != (#[trigger] rows[j]).key@ by {
                assert(keys[i] != keys[j]);
            }
            assert forall|i: int, j: int| 0 <= i < j < rows.len() implies (if app.sort_algo
                == SortedBy::TotalAscending {
                cur[(#[trigger] rows[i]).key@] <= cur[(#[trigger] rows[j]).key@]
            } else if app.sort_algo == SortedBy::TotalDescending {
                cur[rows[i].key@] >= cur[rows[j].key@]
            } else if app.sort_algo == SortedBy::SinceStartTotalDiffAscending {
                cur[rows[i].key@] - start[rows[i].key@] <= cur[rows[j].key@] - start[rows[j].key@]
            } else {
                cur[rows[i].key@] - start[rows[i].key@] >= cur[rows[j].key@] - start[rows[j].key@]
            }) by {
                assert(keys[i] == rows[i].key@);
                assert(keys[j] == rows[j].key@);
                assert(keys.to_set().contains(keys[i]));
                assert(keys.to_set().contains(keys[j]));
                assert(cur.dom().contains(keys[i]));
                assert(cur.dom().contains(keys[j]));
            }
        },
    }
    assert forall|i: int|
        0 <= i < rows.len() && cur.dom().contains((#[trigger] rows[i]).key@) implies {
        let k = rows[i].key@;
        &&& rows[i].total == cur[k]
        &&& rows[i].delta + prev[k] == cur[k]
        &&& rows[i].since_start + start[k] == cur[k]
    } by {
        let k = rows[i].key@;
        assert(cur.dom().contains(k));
    }
}

/// The number of table rows that fit in `area_height` lines: three lines go
/// to the border and the header, and at least one row is shown.
pub open spec fn visible_rows(area_height: u16) -> int {
    let v = sat_sub(area_height as int, 3);
    if v < 1 {
        1
    } else {
        v
    }
}

/// `r` and `new` are what `clamp_scroll` makes of `old` in `area_height` lines.
pub open spec fn scroll_clamped(old: App, area_height: u16, r: usize, new: App) -> bool {
    &&& r == if old.scroll_offset <= sat_sub(
        old.alphabetical_sort@.len() as int,
        visible_rows(area_height),
    ) {
        old.scroll_offset as int
    } else {
        sat_sub(old.alphabetical_sort@.len() as int, visible_rows(area_height))
    }
    &&& new == old.with_scroll(r)
}

/// The first row shown, in terms of the screen: three of the `area_height`
/// lines go to the border and the header and the rest, at least one, to
/// rows; the first row shown is the scroll position, unless fewer than a
/// screenful of names would follow it, in which case it is the offset that
/// just fills the screen (0 if all names fit); the scroll position becomes
/// that row, and nothing else changes.
pub proof fn lemma_clamp_law(old: App, area_height: u16, r: usize, new: App)
    requires
        scroll_clamped(old, area_height, r, new),
    ensures
        ({
            let rows = if area_height > 3 {
                area_height - 3
            } else {
                1
            };
            let len = old.alphabetical_sort@.len() as int;
            &&& r <= old.scroll_offset
            &&& r == old.scroll_offset || r + rows == len || (r == 0 && len <= rows)
            &&& r + rows <= len || r == 0
            &&& (old.scroll_offset + rows <= len ==> r == old.scroll_offset)
        }),
        new.scroll_offset == r,
        new == old.with_scroll(r),
{
}

/// The first row to show in `area_height` lines: the scroll position, but
/// no further than the largest offset that still fills the screen, which
/// the scroll position is also brought back to.
pub fn clamp_scroll(app: &mut App, area_height: u16) -> (r: usize)
    ensures
        r == if old(app).scroll_offset <= sat_sub(
            old(app).alphabetical_sort@.len() as int,
            visible_rows(area_height),
        ) {
            old(app).scroll_offset as int
        } else {
            sat_sub(old(app).alphabetical_sort@.len() as int, visible_rows(area_height))
        },
        *final(app) == old(app).with_scroll(r),
        scroll_clamped(*old(app), area_height, r, *final(app)),
{
    let reserved_lines: usize = 3;
    let rows = (area_height as usize).saturating_sub(reserved_lines);
    let visible_data_rows = if rows < 1 {
        1
    } else {
        rows
    };
    let max_offset = app.max_scroll_offset(visible_data_rows);
    let offset = if app.scroll_offset < max_offset {
        app.scroll_offset
    } else {
        max_offset
    };
    if app.scroll_offset > max_offset {
        app.scroll_offset = max_offset;
    }
    offset
}

} // verus!
