//! A map from counter names to counter values, kept as a vector of entries
//! with pairwise distinct names.

use vstd::prelude::*;

verus! {

/// The entries of a counter map as plain values.
pub open spec fn entry_views(s: Seq<(String, u64)>) -> Seq<(Seq<char>, u64)> {
    s.map_values(|e: (String, u64)| (e.0@, e.1))
}

/// No two entries carry the same name.
pub open spec fn keys_distinct(s: Seq<(Seq<char>, u64)>) -> bool {
    forall|i: int, j: int|
        0 <= i < s.len() && 0 <= j < s.len() && i != j ==> #[trigger] s[i].0 != #[trigger] s[j].0
}

/// Some entry carries the name `k`.
pub open spec fn has_key(s: Seq<(Seq<char>, u64)>, k: Seq<char>) -> bool {
    exists|i: int| 0 <= i < s.len() && #[trigger] s[i].0 == k
}

/// The map that a sequence of entries stands for.
pub open spec fn map_of(s: Seq<(Seq<char>, u64)>) -> Map<Seq<char>, u64> {
    Map::new(
        |k: Seq<char>| has_key(s, k),
        |k: Seq<char>| s[choose|i: int| 0 <= i < s.len() && #[trigger] s[i].0 == k].1,
    )
}

/// An entry of a sequence with distinct names is what the map holds for its name.
pub proof fn lemma_map_of_entry(s: Seq<(Seq<char>, u64)>, i: int)
    requires
        keys_distinct(s),
        0 <= i < s.len(),
    ensures
        map_of(s).dom().contains(s[i].0),
        map_of(s)[s[i].0] == s[i].1,
{
    assert(has_key(s, s[i].0));
    let j = choose|j: int| 0 <= j < s.len() && #[trigger] s[j].0 == s[i].0;
    assert(s[j].0 == s[i].0);
}

/// Putting an entry with a new name at position `p` adds that name to the map.
pub proof fn lemma_insert_entry(s: Seq<(Seq<char>, u64)>, p: int, k: Seq<char>, v: u64)
    requires
        keys_distinct(s),
        0 <= p <= s.len(),
        !has_key(s, k),
    ensures
        keys_distinct(s.insert(p, (k, v))),
        map_of(s.insert(p, (k, v))) == map_of(s).insert(k, v),
{
    let t = s.insert(p, (k, v));
    s.insert_ensures(p, (k, v));
    assert forall|i: int, j: int|
        0 <= i < t.len() && 0 <= j < t.len() && i != j implies #[trigger] t[i].0 != #[trigger] t[j].0 by {
        let si = if i < p { i } else { i - 1 };
        let sj = if j < p { j } else { j - 1 };
        if i == p {
            assert(t[j] == s[sj]);
        } else if j == p {
            assert(t[i] == s[si]);
        } else {
            assert(t[i] == s[si]);
            assert(t[j] == s[sj]);
        }
    }
    assert forall|key: Seq<char>| has_key(t, key) <==> (has_key(s, key) || key == k) by {
        if has_key(t, key) {
            let i = choose|i: int| 0 <= i < t.len() && #[trigger] t[i].0 == key;
            if i < p {
                assert(s[i].0 == key);
            } else if i > p {
                assert(s[i - 1].0 == key);
            }
        }
        if has_key(s, key) {
            let i = choose|i: int| 0 <= i < s.len() && #[trigger] s[i].0 == key;
            if i < p {
                assert(t[i].0 == key);
            } else {
                assert(t[i + 1].0 == key);
            }
        }
        if key == k {
            assert(t[p].0 == key);
        }
    }
    assert forall|key: Seq<char>| #[trigger] map_of(t).dom().contains(key) implies map_of(t)[key]
        == map_of(s).insert(k, v)[key] by {
        if key == k {
            lemma_map_of_entry(t, p);
        } else {
            let i = choose|i: int| 0 <= i < s.len() && #[trigger] s[i].0 == key;
            lemma_map_of_entry(s, i);
            if i < p {
                lemma_map_of_entry(t, i);
            } else {
                lemma_map_of_entry(t, i + 1);
            }
        }
    }
    assert(map_of(t) =~= map_of(s).insert(k, v));
}

/// Replacing the value of the entry at position `i` replaces the value of its name.
pub proof fn lemma_update_entry(s: Seq<(Seq<char>, u64)>, i: int, v: u64)
    requires
        keys_distinct(s),
        0 <= i < s.len(),
    ensures
        keys_distinct(s.update(i, (s[i].0, v))),
        map_of(s.update(i, (s[i].0, v))) == map_of(s).insert(s[i].0, v),
{
    let k = s[i].0;
    let t = s.update(i, (k, v));
    assert forall|key: Seq<char>| has_key(t, key) <==> has_key(s, key) by {
        if has_key(t, key) {
            let j = choose|j: int| 0 <= j < t.len() && #[trigger] t[j].0 == key;
            assert(s[j].0 == key);
        }
        if has_key(s, key) {
            let j = choose|j: int| 0 <= j < s.len() && #[trigger] s[j].0 == key;
            assert(t[j].0 == key);
        }
    }
    assert forall|key: Seq<char>| #[trigger] map_of(t).dom().contains(key) implies map_of(t)[key]
        == map_of(s).insert(k, v)[key] by {
        let j = choose|j: int| 0 <= j < s.len() && #[trigger] s[j].0 == key;
        lemma_map_of_entry(s, j);
        lemma_map_of_entry(t, j);
    }
    assert(map_of(t) =~= map_of(s).insert(k, v));
}

/// The first `n + 1` entries stand for the first `n` entries and the entry at `n`.
pub proof fn lemma_take_one_more(s: Seq<(Seq<char>, u64)>, n: int)
    requires
        keys_distinct(s),
        0 <= n < s.len(),
    ensures
        keys_distinct(s.take(n)),
        !has_key(s.take(n), s[n].0),
        s.take(n + 1) == s.take(n).insert(n, s[n]),
        map_of(s.take(n + 1)) == map_of(s.take(n)).insert(s[n].0, s[n].1),
{
    assert(s.take(n + 1) =~= s.take(n).insert(n, s[n]));
    if has_key(s.take(n), s[n].0) {
        let j = choose|j: int| 0 <= j < s.take(n).len() && #[trigger] s.take(n)[j].0 == s[n].0;
        assert(s[j].0 == s[n].0);
    }
    lemma_insert_entry(s.take(n), n, s[n].0, s[n].1);
}

/// `a` comes no later than `b` in the order of `String`: character by
/// character, by code point, a proper prefix first.
pub open spec fn lex_le(a: Seq<char>, b: Seq<char>) -> bool
    decreases a.len(),
{
    if a.len() == 0 {
        true
    } else if b.len() == 0 {
        false
    } else if a[0] != b[0] {
        (a[0] as int) < (b[0] as int)
    } else {
        lex_le(a.drop_first(), b.drop_first())
    }
}

/// Of two names, one comes no later than the other.
pub proof fn lemma_lex_total(a: Seq<char>, b: Seq<char>)
    ensures
        lex_le(a, b) || lex_le(b, a),
    decreases a.len(),
{
    if a.len() > 0 && b.len() > 0 && a[0] == b[0] {
        lemma_lex_total(a.drop_first(), b.drop_first());
    }
}

/// The order of names is transitive.
pub proof fn lemma_lex_transitive(a: Seq<char>, b: Seq<char>, c: Seq<char>)
    requires
        lex_le(a, b),
        lex_le(b, c),
    ensures
        lex_le(a, c),
    decreases a.len(),
{
    if a.len() > 0 && b.len() > 0 && c.len() > 0 && a[0] == b[0] && b[0] == c[0] {
        lemma_lex_transitive(a.drop_first(), b.drop_first(), c.drop_first());
    }
}

/// Two names that each come no later than the other are the same name.
pub proof fn lemma_lex_antisymmetric(a: Seq<char>, b: Seq<char>)
    requires
        lex_le(a, b),
        lex_le(b, a),
    ensures
        a == b,
    decreases a.len(),
{
    if a.len() > 0 && b.len() > 0 {
        lemma_lex_antisymmetric(a.drop_first(), b.drop_first());
        assert(a =~= seq![a[0]] + a.drop_first());
        assert(b =~= seq![b[0]] + b.drop_first());
    }
}

/// Compares two strings in the order `lex_le` states.
pub fn lex_le_exec(a: &String, b: &String) -> (r: bool)
    ensures
        r == lex_le(a@, b@),
{
    let sa = a.as_str();
    let sb = b.as_str();
    let la = sa.unicode_len();
    let lb = sb.unicode_len();
    let mut i: usize = 0;
    assert(a@.skip(0) =~= a@);
    assert(b@.skip(0) =~= b@);
    while i < la && i < lb
        invariant
            sa@ == a@,
            sb@ == b@,
            la == a@.len(),
            lb == b@.len(),
            i <= la,
            i <= lb,
            lex_le(a@, b@) == lex_le(a@.skip(i as int), b@.skip(i as int)),
        decreases la - i,
    {
        let ca = sa.get_char(i);
        let cb = sb.get_char(i);
        assert(a@.skip(i as int)[0] == ca);
        assert(b@.skip(i as int)[0] == cb);
        if ca != cb {
            return (ca as u32) < (cb as u32);
        }
        assert(a@.skip(i as int).drop_first() =~= a@.skip(i + 1));
        assert(b@.skip(i as int).drop_first() =~= b@.skip(i + 1));
        i += 1;
    }
    i == la
}

/// The names that a vector of strings holds, as plain values.
pub open spec fn string_views(s: Seq<String>) -> Seq<Seq<char>> {
    s.map_values(|x: String| x@)
}

/// Each name comes no later than the names after it.
pub open spec fn lex_sorted(s: Seq<Seq<char>>) -> bool {
    forall|a: int, b: int| 0 <= a < b < s.len() ==> lex_le(#[trigger] s[a], #[trigger] s[b])
}

/// The values of the entries never fall (rise, where `descending`) from one
/// entry to a later one.
pub open spec fn values_ordered(s: Seq<(Seq<char>, u64)>, descending: bool) -> bool {
    forall|a: int, b: int|
        0 <= a < b < s.len() ==> if descending {
            #[trigger] s[a].1 >= #[trigger] s[b].1
        } else {
            s[a].1 <= s[b].1
        }
}

/// An entry of value `x` stays before a new entry of value `v` in an
/// ascending (`descending`) ordering that keeps equal values in arrival order.
fn stays_before(x: u64, v: u64, descending: bool) -> (r: bool)
    ensures
        r == if descending {
            x >= v
        } else {
            x <= v
        },
{
    if descending {
        x >= v
    } else {
        x <= v
    }
}

/// Inserting an entry after every entry that stays before it, and before
/// the first that does not, keeps the values ordered.
proof fn lemma_insert_keeps_values_ordered(
    s: Seq<(Seq<char>, u64)>,
    p: int,
    e: (Seq<char>, u64),
    descending: bool,
)
    requires
        values_ordered(s, descending),
        0 <= p <= s.len(),
        forall|m: int|
            0 <= m < p ==> if descending {
                #[trigger] s[m].1 >= e.1
            } else {
                s[m].1 <= e.1
            },
        p < s.len() ==> if descending {
            s[p].1 < e.1
        } else {
            s[p].1 > e.1
        },
    ensures
        values_ordered(s.insert(p, e), descending),
{
    let t = s.insert(p, e);
    s.insert_ensures(p, e);
    assert forall|a: int, b: int| 0 <= a < b < t.len() implies if descending {
        #[trigger] t[a].1 >= #[trigger] t[b].1
    } else {
        t[a].1 <= t[b].1
    } by {
        if b < p {
            assert(t[a] == s[a]);
            assert(t[b] == s[b]);
        } else if b == p {
            assert(t[a] == s[a]);
        } else if a < p {
            assert(t[a] == s[a]);
            assert(t[b] == s[b - 1]);
        } else if a == p {
            assert(t[b] == s[b - 1]);
            if b - 1 > p {
                assert(if descending {
                    s[p].1 >= s[b - 1].1
                } else {
                    s[p].1 <= s[b - 1].1
                });
            }
        } else {
            assert(t[a] == s[a - 1]);
            assert(t[b] == s[b - 1]);
        }
    }
}

/// Inserting a new name after every name that comes no later than it, and
/// before the first that comes later, keeps the names sorted and distinct.
proof fn lemma_insert_keeps_lex_sorted(s: Seq<Seq<char>>, p: int, x: Seq<char>)
    requires
        lex_sorted(s),
        s.no_duplicates(),
        !s.contains(x),
        0 <= p <= s.len(),
        forall|m: int| 0 <= m < p ==> lex_le(#[trigger] s[m], x),
        p < s.len() ==> lex_le(x, s[p]),
    ensures
        lex_sorted(s.insert(p, x)),
        s.insert(p, x).no_duplicates(),
        s.insert(p, x).to_set() == s.to_set().insert(x),
{
    let t = s.insert(p, x);
    s.insert_ensures(p, x);
    assert forall|a: int, b: int| 0 <= a < b < t.len() implies lex_le(
        #[trigger] t[a],
        #[trigger] t[b],
    ) by {
        if b < p {
            assert(t[a] == s[a]);
            assert(t[b] == s[b]);
        } else if b == p {
            assert(t[a] == s[a]);
        } else if a < p {
            assert(t[a] == s[a]);
            assert(t[b] == s[b - 1]);
        } else if a == p {
            assert(t[b] == s[b - 1]);
            if b - 1 > p {
                lemma_lex_transitive(x, s[p], s[b - 1]);
            }
        } else {
            assert(t[a] == s[a - 1]);
            assert(t[b] == s[b - 1]);
        }
    }
    assert forall|a: int, b: int|
        0 <= a < t.len() && 0 <= b < t.len() && a != b implies t[a] != t[b] by {
        let sa = if a < p { a } else { a - 1 };
        let sb = if b < p { b } else { b - 1 };
        if a == p {
            assert(t[b] == s[sb]);
        } else if b == p {
            assert(t[a] == s[sa]);
        } else {
            assert(t[a] == s[sa]);
            assert(t[b] == s[sb]);
        }
    }
    assert forall|k: Seq<char>| t.contains(k) <==> (s.contains(k) || k == x) by {
        if t.contains(k) {
            let a = choose|a: int| 0 <= a < t.len() && t[a] == k;
            if a < p {
                assert(s[a] == k);
            } else if a > p {
                assert(s[a - 1] == k);
            }
        }
        if s.contains(k) {
            let a = choose|a: int| 0 <= a < s.len() && s[a] == k;
            if a < p {
                assert(t[a] == k);
            } else {
                assert(t[a + 1] == k);
            }
        }
        if k == x {
            assert(t[p] == k);
        }
    }
    assert(t.to_set() =~= s.to_set().insert(x));
}

/// Where in `s` the entry named `k` stands.
pub open spec fn position_of(s: Seq<(Seq<char>, u64)>, k: Seq<char>) -> int {
    choose|i: int| 0 <= i < s.len() && #[trigger] s[i].0 == k
}

/// In a sequence with distinct names, each entry stands at its own position.
pub proof fn lemma_position_of(s: Seq<(Seq<char>, u64)>, j: int)
    requires
        keys_distinct(s),
        0 <= j < s.len(),
    ensures
        position_of(s, s[j].0) == j,
{
    assert(has_key(s, s[j].0));
    let i = position_of(s, s[j].0);
    assert(s[i].0 == s[j].0);
}

/// `s` and `t` carry the same names at the same positions.
pub open spec fn same_names(s: Seq<(Seq<char>, u64)>, t: Seq<(Seq<char>, u64)>) -> bool {
    &&& s.len() == t.len()
    &&& forall|i: int| 0 <= i < s.len() ==> #[trigger] s[i].0 == t[i].0
}

/// A name stands at the same position in two sequences with the same names.
pub proof fn lemma_same_names_position(s: Seq<(Seq<char>, u64)>, t: Seq<(Seq<char>, u64)>, k: Seq<char>)
    requires
        same_names(s, t),
        keys_distinct(s),
        has_key(s, k),
    ensures
        keys_distinct(t),
        has_key(t, k),
        position_of(s, k) == position_of(t, k),
{
    assert forall|i: int, j: int|
        0 <= i < t.len() && 0 <= j < t.len() && i != j implies #[trigger] t[i].0 != #[trigger] t[j].0 by {
        assert(s[i].0 == t[i].0);
        assert(s[j].0 == t[j].0);
    }
    let j = choose|j: int| 0 <= j < s.len() && #[trigger] s[j].0 == k;
    assert(t[j].0 == k);
    lemma_position_of(s, j);
    lemma_position_of(t, j);
}

/// Two sequences of names, each strictly increasing in an asymmetric
/// relation `lt`, each without repeats and both holding the same names, are
/// the same sequence: a strict order leaves no choice in the arrangement.
pub proof fn lemma_strictly_sorted_unique(
    a: Seq<Seq<char>>,
    b: Seq<Seq<char>>,
    lt: spec_fn(Seq<char>, Seq<char>) -> bool,
)
    requires
        a.no_duplicates(),
        b.no_duplicates(),
        a.to_set() == b.to_set(),
        forall|i: int, j: int| 0 <= i < j < a.len() ==> lt(#[trigger] a[i], #[trigger] a[j]),
        forall|i: int, j: int| 0 <= i < j < b.len() ==> lt(#[trigger] b[i], #[trigger] b[j]),
        forall|x: Seq<char>, y: Seq<char>| #[trigger] lt(x, y) ==> !lt(y, x),
    ensures
        a == b,
    decreases a.len(),
{
    if a.len() == 0 {
        if b.len() > 0 {
            assert(b.to_set().contains(b[0]));
            assert(a.to_set().contains(b[0]));
        }
        assert(a =~= b);
    } else {
        assert(a.to_set().contains(a[0]));
        assert(b.to_set().contains(a[0]));
        let j = choose|j: int| 0 <= j < b.len() && b[j] == a[0];
        assert(b.to_set().contains(b[0]));
        assert(a.to_set().contains(b[0]));
        let k = choose|k: int| 0 <= k < a.len() && a[k] == b[0];
        if j > 0 && k > 0 {
            assert(lt(b[0], b[j]));
            assert(lt(a[0], a[k]));
            assert(false);
        }
        assert(a[0] == b[0]);
        let a1 = a.drop_first();
        let b1 = b.drop_first();
        assert forall|x: Seq<char>| a1.contains(x) <==> b1.contains(x) by {
            if a1.contains(x) {
                let i = choose|i: int| 0 <= i < a1.len() && a1[i] == x;
                assert(a[i + 1] == x);
                assert(a.to_set().contains(x));
                assert(b.to_set().contains(x));
                let m = choose|m: int| 0 <= m < b.len() && b[m] == x;
                if m == 0 {
                    assert(a[0] == a[i + 1]);
                } else {
                    assert(b1[m - 1] == x);
                }
            }
            if b1.contains(x) {
                let i = choose|i: int| 0 <= i < b1.len() && b1[i] == x;
                assert(b[i + 1] == x);
                assert(b.to_set().contains(x));
                assert(a.to_set().contains(x));
                let m = choose|m: int| 0 <= m < a.len() && a[m] == x;
                if m == 0 {
                    assert(b[0] == b[i + 1]);
                } else {
                    assert(a1[m - 1] == x);
                }
            }
        }
        assert(a1.to_set() =~= b1.to_set());
        assert forall|i: int, j: int| 0 <= i < a1.len() && 0 <= j < a1.len() && i != j implies a1[i] != a1[j] by {
            assert(a1[i] == a[i + 1]);
            assert(a1[j] == a[j + 1]);
        }
        assert forall|i: int, j: int| 0 <= i < b1.len() && 0 <= j < b1.len() && i != j implies b1[i] != b1[j] by {
            assert(b1[i] == b[i + 1]);
            assert(b1[j] == b[j + 1]);
        }
        assert forall|i: int, j: int| 0 <= i < j < a1.len() implies lt(#[trigger] a1[i], #[trigger] a1[j]) by {
            assert(a1[i] == a[i + 1]);
            assert(a1[j] == a[j + 1]);
        }
        assert forall|i: int, j: int| 0 <= i < j < b1.len() implies lt(#[trigger] b1[i], #[trigger] b1[j]) by {
            assert(b1[i] == b[i + 1]);
            assert(b1[j] == b[j + 1]);
        }
        lemma_strictly_sorted_unique(a1, b1, lt);
        assert(a.len() == b.len());
        assert forall|i: int| 0 <= i < a.len() implies a[i] == b[i] by {
            if i > 0 {
                assert(a[i] == a1[i - 1]);
                assert(b[i] == b1[i - 1]);
            }
        }
        assert(a =~= b);
    }
}

/// Entries of `r` with equal values come in the order in which their names
/// stand in `order`.
pub open spec fn ties_in_order(r: Seq<(Seq<char>, u64)>, order: Seq<(Seq<char>, u64)>) -> bool {
    forall|a: int, b: int|
        0 <= a < b < r.len() && #[trigger] r[a].1 == #[trigger] r[b].1 ==> position_of(order, r[a].0)
            < position_of(order, r[b].0)
}

/// Inserting an entry that stands later in `order` than every entry before,
/// at a place past which only values that differ from its own follow, keeps
/// ties in order.
proof fn lemma_insert_keeps_ties_in_order(
    s: Seq<(Seq<char>, u64)>,
    p: int,
    e: (Seq<char>, u64),
    order: Seq<(Seq<char>, u64)>,
)
    requires
        ties_in_order(s, order),
        0 <= p <= s.len(),
        forall|m: int| 0 <= m < s.len() ==> position_of(order, #[trigger] s[m].0) < position_of(order, e.0),
        forall|m: int| p <= m < s.len() ==> #[trigger] s[m].1 != e.1,
    ensures
        ties_in_order(s.insert(p, e), order),
{
    let t = s.insert(p, e);
    s.insert_ensures(p, e);
    assert forall|a: int, b: int| 0 <= a < b < t.len() && #[trigger] t[a].1 == #[trigger] t[b].1 implies position_of(order, t[a].0)
        < position_of(order, t[b].0) by {
        if b < p {
            assert(t[a] == s[a]);
            assert(t[b] == s[b]);
        } else if b == p {
            assert(t[a] == s[a]);
        } else if a < p {
            assert(t[a] == s[a]);
            assert(t[b] == s[b - 1]);
        } else if a == p {
            assert(t[b] == s[b - 1]);
        } else {
            assert(t[a] == s[a - 1]);
            assert(t[b] == s[b - 1]);
        }
    }
}

/// Counter values by counter name.
#[derive(Debug)]
pub struct Counters {
    entries: Vec<(String, u64)>,
}

impl Counters {
    /// The entries in the order in which they are stored.
    pub closed spec fn entries_view(&self) -> Seq<(Seq<char>, u64)> {
        entry_views(self.entries@)
    }

    #[verifier::type_invariant]
    closed spec fn names_distinct(&self) -> bool {
        keys_distinct(self.entries_view())
    }
}

impl View for Counters {
    type V = Map<Seq<char>, u64>;

    open spec fn view(&self) -> Map<Seq<char>, u64> {
        map_of(self.entries_view())
    }
}

impl Counters {
    /// An empty map.
    pub fn new() -> (r: Self)
        ensures
            r@ == Map::<Seq<char>, u64>::empty(),
            r.entries_view() == Seq::<(Seq<char>, u64)>::empty(),
    {
        let r = Counters { entries: Vec::new() };
        assert(r@ =~= Map::<Seq<char>, u64>::empty());
        r
    }

    /// The value stored under `key`, if there is one.
    pub fn get(&self, key: &String) -> (r: Option<u64>)
        ensures
            r == (if self@.dom().contains(key@) {
                Some(self@[key@])
            } else {
                None
            }),
    {
        proof {
            use_type_invariant(self);
        }
        let ghost ev = self.entries_view();
        let mut i: usize = 0;
        while i < self.entries.len()
            invariant
                0 <= i <= self.entries.len(),
                ev == entry_views(self.entries@),
                keys_distinct(ev),
                forall|j: int| 0 <= j < i ==> ev[j].0 != key@,
            decreases self.entries.len() - i,
        {
            if self.entries[i].0 == *key {
                proof {
                    lemma_map_of_entry(ev, i as int);
                }
                return Some(self.entries[i].1);
            }
            i += 1;
        }
        None
    }

    /// Stores `value` under `key`, replacing what was stored there before;
    /// a new name goes after all others.
    pub fn insert(&mut self, key: String, value: u64)
        ensures
            final(self)@ == old(self)@.insert(key@, value),
            final(self).entries_view() == if has_key(old(self).entries_view(), key@) {
                old(self).entries_view().update(
                    position_of(old(self).entries_view(), key@),
                    (key@, value),
                )
            } else {
                old(self).entries_view().push((key@, value))
            },
    {
        proof {
            use_type_invariant(&*self);
        }
        let mut entries: Vec<(String, u64)> = Vec::new();
        std::mem::swap(&mut entries, &mut self.entries);
        let ghost ev = entry_views(entries@);
        assert(map_of(ev) == old(self)@);
        let mut i: usize = 0;
        while i < entries.len()
            invariant
                0 <= i <= entries.len(),
                ev == entry_views(entries@),
                keys_distinct(ev),
                forall|j: int| 0 <= j < i ==> ev[j].0 != key@,
            ensures
                i < entries.len() ==> ev[i as int].0 == key@,
            decreases entries.len() - i,
        {
            if entries[i].0 == key {
                break;
            }
            i += 1;
        }
        if i < entries.len() {
            proof {
                lemma_update_entry(ev, i as int, value);
                lemma_position_of(ev, i as int);
            }
            entries.set(i, (key, value));
            assert(entry_views(entries@) =~= ev.update(i as int, (ev[i as int].0, value)));
        } else {
            let ghost k = key@;
            proof {
                lemma_insert_entry(ev, ev.len() as int, k, value);
            }
            entries.push((key, value));
            assert(entry_views(entries@) =~= ev.insert(ev.len() as int, (k, value)));
        }
        self.entries = entries;
    }

    /// The entries, each name with its value, in storage order.
    pub fn to_vec(&self) -> (r: Vec<(String, u64)>)
        ensures
            entry_views(r@) == self.entries_view(),
            keys_distinct(entry_views(r@)),
            map_of(entry_views(r@)) == self@,
    {
        proof {
            use_type_invariant(self);
        }
        let mut out: Vec<(String, u64)> = Vec::new();
        let mut i: usize = 0;
        while i < self.entries.len()
            invariant
                0 <= i <= self.entries.len(),
                keys_distinct(self.entries_view()),
                entry_views(out@) == self.entries_view().take(i as int),
            decreases self.entries.len() - i,
        {
            let name = self.entries[i].0.clone();
            assert(name@ == self.entries_view()[i as int].0);
            let value = self.entries[i].1;
            let ghost before = out@;
            out.push((name, value));
            assert(out@ == before.push((name, value)));
            assert(entry_views(out@) =~= entry_views(before).push((name@, value)));
            assert(entry_views(out@) =~= self.entries_view().take(i + 1));
            i += 1;
        }
        assert(self.entries_view().take(i as int) =~= self.entries_view());
        out
    }
}

impl Counters {
    /// The names of the map, each once, in the order of `String`.
    pub fn sorted_keys(&self) -> (r: Vec<String>)
        ensures
            string_views(r@).no_duplicates(),
            string_views(r@).to_set() == self@.dom(),
            lex_sorted(string_views(r@)),
    {
        proof {
            use_type_invariant(self);
        }
        let ghost ev = self.entries_view();
        let mut out: Vec<String> = Vec::new();
        let mut i: usize = 0;
        assert(string_views(out@).to_set() =~= map_of(ev.take(0)).dom());
        while i < self.entries.len()
            invariant
                0 <= i <= self.entries.len(),
                ev == self.entries_view(),
                keys_distinct(ev),
                string_views(out@).no_duplicates(),
                string_views(out@).to_set() == map_of(ev.take(i as int)).dom(),
                lex_sorted(string_views(out@)),
            decreases self.entries.len() - i,
        {
            let name = self.entries[i].0.clone();
            let ghost old_out = string_views(out@);
            proof {
                lemma_take_one_more(ev, i as int);
            }
            assert(name@ == ev[i as int].0);
            let mut p: usize = 0;
            while p < out.len() && lex_le_exec(&out[p], &name)
                invariant
                    p <= out.len(),
                    old_out == string_views(out@),
                    forall|m: int| 0 <= m < p ==> lex_le(#[trigger] old_out[m], name@),
                decreases out.len() - p,
            {
                p += 1;
            }
            let ghost name_v = name@;
            proof {
                if p < out.len() {
                    lemma_lex_total(old_out[p as int], name_v);
                }
                assert(!old_out.contains(name_v)) by {
                    if old_out.contains(name_v) {
                        assert(old_out.to_set().contains(name_v));
                    }
                }
                lemma_insert_keeps_lex_sorted(old_out, p as int, name_v);
            }
            out.insert(p, name);
            assert(string_views(out@) =~= old_out.insert(p as int, name_v));
            assert(string_views(out@).to_set() =~= map_of(ev.take(i + 1)).dom());
            i += 1;
        }
        assert(ev.take(i as int) =~= ev);
        out
    }

    /// The entries ordered by value, ascending or `descending`; entries of
    /// equal value keep their storage order.
    pub fn sorted_by_value(&self, descending: bool) -> (r: Vec<(String, u64)>)
        ensures
            keys_distinct(entry_views(r@)),
            map_of(entry_views(r@)) == self@,
            values_ordered(entry_views(r@), descending),
            ties_in_order(entry_views(r@), self.entries_view()),
            keys_distinct(self.entries_view()),
    {
        proof {
            use_type_invariant(self);
        }
        let ghost ev = self.entries_view();
        let mut out: Vec<(String, u64)> = Vec::new();
        let mut i: usize = 0;
        assert(map_of(entry_views(out@)) =~= map_of(ev.take(0)));
        while i < self.entries.len()
            invariant
                0 <= i <= self.entries.len(),
                ev == self.entries_view(),
                keys_distinct(ev),
                keys_distinct(entry_views(out@)),
                map_of(entry_views(out@)) == map_of(ev.take(i as int)),
                values_ordered(entry_views(out@), descending),
                ties_in_order(entry_views(out@), ev),
                forall|m: int|
                    0 <= m < out@.len() ==> 0 <= position_of(ev, #[trigger] entry_views(out@)[m].0)
                        < i,
            decreases self.entries.len() - i,
        {
            let name = self.entries[i].0.clone();
            let value = self.entries[i].1;
            let ghost old_out = entry_views(out@);
            proof {
                lemma_take_one_more(ev, i as int);
            }
            assert(name@ == ev[i as int].0);
            let mut p: usize = 0;
            while p < out.len() && stays_before(out[p].1, value, descending)
                invariant
                    p <= out.len(),
                    old_out == entry_views(out@),
                    forall|m: int|
                        0 <= m < p ==> if descending {
                            #[trigger] old_out[m].1 >= value
                        } else {
                            old_out[m].1 <= value
                        },
                decreases out.len() - p,
            {
                p += 1;
            }
            let ghost name_v = name@;
            proof {
                assert(!map_of(ev.take(i as int)).dom().contains(name_v));
                assert(!map_of(old_out).dom().contains(name_v));
                assert(!has_key(old_out, name_v));
                lemma_insert_entry(old_out, p as int, name_v, value);
                lemma_insert_keeps_values_ordered(old_out, p as int, (name_v, value), descending);
                lemma_position_of(ev, i as int);
                assert forall|m: int| p <= m < old_out.len() implies #[trigger] old_out[m].1 != value by {
                    if m > p {
                        assert(if descending {
                            old_out[p as int].1 >= old_out[m].1
                        } else {
                            old_out[p as int].1 <= old_out[m].1
                        });
                    }
                }
                lemma_insert_keeps_ties_in_order(old_out, p as int, (name_v, value), ev);
            }
            out.insert(p, (name, value));
            assert(entry_views(out@) =~= old_out.insert(p as int, (name_v, value)));
            proof {
                let new_out = entry_views(out@);
                old_out.insert_ensures(p as int, (name_v, value));
                assert forall|m: int| 0 <= m < new_out.len() implies 0 <= position_of(
                    ev,
                    #[trigger] new_out[m].0,
                ) < i + 1 by {
                    if m < p {
                        assert(new_out[m] == old_out[m]);
                    } else if m > p {
                        assert(new_out[m] == old_out[m - 1]);
                    }
                }
            }
            i += 1;
        }
        assert(ev.take(i as int) =~= ev);
        out
    }
}

impl Clone for Counters {
    fn clone(&self) -> (r: Self)
        ensures
            r@ == self@,
            r.entries_view() == self.entries_view(),
    {
        let entries = self.to_vec();
        Counters { entries }
    }
}

} // verus!
