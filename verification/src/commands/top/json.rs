//! One snapshot of a filesystem's counters, and the computations that turn
//! what the kernel hands back into it.

use crate::counters::Counters;
use vstd::prelude::*;

verus! {

/// The prefix that the names of the stable counters carry in the kernel's
/// enumeration and that the output leaves out.
pub open spec fn counter_prefix() -> Seq<char> {
    "BCH_COUNTER_STABLE_"@
}

/// `s` without every leading copy of `p`, as `str::trim_start_matches`
/// removes them; an empty `p` removes nothing.
pub open spec fn trim_start_spec(s: Seq<char>, p: Seq<char>) -> Seq<char>
    decreases s.len(),
{
    if p.len() > 0 && p.len() <= s.len() && s.take(p.len() as int) == p {
        trim_start_spec(s.skip(p.len() as int), p)
    } else {
        s
    }
}

/// What trimming leaves is a suffix of the input that no longer starts with
/// a nonempty `p`.
pub proof fn lemma_trim_start(s: Seq<char>, p: Seq<char>)
    ensures
        trim_start_spec(s, p).len() <= s.len(),
        trim_start_spec(s, p) == s.skip(s.len() - trim_start_spec(s, p).len()),
        p.len() > 0 ==> !(p.len() <= trim_start_spec(s, p).len() && trim_start_spec(s, p).take(
            p.len() as int,
        ) == p),
    decreases s.len(),
{
    if p.len() > 0 && p.len() <= s.len() && s.take(p.len() as int) == p {
        let rest = s.skip(p.len() as int);
        lemma_trim_start(rest, p);
        let t = trim_start_spec(rest, p);
        assert(s.skip(s.len() - t.len()) =~= rest.skip(rest.len() - t.len()));
    } else {
        assert(s.skip(0) =~= s);
    }
}

/// `p` occurs in `s` at character position `i`.
fn matches_at(s: &str, i: usize, p: &str, plen: usize, slen: usize) -> (r: bool)
    requires
        plen == p@.len(),
        slen == s@.len(),
        i + plen <= s@.len(),
    ensures
        r == (s@.subrange(i as int, i + plen) == p@),
{
    let mut j: usize = 0;
    while j < plen
        invariant
            plen == p@.len(),
            slen == s@.len(),
            i + plen <= s@.len(),
            j <= plen,
            forall|m: int| 0 <= m < j ==> s@[i + m] == p@[m],
        decreases plen - j,
    {
        if s.get_char(i + j) != p.get_char(j) {
            assert(s@.subrange(i as int, i + plen)[j as int] != p@[j as int]);
            return false;
        }
        j += 1;
    }
    assert(s@.subrange(i as int, i + plen) =~= p@);
    true
}

/// `s` without every leading copy of `p`.
pub fn trim_start_matches(s: &str, p: &str) -> (r: String)
    ensures
        r@ == trim_start_spec(s@, p@),
{
    let slen = s.unicode_len();
    let plen = p.unicode_len();
    let mut i: usize = 0;
    assert(s@.skip(0) =~= s@);
    if plen > 0 {
        while plen <= slen - i && matches_at(s, i, p, plen, slen)
            invariant
                slen == s@.len(),
                plen == p@.len(),
                plen > 0,
                i <= slen,
                trim_start_spec(s@, p@) == trim_start_spec(s@.skip(i as int), p@),
            decreases slen - i,
        {
            assert(s@.skip(i as int).take(plen as int) =~= s@.subrange(i as int, i + plen));
            assert(s@.skip(i as int).skip(plen as int) =~= s@.skip(i + plen));
            i = i + plen;
        }
        proof {
            if i + plen <= slen {
                assert(s@.skip(i as int).take(plen as int) =~= s@.subrange(i as int, i + plen));
            }
        }
    }
    let rest = s.substring_char(i, slen);
    assert(rest@ =~= s@.skip(i as int));
    rest.to_owned()
}

/// The counters named by the kernel's enumeration of stable counters, each
/// given as its debug name and its index, read from `values`: each name
/// without its prefix, in enumeration order, a later name replacing an
/// earlier equal one.
pub open spec fn parsed_counters(stable: Seq<(Seq<char>, usize)>, values: Seq<u64>) -> Map<
    Seq<char>,
    u64,
>
    decreases stable.len(),
{
    if stable.len() == 0 {
        Map::empty()
    } else {
        parsed_counters(stable.drop_last(), values).insert(
            trim_start_spec(stable.last().0, counter_prefix()),
            values[stable.last().1 as int],
        )
    }
}

/// The names of the counters that the enumeration `stable` yields: each
/// debug name without its prefix.
pub open spec fn counter_names(stable: Seq<(Seq<char>, usize)>) -> Set<Seq<char>> {
    Set::new(
        |k: Seq<char>|
            exists|i: int|
                0 <= i < stable.len() && #[trigger] trim_start_spec(stable[i].0, counter_prefix())
                    == k,
    )
}

/// The names of a snapshot's counters depend on the enumeration of stable
/// counters alone, not on the values read: two snapshots of the same
/// enumeration hold the same names.
pub proof fn lemma_parsed_names(stable: Seq<(Seq<char>, usize)>, v1: Seq<u64>, v2: Seq<u64>)
    ensures
        parsed_counters(stable, v1).dom() == counter_names(stable),
        parsed_counters(stable, v1).dom() == parsed_counters(stable, v2).dom(),
    decreases stable.len(),
{
    if stable.len() > 0 {
        let rest = stable.drop_last();
        lemma_parsed_names(rest, v1, v2);
        let last = trim_start_spec(stable.last().0, counter_prefix());
        assert forall|k: Seq<char>| counter_names(stable).contains(k) <==> (counter_names(
            rest,
        ).contains(k) || k == last) by {
            if counter_names(stable).contains(k) {
                let i = choose|i: int|
                    0 <= i < stable.len() && #[trigger] trim_start_spec(stable[i].0, counter_prefix())
                        == k;
                if i < stable.len() - 1 {
                    assert(rest[i] == stable[i]);
                    assert(trim_start_spec(rest[i].0, counter_prefix()) == k);
                }
            }
            if counter_names(rest).contains(k) {
                let i = choose|i: int|
                    0 <= i < rest.len() && #[trigger] trim_start_spec(rest[i].0, counter_prefix())
                        == k;
                assert(stable[i] == rest[i]);
                assert(trim_start_spec(stable[i].0, counter_prefix()) == k);
            }
            if k == last {
                assert(trim_start_spec(stable[stable.len() - 1].0, counter_prefix()) == k);
            }
        }
        assert(counter_names(stable) =~= counter_names(rest).insert(last));
        assert(parsed_counters(stable, v1).dom() =~= parsed_counters(rest, v1).dom().insert(last));
        assert(parsed_counters(stable, v2).dom() =~= parsed_counters(rest, v2).dom().insert(last));
    } else {
        assert(counter_names(stable) =~= Set::<Seq<char>>::empty());
    }
}

/// What a snapshot holds, entry by entry: under the name of each stable
/// counter, without its prefix, the full value at that counter's index,
/// where no later counter trims to the same name; and nothing else.
pub proof fn lemma_parsed_values(stable: Seq<(Seq<char>, usize)>, values: Seq<u64>)
    ensures
        forall|i: int|
            0 <= i < stable.len() && (forall|j: int|
                i < j < stable.len() ==> trim_start_spec(stable[j].0, counter_prefix())
                    != trim_start_spec(stable[i].0, counter_prefix())) ==> parsed_counters(
                stable,
                values,
            ).dom().contains(trim_start_spec((#[trigger] stable[i]).0, counter_prefix()))
                && parsed_counters(stable, values)[trim_start_spec(stable[i].0, counter_prefix())]
                == values[stable[i].1 as int],
        forall|k: Seq<char>| #[trigger]
            parsed_counters(stable, values).dom().contains(k) ==> exists|i: int|
                0 <= i < stable.len() && trim_start_spec(stable[i].0, counter_prefix()) == k,
    decreases stable.len(),
{
    if stable.len() > 0 {
        let rest = stable.drop_last();
        let n = stable.len() - 1;
        lemma_parsed_values(rest, values);
        let last = trim_start_spec(stable[n].0, counter_prefix());
        assert forall|i: int|
            0 <= i < stable.len() && (forall|j: int|
                i < j < stable.len() ==> trim_start_spec(stable[j].0, counter_prefix())
                    != trim_start_spec(stable[i].0, counter_prefix())) implies parsed_counters(
            stable,
            values,
        ).dom().contains(trim_start_spec((#[trigger] stable[i]).0, counter_prefix()))
            && parsed_counters(stable, values)[trim_start_spec(stable[i].0, counter_prefix())]
            == values[stable[i].1 as int] by {
            if i < n {
                assert(rest[i] == stable[i]);
                assert forall|j: int| i < j < rest.len() implies trim_start_spec(
                    rest[j].0,
                    counter_prefix(),
                ) != trim_start_spec(rest[i].0, counter_prefix()) by {
                    assert(rest[j] == stable[j]);
                }
                assert(trim_start_spec(stable[n].0, counter_prefix()) != trim_start_spec(
                    stable[i].0,
                    counter_prefix(),
                ));
            }
        }
        assert forall|k: Seq<char>| #[trigger]
            parsed_counters(stable, values).dom().contains(k) implies exists|i: int|
                0 <= i < stable.len() && trim_start_spec(stable[i].0, counter_prefix()) == k by {
            if k == last {
                assert(trim_start_spec(stable[n].0, counter_prefix()) == k);
            } else {
                assert(parsed_counters(rest, values).dom().contains(k));
                let i = choose|i: int|
                    0 <= i < rest.len() && trim_start_spec(rest[i].0, counter_prefix()) == k;
                assert(rest[i] == stable[i]);
                assert(trim_start_spec(stable[i].0, counter_prefix()) == k);
            }
        }
    }
}

/// The enumeration of stable counters as plain values.
pub open spec fn stable_views(stable: Seq<(String, usize)>) -> Seq<(Seq<char>, usize)> {
    stable.map_values(|e: (String, usize)| (e.0@, e.1))
}

/// Reads the counters of one snapshot out of the values that the kernel
/// wrote: `stable` lists each stable counter by debug name and index into
/// `values`.
pub fn parse_counters(stable: &Vec<(String, usize)>, values: &Vec<u64>) -> (r: Counters)
    requires
        forall|i: int| 0 <= i < stable@.len() ==> #[trigger] stable@[i].1 < values@.len(),
    ensures
        r@ == parsed_counters(stable_views(stable@), values@),
{
    let mut counter_values = Counters::new();
    let mut i: usize = 0;
    assert(stable_views(stable@).take(0) =~= Seq::<(Seq<char>, usize)>::empty());
    while i < stable.len()
        invariant
            0 <= i <= stable@.len(),
            forall|m: int| 0 <= m < stable@.len() ==> #[trigger] stable@[m].1 < values@.len(),
            counter_values@ == parsed_counters(stable_views(stable@).take(i as int), values@),
        decreases stable.len() - i,
    {
        let short = trim_start_matches(stable[i].0.as_str(), "BCH_COUNTER_STABLE_");
        let index = stable[i].1;
        let ghost before = stable_views(stable@).take(i as int);
        let ghost after = stable_views(stable@).take(i + 1);
        assert(after.drop_last() =~= before);
        assert(after.last() == (stable@[i as int].0@, index));
        counter_values.insert(short, values[index]);
        i += 1;
    }
    assert(stable_views(stable@).take(i as int) =~= stable_views(stable@));
    counter_values
}

/// The hexadecimal digit of `n`, lower case.
pub open spec fn hex_digit(n: int) -> char {
    if n < 10 {
        (48 + n) as char
    } else {
        (87 + n) as char
    }
}

/// The 32 lower-case hexadecimal digits of 16 bytes, high nibble first.
pub open spec fn uuid_simple(b: Seq<u8>) -> Seq<char> {
    Seq::new(
        32,
        |i: int|
            hex_digit(
                if i % 2 == 0 {
                    b[i / 2] / 16
                } else {
                    b[i / 2] % 16
                } as int,
            ),
    )
}

/// The hyphenated form of a UUID: its digits in groups of 8, 4, 4, 4 and 12.
pub open spec fn uuid_hyphenated(b: Seq<u8>) -> Seq<char> {
    let h = uuid_simple(b);
    h.subrange(0, 8) + seq!['-'] + h.subrange(8, 12) + seq!['-'] + h.subrange(12, 16) + seq!['-']
        + h.subrange(16, 20) + seq!['-'] + h.subrange(20, 32)
}

/// `uuid::Uuid::from_bytes` followed by its `to_string`: the crate's
/// `Display` writes the hyphenated lower-case form, two digits per byte,
/// high nibble first.
#[verifier::external_body]
fn uuid_to_string(bytes: [u8; 16]) -> (r: String)
    ensures
        r@ == uuid_hyphenated(bytes@),
{
    uuid::Uuid::from_bytes(bytes).to_string()
}

/// Every hyphenated UUID is 36 characters long, with hyphens at positions
/// 8, 13, 18 and 23.
pub proof fn lemma_uuid_shape(b: Seq<u8>)
    requires
        b.len() == 16,
    ensures
        uuid_hyphenated(b).len() == 36,
        uuid_hyphenated(b)[8] == '-',
        uuid_hyphenated(b)[13] == '-',
        uuid_hyphenated(b)[18] == '-',
        uuid_hyphenated(b)[23] == '-',
{
}

/// The answer to the UUID query: the filesystem's UUID in hyphenated form
/// when the ioctl returned a non-negative `ret`, the return value otherwise.
pub fn uuid_from_ioctl(ret: i32, uuid_bytes: [u8; 16]) -> (r: Result<String, i32>)
    ensures
        ret >= 0 ==> (r matches Ok(s) && s@ == uuid_hyphenated(uuid_bytes@)),
        ret < 0 ==> r == Err::<String, i32>(ret),
{
    if ret >= 0 {
        Ok(uuid_to_string(uuid_bytes))
    } else {
        Err(ret)
    }
}

/// Why a snapshot could not be taken.
#[derive(Clone, Copy, Debug, PartialEq, Eq, Structural)]
pub enum StatsError {
    /// No mountpoint was given and the working directory is unknown.
    Mountpoint,
    /// The mountpoint could not be opened.
    Open,
    /// The UUID query failed with this errno: most likely not bcachefs.
    UuidQuery(i32),
    /// The counters query failed with this errno.
    CountersRead(i32),
}

/// One snapshot of a filesystem's counters.
#[derive(Debug)]
pub struct FsJsonOutput {
    /// Milliseconds since the Unix epoch when the snapshot was taken.
    pub time: Option<u128>,
    /// The filesystem's UUID, hyphenated.
    pub uuid: Option<String>,
    /// Counter values by counter name.
    pub counters: Counters,
}

impl View for FsJsonOutput {
    type V = (Option<u128>, Option<Seq<char>>, Map<Seq<char>, u64>);

    open spec fn view(&self) -> Self::V {
        (
            self.time,
            match self.uuid {
                Some(u) => Some(u@),
                None => None,
            },
            self.counters@,
        )
    }
}

impl FsJsonOutput {
    /// The snapshot that holds nothing.
    pub open spec fn empty_view() -> (Option<u128>, Option<Seq<char>>, Map<Seq<char>, u64>) {
        (None, None, Map::empty())
    }

    /// The snapshot taken at `time` of the filesystem with `uuid`.
    pub fn new(time: u128, uuid: String, counters: Counters) -> (r: Self)
        ensures
            r@ == (Some(time), Some(uuid@), counters@),
    {
        FsJsonOutput { time: Some(time), uuid: Some(uuid), counters }
    }
}

impl Default for FsJsonOutput {
    fn default() -> (r: Self)
        ensures
            r@ == FsJsonOutput::empty_view(),
    {
        FsJsonOutput { time: None, uuid: None, counters: Counters::new() }
    }
}

impl Clone for FsJsonOutput {
    fn clone(&self) -> (r: Self)
        ensures
            r@ == self@,
    {
        let uuid = match &self.uuid {
            Some(u) => Some(u.clone()),
            None => None,
        };
        FsJsonOutput { time: self.time, uuid, counters: self.counters.clone() }
    }
}

} // verus!
