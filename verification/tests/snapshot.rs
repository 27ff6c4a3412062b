use bcachefs_top::commands::top::json::{
    parse_counters, trim_start_matches, uuid_from_ioctl, FsJsonOutput, StatsError,
};
use bcachefs_top::commands::top::utils::{calculate_diffs, diffs_defined};
use bcachefs_top::counters::Counters;

fn s(x: &str) -> String {
    x.to_string()
}

fn snapshot(time: u128, entries: &[(&str, u64)]) -> FsJsonOutput {
    let mut c = Counters::new();
    for (k, v) in entries {
        c.insert(s(k), *v);
    }
    FsJsonOutput::new(time, s("00000000-0000-0000-0000-000000000000"), c)
}

#[test]
fn trim_removes_the_counter_prefix() {
    assert_eq!(trim_start_matches("BCH_COUNTER_STABLE_io_read", "BCH_COUNTER_STABLE_"), "io_read");
}

#[test]
fn trim_removes_repeated_prefixes_like_std() {
    for (x, p) in [("xxab", "x"), ("abab", "ab"), ("abc", ""), ("", "a"), ("a", "ab"), ("héhéz", "hé")] {
        assert_eq!(trim_start_matches(x, p), x.trim_start_matches(p), "{:?} {:?}", x, p);
    }
}

#[test]
fn trim_leaves_names_without_prefix() {
    assert_eq!(trim_start_matches("io_read", "BCH_COUNTER_STABLE_"), "io_read");
}

#[test]
fn parse_counters_reads_by_index() {
    let stable = vec![
        (s("BCH_COUNTER_STABLE_io_read"), 0),
        (s("BCH_COUNTER_STABLE_io_write"), 2),
        (s("BCH_COUNTER_STABLE_sync_fs"), 1),
    ];
    let values = vec![100, 7, 300];
    let c = parse_counters(&stable, &values);
    assert_eq!(c.get(&s("io_read")), Some(100));
    assert_eq!(c.get(&s("io_write")), Some(300));
    assert_eq!(c.get(&s("sync_fs")), Some(7));
    assert_eq!(c.to_vec().len(), 3);
}

#[test]
fn parse_counters_later_name_wins() {
    let stable = vec![(s("BCH_COUNTER_STABLE_a"), 0), (s("a"), 1)];
    let c = parse_counters(&stable, &vec![1, 2]);
    assert_eq!(c.get(&s("a")), Some(2));
}

#[test]
fn uuid_is_hyphenated_lower_hex() {
    let bytes: [u8; 16] = [
        0x67, 0xe5, 0x50, 0x44, 0x10, 0xb1, 0x42, 0x6f, 0x92, 0x47, 0xbb, 0x68, 0x0e, 0x5f, 0xe0, 0xc8,
    ];
    assert_eq!(uuid_from_ioctl(0, bytes), Ok(s("67e55044-10b1-426f-9247-bb680e5fe0c8")));
    assert_eq!(uuid_from_ioctl(5, [0u8; 16]), Ok(s("00000000-0000-0000-0000-000000000000")));
}

#[test]
fn uuid_query_failure_hands_back_the_return_value() {
    assert_eq!(uuid_from_ioctl(-1, [0xffu8; 16]), Err(-1));
}

#[test]
fn default_snapshot_is_empty() {
    let d = FsJsonOutput::default();
    assert_eq!(d.time, None);
    assert_eq!(d.uuid, None);
    assert!(d.counters.to_vec().is_empty());
}

#[test]
fn diffs_per_counter() {
    let prev = snapshot(1000, &[("a", 10), ("b", 20), ("c", 5)]);
    let curr = snapshot(2000, &[("a", 15), ("b", 20)]);
    assert!(diffs_defined(&prev, &curr));
    let d = calculate_diffs(&prev, &curr);
    assert_eq!(d.time, Some(2000));
    assert_eq!(d.uuid, curr.uuid);
    assert_eq!(d.counters.get(&s("a")), Some(5));
    assert_eq!(d.counters.get(&s("b")), Some(0));
    assert_eq!(d.counters.get(&s("c")), None);
}

#[test]
fn diffs_undefined_when_counter_missing_or_falling() {
    let prev = snapshot(0, &[("a", 10)]);
    let missing = snapshot(1, &[("a", 11), ("b", 1)]);
    let falling = snapshot(1, &[("a", 9)]);
    assert!(!diffs_defined(&prev, &missing));
    assert!(!diffs_defined(&prev, &falling));
    assert!(diffs_defined(&FsJsonOutput::default(), &FsJsonOutput::default()));
}

#[test]
fn snapshot_against_itself_is_all_zero() {
    let a = snapshot(3, &[("x", 4), ("y", 9)]);
    let d = calculate_diffs(&a, &a);
    assert_eq!(d.counters.get(&s("x")), Some(0));
    assert_eq!(d.counters.get(&s("y")), Some(0));
}

#[test]
fn growth_adds_up_over_snapshots() {
    let start = snapshot(0, &[("x", 1)]);
    let prev = snapshot(1, &[("x", 4)]);
    let curr = snapshot(2, &[("x", 10)]);
    let since = calculate_diffs(&start, &curr).counters.get(&s("x")).unwrap();
    let first = calculate_diffs(&start, &prev).counters.get(&s("x")).unwrap();
    let second = calculate_diffs(&prev, &curr).counters.get(&s("x")).unwrap();
    assert_eq!(since, first + second);
    assert_eq!(4 + second, 10);
}

#[test]
fn stats_errors_are_distinct() {
    assert_ne!(StatsError::UuidQuery(1), StatsError::CountersRead(1));
    assert_eq!(StatsError::Open, StatsError::Open);
}

#[test]
fn uuid_matches_hex_groups_of_the_bytes() {
    for seed in 0u8..32 {
        let mut bytes = [0u8; 16];
        for (i, b) in bytes.iter_mut().enumerate() {
            *b = seed.wrapping_mul(37).wrapping_add((i as u8).wrapping_mul(101)) ^ 0x5a;
        }
        let hex: String = bytes.iter().map(|b| format!("{:02x}", b)).collect();
        let expected = format!("{}-{}-{}-{}-{}", &hex[0..8], &hex[8..12], &hex[12..16], &hex[16..20], &hex[20..32]);
        assert_eq!(uuid_from_ioctl(0, bytes), Ok(expected));
    }
}

#[test]
fn snapshot_names_do_not_depend_on_values() {
    let stable = vec![(s("BCH_COUNTER_STABLE_x"), 0), (s("BCH_COUNTER_STABLE_y"), 1)];
    let a = parse_counters(&stable, &vec![1, 2]);
    let b = parse_counters(&stable, &vec![90, 0]);
    let names = |c: &Counters| c.to_vec().into_iter().map(|(k, _)| k).collect::<Vec<_>>();
    assert_eq!(names(&a), names(&b));
    assert_eq!(names(&a), vec![s("x"), s("y")]);
}
