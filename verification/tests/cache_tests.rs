use pondus::cache::{encode_entry, fresh, parse_entry, Cache, CacheEntry};

#[test]
fn set_then_get_within_ttl_returns_data() {
    let cache = Cache::new(String::from("/tmp/pondus-test"), 24);
    let entry = cache.make_entry(String::from("{\"scores\":[1,2,3]}"), 1000);
    let file = encode_entry(&entry);
    // One second short of 24 hours later: still fresh.
    let got = cache.read(Some(file.as_str()), 1000 + 24 * 3600 - 1);
    assert_eq!(got, Some((1000, String::from("{\"scores\":[1,2,3]}"))));
}

#[test]
fn stale_entry_is_a_miss() {
    let cache = Cache::new(String::from("/tmp/pondus-test"), 24);
    let entry = cache.make_entry(String::from("payload"), 1000);
    let file = encode_entry(&entry);
    // Exactly 24 hours later: the age in whole hours is 24, no longer below
    // the time-to-live.
    let got = cache.read(Some(file.as_str()), 1000 + 24 * 3600);
    assert_eq!(got, None);
}

#[test]
fn missing_file_is_a_miss() {
    let cache = Cache::new(String::from("/tmp/pondus-test"), 24);
    assert_eq!(cache.read(None, 1000), None);
}

#[test]
fn corrupt_file_is_a_miss_not_an_error() {
    let cache = Cache::new(String::from("/tmp/pondus-test"), 24);
    for corrupt in [
        "",
        "not a cache entry at all",
        "12",
        "12\n34",
        "12\nxx\ndata",
        "x2\n34\ndata",
        "007\n34\ndata",
        "-0\n34\ndata",
        "12\n-34\ndata",
        "{\"fetched_at\":\"2024-01-01\"}",
    ] {
        assert_eq!(cache.read(Some(corrupt), 1000), None, "input: {corrupt:?}");
    }
}

#[test]
fn encode_parse_round_trip() {
    for (fetched_at, ttl_hours, data) in [
        (0i64, 0u64, ""),
        (1700000000, 24, "plain"),
        (-42, 1, "multi\nline\npayload"),
        (i64::MIN, u64::MAX, "edge"),
        (i64::MAX, 7, ""),
    ] {
        let entry = CacheEntry {
            fetched_at,
            ttl_hours,
            data: String::from(data),
        };
        let encoded = encode_entry(&entry);
        let parsed = parse_entry(encoded.as_str()).expect("round trip must parse");
        assert_eq!(parsed.fetched_at, fetched_at);
        assert_eq!(parsed.ttl_hours, ttl_hours);
        assert_eq!(parsed.data, data);
    }
}

#[test]
fn encoding_is_the_documented_format() {
    let entry = CacheEntry {
        fetched_at: -5,
        ttl_hours: 24,
        data: String::from("abc"),
    };
    assert_eq!(encode_entry(&entry), "-5\n24\nabc");
}

#[test]
fn freshness_boundaries() {
    // Age of 3599 seconds is zero whole hours: fresh under a 1-hour TTL.
    assert!(fresh(0, 1, 3599));
    // Age of 3600 seconds is one whole hour: no longer fresh under 1 hour.
    assert!(!fresh(0, 1, 3600));
    // A zero TTL makes everything stale, even a same-second write.
    assert!(!fresh(1000, 0, 1000));
    // A record from the future has a negative age in whole hours, which is
    // below any TTL once a whole hour lies between...
    assert!(fresh(5000, 1, 1000));
    assert!(fresh(5000, 0, 1000));
    // ...but a future record less than an hour ahead has an age of zero
    // whole hours, which a zero TTL does not admit.
    assert!(!fresh(1050, 0, 1000));
    assert!(fresh(1050, 1, 1000));
}

#[test]
fn entry_path_joins_dir_key_and_extension() {
    let cache = Cache::new(String::from("/var/cache/pondus"), 24);
    assert_eq!(cache.entry_path("aider"), "/var/cache/pondus/aider.json");
}
