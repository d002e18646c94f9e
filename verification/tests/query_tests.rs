use fdb::{cmd_query, cmd_sort, sort_method_frecency, Error, Item, SortBy};

fn item(path: &str, atime: i64, hits: u32) -> Item {
    Item { path: String::from(path), atime, hits }
}

#[test]
fn query_sorts_by_hits_descending() {
    let mut data = vec![item("/five", 0, 5), item("/one", 0, 1), item("/three", 0, 3)];
    let out = cmd_query(SortBy::Hits, &mut data, ".", 100).unwrap();
    assert_eq!(out, vec!["/five", "/three", "/one"]);
}

#[test]
fn query_equal_hits_keep_original_order() {
    let mut data = vec![item("/a", 0, 2), item("/b", 0, 2), item("/c", 0, 1), item("/d", 0, 2)];
    let out = cmd_query(SortBy::Hits, &mut data, ".", 100).unwrap();
    assert_eq!(out, vec!["/a", "/b", "/d", "/c"]);
}

#[test]
fn query_sorts_by_atime_descending() {
    let mut data = vec![item("/old", 10, 1), item("/new", 30, 1), item("/mid", 20, 1)];
    let out = cmd_query(SortBy::Atime, &mut data, ".", 100).unwrap();
    assert_eq!(out, vec!["/new", "/mid", "/old"]);
}

#[test]
fn query_sorts_by_frecency_descending() {
    // At now, /fresh scores 1/0.25 = 4 and /stale scores
    // 3/(0.25 + 3e-6 * 1_000_000) = 3/3.25 < 1.
    let now: i64 = 2_000_000;
    let mut data = vec![item("/stale", now - 1_000_000, 3), item("/fresh", now, 1)];
    let out = cmd_query(SortBy::Frecency, &mut data, ".", now).unwrap();
    assert_eq!(out, vec!["/fresh", "/stale"]);
}

#[test]
fn query_emits_only_matching_paths() {
    let mut data = vec![
        item("/home/alice", 0, 1),
        item("/var/log", 0, 2),
        item("/home/bob", 0, 3),
    ];
    let out = cmd_query(SortBy::Hits, &mut data, "home", 100).unwrap();
    assert_eq!(out, vec!["/home/bob", "/home/alice"]);
}

#[test]
fn query_pattern_is_a_regex() {
    let mut data = vec![item("/aXb", 0, 1), item("/ab", 0, 2), item("/a-b", 0, 3)];
    let out = cmd_query(SortBy::Hits, &mut data, "a.b", 100).unwrap();
    assert_eq!(out, vec!["/a-b", "/aXb"]);
}

#[test]
fn query_rejects_bad_pattern() {
    let mut data = vec![item("/a", 0, 1)];
    let r = cmd_query(SortBy::Hits, &mut data, "(", 100);
    assert!(matches!(r, Err(Error::PatternError)));
    // the store is untouched on a pattern error
    assert_eq!(data.len(), 1);
    assert_eq!(data[0].path, "/a");
}

#[test]
fn query_error_message_names_the_regex() {
    assert_eq!(Error::PatternError.message(), "Couldn't create query regex");
    assert_eq!(Error::DataCorrupt.message(), "Can't deserialize data");
}

#[test]
fn sort_is_stable_across_methods() {
    let mut data = vec![item("/x", 7, 4), item("/y", 7, 4), item("/z", 7, 4)];
    cmd_sort(SortBy::Frecency, &mut data, 100);
    assert_eq!(data[0].path, "/x");
    assert_eq!(data[1].path, "/y");
    assert_eq!(data[2].path, "/z");
}

#[test]
fn frecency_comparator_orders_pairs() {
    let now: i64 = 1_000;
    let high = item("/high", now, 5);
    let low = item("/low", now - 500_000, 1);
    assert_eq!(sort_method_frecency(&high, &low, now), std::cmp::Ordering::Less);
    assert_eq!(sort_method_frecency(&low, &high, now), std::cmp::Ordering::Greater);
    assert_eq!(sort_method_frecency(&high, &high, now), std::cmp::Ordering::Equal);
}
