use fdb::{cmd_add, cmd_delete, Item, Settings, SortBy};

fn settings(history_size: usize) -> Settings {
    Settings { history_size, db_path: String::from("/tmp/db"), sort_by: SortBy::Frecency }
}

#[test]
fn add_same_path_twice_yields_one_item_with_two_hits() {
    let mut data: Vec<Item> = Vec::new();
    let paths = vec![String::from("/home/alice")];
    cmd_add(&settings(0), &mut data, &paths, 100);
    cmd_add(&settings(0), &mut data, &paths, 200);
    assert_eq!(data.len(), 1);
    assert_eq!(data[0].path, "/home/alice");
    assert_eq!(data[0].hits, 2);
    assert_eq!(data[0].atime, 200);
}

#[test]
fn add_new_path_starts_with_one_hit() {
    let mut data: Vec<Item> = Vec::new();
    let paths = vec![String::from("/a"), String::from("/b")];
    cmd_add(&settings(0), &mut data, &paths, 42);
    assert_eq!(data.len(), 2);
    assert_eq!(data[0].path, "/a");
    assert_eq!(data[0].hits, 1);
    assert_eq!(data[0].atime, 42);
    assert_eq!(data[1].path, "/b");
    assert_eq!(data[1].hits, 1);
}

#[test]
fn add_mixed_touch_and_append_in_order() {
    let mut data: Vec<Item> = Vec::new();
    let first = vec![String::from("/a"), String::from("/b")];
    cmd_add(&settings(0), &mut data, &first, 10);
    let second = vec![String::from("/b"), String::from("/c"), String::from("/b")];
    cmd_add(&settings(0), &mut data, &second, 20);
    assert_eq!(data.len(), 3);
    assert_eq!(data[0].path, "/a");
    assert_eq!(data[0].hits, 1);
    assert_eq!(data[1].path, "/b");
    assert_eq!(data[1].hits, 3);
    assert_eq!(data[1].atime, 20);
    assert_eq!(data[2].path, "/c");
    assert_eq!(data[2].hits, 1);
}

#[test]
fn eviction_keeps_highest_frecency_item() {
    // store: a touched often, b touched once, both 10 seconds old;
    // adding c (fresh, one hit) with a one-item bound must keep a, whose
    // score 5 / (0.25 + 3e-6 * 10) beats both c's 1 / 0.25 and b's.
    let now: i64 = 1_000_000;
    let mut data = vec![
        Item { path: String::from("a"), atime: now - 10, hits: 5 },
        Item { path: String::from("b"), atime: now - 10, hits: 1 },
    ];
    let paths = vec![String::from("c")];
    cmd_add(&settings(1), &mut data, &paths, now);
    assert_eq!(data.len(), 1);
    assert_eq!(data[0].path, "a");
    assert_eq!(data[0].hits, 5);
}

#[test]
fn store_size_never_exceeds_limit() {
    let mut data: Vec<Item> = Vec::new();
    let mut paths = Vec::new();
    for i in 0..50 {
        paths.push(format!("/dir/{}", i));
    }
    cmd_add(&settings(7), &mut data, &paths, 123);
    assert_eq!(data.len(), 7);
}

#[test]
fn limit_zero_means_unlimited() {
    let mut data: Vec<Item> = Vec::new();
    let mut paths = Vec::new();
    for i in 0..50 {
        paths.push(format!("/dir/{}", i));
    }
    cmd_add(&settings(0), &mut data, &paths, 123);
    assert_eq!(data.len(), 50);
}

#[test]
fn delete_is_exact_match() {
    let mut data = vec![
        Item { path: String::from("/a"), atime: 1, hits: 1 },
        Item { path: String::from("/a/b"), atime: 2, hits: 2 },
    ];
    let paths = vec![String::from("/a")];
    cmd_delete(&mut data, &paths);
    assert_eq!(data.len(), 1);
    assert_eq!(data[0].path, "/a/b");
}

#[test]
fn delete_missing_path_is_no_error() {
    let mut data = vec![Item { path: String::from("/a"), atime: 1, hits: 1 }];
    let paths = vec![String::from("/nope")];
    cmd_delete(&mut data, &paths);
    assert_eq!(data.len(), 1);
    assert_eq!(data[0].path, "/a");
}

#[test]
fn delete_keeps_relative_order() {
    let mut data = vec![
        Item { path: String::from("/a"), atime: 1, hits: 1 },
        Item { path: String::from("/b"), atime: 2, hits: 2 },
        Item { path: String::from("/c"), atime: 3, hits: 3 },
        Item { path: String::from("/d"), atime: 4, hits: 4 },
    ];
    let paths = vec![String::from("/b"), String::from("/d")];
    cmd_delete(&mut data, &paths);
    assert_eq!(data.len(), 2);
    assert_eq!(data[0].path, "/a");
    assert_eq!(data[1].path, "/c");
}

#[test]
fn eviction_discards_exactly_the_lowest_scored_items() {
    // all items equally old, so hits alone decide the frecency order
    let now: i64 = 500_000;
    let mut data = vec![
        Item { path: String::from("/one"), atime: now - 100, hits: 1 },
        Item { path: String::from("/four"), atime: now - 100, hits: 4 },
        Item { path: String::from("/two"), atime: now - 100, hits: 2 },
        Item { path: String::from("/five"), atime: now - 100, hits: 5 },
    ];
    let paths = vec![String::from("/three")];
    cmd_add(&settings(2), &mut data, &paths, now);
    assert_eq!(data.len(), 2);
    assert_eq!(data[0].path, "/five");
    assert_eq!(data[1].path, "/four");
}

#[test]
fn add_handles_unicode_paths() {
    let mut data: Vec<Item> = Vec::new();
    let paths = vec![String::from("/home/Ñandú/доки")];
    cmd_add(&settings(0), &mut data, &paths, 9);
    cmd_add(&settings(0), &mut data, &paths, 10);
    assert_eq!(data.len(), 1);
    assert_eq!(data[0].path, "/home/Ñandú/доки");
    assert_eq!(data[0].hits, 2);
}

#[test]
fn touch_saturates_at_counter_maximum() {
    let mut it = Item { path: String::from("/a"), atime: 0, hits: u32::MAX };
    it.touch(5);
    assert_eq!(it.hits, u32::MAX);
    assert_eq!(it.atime, 5);
}
