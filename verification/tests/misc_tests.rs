use fdb::{
    join_fragments, lock_path_of, lock_protocol_step, parse_sort_method, tmp_path_of, LockAttempt,
    LockStep, SortBy,
};

#[test]
fn parse_sort_method_accepts_the_three_names() {
    assert!(matches!(parse_sort_method("frecency"), Some(SortBy::Frecency)));
    assert!(matches!(parse_sort_method("atime"), Some(SortBy::Atime)));
    assert!(matches!(parse_sort_method("hits"), Some(SortBy::Hits)));
}

#[test]
fn parse_sort_method_rejects_other_names() {
    assert!(parse_sort_method("").is_none());
    assert!(parse_sort_method("Frecency").is_none());
    assert!(parse_sort_method("hits ").is_none());
    assert!(parse_sort_method("recency").is_none());
}

#[test]
fn join_fragments_inserts_wildcards() {
    let parts = vec![String::from("foo"), String::from("bar"), String::from("baz")];
    assert_eq!(join_fragments(&parts), "foo.*bar.*baz");
}

#[test]
fn join_single_fragment_is_unchanged() {
    let parts = vec![String::from("foo")];
    assert_eq!(join_fragments(&parts), "foo");
}

#[test]
fn join_no_fragments_is_empty() {
    let parts: Vec<String> = Vec::new();
    assert_eq!(join_fragments(&parts), "");
}

#[test]
fn lock_and_tmp_paths_are_siblings_of_the_store() {
    assert_eq!(lock_path_of("/home/alice/.z"), "/home/alice/.z.lock");
    assert_eq!(tmp_path_of("/home/alice/.z"), "/home/alice/.z.tmp");
}

#[test]
fn lock_protocol_maps_each_outcome() {
    assert_eq!(lock_protocol_step(&LockAttempt::Created), LockStep::Acquired);
    assert_eq!(lock_protocol_step(&LockAttempt::AlreadyExists), LockStep::RetryAfterSleep);
    assert_eq!(lock_protocol_step(&LockAttempt::Failed), LockStep::Abort);
}
