//! The add and delete command handlers and the configuration they read.
//!
//! Both operate on the store already loaded into memory; `now` is sampled
//! once per invocation by the caller and passed in, so every decision of
//! one invocation sees one consistent time.

use vstd::prelude::*;

use crate::item::{Item, ItemModel, fresh_item, touched, views};
use crate::sorting::{SortBy, cmd_sort, frecency_ge, sort_spec};

verus! {

broadcast use {Seq::lemma_filter_push, vstd::seq_lib::group_to_multiset_ensures};

/// Configuration of one invocation: where the store lives, how many items
/// it may hold (0 means unlimited), and the sort method for queries.
pub struct Settings {
    pub history_size: usize,
    pub db_path: String,
    pub sort_by: SortBy,
}

/// The paths of a sequence of strings, as character sequences.
pub open spec fn path_views(s: Seq<String>) -> Seq<Seq<char>> {
    s.map_values(|p: String| p@)
}

/// Index of the first item whose path is `p`, or -1 when no item has it.
pub open spec fn find_path(s: Seq<ItemModel>, p: Seq<char>) -> int
    decreases s.len(),
{
    if s.len() == 0 {
        -1
    } else if s[0].path == p {
        0
    } else {
        let r = find_path(s.drop_first(), p);
        if r < 0 {
            -1
        } else {
            r + 1
        }
    }
}

/// What `find_path` returns: -1 exactly when no item has path `p`, and
/// otherwise the first index whose item has it.
pub proof fn lemma_find_path_spec(s: Seq<ItemModel>, p: Seq<char>)
    ensures
        find_path(s, p) == -1 || (0 <= find_path(s, p) < s.len()),
        find_path(s, p) == -1 ==> forall|j: int| 0 <= j < s.len() ==> s[j].path != p,
        find_path(s, p) >= 0 ==> s[find_path(s, p)].path == p,
        find_path(s, p) >= 0 ==> forall|j: int| 0 <= j < find_path(s, p) ==> s[j].path != p,
    decreases s.len(),
{
    if s.len() > 0 && s[0].path != p {
        lemma_find_path_spec(s.drop_first(), p);
        let t = s.drop_first();
        assert forall|j: int| 1 <= j < s.len() implies s[j] == t[j - 1] by {}
    }
}

/// The first index whose item has path `p` is what `find_path` returns.
pub proof fn lemma_find_path_at(s: Seq<ItemModel>, p: Seq<char>, j: int)
    requires
        0 <= j < s.len(),
        s[j].path == p,
        forall|i: int| 0 <= i < j ==> s[i].path != p,
    ensures
        find_path(s, p) == j,
    decreases s.len(),
{
    if j > 0 {
        let t = s.drop_first();
        assert forall|i: int| 0 <= i < j - 1 implies t[i].path != p by {
            assert(t[i] == s[i + 1]);
        }
        lemma_find_path_at(t, p, j - 1);
    }
}

/// One path added to the store: the first item already holding it is
/// touched, otherwise a fresh item is appended.
pub open spec fn add_one(s: Seq<ItemModel>, p: Seq<char>, now: i64) -> Seq<ItemModel> {
    let i = find_path(s, p);
    if i >= 0 {
        s.update(i, touched(s[i], now))
    } else {
        s.push(fresh_item(p, now))
    }
}

/// All paths added in order.
pub open spec fn add_all(s: Seq<ItemModel>, paths: Seq<Seq<char>>, now: i64) -> Seq<ItemModel>
    decreases paths.len(),
{
    if paths.len() == 0 {
        s
    } else {
        add_all(add_one(s, paths[0], now), paths.drop_first(), now)
    }
}

/// Adding the paths one more at the end equals adding the last one to the
/// result of the others.
pub proof fn lemma_add_all_push(s: Seq<ItemModel>, q: Seq<Seq<char>>, p: Seq<char>, now: i64)
    ensures
        add_all(s, q.push(p), now) == add_one(add_all(s, q, now), p, now),
    decreases q.len(),
{
    if q.len() == 0 {
        assert(q.push(p)[0] == p);
        assert(q.push(p).drop_first() =~= Seq::<Seq<char>>::empty());
        assert(add_all(s, q.push(p), now) == add_all(
            add_one(s, p, now),
            q.push(p).drop_first(),
            now,
        ));
        assert(add_all(add_one(s, p, now), q.push(p).drop_first(), now) == add_one(s, p, now));
        assert(add_all(s, q, now) == s);
    } else {
        assert(q.push(p)[0] == q[0]);
        assert(q.push(p).drop_first() =~= q.drop_first().push(p));
        lemma_add_all_push(add_one(s, q[0], now), q.drop_first(), p, now);
        assert(add_all(s, q.push(p), now) == add_all(
            add_one(s, q[0], now),
            q.drop_first().push(p),
            now,
        ));
        assert(add_all(s, q, now) == add_all(add_one(s, q[0], now), q.drop_first(), now));
    }
}

/// Size-bound eviction: when a positive limit is exceeded, keep the
/// top-ranked prefix of the frecency-sorted store.
pub open spec fn evict(s: Seq<ItemModel>, limit: int, now: i64) -> Seq<ItemModel> {
    if limit > 0 && s.len() > limit {
        sort_spec(SortBy::Frecency, now, s).take(limit)
    } else {
        s
    }
}

/// The complete effect of the add command: every path touched or appended
/// in order, then the size bound enforced by eviction.
pub open spec fn add_spec(s: Seq<ItemModel>, paths: Seq<Seq<char>>, limit: int, now: i64) -> Seq<
    ItemModel,
> {
    evict(add_all(s, paths, now), limit, now)
}

/// Whether an item survives a deletion of the given paths.
pub open spec fn keeps(paths: Seq<Seq<char>>) -> spec_fn(ItemModel) -> bool {
    |it: ItemModel| !paths.contains(it.path)
}

/// The items whose paths are not listed for deletion, in their original
/// order.
pub open spec fn delete_spec(s: Seq<ItemModel>, paths: Seq<Seq<char>>) -> Seq<ItemModel> {
    s.filter(keeps(paths))
}

/// True when some string in `paths` has exactly the characters of `p`.
fn contains_path(paths: &[String], p: &String) -> (r: bool)
    ensures
        r == path_views(paths@).contains(p@),
{
    let n = paths.len();
    let mut i: usize = 0;
    while i < n
        invariant
            0 <= i <= n,
            n == paths@.len(),
            forall|j: int| 0 <= j < i ==> path_views(paths@)[j] != p@,
        decreases n - i,
    {
        proof {
            assert(path_views(paths@)[i as int] == paths@[i as int]@);
        }
        if paths[i] == *p {
            return true;
        }
        i += 1;
    }
    false
}

/// Index of the first item of `data` whose path equals `p`, if any.
fn find_item(data: &Vec<Item>, p: &String) -> (r: Option<usize>)
    ensures
        match r {
            Some(j) => j < data@.len() && find_path(views(data@), p@) == j as int,
            None => find_path(views(data@), p@) == -1,
        },
{
    let n = data.len();
    let mut j: usize = 0;
    while j < n
        invariant
            0 <= j <= n,
            n == data@.len(),
            forall|i: int| 0 <= i < j ==> views(data@)[i].path != p@,
        decreases n - j,
    {
        proof {
            assert(views(data@)[j as int] == data@[j as int]@);
        }
        if data[j].path == *p {
            proof {
                lemma_find_path_at(views(data@), p@, j as int);
            }
            return Some(j);
        }
        j += 1;
    }
    proof {
        lemma_find_path_spec(views(data@), p@);
        if find_path(views(data@), p@) >= 0 {
            assert(views(data@)[find_path(views(data@), p@)].path == p@);
        }
    }
    None
}

/// Add every given path to the store, in order: an existing item is
/// touched, a new one appended with one hit. If a positive history size is
/// configured and then exceeded, the store is sorted by descending frecency
/// and truncated to the limit, discarding the lowest-scored items.
pub fn cmd_add(settings: &Settings, data: &mut Vec<Item>, paths: &[String], now: i64)
    ensures
        views(final(data)@) == add_spec(
            views(old(data)@),
            path_views(paths@),
            settings.history_size as int,
            now,
        ),
{
    let ghost orig: Seq<ItemModel> = views(data@);
    let ghost ps: Seq<Seq<char>> = path_views(paths@);
    let n = paths.len();
    let mut i: usize = 0;
    proof {
        assert(ps.take(0) =~= Seq::<Seq<char>>::empty());
    }
    while i < n
        invariant
            0 <= i <= n,
            n == paths@.len(),
            ps == path_views(paths@),
            orig == views(old(data)@),
            views(data@) == add_all(orig, ps.take(i as int), now),
        decreases n - i,
    {
        let ghost before = views(data@);
        match find_item(data, &paths[i]) {
            Some(j) => {
                let mut it = data.remove(j);
                let ghost removed = data@;
                it.touch(now);
                data.insert(j, it);
                proof {
                    assert(data@ =~= removed.insert(j as int, it));
                    removed.insert_ensures(j as int, it);
                    assert forall|q: int| 0 <= q < views(data@).len() implies views(data@)[q]
                        == before.update(j as int, touched(before[j as int], now))[q] by {
                        if q < j {
                            assert(data@[q] == removed[q]);
                        } else if q == j {
                            assert(data@[q] == it);
                        } else {
                            assert(data@[q] == removed[q - 1]);
                        }
                    }
                    assert(views(data@) =~= before.update(j as int, touched(before[j as int], now)));
                }
            },
            None => {
                data.push(Item::new(paths[i].as_str(), now));
                proof {
                    assert(views(data@) =~= before.push(fresh_item(ps[i as int], now)));
                }
            },
        }
        proof {
            assert(ps[i as int] == paths@[i as int]@);
            assert(views(data@) == add_one(before, ps[i as int], now));
            assert(ps.take(i + 1) =~= ps.take(i as int).push(ps[i as int]));
            lemma_add_all_push(orig, ps.take(i as int), ps[i as int], now);
        }
        i += 1;
    }
    proof {
        assert(ps.take(n as int) =~= ps);
    }
    let ghost t: Seq<ItemModel> = views(data@);
    proof {
        assert(t.len() == data@.len());
    }
    let limit = settings.history_size;
    if limit > 0 && data.len() > limit {
        cmd_sort(SortBy::Frecency, data, now);
        let ghost sorted = views(data@);
        proof {
            crate::sorting::lemma_sort_spec_props(SortBy::Frecency, now, t);
            assert(sorted.len() == data@.len());
            assert(views(data@) =~= sorted.take(data@.len() as int));
        }
        while data.len() > limit
            invariant
                limit as int <= data@.len() <= sorted.len(),
                views(data@) == sorted.take(data@.len() as int),
            decreases data@.len(),
        {
            let ghost prev = data@;
            data.pop();
            proof {
                assert(data@ =~= prev.drop_last());
                assert forall|q: int| 0 <= q < data@.len() implies views(data@)[q] == sorted.take(
                    data@.len() as int,
                )[q] by {
                    assert(data@[q] == prev[q]);
                    assert(views(prev)[q] == prev[q]@);
                    assert(sorted.take(prev.len() as int)[q] == sorted[q]);
                    assert(sorted.take(data@.len() as int)[q] == sorted[q]);
                }
                assert(views(data@) =~= sorted.take(data@.len() as int));
            }
        }
    }
}

/// Remove every item whose path exactly equals one of the given paths;
/// the remaining items keep their relative order. A path with no matching
/// item is no error.
pub fn cmd_delete(data: &mut Vec<Item>, paths: &[String])
    ensures
        views(final(data)@) == delete_spec(views(old(data)@), path_views(paths@)),
{
    let ghost orig: Seq<ItemModel> = views(data@);
    let ghost pred = keeps(path_views(paths@));
    let mut out: Vec<Item> = Vec::new();
    let ghost mut k: int = 0;
    proof {
        assert(orig.skip(0) =~= orig);
        assert(orig.take(0).filter(pred) =~= Seq::<ItemModel>::empty());
        assert(views(out@) =~= Seq::<ItemModel>::empty());
    }
    while data.len() > 0
        invariant
            0 <= k <= orig.len(),
            pred == keeps(path_views(paths@)),
            views(data@) =~= orig.skip(k),
            views(out@) == orig.take(k).filter(pred),
        decreases data.len(),
    {
        let ghost data_before = data@;
        proof {
            assert(views(data_before) == orig.skip(k));
            assert(views(data_before).len() == data_before.len());
            assert(orig.skip(k).len() == orig.len() - k);
            assert(k < orig.len());
        }
        let it = data.remove(0);
        proof {
            assert(it == data_before[0]);
            assert(views(data_before)[0] == data_before[0]@);
            assert(orig.skip(k)[0] == orig[k]);
            assert(it@ == orig[k]);
            assert(data@ =~= data_before.skip(1));
            assert forall|q: int| 0 <= q < data@.len() implies views(data@)[q] == orig.skip(
                k + 1,
            )[q] by {
                assert(data@[q] == data_before[q + 1]);
                assert(views(data_before)[q + 1] == data_before[q + 1]@);
                assert(orig.skip(k)[q + 1] == orig[k + 1 + q]);
                assert(orig.skip(k + 1)[q] == orig[k + 1 + q]);
            }
            assert(views(data@) =~= orig.skip(k + 1));
        }
        let ghost out_before = views(out@);
        if !contains_path(paths, &it.path) {
            out.push(it);
            proof {
                assert(views(out@) =~= out_before.push(it@));
            }
        }
        proof {
            assert(pred(orig[k]) == !path_views(paths@).contains(orig[k].path));
            assert(orig.take(k + 1) =~= orig.take(k).push(orig[k]));
            assert(views(out@) == orig.take(k + 1).filter(pred));
            k = k + 1;
        }
    }
    proof {
        assert(orig.take(k) =~= orig);
    }
    *data = out;
}

/// The store's invariant: no two items share a path.
pub open spec fn unique_paths(s: Seq<ItemModel>) -> bool {
    forall|i: int, j: int| 0 <= i < j < s.len() ==> s[i].path != s[j].path
}

/// Touching or appending one path keeps paths unique.
proof fn lemma_add_one_unique(s: Seq<ItemModel>, p: Seq<char>, now: i64)
    requires
        unique_paths(s),
    ensures
        unique_paths(add_one(s, p, now)),
{
    lemma_find_path_spec(s, p);
    let f = find_path(s, p);
    if f >= 0 {
        let r = s.update(f, touched(s[f], now));
        assert forall|i: int, j: int| 0 <= i < j < r.len() implies r[i].path != r[j].path by {
            assert(r[i].path == s[i].path);
            assert(r[j].path == s[j].path);
        }
    } else {
        let r = s.push(fresh_item(p, now));
        assert forall|i: int, j: int| 0 <= i < j < r.len() implies r[i].path != r[j].path by {
            if j == s.len() {
                assert(r[i].path == s[i].path);
                assert(s[i].path != p);
            } else {
                assert(r[i].path == s[i].path);
                assert(r[j].path == s[j].path);
            }
        }
    }
}

/// Adding any sequence of paths keeps paths unique.
proof fn lemma_add_all_unique(s: Seq<ItemModel>, paths: Seq<Seq<char>>, now: i64)
    requires
        unique_paths(s),
    ensures
        unique_paths(add_all(s, paths, now)),
    decreases paths.len(),
{
    if paths.len() > 0 {
        lemma_add_one_unique(s, paths[0], now);
        lemma_add_all_unique(add_one(s, paths[0], now), paths.drop_first(), now);
    }
}

/// A permutation of a store with unique paths has unique paths.
proof fn lemma_unique_paths_permutation(s: Seq<ItemModel>, t: Seq<ItemModel>)
    requires
        unique_paths(s),
        s.to_multiset() == t.to_multiset(),
    ensures
        unique_paths(t),
{
    assert(s.no_duplicates());
    s.lemma_multiset_has_no_duplicates();
    t.lemma_multiset_has_no_duplicates_conv();
    assert forall|i: int, j: int| 0 <= i < j < t.len() implies t[i].path != t[j].path by {
        if t[i].path == t[j].path {
            assert(t[i] != t[j]);
            assert(t.contains(t[i]));
            assert(t.contains(t[j]));
            assert(t.to_multiset().count(t[i]) > 0);
            assert(t.to_multiset().count(t[j]) > 0);
            assert(s.to_multiset().count(t[i]) > 0);
            assert(s.to_multiset().count(t[j]) > 0);
            assert(s.contains(t[i]));
            assert(s.contains(t[j]));
            let a = choose|a: int| 0 <= a < s.len() && s[a] == t[i];
            let b = choose|b: int| 0 <= b < s.len() && s[b] == t[j];
            assert(s[a].path == s[b].path);
            assert(a != b);
        }
    }
}

/// The add command preserves the store's invariant: starting from a store
/// whose paths are unique, the result's paths are unique too, whether the
/// paths were touched, appended, or survived an eviction.
pub proof fn lemma_add_preserves_unique_paths(
    s: Seq<ItemModel>,
    paths: Seq<Seq<char>>,
    limit: int,
    now: i64,
)
    requires
        unique_paths(s),
    ensures
        unique_paths(add_spec(s, paths, limit, now)),
{
    lemma_add_all_unique(s, paths, now);
    let t = add_all(s, paths, now);
    if limit > 0 && t.len() > limit {
        let sorted = sort_spec(SortBy::Frecency, now, t);
        crate::sorting::lemma_sort_spec_props(SortBy::Frecency, now, t);
        lemma_unique_paths_permutation(t, sorted);
        let kept = sorted.take(limit);
        assert forall|i: int, j: int| 0 <= i < j < kept.len() implies kept[i].path
            != kept[j].path by {
            assert(kept[i] == sorted[i]);
            assert(kept[j] == sorted[j]);
        }
    }
}

/// Adding a path absent from the store twice in sequence, with no size
/// bound, appends exactly one item: two hits, timed at the second call.
pub proof fn lemma_add_twice(s: Seq<ItemModel>, p: Seq<char>, t1: i64, t2: i64)
    requires
        find_path(s, p) == -1,
    ensures
        add_spec(add_spec(s, seq![p], 0, t1), seq![p], 0, t2) == s.push(
            ItemModel { path: p, atime: t2, hits: 2 },
        ),
{
    let single = seq![p];
    assert(single[0] == p);
    assert(single.drop_first() =~= Seq::<Seq<char>>::empty());
    let s1 = add_one(s, p, t1);
    assert(s1 == s.push(fresh_item(p, t1)));
    lemma_find_path_spec(s, p);
    assert forall|i: int| 0 <= i < s.len() implies s1[i].path != p by {
        assert(s1[i] == s[i]);
    }
    assert(s1[s.len() as int].path == p);
    lemma_find_path_at(s1, p, s.len() as int);
    let s2 = add_one(s1, p, t2);
    assert(s2 == s1.update(s.len() as int, touched(fresh_item(p, t1), t2)));
    assert(touched(fresh_item(p, t1), t2) == ItemModel { path: p, atime: t2, hits: 2 });
    assert(s2 =~= s.push(ItemModel { path: p, atime: t2, hits: 2 }));
    assert(add_all(s, single, t1) == add_all(s1, single.drop_first(), t1));
    assert(add_all(s1, single.drop_first(), t1) == s1);
    assert(add_all(s1, single, t2) == add_all(s2, single.drop_first(), t2));
    assert(add_all(s2, single.drop_first(), t2) == s2);
}

/// With a positive size bound, the store never exceeds it after an add.
pub proof fn lemma_add_bounded(
    s: Seq<ItemModel>,
    paths: Seq<Seq<char>>,
    limit: int,
    now: i64,
)
    requires
        limit > 0,
    ensures
        add_spec(s, paths, limit, now).len() <= limit,
{
    let t = add_all(s, paths, now);
    if t.len() > limit {
        crate::sorting::lemma_sort_spec_props(SortBy::Frecency, now, t);
    }
}

/// When eviction triggers, what is kept is exactly the top of the
/// frecency-sorted store: the kept prefix and the dropped suffix together
/// are the whole store, and every kept item scores at least every dropped
/// one, at one consistent time `now`.
pub proof fn lemma_evict_keeps_top(s: Seq<ItemModel>, limit: int, now: i64)
    requires
        0 < limit < s.len(),
    ensures
        ({
            let sorted = sort_spec(SortBy::Frecency, now, s);
            &&& evict(s, limit, now) == sorted.take(limit)
            &&& sorted.take(limit).to_multiset().add(sorted.skip(limit).to_multiset())
                == s.to_multiset()
            &&& forall|i: int, j: int|
                0 <= i < limit <= j < sorted.len() ==> frecency_ge(now, sorted[i], sorted[j])
        }),
{
    let sorted = sort_spec(SortBy::Frecency, now, s);
    crate::sorting::lemma_sort_spec_props(SortBy::Frecency, now, s);
    assert(sorted =~= sorted.take(limit) + sorted.skip(limit));
    vstd::seq_lib::lemma_multiset_commutative(sorted.take(limit), sorted.skip(limit));
    assert forall|i: int, j: int| 0 <= i < limit <= j < sorted.len() implies frecency_ge(
        now,
        sorted[i],
        sorted[j],
    ) by {
        assert(crate::sorting::rank_ge(SortBy::Frecency, now, sorted[i], sorted[j]));
    }
}

} // verus!
