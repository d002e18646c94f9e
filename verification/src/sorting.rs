//! Ranking and stable sorting of the store.
//!
//! The frecency score of an item at time `now` is
//! `hits / (0.25 + 3e-6 * (now - atime))`, with the age clamped to be
//! non-negative. Scores are never materialized: all that is ever needed is
//! the *order* between two scores, and that order is decided here in exact
//! integer arithmetic. Multiplying both denominators by 4_000_000 turns
//! `hits_a / (0.25 + 3e-6*age_a) >= hits_b / (0.25 + 3e-6*age_b)` into
//! `hits_a * (1_000_000 + 12*age_b) >= hits_b * (1_000_000 + 12*age_a)`,
//! which is decided without rounding.

use vstd::prelude::*;

use vstd::string::StringExecFns;

use crate::item::{Item, ItemModel, views};

verus! {

broadcast use {
    vstd::seq_lib::group_to_multiset_ensures,
    vstd::seq_lib::lemma_multiset_commutative,
    vstd::multiset::group_multiset_axioms,
};

/// The sort methods a query may ask for. Each sorts in descending order of
/// its key.
#[derive(Copy, Clone)]
pub enum SortBy {
    Frecency,
    Atime,
    Hits,
}

/// The sort method a name denotes, if any.
pub open spec fn spec_parse_sort_method(name: Seq<char>) -> Option<SortBy> {
    if name == "frecency"@ {
        Some(SortBy::Frecency)
    } else if name == "atime"@ {
        Some(SortBy::Atime)
    } else if name == "hits"@ {
        Some(SortBy::Hits)
    } else {
        None
    }
}

/// Resolve a sort-method name: exactly "frecency", "atime" or "hits".
pub fn parse_sort_method(name: &str) -> (r: Option<SortBy>)
    ensures
        r == spec_parse_sort_method(name@),
{
    let n: String = name.to_owned();
    if n == String::from_str("frecency") {
        Some(SortBy::Frecency)
    } else if n == String::from_str("atime") {
        Some(SortBy::Atime)
    } else if n == String::from_str("hits") {
        Some(SortBy::Hits)
    } else {
        None
    }
}

/// Age of an access time at `now`, in seconds, clamped to be non-negative.
pub open spec fn age_of(now: i64, atime: i64) -> int {
    if now >= atime {
        now - atime
    } else {
        0
    }
}

/// The scaled frecency denominator: `4_000_000 * (0.25 + 3e-6 * age)`.
pub open spec fn frecency_denom(age: int) -> int {
    1_000_000 + 12 * age
}

/// `a`'s frecency score at `now` is at least `b`'s, decided by
/// cross-multiplying the two exact fractions.
pub open spec fn frecency_ge(now: i64, a: ItemModel, b: ItemModel) -> bool {
    a.hits * frecency_denom(age_of(now, b.atime)) >= b.hits * frecency_denom(
        age_of(now, a.atime),
    )
}

/// `a` ranks at least as high as `b` under the chosen method. Each method
/// yields a total preorder.
pub open spec fn rank_ge(sort_by: SortBy, now: i64, a: ItemModel, b: ItemModel) -> bool {
    match sort_by {
        SortBy::Frecency => frecency_ge(now, a, b),
        SortBy::Atime => a.atime >= b.atime,
        SortBy::Hits => a.hits >= b.hits,
    }
}

/// The ranking is total: two items always compare one way or the other.
pub proof fn lemma_rank_total(sort_by: SortBy, now: i64, a: ItemModel, b: ItemModel)
    ensures
        rank_ge(sort_by, now, a, b) || rank_ge(sort_by, now, b, a),
{
}

/// The ranking is transitive.
pub proof fn lemma_rank_trans(sort_by: SortBy, now: i64, a: ItemModel, b: ItemModel, c: ItemModel)
    requires
        rank_ge(sort_by, now, a, b),
        rank_ge(sort_by, now, b, c),
    ensures
        rank_ge(sort_by, now, a, c),
{
    match sort_by {
        SortBy::Frecency => {
            let na = a.hits as int;
            let nb = b.hits as int;
            let nc = c.hits as int;
            let da = frecency_denom(age_of(now, a.atime));
            let db = frecency_denom(age_of(now, b.atime));
            let dc = frecency_denom(age_of(now, c.atime));
            assert(na * db * dc >= nb * da * dc) by (nonlinear_arith)
                requires
                    na * db >= nb * da,
                    dc > 0,
            ;
            assert(nb * dc * da >= nc * db * da) by (nonlinear_arith)
                requires
                    nb * dc >= nc * db,
                    da > 0,
            ;
            assert(na * dc >= nc * da) by (nonlinear_arith)
                requires
                    na * db * dc >= nb * da * dc,
                    nb * dc * da >= nc * db * da,
                    db > 0,
            ;
        },
        SortBy::Atime => {},
        SortBy::Hits => {},
    }
}

/// Insert `x` into the already ranked sequence `s`, after every element
/// that ranks at least as high as `x`. Placing `x` after equally ranked
/// elements is what makes the sort stable.
pub open spec fn insert_ranked(sort_by: SortBy, now: i64, x: ItemModel, s: Seq<ItemModel>) -> Seq<
    ItemModel,
>
    decreases s.len(),
{
    if s.len() == 0 {
        seq![x]
    } else if rank_ge(sort_by, now, s[0], x) {
        seq![s[0]] + insert_ranked(sort_by, now, x, s.drop_first())
    } else {
        seq![x] + s
    }
}

/// Stable insertion sort of `s` in descending rank order: elements are
/// taken left to right and each is inserted after its equals, so equally
/// ranked elements keep their original relative order.
pub open spec fn sort_spec(sort_by: SortBy, now: i64, s: Seq<ItemModel>) -> Seq<ItemModel>
    decreases s.len(),
{
    if s.len() == 0 {
        Seq::empty()
    } else {
        insert_ranked(sort_by, now, s.last(), sort_spec(sort_by, now, s.drop_last()))
    }
}

/// `s` is in descending rank order.
pub open spec fn sorted_by_rank(sort_by: SortBy, now: i64, s: Seq<ItemModel>) -> bool {
    forall|i: int, j: int| 0 <= i < j < s.len() ==> rank_ge(sort_by, now, s[i], s[j])
}

/// Inserting one element grows the length by one, adds exactly that element
/// to the contents, and keeps the sequence ranked.
pub proof fn lemma_insert_ranked_props(sort_by: SortBy, now: i64, x: ItemModel, s: Seq<ItemModel>)
    ensures
        insert_ranked(sort_by, now, x, s).len() == s.len() + 1,
        insert_ranked(sort_by, now, x, s).to_multiset() == s.to_multiset().insert(x),
        sorted_by_rank(sort_by, now, s) ==> sorted_by_rank(
            sort_by,
            now,
            insert_ranked(sort_by, now, x, s),
        ),
    decreases s.len(),
{
    let r = insert_ranked(sort_by, now, x, s);
    if s.len() == 0 {
        assert(r =~= s.insert(0, x));
        assert(r.to_multiset() =~= s.to_multiset().insert(x));
    } else if rank_ge(sort_by, now, s[0], x) {
        let t = s.drop_first();
        let rec = insert_ranked(sort_by, now, x, t);
        lemma_insert_ranked_props(sort_by, now, x, t);
        assert(s =~= seq![s[0]] + t);
        assert(r == seq![s[0]] + rec);
        assert(r.to_multiset() =~= seq![s[0]].to_multiset().add(rec.to_multiset()));
        assert(s.to_multiset() =~= seq![s[0]].to_multiset().add(t.to_multiset()));
        assert(r.to_multiset() =~= s.to_multiset().insert(x));
        if sorted_by_rank(sort_by, now, s) {
            assert forall|i: int, j: int|
                0 <= i < j < t.len() implies rank_ge(sort_by, now, t[i], t[j]) by {
                assert(t[i] == s[i + 1]);
                assert(t[j] == s[j + 1]);
            }
            assert(sorted_by_rank(sort_by, now, rec));
            assert forall|j: int| 1 <= j < r.len() implies rank_ge(sort_by, now, r[0], r[j]) by {
                let e = r[j];
                assert(rec[j - 1] == e);
                assert(rec.contains(e));
                assert(rec.to_multiset().count(e) > 0);
                if e == x {
                    assert(rank_ge(sort_by, now, s[0], e));
                } else {
                    assert(t.to_multiset().count(e) > 0);
                    assert(t.contains(e));
                    let i = choose|i: int| 0 <= i < t.len() && t[i] == e;
                    assert(s[i + 1] == e);
                    assert(rank_ge(sort_by, now, s[0], s[i + 1]));
                }
            }
            assert forall|i: int, j: int|
                0 <= i < j < r.len() implies rank_ge(sort_by, now, r[i], r[j]) by {
                if i >= 1 {
                    assert(rec[i - 1] == r[i]);
                    assert(rec[j - 1] == r[j]);
                }
            }
        }
    } else {
        lemma_rank_total(sort_by, now, s[0], x);
        assert(r =~= s.insert(0, x));
        assert(r.to_multiset() =~= s.to_multiset().insert(x));
        if sorted_by_rank(sort_by, now, s) {
            assert forall|j: int| 1 <= j < r.len() implies rank_ge(sort_by, now, r[0], r[j]) by {
                assert(r[j] == s[j - 1]);
                if j >= 2 {
                    assert(rank_ge(sort_by, now, s[0], s[j - 1]));
                    lemma_rank_trans(sort_by, now, x, s[0], s[j - 1]);
                }
            }
            assert forall|i: int, j: int|
                0 <= i < j < r.len() implies rank_ge(sort_by, now, r[i], r[j]) by {
                if i >= 1 {
                    assert(s[i - 1] == r[i]);
                    assert(s[j - 1] == r[j]);
                }
            }
        }
    }
}

/// The sorted sequence is a permutation of the input, in descending rank
/// order.
pub proof fn lemma_sort_spec_props(sort_by: SortBy, now: i64, s: Seq<ItemModel>)
    ensures
        sort_spec(sort_by, now, s).len() == s.len(),
        sort_spec(sort_by, now, s).to_multiset() == s.to_multiset(),
        sorted_by_rank(sort_by, now, sort_spec(sort_by, now, s)),
    decreases s.len(),
{
    if s.len() > 0 {
        let t = s.drop_last();
        lemma_sort_spec_props(sort_by, now, t);
        lemma_insert_ranked_props(sort_by, now, s.last(), sort_spec(sort_by, now, t));
        assert(s =~= t.push(s.last()));
        assert(s.to_multiset() =~= t.to_multiset().insert(s.last()));
    }
}

/// When all elements before position `p` rank at least `x` and the element
/// at `p` (if any) ranks strictly below `x`, inserting `x` at `p` is
/// exactly the ranked insertion.
proof fn lemma_insert_ranked_at(sort_by: SortBy, now: i64, x: ItemModel, s: Seq<ItemModel>, p: int)
    requires
        0 <= p <= s.len(),
        forall|i: int| 0 <= i < p ==> rank_ge(sort_by, now, s[i], x),
        p < s.len() ==> !rank_ge(sort_by, now, s[p], x),
    ensures
        insert_ranked(sort_by, now, x, s) == s.insert(p, x),
    decreases s.len(),
{
    s.insert_ensures(p, x);
    if p == 0 {
        if s.len() == 0 {
            assert(insert_ranked(sort_by, now, x, s) =~= s.insert(0, x));
        } else {
            assert(!rank_ge(sort_by, now, s[0], x));
            assert(insert_ranked(sort_by, now, x, s) =~= s.insert(0, x));
        }
    } else {
        let t = s.drop_first();
        assert(rank_ge(sort_by, now, s[0], x));
        assert forall|i: int| 0 <= i < p - 1 implies rank_ge(sort_by, now, t[i], x) by {
            assert(t[i] == s[i + 1]);
        }
        assert(p - 1 < t.len() ==> t[p - 1] == s[p]);
        lemma_insert_ranked_at(sort_by, now, x, t, p - 1);
        t.insert_ensures(p - 1, x);
        assert(insert_ranked(sort_by, now, x, s) =~= s.insert(p, x));
    }
}

/// The items ranking exactly as `pivot` does.
pub open spec fn rank_eq_fn(sort_by: SortBy, now: i64, pivot: ItemModel) -> spec_fn(
    ItemModel,
) -> bool {
    |x: ItemModel| rank_ge(sort_by, now, x, pivot) && rank_ge(sort_by, now, pivot, x)
}

/// Ranked insertion either appends the new element to the equally ranked
/// ones or leaves them alone.
proof fn lemma_insert_ranked_filter(
    sort_by: SortBy,
    now: i64,
    x: ItemModel,
    r: Seq<ItemModel>,
    pivot: ItemModel,
)
    requires
        sorted_by_rank(sort_by, now, r),
    ensures
        ({
            let eqf = rank_eq_fn(sort_by, now, pivot);
            insert_ranked(sort_by, now, x, r).filter(eqf) == if eqf(x) {
                r.filter(eqf).push(x)
            } else {
                r.filter(eqf)
            }
        }),
    decreases r.len(),
{
    broadcast use Seq::filter_distributes_over_add;
    broadcast use Seq::lemma_filter_push;

    let eqf = rank_eq_fn(sort_by, now, pivot);
    let ins = insert_ranked(sort_by, now, x, r);
    if r.len() == 0 {
        assert(seq![x] =~= Seq::<ItemModel>::empty().push(x));
        assert(Seq::<ItemModel>::empty().filter(eqf) =~= Seq::<ItemModel>::empty()) by {
            reveal(Seq::filter);
        }
        assert(r.filter(eqf) == Seq::<ItemModel>::empty()) by {
            reveal(Seq::filter);
        }
    } else if rank_ge(sort_by, now, r[0], x) {
        let t = r.drop_first();
        assert forall|i: int, j: int| 0 <= i < j < t.len() implies rank_ge(
            sort_by,
            now,
            t[i],
            t[j],
        ) by {
            assert(t[i] == r[i + 1]);
            assert(t[j] == r[j + 1]);
        }
        lemma_insert_ranked_filter(sort_by, now, x, t, pivot);
        let rec = insert_ranked(sort_by, now, x, t);
        assert(ins == seq![r[0]] + rec);
        assert(r =~= seq![r[0]] + t);
        assert(ins.filter(eqf) == seq![r[0]].filter(eqf) + rec.filter(eqf));
        assert(r.filter(eqf) == seq![r[0]].filter(eqf) + t.filter(eqf));
        if eqf(x) {
            assert(ins.filter(eqf) =~= (seq![r[0]].filter(eqf) + t.filter(eqf)).push(x));
        }
    } else {
        assert(ins == seq![x] + r);
        assert(seq![x] =~= Seq::<ItemModel>::empty().push(x));
        assert(Seq::<ItemModel>::empty().filter(eqf) =~= Seq::<ItemModel>::empty()) by {
            reveal(Seq::filter);
        }
        if eqf(x) {
            // No element of r ranks equal to the pivot: it would rank at
            // least x through the pivot, though r starts strictly below x.
            assert forall|j: int| 0 <= j < r.len() implies !eqf(r[j]) by {
                if eqf(r[j]) {
                    if j > 0 {
                        lemma_rank_trans(sort_by, now, r[0], r[j], pivot);
                    }
                    lemma_rank_trans(sort_by, now, r[0], pivot, x);
                }
            }
            assert(r.all(|e: ItemModel| !eqf(e)));
            r.lemma_all_neg_filter_empty(eqf);
            assert(r.filter(eqf) =~= Seq::<ItemModel>::empty());
            assert(ins.filter(eqf) =~= r.filter(eqf).push(x));
        } else {
            assert(ins.filter(eqf) == seq![x].filter(eqf) + r.filter(eqf));
            assert(ins.filter(eqf) =~= r.filter(eqf));
        }
    }
}

/// The sort is stable: restricted to the items that rank exactly as any
/// fixed pivot does, the sorted store reads as the input did, so
/// equal-key items keep their original relative order.
pub proof fn lemma_sort_spec_stable(sort_by: SortBy, now: i64, s: Seq<ItemModel>, pivot: ItemModel)
    ensures
        sort_spec(sort_by, now, s).filter(rank_eq_fn(sort_by, now, pivot)) == s.filter(
            rank_eq_fn(sort_by, now, pivot),
        ),
    decreases s.len(),
{
    broadcast use Seq::lemma_filter_push;

    let eqf = rank_eq_fn(sort_by, now, pivot);
    if s.len() == 0 {
        assert(sort_spec(sort_by, now, s) == s);
    } else {
        let t = s.drop_last();
        lemma_sort_spec_stable(sort_by, now, t, pivot);
        lemma_sort_spec_props(sort_by, now, t);
        lemma_insert_ranked_filter(sort_by, now, s.last(), sort_spec(sort_by, now, t), pivot);
        assert(s =~= t.push(s.last()));
        assert(s.filter(eqf) == t.push(s.last()).filter(eqf));
    }
}

/// Age of `atime` at `now` in seconds, clamped to be non-negative.
fn age_exec(now: i64, atime: i64) -> (r: u64)
    ensures
        r as int == age_of(now, atime),
{
    if now >= atime {
        (now as i128 - atime as i128) as u64
    } else {
        0
    }
}

/// The scaled frecency numerator `hits * (1_000_000 + 12 * age)`, exact.
fn frecency_weight_exec(hits: u32, age: u64) -> (r: u128)
    ensures
        r as int == hits * frecency_denom(age as int),
{
    let denom: u128 = 1_000_000u128 + 12u128 * (age as u128);
    proof {
        assert((hits as int) * (denom as int) <= (u32::MAX as int) * (denom as int))
            by (nonlinear_arith)
            requires
                0 <= hits as int <= u32::MAX as int,
                0 <= denom as int,
        ;
        assert((u32::MAX as int) * (denom as int) <= (u32::MAX as int) * (1_000_000
            + 12 * (u64::MAX as int))) by (nonlinear_arith)
            requires
                0 <= denom as int <= 1_000_000 + 12 * (u64::MAX as int),
        ;
    }
    (hits as u128) * denom
}

/// Decide `rank_ge` for two items in exact integer arithmetic.
fn rank_ge_exec(sort_by: SortBy, now: i64, a: &Item, b: &Item) -> (r: bool)
    ensures
        r == rank_ge(sort_by, now, a@, b@),
{
    match sort_by {
        SortBy::Frecency => {
            let wa = frecency_weight_exec(a.hits, age_exec(now, b.atime));
            let wb = frecency_weight_exec(b.hits, age_exec(now, a.atime));
            wa >= wb
        },
        SortBy::Atime => a.atime >= b.atime,
        SortBy::Hits => a.hits >= b.hits,
    }
}

/// The frecency comparator used when sorting ascending yields descending
/// frecency order: `Less` when `a` scores strictly higher than `b`.
pub fn sort_method_frecency(a: &Item, b: &Item, now: i64) -> (r: core::cmp::Ordering)
    ensures
        r == (if !frecency_ge(now, b@, a@) {
            core::cmp::Ordering::Less
        } else if !frecency_ge(now, a@, b@) {
            core::cmp::Ordering::Greater
        } else {
            core::cmp::Ordering::Equal
        }),
{
    let wa = frecency_weight_exec(a.hits, age_exec(now, b.atime));
    let wb = frecency_weight_exec(b.hits, age_exec(now, a.atime));
    wb.cmp(&wa)
}

/// Stable sort of the store in descending order of the chosen key, with
/// frecency scores taken at time `now`. The result is pinned exactly: it is
/// the stable insertion sort of the input, so equal-key items keep their
/// original relative order.
pub fn cmd_sort(sort_by: SortBy, data: &mut Vec<Item>, now: i64)
    ensures
        views(final(data)@) == sort_spec(sort_by, now, views(old(data)@)),
{
    let ghost orig: Seq<ItemModel> = views(data@);
    let mut out: Vec<Item> = Vec::new();
    let ghost mut k: int = 0;
    proof {
        assert(orig.skip(0) =~= orig);
        assert(views(out@) =~= Seq::<ItemModel>::empty());
        assert(orig.take(0).len() == 0);
    }
    while data.len() > 0
        invariant
            0 <= k <= orig.len(),
            views(data@) =~= orig.skip(k),
            views(out@) == sort_spec(sort_by, now, orig.take(k)),
        decreases data.len(),
    {
        let ghost data_before = data@;
        proof {
            assert(views(data_before) == orig.skip(k));
            assert(views(data_before).len() == data_before.len());
            assert(data_before.len() > 0);
            assert(orig.skip(k).len() == orig.len() - k);
            assert(k < orig.len());
        }
        let x = data.remove(0);
        proof {
            assert(x == data_before[0]);
            assert(views(data_before)[0] == data_before[0]@);
            assert(orig.skip(k)[0] == orig[k]);
            assert(x@ == orig[k]);
            assert(data@ == data_before.remove(0));
            assert(data@ =~= data_before.skip(1));
            assert forall|i: int| 0 <= i < data@.len() implies views(data@)[i] == orig.skip(
                k + 1,
            )[i] by {
                assert(data@[i] == data_before[i + 1]);
                assert(views(data_before)[i + 1] == data_before[i + 1]@);
                assert(orig.skip(k)[i + 1] == orig[k + 1 + i]);
                assert(orig.skip(k + 1)[i] == orig[k + 1 + i]);
            }
            assert(views(data@) =~= orig.skip(k + 1));
        }
        let mut pos: usize = 0;
        while pos < out.len() && rank_ge_exec(sort_by, now, &out[pos], &x)
            invariant
                pos <= out.len(),
                forall|i: int| 0 <= i < pos ==> rank_ge(sort_by, now, views(out@)[i], x@),
            decreases out.len() - pos,
        {
            pos += 1;
        }
        let ghost out_before = views(out@);
        proof {
            lemma_insert_ranked_at(sort_by, now, x@, out_before, pos as int);
            out_before.insert_ensures(pos as int, x@);
        }
        out.insert(pos, x);
        proof {
            out_before.insert_ensures(pos as int, x@);
            assert(views(out@) =~= out_before.insert(pos as int, x@));
            assert(orig.take(k + 1).drop_last() =~= orig.take(k));
            assert(orig.take(k + 1).last() == orig[k]);
            k = k + 1;
        }
    }
    proof {
        assert(orig.take(k) =~= orig);
    }
    *data = out;
}

} // verus!

