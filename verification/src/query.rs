//! The query command: sort the store, then emit every path matching the
//! query pattern, in sorted order.
//!
//! Pattern compilation and matching are the regex crate's work. Both are
//! deterministic in their text arguments, so the library names their
//! results (`regex_ok`, `regex_matches`) and the query contract is exact
//! over those names.

use vstd::prelude::*;

use crate::error::Error;
use crate::item::{Item, ItemModel, views};
use crate::ops::path_views;
use crate::sorting::{SortBy, cmd_sort, sort_spec};

verus! {

/// Whether the regex crate accepts `pattern` as a regular expression:
/// compilation succeeds or fails by the pattern text alone.
pub uninterp spec fn regex_ok(pattern: Seq<char>) -> bool;

/// What matching a compiled `pattern` against `text` returns: a function
/// of the two character sequences alone.
pub uninterp spec fn regex_matches(pattern: Seq<char>, text: Seq<char>) -> bool;

#[verifier::external_type_specification]
#[verifier::external_body]
pub struct ExRegex(regex::Regex);

/// A compiled query: the regex together with the pattern text it was
/// compiled from. The fields are private, so every `Query` holds the
/// regex of its own pattern.
pub struct Query {
    re: regex::Regex,
    pattern: String,
}

impl Query {
    /// The pattern this query was compiled from.
    pub closed spec fn pattern(&self) -> Seq<char> {
        self.pattern@
    }

    /// Relies on regex::Regex::new: it compiles the pattern or reports an
    /// error, decided by the pattern text alone (with the crate's default
    /// size limit).
    #[verifier::external_body]
    pub fn new(pattern: &str) -> (r: Option<Query>)
        ensures
            r is Some <==> regex_ok(pattern@),
            r matches Some(q) ==> q.pattern() == pattern@,
    {
        match regex::Regex::new(pattern) {
            Ok(re) => Some(Query { re, pattern: pattern.to_string() }),
            Err(_) => None,
        }
    }

    /// Relies on regex::Regex::is_match: whether the haystack contains a
    /// match, a function of the compiled pattern and the text alone.
    #[verifier::external_body]
    pub fn is_match(&self, text: &str) -> (r: bool)
        ensures
            r == regex_matches(self.pattern(), text@),
    {
        self.re.is_match(text)
    }
}

/// Whether an item's path matches the query pattern.
pub open spec fn matches_item(pattern: Seq<char>) -> spec_fn(ItemModel) -> bool {
    |it: ItemModel| regex_matches(pattern, it.path)
}

/// The paths a query emits: those of the matching items, in store order.
pub open spec fn query_results(s: Seq<ItemModel>, pattern: Seq<char>) -> Seq<Seq<char>> {
    s.filter(matches_item(pattern)).map_values(|it: ItemModel| it.path)
}

/// Several pattern fragments joined into one pattern with `.*` between
/// them, so later fragments need not be contiguous with earlier ones.
pub open spec fn join_spec(parts: Seq<Seq<char>>) -> Seq<char>
    decreases parts.len(),
{
    if parts.len() == 0 {
        Seq::empty()
    } else if parts.len() == 1 {
        parts[0]
    } else {
        parts[0] + ".*"@ + join_spec(parts.drop_first())
    }
}

/// Joining one more fragment at the end appends a `.*` and the fragment.
proof fn lemma_join_push(q: Seq<Seq<char>>, p: Seq<char>)
    ensures
        join_spec(q.push(p)) == if q.len() == 0 {
            p
        } else {
            join_spec(q) + ".*"@ + p
        },
    decreases q.len(),
{
    if q.len() == 0 {
        assert(q.push(p)[0] == p);
    } else if q.len() == 1 {
        assert(q.push(p)[0] == q[0]);
        assert(q.push(p).drop_first() =~= seq![p]);
        assert(join_spec(q.push(p).drop_first()) == p);
    } else {
        assert(q.push(p)[0] == q[0]);
        assert(q.push(p).drop_first() =~= q.drop_first().push(p));
        lemma_join_push(q.drop_first(), p);
        assert(join_spec(q.push(p)) == q[0] + ".*"@ + (join_spec(q.drop_first()) + ".*"@ + p));
        assert(join_spec(q) == q[0] + ".*"@ + join_spec(q.drop_first()));
        assert(q[0] + ".*"@ + (join_spec(q.drop_first()) + ".*"@ + p) =~= (q[0] + ".*"@
            + join_spec(q.drop_first())) + ".*"@ + p);
    }
}

/// Join the given pattern fragments with intervening `.*` wildcards.
pub fn join_fragments(parts: &[String]) -> (r: String)
    ensures
        r@ == join_spec(path_views(parts@)),
{
    let ghost ps: Seq<Seq<char>> = path_views(parts@);
    let mut out = String::new();
    let n = parts.len();
    let mut i: usize = 0;
    proof {
        assert(ps.take(0).len() == 0);
        assert(out@ =~= join_spec(ps.take(0)));
    }
    while i < n
        invariant
            0 <= i <= n,
            n == parts@.len(),
            ps == path_views(parts@),
            out@ == join_spec(ps.take(i as int)),
        decreases n - i,
    {
        if i > 0 {
            out.append(".*");
        }
        out.append(parts[i].as_str());
        proof {
            assert(ps[i as int] == parts@[i as int]@);
            lemma_join_push(ps.take(i as int), ps[i as int]);
            assert(ps.take(i + 1) =~= ps.take(i as int).push(ps[i as int]));
            if i == 0 {
                assert(out@ =~= join_spec(ps.take(i + 1)));
            } else {
                assert(out@ =~= join_spec(ps.take(i as int)) + ".*"@ + ps[i as int]);
            }
        }
        i += 1;
    }
    proof {
        assert(ps.take(n as int) =~= ps);
    }
    out
}

/// Compile the pattern, sort the store by the chosen method at time `now`,
/// and return the paths of the matching items in sorted order. When the
/// pattern does not compile, the store is untouched and the error says so.
pub fn cmd_query(sort_by: SortBy, data: &mut Vec<Item>, pattern: &str, now: i64) -> (r: Result<
    Vec<String>,
    Error,
>)
    ensures
        r is Ok <==> regex_ok(pattern@),
        r matches Err(e) ==> e == Error::PatternError && *final(data) == *old(data),
        r matches Ok(paths) ==> views(final(data)@) == sort_spec(sort_by, now, views(old(data)@))
            && path_views(paths@) == query_results(
            sort_spec(sort_by, now, views(old(data)@)),
            pattern@,
        ),
{
    let q = match Query::new(pattern) {
        Some(q) => q,
        None => {
            return Err(Error::PatternError);
        },
    };
    cmd_sort(sort_by, data, now);
    let ghost sorted: Seq<ItemModel> = views(data@);
    let ghost m = matches_item(pattern@);
    let mut results: Vec<String> = Vec::new();
    let n = data.len();
    let mut i: usize = 0;
    proof {
        assert(sorted.take(0).filter(m) =~= Seq::<ItemModel>::empty());
        assert(path_views(results@) =~= sorted.take(0).filter(m).map_values(
            |it: ItemModel| it.path,
        ));
    }
    while i < n
        invariant
            0 <= i <= n,
            n == data@.len(),
            q.pattern() == pattern@,
            m == matches_item(pattern@),
            sorted == views(data@),
            path_views(results@) == sorted.take(i as int).filter(m).map_values(
                |it: ItemModel| it.path,
            ),
        decreases n - i,
    {
        let ghost results_before = results@;
        proof {
            assert(views(data@)[i as int] == data@[i as int]@);
            assert(m(sorted[i as int]) == regex_matches(pattern@, sorted[i as int].path));
        }
        if q.is_match(data[i].path.as_str()) {
            results.push(data[i].path.clone());
            proof {
                assert(path_views(results@) =~= path_views(results_before).push(
                    sorted[i as int].path,
                ));
            }
        }
        proof {
            assert(sorted.take(i + 1) =~= sorted.take(i as int).push(sorted[i as int]));
            Seq::lemma_filter_push(sorted.take(i as int), sorted[i as int], m);
            assert(path_views(results@) =~= sorted.take(i + 1).filter(m).map_values(
                |it: ItemModel| it.path,
            ));
        }
        i += 1;
    }
    proof {
        assert(sorted.take(n as int) =~= sorted);
    }
    Ok(results)
}

} // verus!
