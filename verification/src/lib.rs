//! Backend store for a directory "frecency" tracker: it records visited
//! filesystem paths with access statistics, ranks them by a combined
//! frequency-and-recency score, evicts the lowest-ranked entries once a
//! configured size bound is exceeded, and persists the whole store
//! atomically through a byte-exact, length-prefixed on-disk encoding.
//!
//! Every invocation of the surrounding command-line tool loads the entire
//! store, applies exactly one command (add, delete or query) and rewrites
//! the file, serialized across processes by a sentinel lock file.

mod codec;
mod error;
mod item;
mod lock;
mod ops;
mod query;
mod sorting;

pub use codec::decode_store;
pub use codec::encode_store;
pub use codec::i64_of_u64;
pub use codec::item_encodable;
pub use codec::lemma_decode_canonical;
pub use codec::lemma_i64_u64_round_trip;
pub use codec::lemma_store_round_trip;
pub use codec::lemma_u64_i64_round_trip;
pub use codec::spec_decode;
pub use codec::spec_encode;
pub use codec::store_encodable;
pub use codec::u64_of_i64;
pub use error::Error;
pub use item::fresh_item;
pub use item::touched;
pub use item::views;
pub use item::Item;
pub use item::ItemModel;
pub use lock::lock_path_of;
pub use lock::lock_protocol_step;
pub use lock::tmp_path_of;
pub use lock::LockAttempt;
pub use lock::LockStep;
pub use ops::add_all;
pub use ops::add_one;
pub use ops::add_spec;
pub use ops::cmd_add;
pub use ops::cmd_delete;
pub use ops::delete_spec;
pub use ops::evict;
pub use ops::find_path;
pub use ops::keeps;
pub use ops::lemma_add_bounded;
pub use ops::lemma_add_preserves_unique_paths;
pub use ops::lemma_add_twice;
pub use ops::lemma_evict_keeps_top;
pub use ops::lemma_find_path_at;
pub use ops::lemma_find_path_spec;
pub use ops::path_views;
pub use ops::unique_paths;
pub use ops::Settings;
pub use query::cmd_query;
pub use query::join_fragments;
pub use query::join_spec;
pub use query::matches_item;
pub use query::query_results;
pub use query::regex_matches;
pub use query::regex_ok;
pub use query::Query;
pub use sorting::age_of;
pub use sorting::cmd_sort;
pub use sorting::frecency_denom;
pub use sorting::frecency_ge;
pub use sorting::insert_ranked;
pub use sorting::lemma_rank_total;
pub use sorting::lemma_rank_trans;
pub use sorting::lemma_sort_spec_props;
pub use sorting::lemma_sort_spec_stable;
pub use sorting::parse_sort_method;
pub use sorting::rank_eq_fn;
pub use sorting::rank_ge;
pub use sorting::sort_method_frecency;
pub use sorting::sort_spec;
pub use sorting::sorted_by_rank;
pub use sorting::spec_parse_sort_method;
pub use sorting::SortBy;
