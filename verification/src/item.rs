//! The item model: one tracked path with its access statistics.

use vstd::prelude::*;

verus! {

/// One tracked path. `atime` is the unix time (seconds) of the last touch;
/// `hits` counts touches and never decreases.
pub struct Item {
    pub path: String,
    pub atime: i64,
    pub hits: u32,
}

/// Mathematical model of an [`Item`]: the path as a character sequence
/// together with the stored statistics.
pub ghost struct ItemModel {
    pub path: Seq<char>,
    pub atime: i64,
    pub hits: u32,
}

impl View for Item {
    type V = ItemModel;

    open spec fn view(&self) -> ItemModel {
        ItemModel { path: self.path@, atime: self.atime, hits: self.hits }
    }
}

/// The models of a sequence of items.
pub open spec fn views(s: Seq<Item>) -> Seq<ItemModel> {
    s.map_values(|it: Item| it@)
}

/// The model of a freshly created item: first touch at `now`.
pub open spec fn fresh_item(path: Seq<char>, now: i64) -> ItemModel {
    ItemModel { path: path, atime: now, hits: 1 }
}

/// The model of `it` after one more touch at `now`: the hit counter grows
/// by one (saturating at the counter's maximum) and the access time is
/// refreshed.
pub open spec fn touched(it: ItemModel, now: i64) -> ItemModel {
    ItemModel {
        path: it.path,
        atime: now,
        hits: if it.hits == u32::MAX { u32::MAX } else { (it.hits + 1) as u32 },
    }
}

impl Item {
    /// A new item for `path`, first touched at `now`.
    pub fn new(path: &str, now: i64) -> (r: Item)
        ensures
            r@ == fresh_item(path@, now),
    {
        Item { path: path.to_owned(), atime: now, hits: 1 }
    }

    /// Record one more access at time `now`.
    pub fn touch(&mut self, now: i64)
        ensures
            final(self)@ == touched(old(self)@, now),
    {
        self.hits = if self.hits == u32::MAX { u32::MAX } else { self.hits + 1 };
        self.atime = now;
    }
}

} // verus!
