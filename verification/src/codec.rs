//! The on-disk encoding of the store.
//!
//! The persisted file is a length-prefixed little-endian binary format:
//! a `u64` item count, then for each item a `u64` byte length followed by
//! the UTF-8 bytes of the path, the `atime` as 8 bytes (two's complement),
//! and the `hits` counter as 4 bytes. Decoding accepts exactly the byte
//! strings this format produces; leftover trailing bytes are treated as
//! corruption, since the store always rewrites the whole file.

use vstd::prelude::*;

use vstd::bytes::{
    spec_u32_to_le_bytes, spec_u32_from_le_bytes, spec_u64_to_le_bytes, spec_u64_from_le_bytes,
    u32_to_le_bytes, u32_from_le_bytes, u64_to_le_bytes, u64_from_le_bytes,
    lemma_auto_spec_u32_to_from_le_bytes, lemma_auto_spec_u64_to_from_le_bytes,
};
use vstd::slice::{slice_subrange, slice_to_vec};
use vstd::string::StrSliceExecFns;
use vstd::utf8::{decode_utf8, encode_utf8, valid_utf8};

use crate::error::Error;
use crate::item::{Item, ItemModel, views};

verus! {

broadcast use {vstd::utf8::encode_utf8_valid_utf8, vstd::utf8::encode_utf8_decode_utf8};

/// The `u64` whose two's-complement bits equal those of `x`.
pub open spec fn u64_of_i64(x: i64) -> u64 {
    if x >= 0 {
        x as u64
    } else {
        (x + 0x1_0000_0000_0000_0000) as u64
    }
}

/// The `i64` whose two's-complement bits equal those of `u`.
pub open spec fn i64_of_u64(u: u64) -> i64 {
    if u < 0x8000_0000_0000_0000 {
        u as i64
    } else {
        (u - 0x1_0000_0000_0000_0000) as i64
    }
}

/// The two conversions invert each other.
pub proof fn lemma_i64_u64_round_trip(x: i64)
    ensures
        i64_of_u64(u64_of_i64(x)) == x,
{
}

/// The two conversions invert each other, read the other way.
pub proof fn lemma_u64_i64_round_trip(u: u64)
    ensures
        u64_of_i64(i64_of_u64(u)) == u,
{
}

fn i64_to_u64(x: i64) -> (r: u64)
    ensures
        r == u64_of_i64(x),
{
    if x >= 0 {
        x as u64
    } else {
        ((x as i128) + 0x1_0000_0000_0000_0000i128) as u64
    }
}

fn u64_to_i64(u: u64) -> (r: i64)
    ensures
        r == i64_of_u64(u),
{
    if u < 0x8000_0000_0000_0000u64 {
        u as i64
    } else {
        ((u as i128) - 0x1_0000_0000_0000_0000i128) as i64
    }
}

/// The encoding of one item: path byte length, path bytes, atime, hits.
pub open spec fn spec_encode_item(it: ItemModel) -> Seq<u8> {
    spec_u64_to_le_bytes(encode_utf8(it.path).len() as u64) + encode_utf8(it.path)
        + spec_u64_to_le_bytes(u64_of_i64(it.atime)) + spec_u32_to_le_bytes(it.hits)
}

/// The items' encodings, concatenated in order.
pub open spec fn spec_encode_items(s: Seq<ItemModel>) -> Seq<u8>
    decreases s.len(),
{
    if s.len() == 0 {
        Seq::empty()
    } else {
        spec_encode_item(s[0]) + spec_encode_items(s.drop_first())
    }
}

/// The whole store: item count, then the items.
pub open spec fn spec_encode(s: Seq<ItemModel>) -> Seq<u8> {
    spec_u64_to_le_bytes(s.len() as u64) + spec_encode_items(s)
}

/// An item whose path's UTF-8 length fits the length field.
pub open spec fn item_encodable(it: ItemModel) -> bool {
    encode_utf8(it.path).len() <= u64::MAX
}

/// A store whose count and every item fit the format's fields.
pub open spec fn store_encodable(s: Seq<ItemModel>) -> bool {
    &&& s.len() <= u64::MAX
    &&& forall|i: int| 0 <= i < s.len() ==> item_encodable(#[trigger] s[i])
}

/// One item read from the front of `b`: `None` on malformed input,
/// otherwise the item and the bytes left after it.
pub open spec fn spec_decode_item(b: Seq<u8>) -> Option<(ItemModel, Seq<u8>)> {
    if b.len() < 8 {
        None
    } else {
        let n = spec_u64_from_le_bytes(b.take(8)) as int;
        let rest = b.skip(8);
        if rest.len() < n + 12 {
            None
        } else if !valid_utf8(rest.take(n)) {
            None
        } else {
            let it = ItemModel {
                path: decode_utf8(rest.take(n)),
                atime: i64_of_u64(spec_u64_from_le_bytes(rest.skip(n).take(8))),
                hits: spec_u32_from_le_bytes(rest.skip(n).skip(8).take(4)),
            };
            Some((it, rest.skip(n).skip(8).skip(4)))
        }
    }
}

/// `count` items read from `b`, which they must consume exactly.
pub open spec fn spec_decode_items(b: Seq<u8>, count: nat) -> Option<Seq<ItemModel>>
    decreases count,
{
    if count == 0 {
        if b.len() == 0 {
            Some(Seq::empty())
        } else {
            None
        }
    } else {
        match spec_decode_item(b) {
            None => None,
            Some((it, rest)) => match spec_decode_items(rest, (count - 1) as nat) {
                None => None,
                Some(s) => Some(seq![it] + s),
            },
        }
    }
}

/// The store read back from a persisted byte string, or `None` when the
/// bytes are not exactly an encoded store.
pub open spec fn spec_decode(b: Seq<u8>) -> Option<Seq<ItemModel>> {
    if b.len() < 8 {
        None
    } else {
        spec_decode_items(b.skip(8), spec_u64_from_le_bytes(b.take(8)) as nat)
    }
}

/// Decoding reads back exactly the encoded item and leaves the rest.
proof fn lemma_decode_item_encode(it: ItemModel, rest: Seq<u8>)
    requires
        item_encodable(it),
    ensures
        spec_decode_item(spec_encode_item(it) + rest) == Some((it, rest)),
{
    lemma_auto_spec_u64_to_from_le_bytes();
    lemma_auto_spec_u32_to_from_le_bytes();
    let pb = encode_utf8(it.path);
    let n = pb.len() as int;
    let e1 = spec_u64_to_le_bytes(pb.len() as u64);
    let e3 = spec_u64_to_le_bytes(u64_of_i64(it.atime));
    let e4 = spec_u32_to_le_bytes(it.hits);
    let b = spec_encode_item(it) + rest;
    assert(b.take(8) =~= e1);
    assert(spec_u64_from_le_bytes(b.take(8)) as int == n);
    let r = b.skip(8);
    assert(r =~= pb + e3 + e4 + rest);
    assert(r.len() == n + 12 + rest.len());
    assert(r.take(n) =~= pb);
    assert(decode_utf8(pb) == it.path);
    assert(r.skip(n).take(8) =~= e3);
    lemma_i64_u64_round_trip(it.atime);
    assert(r.skip(n).skip(8).take(4) =~= e4);
    assert(r.skip(n).skip(8).skip(4) =~= rest);
}

/// Decoding reads back exactly the encoded items.
proof fn lemma_decode_items_encode(s: Seq<ItemModel>)
    requires
        forall|i: int| 0 <= i < s.len() ==> item_encodable(#[trigger] s[i]),
    ensures
        spec_decode_items(spec_encode_items(s), s.len() as nat) == Some(s),
    decreases s.len(),
{
    if s.len() == 0 {
        assert(spec_encode_items(s).len() == 0);
        assert(s =~= Seq::<ItemModel>::empty());
    } else {
        let t = s.drop_first();
        lemma_decode_item_encode(s[0], spec_encode_items(t));
        lemma_decode_items_encode(t);
        assert(seq![s[0]] + t =~= s);
    }
}

/// The round-trip law of persistence: decoding an encoded store yields
/// exactly the items that were encoded.
pub proof fn lemma_store_round_trip(s: Seq<ItemModel>)
    requires
        store_encodable(s),
    ensures
        spec_decode(spec_encode(s)) == Some(s),
{
    lemma_auto_spec_u64_to_from_le_bytes();
    let b = spec_encode(s);
    assert(b.take(8) =~= spec_u64_to_le_bytes(s.len() as u64));
    assert(b.skip(8) =~= spec_encode_items(s));
    lemma_decode_items_encode(s);
}

/// Whatever one item decodes from re-encodes to exactly those bytes.
proof fn lemma_encode_item_decode(b: Seq<u8>)
    requires
        spec_decode_item(b) is Some,
    ensures
        ({
            let (it, rest) = spec_decode_item(b).unwrap();
            &&& item_encodable(it)
            &&& spec_encode_item(it) + rest == b
        }),
{
    broadcast use vstd::utf8::decode_utf8_encode_utf8;

    lemma_auto_spec_u64_to_from_le_bytes();
    lemma_auto_spec_u32_to_from_le_bytes();
    let (it, rest) = spec_decode_item(b).unwrap();
    let n = spec_u64_from_le_bytes(b.take(8)) as int;
    let r0 = b.skip(8);
    let pb = r0.take(n);
    assert(encode_utf8(it.path) == pb);
    assert(spec_u64_to_le_bytes(pb.len() as u64) =~= b.take(8));
    lemma_u64_i64_round_trip(spec_u64_from_le_bytes(r0.skip(n).take(8)));
    assert(spec_u64_to_le_bytes(u64_of_i64(it.atime)) =~= r0.skip(n).take(8));
    assert(spec_u32_to_le_bytes(it.hits) =~= r0.skip(n).skip(8).take(4));
    assert(spec_encode_item(it) + rest =~= b);
}

/// Whatever an item sequence decodes from re-encodes to exactly those
/// bytes.
proof fn lemma_encode_items_decode(b: Seq<u8>, count: nat)
    requires
        spec_decode_items(b, count) is Some,
    ensures
        ({
            let s = spec_decode_items(b, count).unwrap();
            &&& s.len() == count
            &&& forall|i: int| 0 <= i < s.len() ==> item_encodable(#[trigger] s[i])
            &&& spec_encode_items(s) == b
        }),
    decreases count,
{
    let s = spec_decode_items(b, count).unwrap();
    if count == 0 {
        assert(b =~= Seq::<u8>::empty());
        assert(spec_encode_items(s) =~= b);
    } else {
        let (it, rest) = spec_decode_item(b).unwrap();
        lemma_encode_item_decode(b);
        lemma_encode_items_decode(rest, (count - 1) as nat);
        let tail = spec_decode_items(rest, (count - 1) as nat).unwrap();
        assert(s == seq![it] + tail);
        assert(s[0] == it);
        assert(s.drop_first() =~= tail);
        assert forall|i: int| 0 <= i < s.len() implies item_encodable(#[trigger] s[i]) by {
            if i > 0 {
                assert(s[i] == tail[i - 1]);
            }
        }
        assert(spec_encode_items(s) == spec_encode_item(it) + spec_encode_items(tail));
        assert(spec_encode_items(s) =~= b);
    }
}

/// The persisted format is canonical: a byte string that decodes at all is
/// exactly the encoding of what it decodes to.
pub proof fn lemma_decode_canonical(b: Seq<u8>)
    requires
        spec_decode(b) is Some,
    ensures
        ({
            let s = spec_decode(b).unwrap();
            &&& store_encodable(s)
            &&& spec_encode(s) == b
        }),
{
    lemma_auto_spec_u64_to_from_le_bytes();
    let s = spec_decode(b).unwrap();
    let count = spec_u64_from_le_bytes(b.take(8)) as nat;
    lemma_encode_items_decode(b.skip(8), count);
    assert(spec_u64_to_le_bytes(s.len() as u64) =~= b.take(8));
    assert(spec_encode(s) =~= b.take(8) + b.skip(8));
    assert(b.take(8) + b.skip(8) =~= b);
}

/// The items' encodings concatenate one at a time.
proof fn lemma_encode_items_push(s: Seq<ItemModel>, it: ItemModel)
    ensures
        spec_encode_items(s.push(it)) == spec_encode_items(s) + spec_encode_item(it),
    decreases s.len(),
{
    if s.len() == 0 {
        assert(s.push(it)[0] == it);
        assert(s.push(it).drop_first() =~= Seq::<ItemModel>::empty());
        assert(spec_encode_items(s.push(it).drop_first()) == Seq::<u8>::empty());
        assert(spec_encode_items(s.push(it)) =~= spec_encode_items(s) + spec_encode_item(it));
    } else {
        assert(s.push(it)[0] == s[0]);
        assert(s.push(it).drop_first() =~= s.drop_first().push(it));
        lemma_encode_items_push(s.drop_first(), it);
        assert(spec_encode_items(s.push(it)) == spec_encode_item(s[0]) + spec_encode_items(
            s.drop_first().push(it),
        ));
        assert(spec_encode_items(s) == spec_encode_item(s[0]) + spec_encode_items(s.drop_first()));
        assert(spec_encode_items(s.push(it)) =~= spec_encode_items(s) + spec_encode_item(it));
    }
}

/// Serialize the store into the persisted byte format.
pub fn encode_store(data: &Vec<Item>) -> (r: Vec<u8>)
    ensures
        r@ == spec_encode(views(data@)),
{
    let ghost models: Seq<ItemModel> = views(data@);
    let n = data.len();
    let mut out: Vec<u8> = u64_to_le_bytes(n as u64);
    let mut i: usize = 0;
    proof {
        assert(spec_encode_items(models.take(0)) =~= Seq::<u8>::empty());
        assert(out@ =~= spec_u64_to_le_bytes(models.len() as u64) + spec_encode_items(
            models.take(0),
        ));
    }
    while i < n
        invariant
            0 <= i <= n,
            n == data@.len(),
            models == views(data@),
            out@ == spec_u64_to_le_bytes(models.len() as u64) + spec_encode_items(
                models.take(i as int),
            ),
        decreases n - i,
    {
        let ghost before = out@;
        let mut pb: Vec<u8> = data[i].path.as_str().as_bytes_vec();
        let mut len_bytes = u64_to_le_bytes(pb.len() as u64);
        let mut atime_bytes = u64_to_le_bytes(i64_to_u64(data[i].atime));
        let mut hits_bytes = u32_to_le_bytes(data[i].hits);
        out.append(&mut len_bytes);
        out.append(&mut pb);
        out.append(&mut atime_bytes);
        out.append(&mut hits_bytes);
        proof {
            assert(views(data@)[i as int] == data@[i as int]@);
            assert(out@ =~= before + spec_encode_item(models[i as int]));
            lemma_encode_items_push(models.take(i as int), models[i as int]);
            assert(models.take(i + 1) =~= models.take(i as int).push(models[i as int]));
            assert(out@ =~= spec_u64_to_le_bytes(models.len() as u64) + spec_encode_items(
                models.take(i + 1),
            ));
        }
        i += 1;
    }
    proof {
        assert(models.take(n as int) =~= models);
    }
    out
}

/// Relies on String::from_utf8: it succeeds exactly on valid UTF-8 input,
/// and the returned string's UTF-8 encoding is exactly the input bytes.
#[verifier::external_body]
fn string_from_utf8(bytes: Vec<u8>) -> (r: Option<String>)
    ensures
        r is Some <==> valid_utf8(bytes@),
        r matches Some(s) ==> encode_utf8(s@) == bytes@,
{
    String::from_utf8(bytes).ok()
}

/// What remains to be proven equal to the whole decoding while `done`
/// items are already parsed and `remaining` more start at `pos`.
spec fn decode_state(b: Seq<u8>, done: Seq<ItemModel>, pos: int, remaining: nat) -> Option<
    Seq<ItemModel>,
> {
    match spec_decode_items(b.skip(pos), remaining) {
        None => None,
        Some(s) => Some(done + s),
    }
}

/// Deserialize a persisted byte string back into the store. The result is
/// `DataCorrupt` exactly when the bytes are not an encoded store.
pub fn decode_store(bytes: &Vec<u8>) -> (r: Result<Vec<Item>, Error>)
    ensures
        match r {
            Ok(v) => spec_decode(bytes@) == Some(views(v@)),
            Err(e) => e == Error::DataCorrupt && spec_decode(bytes@) is None,
        },
{
    let n = bytes.len();
    if n < 8 {
        return Err(Error::DataCorrupt);
    }
    let count: u64 = u64_from_le_bytes(slice_subrange(bytes.as_slice(), 0, 8));
    proof {
        assert(bytes@.subrange(0, 8) =~= bytes@.take(8));
    }
    let mut out: Vec<Item> = Vec::new();
    let mut pos: usize = 8;
    let mut remaining: u64 = count;
    proof {
        assert(views(out@) =~= Seq::<ItemModel>::empty());
        if spec_decode_items(bytes@.skip(8), count as nat) is Some {
            let s = spec_decode_items(bytes@.skip(8), count as nat).unwrap();
            assert(views(out@) + s =~= s);
        }
    }
    while remaining > 0
        invariant
            8 <= pos <= n,
            n == bytes@.len(),
            spec_decode(bytes@) == decode_state(bytes@, views(out@), pos as int, remaining as nat),
        decreases remaining,
    {
        let ghost b = bytes@.skip(pos as int);
        let avail = n - pos;
        if avail < 8 {
            proof {
                assert(b.len() < 8);
                assert(spec_decode_items(b, remaining as nat) is None);
            }
            return Err(Error::DataCorrupt);
        }
        let plen64: u64 = u64_from_le_bytes(slice_subrange(bytes.as_slice(), pos, pos + 8));
        proof {
            assert(bytes@.subrange(pos as int, pos + 8) =~= b.take(8));
        }
        let ghost rest = b.skip(8);
        let ghost pn = plen64 as int;
        let avail8 = avail - 8;
        proof {
            assert(rest.len() == avail8);
        }
        if avail8 < 12 || plen64 > (avail8 - 12) as u64 {
            proof {
                assert(rest.len() < pn + 12);
                assert(spec_decode_item(b) is None);
                assert(spec_decode_items(b, remaining as nat) is None);
            }
            return Err(Error::DataCorrupt);
        }
        let pl = plen64 as usize;
        let pb: Vec<u8> = slice_to_vec(slice_subrange(bytes.as_slice(), pos + 8, pos + 8 + pl));
        proof {
            assert(pb@ =~= rest.take(pn));
        }
        let path = match string_from_utf8(pb) {
            Some(p) => p,
            None => {
                proof {
                    assert(!valid_utf8(rest.take(pn)));
                    assert(spec_decode_item(b) is None);
                    assert(spec_decode_items(b, remaining as nat) is None);
                }
                return Err(Error::DataCorrupt);
            },
        };
        let au: u64 = u64_from_le_bytes(
            slice_subrange(bytes.as_slice(), pos + 8 + pl, pos + 16 + pl),
        );
        let hits: u32 = u32_from_le_bytes(
            slice_subrange(bytes.as_slice(), pos + 16 + pl, pos + 20 + pl),
        );
        let atime = u64_to_i64(au);
        let item = Item { path, atime, hits };
        let ghost out_before = views(out@);
        let ghost new_pos = pos + 20 + pl;
        let ghost b2 = bytes@.skip(new_pos as int);
        proof {
            assert(bytes@.subrange(pos + 8 + pl, pos + 16 + pl) =~= rest.skip(pn).take(8));
            assert(bytes@.subrange(pos + 16 + pl, pos + 20 + pl) =~= rest.skip(pn).skip(8).take(4));
            assert(decode_utf8(rest.take(pn)) == item@.path);
            assert(rest.skip(pn).skip(8).skip(4) =~= b2);
            assert(spec_decode_item(b) == Some((item@, b2)));
        }
        out.push(item);
        pos = pos + 20 + pl;
        remaining = remaining - 1;
        proof {
            assert(views(out@) =~= out_before.push(item@));
            if spec_decode_items(b2, remaining as nat) is Some {
                let s2 = spec_decode_items(b2, remaining as nat).unwrap();
                assert(out_before + (seq![item@] + s2) =~= views(out@) + s2);
            }
        }
    }
    if pos == n {
        proof {
            assert(bytes@.skip(pos as int).len() == 0);
            assert(spec_decode_items(bytes@.skip(pos as int), 0) == Some(Seq::<ItemModel>::empty()));
            assert(views(out@) + Seq::<ItemModel>::empty() =~= views(out@));
        }
        Ok(out)
    } else {
        proof {
            assert(bytes@.skip(pos as int).len() > 0);
            assert(spec_decode_items(bytes@.skip(pos as int), 0) is None);
        }
        Err(Error::DataCorrupt)
    }
}

} // verus!
