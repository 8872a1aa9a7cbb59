//! The store's fixed binary encoding.
//!
//! A serialized store is an 8-byte little-endian counter, a 4-byte
//! little-endian entry count, and then each entry in order: a 4-byte
//! little-endian length prefix, the link's bytes, and the submitter's
//! 32 address bytes.

use vstd::prelude::*;

use crate::store::BaseAccount;
use crate::store::BaseAccountView;
use crate::store::ItemStruct;
use crate::store::ItemView;
use crate::store::RESERVED_SPACE;
use crate::store::account_wf;
use crate::store::item_wf;
use crate::store::items_view;

verus! {

/// The little-endian bytes of a 32-bit integer.
pub open spec fn spec_u32_le(n: u32) -> Seq<u8> {
    seq![
        (n & 0xff) as u8,
        ((n >> 8) & 0xff) as u8,
        ((n >> 16) & 0xff) as u8,
        ((n >> 24) & 0xff) as u8,
    ]
}

/// The 32-bit integer read from four little-endian bytes.
pub open spec fn spec_u32_of_le(b: Seq<u8>) -> u32
    recommends
        b.len() == 4,
{
    (b[0] as u32) | ((b[1] as u32) << 8) | ((b[2] as u32) << 16) | ((b[3] as u32) << 24)
}

/// The little-endian bytes of a 64-bit integer.
pub open spec fn spec_u64_le(n: u64) -> Seq<u8> {
    seq![
        (n & 0xff) as u8,
        ((n >> 8) & 0xff) as u8,
        ((n >> 16) & 0xff) as u8,
        ((n >> 24) & 0xff) as u8,
        ((n >> 32) & 0xff) as u8,
        ((n >> 40) & 0xff) as u8,
        ((n >> 48) & 0xff) as u8,
        ((n >> 56) & 0xff) as u8,
    ]
}

/// The 64-bit integer read from eight little-endian bytes.
pub open spec fn spec_u64_of_le(b: Seq<u8>) -> u64
    recommends
        b.len() == 8,
{
    (b[0] as u64) | ((b[1] as u64) << 8) | ((b[2] as u64) << 16) | ((b[3] as u64) << 24)
        | ((b[4] as u64) << 32) | ((b[5] as u64) << 40) | ((b[6] as u64) << 48)
        | ((b[7] as u64) << 56)
}

/// Decoding the little-endian bytes of a 32-bit integer gives it back.
pub proof fn lemma_u32_le_roundtrip(n: u32)
    ensures
        spec_u32_of_le(spec_u32_le(n)) == n,
{
    assert((((n & 0xff) as u8) as u32) | ((((n >> 8) & 0xff) as u8) as u32) << 8
        | ((((n >> 16) & 0xff) as u8) as u32) << 16 | ((((n >> 24) & 0xff) as u8) as u32) << 24
        == n) by (bit_vector);
}

/// Encoding the 32-bit integer read from four bytes gives the bytes back.
pub proof fn lemma_u32_of_le_roundtrip(b: Seq<u8>)
    requires
        b.len() == 4,
    ensures
        spec_u32_le(spec_u32_of_le(b)) == b,
{
    let x0 = b[0];
    let x1 = b[1];
    let x2 = b[2];
    let x3 = b[3];
    let n = spec_u32_of_le(b);
    assert((n & 0xff) as u8 == x0 && ((n >> 8) & 0xff) as u8 == x1
        && ((n >> 16) & 0xff) as u8 == x2 && ((n >> 24) & 0xff) as u8 == x3) by (bit_vector)
        requires
            n == (x0 as u32) | ((x1 as u32) << 8) | ((x2 as u32) << 16) | ((x3 as u32) << 24),
    ;
    assert(spec_u32_le(n) =~= b);
}

/// Decoding the little-endian bytes of a 64-bit integer gives it back.
pub proof fn lemma_u64_le_roundtrip(n: u64)
    ensures
        spec_u64_of_le(spec_u64_le(n)) == n,
{
    assert((((n & 0xff) as u8) as u64) | ((((n >> 8) & 0xff) as u8) as u64) << 8
        | ((((n >> 16) & 0xff) as u8) as u64) << 16 | ((((n >> 24) & 0xff) as u8) as u64) << 24
        | ((((n >> 32) & 0xff) as u8) as u64) << 32 | ((((n >> 40) & 0xff) as u8) as u64) << 40
        | ((((n >> 48) & 0xff) as u8) as u64) << 48 | ((((n >> 56) & 0xff) as u8) as u64) << 56
        == n) by (bit_vector);
}

/// Encoding the 64-bit integer read from eight bytes gives the bytes back.
pub proof fn lemma_u64_of_le_roundtrip(b: Seq<u8>)
    requires
        b.len() == 8,
    ensures
        spec_u64_le(spec_u64_of_le(b)) == b,
{
    let x0 = b[0];
    let x1 = b[1];
    let x2 = b[2];
    let x3 = b[3];
    let x4 = b[4];
    let x5 = b[5];
    let x6 = b[6];
    let x7 = b[7];
    let n = spec_u64_of_le(b);
    assert((n & 0xff) as u8 == x0 && ((n >> 8) & 0xff) as u8 == x1
        && ((n >> 16) & 0xff) as u8 == x2 && ((n >> 24) & 0xff) as u8 == x3
        && ((n >> 32) & 0xff) as u8 == x4 && ((n >> 40) & 0xff) as u8 == x5
        && ((n >> 48) & 0xff) as u8 == x6 && ((n >> 56) & 0xff) as u8 == x7) by (bit_vector)
        requires
            n == (x0 as u64) | ((x1 as u64) << 8) | ((x2 as u64) << 16) | ((x3 as u64) << 24)
                | ((x4 as u64) << 32) | ((x5 as u64) << 40) | ((x6 as u64) << 48)
                | ((x7 as u64) << 56),
    ;
    assert(spec_u64_le(n) =~= b);
}

/// The serialized form of one entry: length prefix, link bytes, address.
pub open spec fn spec_ser_item(i: ItemView) -> Seq<u8> {
    spec_u32_le(i.gif_link.len() as u32) + i.gif_link + i.user_address
}

/// The serialized form of a list of entries, in order.
pub open spec fn spec_ser_items(items: Seq<ItemView>) -> Seq<u8>
    decreases items.len(),
{
    if items.len() == 0 {
        Seq::empty()
    } else {
        spec_ser_item(items[0]) + spec_ser_items(items.drop_first())
    }
}

/// The serialized form of the whole store: counter, entry count, entries.
pub open spec fn spec_ser_account(a: BaseAccountView) -> Seq<u8> {
    spec_u64_le(a.total_gifs) + spec_u32_le(a.gif_list.len() as u32) + spec_ser_items(a.gif_list)
}

/// Serializing a concatenation of entry lists concatenates their
/// serialized forms.
pub proof fn lemma_ser_items_concat(a: Seq<ItemView>, b: Seq<ItemView>)
    ensures
        spec_ser_items(a + b) == spec_ser_items(a) + spec_ser_items(b),
    decreases a.len(),
{
    if a.len() == 0 {
        assert(a + b =~= b);
        assert(spec_ser_items(a) + spec_ser_items(b) =~= spec_ser_items(b));
    } else {
        assert((a + b).drop_first() =~= a.drop_first() + b);
        lemma_ser_items_concat(a.drop_first(), b);
        assert(spec_ser_item((a + b)[0]) + (spec_ser_items(a.drop_first()) + spec_ser_items(b))
            =~= spec_ser_items(a) + spec_ser_items(b));
    }
}

/// Appending one entry appends its serialized form.
pub proof fn lemma_ser_items_push(items: Seq<ItemView>, i: ItemView)
    ensures
        spec_ser_items(items.push(i)) == spec_ser_items(items) + spec_ser_item(i),
{
    assert(items.push(i) =~= items + seq![i]);
    lemma_ser_items_concat(items, seq![i]);
    assert(seq![i].drop_first() =~= Seq::<ItemView>::empty());
    assert(spec_ser_items(seq![i]) == spec_ser_item(i) + spec_ser_items(seq![i].drop_first()));
    assert(spec_ser_item(i) + Seq::<u8>::empty() =~= spec_ser_item(i));
}

/// Each entry's serialized form takes at least four bytes, so the number of
/// entries is bounded by the serialized length.
pub proof fn lemma_ser_items_len_lower(items: Seq<ItemView>)
    ensures
        spec_ser_items(items).len() >= 4 * items.len(),
    decreases items.len(),
{
    if items.len() > 0 {
        lemma_ser_items_len_lower(items.drop_first());
    }
}

/// Parse one entry from the front of `b`: a length prefix, that many link
/// bytes, and a 32-byte address. Returns the entry and the remaining bytes.
pub open spec fn spec_parse_item(b: Seq<u8>) -> Option<(ItemView, Seq<u8>)> {
    if b.len() >= 4 {
        let l = spec_u32_of_le(b.take(4)) as int;
        if b.len() >= 4 + l + 32 {
            Some((
                ItemView {
                    gif_link: b.subrange(4, 4 + l),
                    user_address: b.subrange(4 + l, 4 + l + 32),
                },
                b.skip(4 + l + 32),
            ))
        } else {
            None
        }
    } else {
        None
    }
}

/// Parse exactly `n` entries from the front of `b`.
pub open spec fn spec_parse_items(b: Seq<u8>, n: nat) -> Option<(Seq<ItemView>, Seq<u8>)>
    decreases n,
{
    if n == 0 {
        Some((Seq::empty(), b))
    } else {
        match spec_parse_item(b) {
            Some((i, rest)) => match spec_parse_items(rest, (n - 1) as nat) {
                Some((items, rest2)) => Some((seq![i] + items, rest2)),
                None => None,
            },
            None => None,
        }
    }
}

/// Parse a whole store: counter, entry count, then exactly that many
/// entries, with nothing left over and the counter equal to the count.
pub open spec fn spec_deser_account(b: Seq<u8>) -> Option<BaseAccountView> {
    if b.len() >= 12 {
        let total = spec_u64_of_le(b.take(8));
        let n = spec_u32_of_le(b.subrange(8, 12));
        if total == n as u64 {
            match spec_parse_items(b.skip(12), n as nat) {
                Some((items, rest)) => if rest.len() == 0 {
                    Some(BaseAccountView { total_gifs: total, gif_list: items })
                } else {
                    None
                },
                None => None,
            }
        } else {
            None
        }
    } else {
        None
    }
}

/// Parsing one entry off its serialized form, whatever follows, gives the
/// entry back and leaves exactly what followed.
pub proof fn lemma_parse_item_of_ser(i: ItemView, tail: Seq<u8>)
    requires
        item_wf(i),
    ensures
        spec_parse_item(spec_ser_item(i) + tail) == Some::<(ItemView, Seq<u8>)>((i, tail)),
{
    let b = spec_ser_item(i) + tail;
    let l = i.gif_link.len() as int;
    assert(b.take(4) =~= spec_u32_le(l as u32));
    lemma_u32_le_roundtrip(l as u32);
    assert(spec_u32_of_le(b.take(4)) == l);
    assert(b.len() >= 4 + l + 32);
    assert(b.subrange(4, 4 + l) =~= i.gif_link);
    assert(b.subrange(4 + l, 4 + l + 32) =~= i.user_address);
    assert(b.skip(4 + l + 32) =~= tail);
    assert(spec_parse_item(b) matches Some(p) && p.0 =~= i && p.1 =~= tail);
}

/// Unfolding step of `spec_parse_items`: parsing one more entry.
proof fn lemma_parse_items_cons(b: Seq<u8>, i: ItemView, rest: Seq<u8>, items: Seq<ItemView>, tail: Seq<u8>)
    requires
        spec_parse_item(b) == Some::<(ItemView, Seq<u8>)>((i, rest)),
        spec_parse_items(rest, items.len()) == Some::<(Seq<ItemView>, Seq<u8>)>((items, tail)),
    ensures
        spec_parse_items(b, items.len() + 1) == Some::<(Seq<ItemView>, Seq<u8>)>((
            seq![i] + items,
            tail,
        )),
{
}

/// Parsing `n` well-formed entries off their serialized form gives them
/// back and leaves exactly what followed.
#[verifier::spinoff_prover]
#[verifier::rlimit(100)]
pub proof fn lemma_parse_items_of_ser(items: Seq<ItemView>, tail: Seq<u8>)
    requires
        forall|k: int| 0 <= k < items.len() ==> item_wf(#[trigger] items[k]),
    ensures
        spec_parse_items(spec_ser_items(items) + tail, items.len())
            == Some::<(Seq<ItemView>, Seq<u8>)>((items, tail)),
    decreases items.len(),
{
    let b = spec_ser_items(items) + tail;
    if items.len() == 0 {
        assert(b =~= tail);
        assert(items =~= Seq::<ItemView>::empty());
    } else {
        let rest = items.drop_first();
        let mid = spec_ser_items(rest) + tail;
        assert(b =~= spec_ser_item(items[0]) + mid) by {
            assert(spec_ser_items(items) == spec_ser_item(items[0]) + spec_ser_items(rest));
        }
        assert(spec_parse_item(b) == Some::<(ItemView, Seq<u8>)>((items[0], mid))) by {
            lemma_parse_item_of_ser(items[0], mid);
        }
        assert(spec_parse_items(mid, rest.len()) == Some::<(Seq<ItemView>, Seq<u8>)>((
            rest,
            tail,
        ))) by {
            assert(forall|k: int| 0 <= k < rest.len() ==> item_wf(#[trigger] rest[k]));
            lemma_parse_items_of_ser(rest, tail);
        }
        lemma_parse_items_cons(b, items[0], mid, rest, tail);
        assert(seq![items[0]] + rest =~= items);
    }
}

/// Serializing a well-formed store and parsing the bytes back yields the
/// same store.
pub proof fn lemma_ser_deser_account(a: BaseAccountView)
    requires
        account_wf(a),
    ensures
        spec_deser_account(spec_ser_account(a)) == Some(a),
{
    let b = spec_ser_account(a);
    let n = a.gif_list.len() as u32;
    assert(b.take(8) =~= spec_u64_le(a.total_gifs));
    lemma_u64_le_roundtrip(a.total_gifs);
    assert(b.subrange(8, 12) =~= spec_u32_le(n));
    lemma_u32_le_roundtrip(n);
    assert(b.skip(12) =~= spec_ser_items(a.gif_list) + Seq::<u8>::empty());
    lemma_parse_items_of_ser(a.gif_list, Seq::empty());
    assert(spec_deser_account(b) matches Some(got) && got =~= a);
}

/// Whatever `spec_parse_item` accepts is the serialized form of the
/// well-formed entry it returns, followed by what it leaves over.
pub proof fn lemma_parse_item_sound(b: Seq<u8>)
    ensures
        spec_parse_item(b) matches Some(p) ==> {
            &&& item_wf(p.0)
            &&& spec_ser_item(p.0) + p.1 == b
        },
{
    if spec_parse_item(b) is Some {
        let i = spec_parse_item(b)->Some_0.0;
        let rest = spec_parse_item(b)->Some_0.1;
        lemma_u32_of_le_roundtrip(b.take(4));
        assert(spec_u32_le(i.gif_link.len() as u32) =~= b.take(4));
        assert(spec_ser_item(i) + rest =~= b);
    }
}

/// Unfolding step of `spec_ser_items`: serializing one more entry in front.
proof fn lemma_ser_items_cons(i: ItemView, items: Seq<ItemView>)
    ensures
        spec_ser_items(seq![i] + items) == spec_ser_item(i) + spec_ser_items(items),
{
    let all = seq![i] + items;
    assert(all[0] == i);
    assert(all.drop_first() =~= items);
}

/// Whatever `spec_parse_items` accepts is the concatenation of the
/// serialized forms of the well-formed entries it returns, followed by what
/// it leaves over.
#[verifier::spinoff_prover]
#[verifier::rlimit(100)]
pub proof fn lemma_parse_items_sound(b: Seq<u8>, n: nat)
    requires
        spec_parse_items(b, n) is Some,
    ensures
        ({
            let p = spec_parse_items(b, n)->Some_0;
            &&& p.0.len() == n
            &&& forall|k: int| 0 <= k < p.0.len() ==> item_wf(#[trigger] p.0[k])
            &&& spec_ser_items(p.0) + p.1 == b
        }),
    decreases n,
{
    if n == 0 {
        assert(spec_ser_items(Seq::<ItemView>::empty()) + b =~= b);
    } else {
        let i = spec_parse_item(b)->Some_0.0;
        let rest = spec_parse_item(b)->Some_0.1;
        lemma_parse_item_sound(b);
        lemma_parse_items_sound(rest, (n - 1) as nat);
        let items = spec_parse_items(rest, (n - 1) as nat)->Some_0.0;
        let rest2 = spec_parse_items(rest, (n - 1) as nat)->Some_0.1;
        let all = seq![i] + items;
        assert(spec_parse_items(b, n) == Some::<(Seq<ItemView>, Seq<u8>)>((all, rest2)));
        assert(forall|k: int| 0 <= k < all.len() ==> item_wf(#[trigger] all[k])) by {
            assert(all[0] == i);
            assert(forall|k: int| 1 <= k < all.len() ==> #[trigger] all[k] == items[k - 1]);
        }
        assert(spec_ser_items(all) + rest2 == b) by {
            lemma_ser_items_cons(i, items);
            assert((spec_ser_item(i) + spec_ser_items(items)) + rest2 =~= spec_ser_item(i)
                + (spec_ser_items(items) + rest2));
        }
    }
}

/// Whatever `spec_deser_account` accepts is the serialized form of the
/// well-formed store it returns.
#[verifier::rlimit(60)]
pub proof fn lemma_deser_ser_account(b: Seq<u8>)
    ensures
        spec_deser_account(b) matches Some(a) ==> {
            &&& account_wf(a)
            &&& spec_ser_account(a) == b
        },
{
    if spec_deser_account(b) is Some {
        let a = spec_deser_account(b)->Some_0;
        let n = spec_u32_of_le(b.subrange(8, 12));
        lemma_parse_items_sound(b.skip(12), n as nat);
        lemma_u64_of_le_roundtrip(b.take(8));
        lemma_u32_of_le_roundtrip(b.subrange(8, 12));
        assert(spec_u64_le(a.total_gifs) =~= b.take(8));
        assert(spec_u32_le(a.gif_list.len() as u32) =~= b.subrange(8, 12));
        assert(spec_ser_items(a.gif_list) + Seq::<u8>::empty() =~= spec_ser_items(a.gif_list));
        assert(spec_ser_account(a) =~= b);
    }
}

fn push_u32_le(out: &mut Vec<u8>, n: u32)
    ensures
        final(out)@ == old(out)@ + spec_u32_le(n),
{
    out.push((n & 0xff) as u8);
    out.push(((n >> 8) & 0xff) as u8);
    out.push(((n >> 16) & 0xff) as u8);
    out.push(((n >> 24) & 0xff) as u8);
    assert(out@ =~= old(out)@ + spec_u32_le(n));
}

fn push_u64_le(out: &mut Vec<u8>, n: u64)
    ensures
        final(out)@ == old(out)@ + spec_u64_le(n),
{
    out.push((n & 0xff) as u8);
    out.push(((n >> 8) & 0xff) as u8);
    out.push(((n >> 16) & 0xff) as u8);
    out.push(((n >> 24) & 0xff) as u8);
    out.push(((n >> 32) & 0xff) as u8);
    out.push(((n >> 40) & 0xff) as u8);
    out.push(((n >> 48) & 0xff) as u8);
    out.push(((n >> 56) & 0xff) as u8);
    assert(out@ =~= old(out)@ + spec_u64_le(n));
}

fn push_bytes(out: &mut Vec<u8>, bytes: &Vec<u8>)
    ensures
        final(out)@ == old(out)@ + bytes@,
{
    let n = bytes.len();
    for j in 0..n
        invariant
            n == bytes@.len(),
            out@ == old(out)@ + bytes@.take(j as int),
    {
        out.push(bytes[j]);
        assert(out@ =~= old(out)@ + bytes@.take(j + 1));
    }
    assert(out@ =~= old(out)@ + bytes@);
}

/// Serialize a well-formed store into its fixed binary encoding.
pub fn serialize_base_account(a: &BaseAccount) -> (out: Vec<u8>)
    requires
        account_wf(a@),
    ensures
        out@ == spec_ser_account(a@),
{
    let ghost items = a@.gif_list;
    let mut out: Vec<u8> = Vec::new();
    push_u64_le(&mut out, a.total_gifs);
    push_u32_le(&mut out, a.gif_list.len() as u32);
    assert(out@ =~= spec_u64_le(a@.total_gifs) + spec_u32_le(items.len() as u32)
        + spec_ser_items(items.take(0)));
    let n = a.gif_list.len();
    for idx in 0..n
        invariant
            n == items.len(),
            a@.gif_list == items,
            account_wf(a@),
            out@ == spec_u64_le(a@.total_gifs) + spec_u32_le(items.len() as u32)
                + spec_ser_items(items.take(idx as int)),
    {
        let item = &a.gif_list[idx];
        assert(item@ == items[idx as int]);
        push_u32_le(&mut out, item.gif_link.len() as u32);
        push_bytes(&mut out, &item.gif_link);
        push_bytes(&mut out, &item.user_address);
        proof {
            lemma_ser_items_push(items.take(idx as int), items[idx as int]);
            assert(items.take(idx as int).push(items[idx as int]) =~= items.take(idx + 1));
            assert(out@ =~= spec_u64_le(a@.total_gifs) + spec_u32_le(items.len() as u32)
                + spec_ser_items(items.take(idx + 1)));
        }
    }
    assert(items.take(n as int) =~= items);
    out
}

/// A prefix of the entries never serializes longer than the whole list.
pub proof fn lemma_ser_items_prefix_len(items: Seq<ItemView>, i: int)
    requires
        0 <= i <= items.len(),
    ensures
        spec_ser_items(items.take(i)).len() <= spec_ser_items(items).len(),
{
    assert(items.take(i) + items.skip(i) =~= items);
    lemma_ser_items_concat(items.take(i), items.skip(i));
}

/// Length in bytes of the store's serialized form.
pub fn serialized_len(a: &BaseAccount) -> (n: usize)
    requires
        account_wf(a@),
        spec_ser_account(a@).len() <= RESERVED_SPACE,
    ensures
        n == spec_ser_account(a@).len(),
{
    let ghost items = a@.gif_list;
    let mut acc: usize = 12;
    let count = a.gif_list.len();
    for idx in 0..count
        invariant
            count == items.len(),
            a@.gif_list == items,
            account_wf(a@),
            spec_ser_account(a@).len() <= RESERVED_SPACE,
            acc == 12 + spec_ser_items(items.take(idx as int)).len(),
    {
        let item = &a.gif_list[idx];
        proof {
            assert(item@ == items[idx as int]);
            assert(item_wf(items[idx as int]));
            lemma_ser_items_push(items.take(idx as int), items[idx as int]);
            assert(items.take(idx as int).push(items[idx as int]) =~= items.take(idx + 1));
            lemma_ser_items_prefix_len(items, idx + 1);
            assert(12 + spec_ser_items(items.take(idx + 1)).len() <= RESERVED_SPACE);
        }
        acc = acc + 36 + item.gif_link.len();
    }
    proof {
        assert(items.take(count as int) =~= items);
    }
    acc
}

fn read_u32_le(bytes: &Vec<u8>, pos: usize) -> (n: u32)
    requires
        pos + 4 <= bytes@.len(),
    ensures
        n == spec_u32_of_le(bytes@.subrange(pos as int, pos as int + 4)),
{
    let blen = bytes.len();
    assert(pos + 4 <= blen);
    let b0 = bytes[pos] as u32;
    let b1 = bytes[pos + 1] as u32;
    let b2 = bytes[pos + 2] as u32;
    let b3 = bytes[pos + 3] as u32;
    let n = b0 | (b1 << 8u32) | (b2 << 16u32) | (b3 << 24u32);
    proof {
        let s = bytes@.subrange(pos as int, pos as int + 4);
        assert(s[0] == bytes@[pos as int] && s[1] == bytes@[pos as int + 1]
            && s[2] == bytes@[pos as int + 2] && s[3] == bytes@[pos as int + 3]);
    }
    n
}

fn read_u64_le(bytes: &Vec<u8>, pos: usize) -> (n: u64)
    requires
        pos + 8 <= bytes@.len(),
    ensures
        n == spec_u64_of_le(bytes@.subrange(pos as int, pos as int + 8)),
{
    let blen = bytes.len();
    assert(pos + 8 <= blen);
    let b0 = bytes[pos] as u64;
    let b1 = bytes[pos + 1] as u64;
    let b2 = bytes[pos + 2] as u64;
    let b3 = bytes[pos + 3] as u64;
    let b4 = bytes[pos + 4] as u64;
    let b5 = bytes[pos + 5] as u64;
    let b6 = bytes[pos + 6] as u64;
    let b7 = bytes[pos + 7] as u64;
    let n = b0 | (b1 << 8u64) | (b2 << 16u64) | (b3 << 24u64) | (b4 << 32u64) | (b5 << 40u64)
        | (b6 << 48u64) | (b7 << 56u64);
    proof {
        let s = bytes@.subrange(pos as int, pos as int + 8);
        assert(s[0] == bytes@[pos as int] && s[1] == bytes@[pos as int + 1]
            && s[2] == bytes@[pos as int + 2] && s[3] == bytes@[pos as int + 3]
            && s[4] == bytes@[pos as int + 4] && s[5] == bytes@[pos as int + 5]
            && s[6] == bytes@[pos as int + 6] && s[7] == bytes@[pos as int + 7]);
    }
    n
}

fn copy_range(bytes: &Vec<u8>, start: usize, count: usize) -> (out: Vec<u8>)
    requires
        start + count <= bytes@.len(),
    ensures
        out@ == bytes@.subrange(start as int, start as int + count as int),
{
    let blen = bytes.len();
    let mut out: Vec<u8> = Vec::new();
    for j in 0..count
        invariant
            blen == bytes@.len(),
            start + count <= blen,
            out@ == bytes@.subrange(start as int, start as int + j as int),
    {
        out.push(bytes[start + j]);
        assert(out@ =~= bytes@.subrange(start as int, start as int + j + 1));
    }
    out
}

/// Parse a store from its fixed binary encoding. Returns `None` exactly
/// when the bytes are not the serialized form of any well-formed store.
#[verifier::loop_isolation(false)]
#[verifier::rlimit(60)]
pub fn deserialize_base_account(bytes: &Vec<u8>) -> (r: Option<BaseAccount>)
    ensures
        (match r {
            Some(a) => account_wf(a@) && spec_deser_account(bytes@) == Some(a@),
            None => spec_deser_account(bytes@) is None,
        }),
{
    let blen = bytes.len();
    if blen < 12 {
        return None;
    }
    let total = read_u64_le(bytes, 0);
    let count = read_u32_le(bytes, 8);
    proof {
        assert(bytes@.take(8) =~= bytes@.subrange(0, 8));
    }
    if total != count as u64 {
        return None;
    }
    let count_us = count as usize;
    let mut gif_list: Vec<ItemStruct> = Vec::new();
    let mut pos: usize = 12;
    for i in 0..count_us
        invariant
            12 <= pos <= blen,
            gif_list@.len() == i,
            forall|k: int| 0 <= k < gif_list@.len() ==> item_wf(#[trigger] gif_list@[k]@),
            (match spec_parse_items(bytes@.skip(pos as int), (count_us - i) as nat) {
                Some(p) => spec_parse_items(bytes@.skip(12), count as nat)
                    == Some::<(Seq<ItemView>, Seq<u8>)>((items_view(gif_list@) + p.0, p.1)),
                None => spec_parse_items(bytes@.skip(12), count as nat) is None,
            }),
    {
        let ghost pre_views = items_view(gif_list@);
        let ghost rem = bytes@.skip(pos as int);
        let ghost n_left = (count_us - i) as nat;
        if blen - pos < 4 {
            proof {
                assert(rem.len() < 4);
                assert(spec_parse_items(rem, n_left) is None);
            }
            return None;
        }
        let l = read_u32_le(bytes, pos);
        proof {
            assert(rem.take(4) =~= bytes@.subrange(pos as int, pos as int + 4));
        }
        let rem_after = blen - pos - 4;
        if (l as u64) + 32 > rem_after as u64 {
            proof {
                assert(rem.len() < 4 + (l as int) + 32);
                assert(spec_parse_items(rem, n_left) is None);
            }
            return None;
        }
        let l_us = l as usize;
        let link = copy_range(bytes, pos + 4, l_us);
        let addr = copy_range(bytes, pos + 4 + l_us, 32);
        let item = ItemStruct { gif_link: link, user_address: addr };
        let new_pos = pos + 4 + l_us + 32;
        proof {
            assert(item@.gif_link =~= rem.subrange(4, 4 + l as int));
            assert(item@.user_address =~= rem.subrange(4 + l as int, 4 + l as int + 32));
            assert(rem.skip(4 + l as int + 32) =~= bytes@.skip(new_pos as int));
            assert(spec_parse_item(rem) == Some::<(ItemView, Seq<u8>)>((
                item@,
                bytes@.skip(new_pos as int),
            )));
        }
        gif_list.push(item);
        pos = new_pos;
        proof {
            assert(items_view(gif_list@) =~= pre_views.push(item@));
            let n_left2 = (count_us - (i + 1)) as nat;
            let tail_parse = spec_parse_items(bytes@.skip(pos as int), n_left2);
            if tail_parse is Some {
                let items2 = tail_parse->Some_0.0;
                let rest2 = tail_parse->Some_0.1;
                assert(spec_parse_items(rem, n_left) == Some::<(Seq<ItemView>, Seq<u8>)>((
                    seq![item@] + items2,
                    rest2,
                )));
                assert(pre_views + (seq![item@] + items2) =~= items_view(gif_list@) + items2);
            } else {
                assert(spec_parse_items(rem, n_left) is None);
            }
        }
    }
    proof {
        assert(items_view(gif_list@) + Seq::<ItemView>::empty() =~= items_view(gif_list@));
    }
    if pos != blen {
        proof {
            assert(bytes@.skip(pos as int).len() > 0);
        }
        return None;
    }
    let account = BaseAccount { total_gifs: total, gif_list };
    proof {
        assert(bytes@.skip(pos as int) =~= Seq::<u8>::empty());
        assert(account_wf(account@));
        assert(spec_deser_account(bytes@) == Some(account@));
    }
    Some(account)
}

} // verus!
