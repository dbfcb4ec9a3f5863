//! The laws the codec obeys, proved over the models: integer encodings
//! round-trip, and a whole well-formed tree decodes from its own
//! encoding back to exactly itself.

use vstd::prelude::*;

use crate::decode::{
    spec_decode_array, spec_decode_body, spec_decode_file, spec_decode_isize, spec_decode_item,
    spec_decode_items, spec_decode_string, spec_decode_uint_rec, spec_decode_usize, spec_le32,
    spec_le64, spec_pow128, DecodeError,
};
use crate::encode::{
    spec_encode_elems, spec_encode_entries, spec_encode_file, spec_encode_item, spec_encode_name,
    spec_encode_node, spec_encode_uint, spec_header_bytes, spec_le32_bytes, spec_le64_bytes,
    spec_zigzag, EncodeError,
};
use crate::model::{
    key_index, lemma_key_index_in_range, upsert, utf8_valid, wf_entries, wf_item, wf_name,
    wf_node, ItemModel, NodeModel,
};

verus! {

/// An encoded integer takes one byte per started seven-bit group.
pub proof fn lemma_encode_uint_len(v: nat, k: nat)
    requires
        1 <= k,
        v < spec_pow128(k),
    ensures
        spec_encode_uint(v).len() <= k,
    decreases k,
{
    if v >= 128 {
        crate::decode::lemma_pow128_pos((k - 1) as nat);
        lemma_encode_uint_len(v / 128, (k - 1) as nat);
    }
}

/// Every machine-sized integer is below the ten-group value bound.
pub proof fn lemma_usize_below_pow128_10()
    ensures
        (usize::MAX as nat) < spec_pow128(10),
{
    assert(spec_pow128(10) == 0x400000000000000000) by {
        reveal_with_fuel(spec_pow128, 11);
    }
}

/// Decoding an encoded integer, inside any surrounding buffer, yields
/// the integer back and stops right after its last byte.
pub proof fn lemma_uint_round_trip_at(s: Seq<u8>, pos: int, v: nat, fuel: nat)
    requires
        0 <= pos,
        spec_encode_uint(v).len() <= fuel,
        pos + spec_encode_uint(v).len() <= s.len(),
        s.subrange(pos, pos + spec_encode_uint(v).len()) == spec_encode_uint(v),
    ensures
        spec_decode_uint_rec(s, pos, fuel) == Ok::<(nat, int), DecodeError>(
            (v, pos + spec_encode_uint(v).len()),
        ),
    decreases fuel,
{
    let e = spec_encode_uint(v);
    assert(s[pos] == e[0]);
    if v < 128 {
        assert(e =~= seq![v as u8]);
    } else {
        let e2 = spec_encode_uint(v / 128);
        assert(e == seq![(v % 128 + 128) as u8] + e2);
        assert forall|j: int| 0 <= j < e2.len() implies s[pos + 1 + j] == e2[j] by {
            assert(s.subrange(pos, pos + e.len())[1 + j] == s[pos + 1 + j]);
            assert(e[1 + j] == e2[j]);
        }
        assert(s.subrange(pos + 1, pos + 1 + e2.len()) =~= e2);
        lemma_uint_round_trip_at(s, pos + 1, v / 128, (fuel - 1) as nat);
        assert(v % 128 + 128 * (v / 128) == v);
    }
}

/// Law: the variable-length unsigned encoding round-trips for every
/// machine-sized integer.
pub proof fn lemma_varint_round_trip(v: usize)
    ensures
        spec_decode_usize(spec_encode_uint(v as nat), 0) == Ok::<(usize, int), DecodeError>(
            (v, spec_encode_uint(v as nat).len() as int),
        ),
{
    let e = spec_encode_uint(v as nat);
    lemma_usize_below_pow128_10();
    lemma_encode_uint_len(v as nat, 10);
    assert(e.subrange(0, e.len() as int) =~= e);
    lemma_uint_round_trip_at(e, 0, v as nat, 10);
    assert((v as nat) % (usize::MAX as nat + 1) == v as nat);
}

/// Law: the zigzag mapping is inverted exactly by its decoder, so the
/// signed encoding round-trips for every machine-sized integer.
pub proof fn lemma_varint_signed_round_trip(v: isize)
    ensures
        spec_decode_isize(spec_encode_uint(spec_zigzag(v as int)), 0) == Ok::<
            (isize, int),
            DecodeError,
        >((v, spec_encode_uint(spec_zigzag(v as int)).len() as int)),
{
    let u = spec_zigzag(v as int);
    assert(u <= usize::MAX as nat);
    lemma_varint_round_trip(u as usize);
    if v < 0 {
        assert((2 * (-v - 1) + 1) / 2 == -v - 1);
    }
}

/// A window over a concatenation splits into windows over its parts.
proof fn lemma_split_window(s: Seq<u8>, pos: int, x: Seq<u8>, y: Seq<u8>)
    requires
        0 <= pos,
        pos + x.len() + y.len() <= s.len(),
        s.subrange(pos, pos + x.len() + y.len()) == x + y,
    ensures
        s.subrange(pos, pos + x.len()) == x,
        s.subrange(pos + x.len(), pos + x.len() + y.len()) == y,
{
    assert forall|j: int| 0 <= j < x.len() implies s[pos + j] == x[j] by {
        assert(s.subrange(pos, pos + x.len() + y.len())[j] == s[pos + j]);
    }
    assert(s.subrange(pos, pos + x.len()) =~= x);
    assert forall|j: int| 0 <= j < y.len() implies s[pos + x.len() + j] == y[j] by {
        assert(s.subrange(pos, pos + x.len() + y.len())[x.len() + j] == s[pos + x.len() + j]);
    }
    assert(s.subrange(pos + x.len(), pos + x.len() + y.len()) =~= y);
}

/// Decoding an encoded terminated string yields the payload back.
proof fn lemma_string_round_trip_at(s: Seq<u8>, pos: int, t: Seq<u8>)
    requires
        0 <= pos,
        forall|i: int| 0 <= i < t.len() ==> t[i] != 0,
        pos + t.len() + 1 <= s.len(),
        s.subrange(pos, pos + t.len() + 1) == t + seq![0u8],
    ensures
        spec_decode_string(s, pos) == Ok::<(Seq<u8>, int), DecodeError>((t, pos + t.len() + 1)),
    decreases t.len(),
{
    let w = t + seq![0u8];
    assert(s[pos] == w[0]);
    if t.len() == 0 {
        assert(Seq::<u8>::empty() =~= t);
    } else {
        let t2 = t.drop_first();
        assert forall|j: int| 0 <= j < t2.len() + 1 implies s[pos + 1 + j] == (t2 + seq![0u8])[
        j] by {
            assert(s.subrange(pos, pos + t.len() + 1)[1 + j] == s[pos + 1 + j]);
        }
        assert(s.subrange(pos + 1, pos + 1 + t2.len() + 1) =~= t2 + seq![0u8]);
        lemma_string_round_trip_at(s, pos + 1, t2);
        assert(seq![s[pos]] + t2 =~= t);
    }
}

/// Reading back the little-endian bytes of a 32-bit value gives it back.
proof fn lemma_le32_id(s: Seq<u8>, pos: int, b: u32)
    requires
        0 <= pos,
        pos + 4 <= s.len(),
        s.subrange(pos, pos + 4) == spec_le32_bytes(b),
    ensures
        spec_le32(s, pos) == b,
{
    assert(s.subrange(pos, pos + 4)[0] == s[pos]);
    assert(s.subrange(pos, pos + 4)[1] == s[pos + 1]);
    assert(s.subrange(pos, pos + 4)[2] == s[pos + 2]);
    assert(s.subrange(pos, pos + 4)[3] == s[pos + 3]);
    assert((b % 0x100) + ((b / 0x100) % 0x100) * 0x100 + ((b / 0x10000) % 0x100) * 0x10000 + ((b
        / 0x1000000) % 0x100) * 0x1000000 == b);
}

/// Reading back the little-endian bytes of a 64-bit value gives it back.
proof fn lemma_le64_id(s: Seq<u8>, pos: int, b: u64)
    requires
        0 <= pos,
        pos + 8 <= s.len(),
        s.subrange(pos, pos + 8) == spec_le64_bytes(b),
    ensures
        spec_le64(s, pos) == b,
{
    assert forall|j: int| 0 <= j < 8 implies s[pos + j] == spec_le64_bytes(b)[j] by {
        assert(s.subrange(pos, pos + 8)[j] == s[pos + j]);
    }
    assert(b % 0x100 + (b / 0x100 % 0x100) * 0x100 + (b / 0x10000 % 0x100) * 0x10000 + (b
        / 0x1000000 % 0x100) * 0x1000000 + (b / 0x100000000 % 0x100) * 0x100000000 + (b
        / 0x10000000000 % 0x100) * 0x10000000000 + (b / 0x1000000000000 % 0x100) * 0x1000000000000
        + (b / 0x100000000000000 % 0x100) * 0x100000000000000 == b) by (bit_vector);
}

/// Decoding an encoded machine-sized integer inside a buffer.
proof fn lemma_usize_round_trip_at(s: Seq<u8>, pos: int, v: usize)
    requires
        0 <= pos,
        pos + spec_encode_uint(v as nat).len() <= s.len(),
        s.subrange(pos, pos + spec_encode_uint(v as nat).len()) == spec_encode_uint(v as nat),
    ensures
        spec_decode_usize(s, pos) == Ok::<(usize, int), DecodeError>(
            (v, pos + spec_encode_uint(v as nat).len()),
        ),
{
    lemma_usize_below_pow128_10();
    lemma_encode_uint_len(v as nat, 10);
    lemma_uint_round_trip_at(s, pos, v as nat, 10);
    assert((v as nat) % (usize::MAX as nat + 1) == v as nat);
}

/// Decoding an encoded value yields it back and stops at its end.
proof fn lemma_item_round_trip_at(s: Seq<u8>, pos: int, m: ItemModel, enc: Seq<u8>)
    requires
        0 <= pos,
        wf_item(m),
        spec_encode_item(m) == Ok::<Seq<u8>, EncodeError>(enc),
        pos + enc.len() <= s.len(),
        s.subrange(pos, pos + enc.len()) == enc,
    ensures
        spec_decode_item(s, pos) == Ok::<(ItemModel, int), DecodeError>((m, pos + enc.len())),
    decreases m,
{
    assert(s[pos] == enc[0]);
    let p1 = pos + 1;
    match m {
        ItemModel::Bool(b) => {
        },
        ItemModel::Byte(b) => {
            assert(s.subrange(pos, pos + 2)[1] == s[p1]);
        },
        ItemModel::Usize(u) => {
            lemma_split_window(s, pos, seq![0x04u8], spec_encode_uint(u as nat));
            lemma_usize_round_trip_at(s, p1, u);
        },
        ItemModel::Isize(v) => {
            let u = spec_zigzag(v as int);
            assert(u <= usize::MAX as nat);
            lemma_split_window(s, pos, seq![0x05u8], spec_encode_uint(u));
            lemma_usize_round_trip_at(s, p1, u as usize);
            if v < 0 {
                assert((2 * (-v - 1) + 1) / 2 == -v - 1);
            }
        },
        ItemModel::F32(bits) => {
            lemma_split_window(s, pos, seq![0x06u8], spec_le32_bytes(bits));
            lemma_le32_id(s, p1, bits);
        },
        ItemModel::F64(bits) => {
            lemma_split_window(s, pos, seq![0x07u8], spec_le64_bytes(bits));
            lemma_le64_id(s, p1, bits);
        },
        ItemModel::Color(r, g, b) => {
            assert(s.subrange(pos, pos + 4)[1] == s[p1]);
            assert(s.subrange(pos, pos + 4)[2] == s[p1 + 1]);
            assert(s.subrange(pos, pos + 4)[3] == s[p1 + 2]);
        },
        ItemModel::ByteArray(bs) => {
            let e_len = spec_encode_uint(bs.len());
            assert(enc =~= seq![0x80u8] + (e_len + bs));
            lemma_split_window(s, pos, seq![0x80u8], e_len + bs);
            lemma_split_window(s, p1, e_len, bs);
            lemma_usize_round_trip_at(s, p1, bs.len() as usize);
        },
        ItemModel::Array(ms) => {
            match spec_encode_elems(ms) {
                Ok(e_el) => {
                    let e_cnt = spec_encode_uint(ms.len());
                    assert(enc =~= seq![0x81u8] + (e_cnt + e_el));
                    lemma_split_window(s, pos, seq![0x81u8], e_cnt + e_el);
                    lemma_split_window(s, p1, e_cnt, e_el);
                    lemma_usize_round_trip_at(s, p1, ms.len() as usize);
                    lemma_items_round_trip_at(s, p1 + e_cnt.len(), ms, e_el);
                },
                Err(_) => {},
            }
        },
        ItemModel::Text(t) => {
            assert(enc =~= seq![0x82u8] + (t + seq![0u8]));
            lemma_split_window(s, pos, seq![0x82u8], t + seq![0u8]);
            lemma_string_round_trip_at(s, p1, t);
        },
        ItemModel::PathText(t) => {
            assert(enc =~= seq![0x83u8] + (t + seq![0u8]));
            lemma_split_window(s, pos, seq![0x83u8], t + seq![0u8]);
            lemma_string_round_trip_at(s, p1, t);
        },
        _ => {
        },
    }
}

/// Decoding encoded array elements yields them back in order.
proof fn lemma_items_round_trip_at(s: Seq<u8>, pos: int, ms: Seq<ItemModel>, enc: Seq<u8>)
    requires
        0 <= pos,
        forall|i: int| 0 <= i < ms.len() ==> wf_item(#[trigger] ms[i]),
        spec_encode_elems(ms) == Ok::<Seq<u8>, EncodeError>(enc),
        pos + enc.len() <= s.len(),
        s.subrange(pos, pos + enc.len()) == enc,
    ensures
        spec_decode_items(s, pos, ms.len()) == Ok::<(Seq<ItemModel>, int), DecodeError>(
            (ms, pos + enc.len()),
        ),
    decreases ms,
{
    if ms.len() == 0 {
        assert(Seq::<ItemModel>::empty() =~= ms);
    } else {
        match spec_encode_item(ms[0]) {
            Ok(h) => {
                match spec_encode_elems(ms.drop_first()) {
                    Ok(t) => {
                        assert(enc == h + t);
                        lemma_split_window(s, pos, h, t);
                        lemma_item_round_trip_at(s, pos, ms[0], h);
                        assert forall|j: int|
                            0 <= j < ms.drop_first().len() implies wf_item(
                            #[trigger] ms.drop_first()[j]) by {
                            assert(ms.drop_first()[j] == ms[j + 1]);
                        }
                        lemma_items_round_trip_at(s, pos + h.len(), ms.drop_first(), t);
                        assert(seq![ms[0]] + ms.drop_first() =~= ms);
                    },
                    Err(_) => {},
                }
            },
            Err(_) => {},
        }
    }
}

/// A key absent from `acc` stays absent when an entry under another
/// name is appended.
proof fn lemma_key_absent_after_push(
    acc: Seq<(Seq<u8>, ItemModel)>,
    e0: (Seq<u8>, ItemModel),
    nm: Seq<u8>,
)
    requires
        key_index(acc, nm) < 0,
        e0.0 != nm,
    ensures
        key_index(acc.push(e0), nm) < 0,
{
    let acc2 = acc.push(e0);
    lemma_key_index_in_range(acc2, nm);
    lemma_key_index_in_range(acc, nm);
    if key_index(acc2, nm) >= 0 {
        let ki = key_index(acc2, nm);
        assert(acc2[ki].0 == nm);
        if ki < acc.len() {
            assert(acc[ki].0 != nm);
            assert(false);
        } else {
            assert(acc2[ki] == e0);
            assert(false);
        }
    }
}

/// Dropping the first entry keeps a sequence of entries well-formed.
proof fn lemma_wf_entries_drop_first(es: Seq<(Seq<u8>, ItemModel)>)
    requires
        wf_entries(es),
        es.len() > 0,
    ensures
        wf_entries(es.drop_first()),
{
    let r = es.drop_first();
    assert forall|j: int| 0 <= j < r.len() implies wf_name((#[trigger] r[j]).0) && wf_item(
        r[j].1,
    ) by {
        assert(r[j] == es[j + 1]);
    }
    assert forall|i: int, j: int| 0 <= i < j < r.len() implies (#[trigger] r[i]).0 != (
    #[trigger] r[j]).0 by {
        assert(r[i] == es[i + 1]);
        assert(r[j] == es[j + 1]);
    }
}

/// A well-formed key record reads back as written.
proof fn lemma_key_record_at(s: Seq<u8>, pos: int, folder: bool, name: Seq<u8>)
    requires
        0 <= pos,
        wf_name(name),
        pos + 1 + name.len() <= s.len(),
        s[pos] == if folder {
            name.len() as u8
        } else {
            (0x80 + name.len()) as u8
        },
        s.subrange(pos + 1, pos + 1 + name.len()) == name,
    ensures
        crate::decode::spec_decode_key(s, pos) == Ok::<
            (Option<(bool, Seq<u8>)>, int),
            DecodeError,
        >((Option::Some((folder, name)), pos + 1 + name.len())),
{
    let head = s[pos];
    assert(head % 0x80 == name.len());
    assert(utf8_valid(s.subrange(pos + 1, pos + 1 + name.len())));
}

/// Decoding an encoded node body appends its entries, in order, to
/// whatever was already accumulated under other names.
#[verifier::rlimit(100)]
#[verifier::spinoff_prover]
proof fn lemma_entries_round_trip_at(
    s: Seq<u8>,
    pos: int,
    es: Seq<(Seq<u8>, ItemModel)>,
    acc: Seq<(Seq<u8>, ItemModel)>,
    enc: Seq<u8>,
)
    requires
        0 <= pos,
        wf_entries(es),
        spec_encode_entries(es) == Ok::<Seq<u8>, EncodeError>(enc),
        pos + enc.len() <= s.len(),
        s.subrange(pos, pos + enc.len()) == enc,
        forall|j: int| 0 <= j < es.len() ==> key_index(acc, (#[trigger] es[j]).0) < 0,
    ensures
        spec_decode_body(s, pos, acc) == Ok::<(Seq<(Seq<u8>, ItemModel)>, int), DecodeError>(
            (acc + es, pos + enc.len()),
        ),
    decreases es,
{
    assert(s[pos] == enc[0]);
    if es.len() == 0 {
        assert(acc + es =~= acc);
    } else {
        let name = es[0].0;
        let item = es[0].1;
        assert(es[0] == (name, item));
        let folder = item is Node;
        let head: u8 = if folder {
            name.len() as u8
        } else {
            (0x80 + name.len()) as u8
        };
        let k = seq![head] + name;
        assert(spec_encode_name(folder, name) == Ok::<Seq<u8>, EncodeError>(k));
        let b = if folder {
            spec_encode_entries(item->Node_0.entries)->Ok_0
        } else {
            spec_encode_item(item)->Ok_0
        };
        let t = spec_encode_entries(es.drop_first())->Ok_0;
        assert(enc == k + b + t);
        lemma_split_window(s, pos, k + b, t);
        lemma_split_window(s, pos, k, b);
        assert((seq![head] + name) + b =~= seq![head] + (name + b));
        lemma_split_window(s, pos, seq![head], name + b);
        lemma_split_window(s, pos + 1, name, b);
        lemma_key_record_at(s, pos, folder, name);
        let pk = pos + 1 + name.len();
        // the accumulated node gains exactly this entry
        assert(key_index(acc, name) < 0);
        let acc2 = acc.push(es[0]);
        assert(upsert(acc, name, item) == acc2);
        // keys of the remaining entries are absent from the larger accumulator
        assert forall|j: int|
            0 <= j < es.drop_first().len() implies key_index(
            acc2,
            (#[trigger] es.drop_first()[j]).0,
        ) < 0 by {
            assert(es.drop_first()[j] == es[j + 1]);
            lemma_key_absent_after_push(acc, es[0], es[j + 1].0);
        }
        lemma_wf_entries_drop_first(es);
        if folder {
            match item {
                ItemModel::Node(n) => {
                    lemma_entries_round_trip_at(s, pk, n.entries, Seq::empty(), b);
                    assert(Seq::<(Seq<u8>, ItemModel)>::empty() + n.entries =~= n.entries);
                    assert(ItemModel::Node(NodeModel { entries: n.entries }) =~= item);
                    lemma_entries_round_trip_at(s, pk + b.len(), es.drop_first(), acc2, t);
                    assert(acc2 + es.drop_first() =~= acc + es);
                },
                _ => {},
            }
        } else {
            lemma_item_round_trip_at(s, pk, item, b);
            lemma_entries_round_trip_at(s, pk + b.len(), es.drop_first(), acc2, t);
            assert(acc2 + es.drop_first() =~= acc + es);
        }
    }
}

/// A decoded terminated string never contains the terminator byte.
proof fn lemma_decode_string_wf(s: Seq<u8>, pos: int)
    ensures
        spec_decode_string(s, pos) matches Ok((t, p)) ==> forall|i: int|
            0 <= i < t.len() ==> t[i] != 0,
    decreases s.len() - pos,
{
    if 0 <= pos < s.len() && s[pos] != 0 {
        lemma_decode_string_wf(s, pos + 1);
        match spec_decode_string(s, pos + 1) {
            Ok((t2, _)) => {
                let t = seq![s[pos]] + t2;
                assert forall|i: int| 0 <= i < t.len() implies t[i] != 0 by {
                    if i > 0 {
                        assert(t[i] == t2[i - 1]);
                    }
                }
            },
            Err(_) => {},
        }
    }
}

/// Upserting a well-formed entry keeps node entries well-formed.
proof fn lemma_upsert_wf(es: Seq<(Seq<u8>, ItemModel)>, name: Seq<u8>, item: ItemModel)
    requires
        wf_entries(es),
        wf_name(name),
        wf_item(item),
    ensures
        wf_entries(upsert(es, name, item)),
{
    lemma_key_index_in_range(es, name);
    let ki = key_index(es, name);
    let r = upsert(es, name, item);
    if ki < 0 {
        assert forall|i: int, j: int| 0 <= i < j < r.len() implies (#[trigger] r[i]).0 != (
        #[trigger] r[j]).0 by {
            if j == es.len() {
                assert(r[j] == (name, item));
                assert(r[i] == es[i]);
            } else {
                assert(r[i] == es[i]);
                assert(r[j] == es[j]);
            }
        }
        assert forall|i: int| 0 <= i < r.len() implies wf_name((#[trigger] r[i]).0) && wf_item(
            r[i].1,
        ) by {
            if i < es.len() {
                assert(r[i] == es[i]);
            } else {
                assert(r[i] == (name, item));
            }
        }
    } else {
        assert(es[ki].0 == name);
        assert forall|i: int, j: int| 0 <= i < j < r.len() implies (#[trigger] r[i]).0 != (
        #[trigger] r[j]).0 by {
            assert(r[i].0 == es[i].0);
            assert(r[j].0 == es[j].0);
        }
        assert forall|i: int| 0 <= i < r.len() implies wf_name((#[trigger] r[i]).0) && wf_item(
            r[i].1,
        ) by {
            assert(r[i].0 == es[i].0);
            if i != ki {
                assert(r[i] == es[i]);
            }
        }
    }
}

/// Every value the decoder produces is well-formed.
proof fn lemma_decode_item_wf(s: Seq<u8>, pos: int)
    ensures
        spec_decode_item(s, pos) matches Ok((m, p)) ==> wf_item(m),
    decreases s.len() - pos, 2nat, 0nat,
{
    if 0 <= pos < s.len() {
        let p1 = pos + 1;
        lemma_decode_string_wf(s, p1);
        if s[pos] == 0x81 {
            lemma_decode_array_wf(s, p1);
        }
    }
}

proof fn lemma_decode_array_wf(s: Seq<u8>, pos: int)
    ensures
        spec_decode_array(s, pos) matches Ok((ms, p)) ==> ms.len() <= usize::MAX && forall|i: int|
            0 <= i < ms.len() ==> wf_item(#[trigger] ms[i]),
    decreases s.len() - pos, 1nat, 0nat,
{
    match spec_decode_usize(s, pos) {
        Ok((l, p2)) => {
            if pos < p2 <= s.len() {
                lemma_decode_items_wf(s, p2, l as nat);
                crate::decode::lemma_items_bounds(s, p2, l as nat);
            }
        },
        Err(_) => {},
    }
}

proof fn lemma_decode_items_wf(s: Seq<u8>, pos: int, count: nat)
    ensures
        spec_decode_items(s, pos, count) matches Ok((ms, p)) ==> forall|i: int|
            0 <= i < ms.len() ==> wf_item(#[trigger] ms[i]),
    decreases s.len() - pos, 3nat, count,
{
    if count > 0 {
        lemma_decode_item_wf(s, pos);
        match spec_decode_item(s, pos) {
            Ok((m, p2)) => {
                if pos <= p2 <= s.len() {
                    lemma_decode_items_wf(s, p2, (count - 1) as nat);
                    match spec_decode_items(s, p2, (count - 1) as nat) {
                        Ok((rest, _)) => {
                            let ms = seq![m] + rest;
                            assert forall|i: int| 0 <= i < ms.len() implies wf_item(
                            #[trigger] ms[i]) by {
                                if i > 0 {
                                    assert(ms[i] == rest[i - 1]);
                                }
                            }
                        },
                        Err(_) => {},
                    }
                }
            },
            Err(_) => {},
        }
    }
}

/// Every node body the decoder accepts extends a well-formed accumulator
/// into well-formed entries.
proof fn lemma_decode_body_wf(s: Seq<u8>, pos: int, acc: Seq<(Seq<u8>, ItemModel)>)
    requires
        wf_entries(acc),
    ensures
        spec_decode_body(s, pos, acc) matches Ok((es, p)) ==> wf_entries(es),
    decreases s.len() - pos, 4nat, 0nat,
{
    match crate::decode::spec_decode_key(s, pos) {
        Ok((Option::Some((folder, name)), pk)) => {
            if pos < pk <= s.len() {
                assert(wf_name(name));
                if folder {
                    lemma_decode_body_wf(s, pk, Seq::empty());
                    match spec_decode_body(s, pk, Seq::empty()) {
                        Ok((sub, pv)) => {
                            if pos < pv <= s.len() {
                                let item = ItemModel::Node(NodeModel { entries: sub });
                                lemma_upsert_wf(acc, name, item);
                                lemma_decode_body_wf(s, pv, upsert(acc, name, item));
                            }
                        },
                        Err(_) => {},
                    }
                } else {
                    lemma_decode_item_wf(s, pk);
                    match spec_decode_item(s, pk) {
                        Ok((m, pv)) => {
                            if pos < pv <= s.len() {
                                lemma_upsert_wf(acc, name, m);
                                lemma_decode_body_wf(s, pv, upsert(acc, name, m));
                            }
                        },
                        Err(_) => {},
                    }
                }
            }
        },
        _ => {},
    }
}

/// Law (validation): every tree the decoder returns is well-formed —
/// unique well-formed key names and valid values throughout.
pub proof fn lemma_decode_file_wf(s: Seq<u8>)
    ensures
        spec_decode_file(s) matches Ok(n) ==> wf_node(n),
{
    match crate::decode::spec_decode_header(s) {
        Ok((_, p)) => {
            lemma_decode_body_wf(s, p, Seq::empty());
        },
        Err(_) => {},
    }
}

/// Law (round trip): a well-formed tree that the encoder accepts is
/// reproduced exactly by decoding its own encoding.
pub proof fn lemma_codec_round_trip(n: NodeModel)
    requires
        wf_node(n),
    ensures
        spec_encode_file(n) matches Ok(bytes) ==> spec_decode_file(bytes) == Ok::<
            NodeModel,
            DecodeError,
        >(n),
{
    match spec_encode_node(n) {
        Ok(body) => {
            let bytes = spec_header_bytes() + body;
            assert(bytes.len() == 17 + body.len());
            assert(bytes[16] == 0);
            assert(spec_decode_string(bytes, 16) == Ok::<(Seq<u8>, int), DecodeError>(
                (Seq::empty(), 17),
            ));
            assert(bytes.subrange(17, 17 + body.len() as int) =~= body);
            assert forall|j: int|
                0 <= j < n.entries.len() implies key_index(
                Seq::<(Seq<u8>, ItemModel)>::empty(),
                (#[trigger] n.entries[j]).0,
            ) < 0 by {}
            lemma_entries_round_trip_at(bytes, 17, n.entries, Seq::empty(), body);
            assert(Seq::<(Seq<u8>, ItemModel)>::empty() + n.entries =~= n.entries);
            assert(NodeModel { entries: n.entries } =~= n);
        },
        Err(_) => {},
    }
}

} // verus!
