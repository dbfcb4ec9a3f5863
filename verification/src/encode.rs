//! Encoder: turns a configuration tree back into bytes.
//!
//! The `spec_encode_*` functions give the bytes of every encodable
//! value; the executable encoders append exactly those bytes.  Name
//! bounds and the unencodable variants are surfaced as `EncodeError`s
//! rather than silent truncation.

use vstd::prelude::*;

use crate::lemma_entries_model_index;
use crate::lemma_seq_model_index;
use crate::ConfigurationItem;
use crate::ConfigurationNode;
use crate::model::{ItemModel, NodeModel};

verus! {

/// Why an encode failed: a key name outside the one-to-127-byte bound,
/// or a value the wire format does not define (a timestamp, a nested
/// array, a bare node or placeholder inside an array).
#[derive(Clone, Copy, Debug, PartialEq, Eq, Structural)]
pub enum EncodeError {
    EmptyName,
    NameTooLong,
    NotImplemented,
}

/// Variable-length encoding of an unsigned integer: seven bits per
/// byte, least-significant group first, high bit set on every byte but
/// the last.
pub open spec fn spec_encode_uint(v: nat) -> Seq<u8>
    decreases v,
{
    if v < 128 {
        seq![v as u8]
    } else {
        seq![(v % 128 + 128) as u8] + spec_encode_uint(v / 128)
    }
}

/// Zigzag mapping of a signed integer onto the unsigned line.
pub open spec fn spec_zigzag(v: int) -> nat {
    if v >= 0 {
        (2 * v) as nat
    } else {
        (-2 * v - 1) as nat
    }
}

/// The four little-endian bytes of a 32-bit value.
pub open spec fn spec_le32_bytes(b: u32) -> Seq<u8> {
    seq![
        (b % 0x100) as u8,
        ((b / 0x100) % 0x100) as u8,
        ((b / 0x10000) % 0x100) as u8,
        ((b / 0x1000000) % 0x100) as u8,
    ]
}

/// The eight little-endian bytes of a 64-bit value.
pub open spec fn spec_le64_bytes(b: u64) -> Seq<u8> {
    seq![
        (b % 0x100) as u8,
        ((b / 0x100) % 0x100) as u8,
        ((b / 0x10000) % 0x100) as u8,
        ((b / 0x1000000) % 0x100) as u8,
        ((b / 0x100000000) % 0x100) as u8,
        ((b / 0x10000000000) % 0x100) as u8,
        ((b / 0x1000000000000) % 0x100) as u8,
        ((b / 0x100000000000000) % 0x100) as u8,
    ]
}

/// A key record: the kind bit and name length in one byte, then the
/// name itself.  Names must hold one to 127 bytes.
pub open spec fn spec_encode_name(folder: bool, name: Seq<u8>) -> Result<Seq<u8>, EncodeError> {
    if name.len() == 0 {
        Err(EncodeError::EmptyName)
    } else if name.len() > 127 {
        Err(EncodeError::NameTooLong)
    } else if folder {
        Ok(seq![name.len() as u8] + name)
    } else {
        Ok(seq![(0x80 + name.len()) as u8] + name)
    }
}

/// One type-tagged value.  Timestamps and nodes outside the folder path
/// have no defined encoding, nor does the placeholder.
pub open spec fn spec_encode_item(m: ItemModel) -> Result<Seq<u8>, EncodeError>
    decreases m,
{
    match m {
        ItemModel::Absent => Err(EncodeError::NotImplemented),
        ItemModel::Bool(b) => Ok(if b {
            seq![0x02u8]
        } else {
            seq![0x01u8]
        }),
        ItemModel::Byte(b) => Ok(seq![0x03u8, b]),
        ItemModel::Usize(u) => Ok(seq![0x04u8] + spec_encode_uint(u as nat)),
        ItemModel::Isize(i) => Ok(seq![0x05u8] + spec_encode_uint(spec_zigzag(i as int))),
        ItemModel::F32(bits) => Ok(seq![0x06u8] + spec_le32_bytes(bits)),
        ItemModel::F64(bits) => Ok(seq![0x07u8] + spec_le64_bytes(bits)),
        ItemModel::Timestamp => Err(EncodeError::NotImplemented),
        ItemModel::Color(r, g, b) => Ok(seq![0x09u8, r, g, b]),
        ItemModel::ByteArray(bs) => Ok(seq![0x80u8] + spec_encode_uint(bs.len()) + bs),
        ItemModel::Array(ms) => match spec_encode_elems(ms) {
            Ok(s) => Ok(seq![0x81u8] + spec_encode_uint(ms.len()) + s),
            Err(e) => Err(e),
        },
        ItemModel::Text(s) => Ok(seq![0x82u8] + s + seq![0x00u8]),
        ItemModel::PathText(s) => Ok(seq![0x83u8] + s + seq![0x00u8]),
        ItemModel::Node(_) => Err(EncodeError::NotImplemented),
    }
}

/// The elements of an array, one after the other.  An array nested
/// inside another has no defined encoding.
pub open spec fn spec_encode_elems(ms: Seq<ItemModel>) -> Result<Seq<u8>, EncodeError>
    decreases ms,
{
    if ms.len() == 0 {
        Ok(Seq::empty())
    } else if ms[0] is Array {
        Err(EncodeError::NotImplemented)
    } else {
        match spec_encode_item(ms[0]) {
            Ok(h) => match spec_encode_elems(ms.drop_first()) {
                Ok(t) => Ok(h + t),
                Err(e) => Err(e),
            },
            Err(e) => Err(e),
        }
    }
}

/// A node body: each entry's key record and payload in order, closed by
/// the zero-length terminator byte.
pub open spec fn spec_encode_entries(es: Seq<(Seq<u8>, ItemModel)>) -> Result<
    Seq<u8>,
    EncodeError,
>
    decreases es,
{
    if es.len() == 0 {
        Ok(seq![0x00u8])
    } else {
        match es[0].1 {
            ItemModel::Node(n) => match spec_encode_name(true, es[0].0) {
                Ok(k) => match spec_encode_entries(n.entries) {
                    Ok(b) => match spec_encode_entries(es.drop_first()) {
                        Ok(t) => Ok(k + b + t),
                        Err(e) => Err(e),
                    },
                    Err(e) => Err(e),
                },
                Err(e) => Err(e),
            },
            _ => match spec_encode_name(false, es[0].0) {
                Ok(k) => match spec_encode_item(es[0].1) {
                    Ok(b) => match spec_encode_entries(es.drop_first()) {
                        Ok(t) => Ok(k + b + t),
                        Err(e) => Err(e),
                    },
                    Err(e) => Err(e),
                },
                Err(e) => Err(e),
            },
        }
    }
}

/// A whole node.
pub open spec fn spec_encode_node(n: NodeModel) -> Result<Seq<u8>, EncodeError> {
    spec_encode_entries(n.entries)
}

/// The fixed header the encoder writes: the signature, eight reserved
/// zero bytes, a zero version, and an empty root name.
pub open spec fn spec_header_bytes() -> Seq<u8> {
    seq![
        0x7Fu8, 0x43u8, 0x54u8, 0x00u8, 0u8, 0u8, 0u8, 0u8, 0u8, 0u8, 0u8, 0u8, 0u8, 0u8, 0u8,
        0u8, 0u8,
    ]
}

/// A whole file: the fixed header, then the root node's body.
pub open spec fn spec_encode_file(n: NodeModel) -> Result<Seq<u8>, EncodeError> {
    match spec_encode_node(n) {
        Ok(b) => Ok(spec_header_bytes() + b),
        Err(e) => Err(e),
    }
}

/// Append all of `b` to `vec`.
fn push_bytes(vec: &mut Vec<u8>, b: &Vec<u8>)
    ensures
        final(vec)@ == old(vec)@ + b@,
{
    let mut i: usize = 0;
    proof {
        assert(vec@ =~= old(vec)@ + b@.subrange(0, 0));
    }
    while i < b.len()
        invariant
            i <= b@.len(),
            vec@ == old(vec)@ + b@.subrange(0, i as int),
        decreases b@.len() - i,
    {
        vec.push(b[i]);
        proof {
            assert(vec@ =~= old(vec)@ + b@.subrange(0, i + 1));
        }
        i = i + 1;
    }
    proof {
        assert(b@.subrange(0, b@.len() as int) =~= b@);
    }
}

/// Append the variable-length encoding of `val`.
pub fn encode_usize(vec: &mut Vec<u8>, val: usize)
    ensures
        final(vec)@ == old(vec)@ + spec_encode_uint(val as nat),
{
    let ghost val0: nat = val as nat;
    let ghost mut d: Seq<u8> = Seq::empty();
    let mut v = val;
    proof {
        assert(vec@ =~= old(vec)@ + d);
    }
    while v >= 128
        invariant
            vec@ == old(vec)@ + d,
            spec_encode_uint(val0) == d + spec_encode_uint(v as nat),
        decreases v,
    {
        vec.push((v % 128 + 128) as u8);
        proof {
            assert(spec_encode_uint(v as nat) == seq![(v as nat % 128 + 128) as u8]
                + spec_encode_uint(v as nat / 128));
            assert(d + spec_encode_uint(v as nat) =~= (d + seq![(v as nat % 128 + 128) as u8])
                + spec_encode_uint(v as nat / 128));
            d = d + seq![(v as nat % 128 + 128) as u8];
            assert(vec@ =~= old(vec)@ + d);
        }
        v = v / 128;
    }
    vec.push(v as u8);
    proof {
        assert(spec_encode_uint(v as nat) == seq![v as u8]);
        assert(vec@ =~= old(vec)@ + (d + seq![v as u8]));
        assert(d + spec_encode_uint(v as nat) =~= d + seq![v as u8]);
    }
}

/// Append the zigzag-then-variable-length encoding of `val`.
pub fn encode_isize(vec: &mut Vec<u8>, val: isize)
    ensures
        final(vec)@ == old(vec)@ + spec_encode_uint(spec_zigzag(val as int)),
{
    let u: usize = if val >= 0 {
        (val as usize) * 2
    } else {
        ((-(val + 1)) as usize) * 2 + 1
    };
    proof {
        assert(u as nat == spec_zigzag(val as int));
    }
    encode_usize(vec, u);
}

/// Append a key record; fails on an empty or over-long name, leaving
/// `vec` untouched.
pub fn encode_key(vec: &mut Vec<u8>, dir: bool, name: &Vec<u8>) -> (res: Result<(), EncodeError>)
    ensures
        match crate::encode::spec_encode_name(dir, name@) {
            Ok(s) => res is Ok && final(vec)@ == old(vec)@ + s,
            Err(e) => res matches Err(e2) && e2 == e && final(vec)@ == old(vec)@,
        },
{
    if name.len() == 0 {
        return Err(EncodeError::EmptyName);
    }
    if name.len() > 127 {
        return Err(EncodeError::NameTooLong);
    }
    let head: u8 = if dir {
        name.len() as u8
    } else {
        0x80 + name.len() as u8
    };
    vec.push(head);
    push_bytes(vec, name);
    proof {
        assert(vec@ =~= old(vec)@ + (seq![head] + name@));
    }
    Ok(())
}

/// Append one type-tagged value; see `spec_encode_item`.
pub fn encode_type(vec: &mut Vec<u8>, entry: &ConfigurationItem) -> (res: Result<(), EncodeError>)
    ensures
        match spec_encode_item(entry.model()) {
            Ok(s) => res is Ok && final(vec)@ == old(vec)@ + s,
            Err(e) => res matches Err(e2) && e2 == e,
        },
    decreases entry,
{
    match entry {
        ConfigurationItem::Absent => Err(EncodeError::NotImplemented),
        ConfigurationItem::Bool(b) => {
            vec.push(if *b {
                0x02
            } else {
                0x01
            });
            proof {
                assert(vec@ =~= old(vec)@ + if *b {
                    seq![0x02u8]
                } else {
                    seq![0x01u8]
                });
            }
            Ok(())
        },
        ConfigurationItem::Byte(b) => {
            vec.push(0x03);
            vec.push(*b);
            proof {
                assert(vec@ =~= old(vec)@ + seq![0x03u8, *b]);
            }
            Ok(())
        },
        ConfigurationItem::Usize(u) => {
            vec.push(0x04);
            encode_usize(vec, *u);
            proof {
                assert(vec@ =~= old(vec)@ + (seq![0x04u8] + spec_encode_uint(*u as nat)));
            }
            Ok(())
        },
        ConfigurationItem::Isize(i) => {
            vec.push(0x05);
            encode_isize(vec, *i);
            proof {
                assert(vec@ =~= old(vec)@ + (seq![0x05u8] + spec_encode_uint(
                    spec_zigzag(*i as int),
                )));
            }
            Ok(())
        },
        ConfigurationItem::F32(bits) => {
            vec.push(0x06);
            vec.push((*bits % 0x100) as u8);
            vec.push(((*bits / 0x100) % 0x100) as u8);
            vec.push(((*bits / 0x10000) % 0x100) as u8);
            vec.push(((*bits / 0x1000000) % 0x100) as u8);
            proof {
                assert(vec@ =~= old(vec)@ + (seq![0x06u8] + spec_le32_bytes(*bits)));
            }
            Ok(())
        },
        ConfigurationItem::F64(bits) => {
            vec.push(0x07);
            vec.push((*bits % 0x100) as u8);
            vec.push(((*bits / 0x100) % 0x100) as u8);
            vec.push(((*bits / 0x10000) % 0x100) as u8);
            vec.push(((*bits / 0x1000000) % 0x100) as u8);
            vec.push(((*bits / 0x100000000) % 0x100) as u8);
            vec.push(((*bits / 0x10000000000) % 0x100) as u8);
            vec.push(((*bits / 0x1000000000000) % 0x100) as u8);
            vec.push(((*bits / 0x100000000000000) % 0x100) as u8);
            proof {
                assert(vec@ =~= old(vec)@ + (seq![0x07u8] + spec_le64_bytes(*bits)));
            }
            Ok(())
        },
        ConfigurationItem::Timestamp => Err(EncodeError::NotImplemented),
        ConfigurationItem::Color(r, g, b) => {
            vec.push(0x09);
            vec.push(*r);
            vec.push(*g);
            vec.push(*b);
            proof {
                assert(vec@ =~= old(vec)@ + seq![0x09u8, *r, *g, *b]);
            }
            Ok(())
        },
        ConfigurationItem::ByteArray(a) => {
            vec.push(0x80);
            encode_usize(vec, a.len());
            push_bytes(vec, a);
            proof {
                assert(vec@ =~= old(vec)@ + (seq![0x80u8] + spec_encode_uint(a@.len()) + a@));
            }
            Ok(())
        },
        ConfigurationItem::Array(a) => {
            vec.push(0x81);
            encode_usize(vec, a.len());
            let ghost ms = ConfigurationItem::seq_model(a@);
            let ghost base = vec@;
            let ghost mut d: Seq<u8> = Seq::empty();
            let mut i: usize = 0;
            proof {
                lemma_seq_model_index(a@);
                assert(ms.skip(0) =~= ms);
                assert(vec@ =~= base + d);
                assert(base =~= old(vec)@ + seq![0x81u8] + spec_encode_uint(a@.len()));
            }
            while i < a.len()
                invariant
                    i <= a@.len(),
                    *entry == ConfigurationItem::Array(*a),
                    ms == ConfigurationItem::seq_model(a@),
                    ms.len() == a@.len(),
                    forall|j: int| 0 <= j < a@.len() ==> ms[j] == (#[trigger] a@[j]).model(),
                    base == old(vec)@ + seq![0x81u8] + spec_encode_uint(a@.len()),
                    vec@ == base + d,
                    match spec_encode_elems(ms.skip(i as int)) {
                        Ok(t) => spec_encode_elems(ms) == Ok::<Seq<u8>, EncodeError>(d + t),
                        Err(e) => spec_encode_elems(ms) == Err::<Seq<u8>, EncodeError>(e),
                    },
                decreases a@.len() - i,
            {
                proof {
                    assert(ms.skip(i as int)[0] == ms[i as int]);
                    assert(ms.skip(i as int).drop_first() =~= ms.skip(i as int + 1));
                }
                let elem = &a[i];
                if matches!(elem, ConfigurationItem::Array(_)) {
                    proof {
                        assert(ms[i as int] is Array);
                    }
                    return Err(EncodeError::NotImplemented);
                }
                proof {
                    assert(decreases_to!(*entry => *a));
                    assert(decreases_to!(*a => a@));
                    assert(decreases_to!(a@ => a@[i as int]));
                }
                match encode_type(vec, elem) {
                    Ok(_) => {},
                    Err(e) => {
                        return Err(e);
                    },
                }
                proof {
                    match spec_encode_item(ms[i as int]) {
                        Ok(h) => {
                            assert(vec@ =~= base + (d + h));
                            match spec_encode_elems(ms.skip(i as int + 1)) {
                                Ok(t) => {
                                    assert((d + h) + t =~= d + (h + t));
                                },
                                Err(_) => {},
                            }
                            d = d + h;
                        },
                        Err(_) => {
                            assert(false);
                        },
                    }
                }
                i = i + 1;
            }
            proof {
                assert(ms.skip(i as int) =~= Seq::<ItemModel>::empty());
                assert(d + Seq::<u8>::empty() =~= d);
                assert(base + d =~= old(vec)@ + (seq![0x81u8] + spec_encode_uint(a@.len()) + d));
            }
            Ok(())
        },
        ConfigurationItem::Text(s) => {
            vec.push(0x82);
            push_bytes(vec, s);
            vec.push(0x00);
            proof {
                assert(vec@ =~= old(vec)@ + (seq![0x82u8] + s@ + seq![0x00u8]));
            }
            Ok(())
        },
        ConfigurationItem::PathText(s) => {
            vec.push(0x83);
            push_bytes(vec, s);
            vec.push(0x00);
            proof {
                assert(vec@ =~= old(vec)@ + (seq![0x83u8] + s@ + seq![0x00u8]));
            }
            Ok(())
        },
        ConfigurationItem::Node(_) => Err(EncodeError::NotImplemented),
    }
}

/// Append a whole node body; see `spec_encode_entries`.
pub fn encode_node(vec: &mut Vec<u8>, node: &ConfigurationNode) -> (res: Result<(), EncodeError>)
    ensures
        match spec_encode_entries(node.model().entries) {
            Ok(s) => res is Ok && final(vec)@ == old(vec)@ + s,
            Err(e) => res matches Err(e2) && e2 == e,
        },
    decreases node,
{
    let ghost es = node.model().entries;
    let ghost mut d: Seq<u8> = Seq::empty();
    let mut i: usize = 0;
    proof {
        lemma_entries_model_index(node.entries@);
        assert(es.skip(0) =~= es);
        assert(vec@ =~= old(vec)@ + d);
    }
    while i < node.entries.len()
        invariant
            i <= node.entries@.len(),
            es == node.model().entries,
            es.len() == node.entries@.len(),
            forall|j: int|
                0 <= j < es.len() ==> es[j] == ((#[trigger] node.entries@[j]).0@, node.entries@[
                j].1.model()),
            vec@ == old(vec)@ + d,
            match spec_encode_entries(es.skip(i as int)) {
                Ok(t) => spec_encode_entries(es) == Ok::<Seq<u8>, EncodeError>(d + t),
                Err(e) => spec_encode_entries(es) == Err::<Seq<u8>, EncodeError>(e),
            },
        decreases node.entries@.len() - i,
    {
        proof {
            assert(es.skip(i as int)[0] == es[i as int]);
            assert(es.skip(i as int).drop_first() =~= es.skip(i as int + 1));
        }
        let pair = &node.entries[i];
        match &pair.1 {
            ConfigurationItem::Node(n) => {
                match encode_key(vec, true, &pair.0) {
                    Ok(_) => {},
                    Err(e) => {
                        return Err(e);
                    },
                }
                match encode_node(vec, n) {
                    Ok(_) => {},
                    Err(e) => {
                        return Err(e);
                    },
                }
                proof {
                    match spec_encode_name(true, es[i as int].0) {
                        Ok(k) => {
                            match spec_encode_entries(n.model().entries) {
                                Ok(b) => {
                                    assert(vec@ =~= old(vec)@ + (d + (k + b)));
                                    match spec_encode_entries(es.skip(i as int + 1)) {
                                        Ok(t) => {
                                            assert(k + b + t =~= (k + b) + t);
                                            assert((d + (k + b)) + t =~= d + ((k + b) + t));
                                        },
                                        Err(_) => {},
                                    }
                                    d = d + (k + b);
                                },
                                Err(_) => {
                                    assert(false);
                                },
                            }
                        },
                        Err(_) => {
                            assert(false);
                        },
                    }
                }
            },
            _ => {
                match encode_key(vec, false, &pair.0) {
                    Ok(_) => {},
                    Err(e) => {
                        return Err(e);
                    },
                }
                match encode_type(vec, &pair.1) {
                    Ok(_) => {},
                    Err(e) => {
                        return Err(e);
                    },
                }
                proof {
                    match spec_encode_name(false, es[i as int].0) {
                        Ok(k) => {
                            match spec_encode_item(es[i as int].1) {
                                Ok(b) => {
                                    assert(vec@ =~= old(vec)@ + (d + (k + b)));
                                    match spec_encode_entries(es.skip(i as int + 1)) {
                                        Ok(t) => {
                                            assert(k + b + t =~= (k + b) + t);
                                            assert((d + (k + b)) + t =~= d + ((k + b) + t));
                                        },
                                        Err(_) => {},
                                    }
                                    d = d + (k + b);
                                },
                                Err(_) => {
                                    assert(false);
                                },
                            }
                        },
                        Err(_) => {
                            assert(false);
                        },
                    }
                }
            },
        }
        i = i + 1;
    }
    vec.push(0x00);
    proof {
        assert(es.skip(i as int) =~= Seq::<(Seq<u8>, ItemModel)>::empty());
        assert(vec@ =~= old(vec)@ + (d + seq![0x00u8]));
    }
    Ok(())
}

/// Encode a whole tree: the fixed header, then the root node's body.
pub fn encode_configuration(root: &ConfigurationNode) -> (res: Result<Vec<u8>, EncodeError>)
    ensures
        match spec_encode_file(root.model()) {
            Ok(s) => res matches Ok(v) && v@ == s,
            Err(e) => res matches Err(e2) && e2 == e,
        },
{
    let mut vec: Vec<u8> = Vec::new();
    vec.push(0x7F);
    vec.push(0x43);
    vec.push(0x54);
    let mut i: usize = 0;
    while i < 14
        invariant
            i <= 14,
            vec@.len() == 3 + i,
            vec@[0] == 0x7Fu8,
            vec@[1] == 0x43u8,
            vec@[2] == 0x54u8,
            forall|j: int| 3 <= j < vec@.len() ==> vec@[j] == 0u8,
        decreases 14 - i,
    {
        vec.push(0x00);
        i = i + 1;
    }
    proof {
        assert(vec@ =~= spec_header_bytes());
    }
    match encode_node(&mut vec, root) {
        Ok(_) => Ok(vec),
        Err(e) => Err(e),
    }
}

} // verus!
