//! Decoder: turns a byte buffer into a configuration tree.
//!
//! The wire grammar is written down once, as the `spec_decode_*`
//! functions over byte sequences; every executable decoder returns
//! exactly what its spec function denotes.

use vstd::prelude::*;

use crate::model::{upsert, utf8_valid, ItemModel, NodeModel};
use crate::lemma_seq_model_index;
use crate::ConfigurationItem;
use crate::ConfigurationNode;

verus! {

/// Why a decode failed: a bad magic signature, a truncated buffer, or
/// invalid content (bad key text or an unknown type tag).  `NotImplemented`
/// marks the timestamp tag, which the format reserves but does not define.
#[derive(Clone, Copy, Debug, PartialEq, Eq, Structural)]
pub enum DecodeError {
    InvalidFileError,
    ReadError,
    InvalidEncodingError,
    NotImplemented,
}

/// Variable-length unsigned integer at `pos`: seven value bits per byte,
/// least-significant group first, while the high bit is set, reading at
/// most `fuel` bytes.  The value is unbounded here; widths are applied
/// at the use sites.
pub open spec fn spec_decode_uint_rec(s: Seq<u8>, pos: int, fuel: nat) -> Result<
    (nat, int),
    DecodeError,
>
    decreases fuel,
{
    if fuel == 0 {
        Ok((0, pos))
    } else if !(0 <= pos < s.len()) {
        Err(DecodeError::ReadError)
    } else {
        let b = s[pos];
        if b < 0x80 {
            Ok((b as nat, pos + 1))
        } else {
            match spec_decode_uint_rec(s, pos + 1, (fuel - 1) as nat) {
                Ok((v, p)) => Ok(((b - 0x80) as nat + 128 * v, p)),
                Err(e) => Err(e),
            }
        }
    }
}

/// The ten-byte-capped variable-length integer, reduced to `usize` width.
pub open spec fn spec_decode_usize(s: Seq<u8>, pos: int) -> Result<(usize, int), DecodeError> {
    match spec_decode_uint_rec(s, pos, 10) {
        Ok((v, p)) => Ok(((v % (usize::MAX as nat + 1)) as usize, p)),
        Err(e) => Err(e),
    }
}

/// Inverse zigzag: even codes are non-negative, odd codes negative.
pub open spec fn spec_unzigzag(u: usize) -> isize {
    if u % 2 == 0 {
        (u / 2) as isize
    } else {
        (-((u / 2) as int) - 1) as isize
    }
}

/// Signed variable-length integer: unsigned decode, then inverse zigzag.
pub open spec fn spec_decode_isize(s: Seq<u8>, pos: int) -> Result<(isize, int), DecodeError> {
    match spec_decode_usize(s, pos) {
        Ok((u, p)) => Ok((spec_unzigzag(u), p)),
        Err(e) => Err(e),
    }
}

/// Bytes up to and excluding a 0x00 terminator; the terminator is consumed.
pub open spec fn spec_decode_string(s: Seq<u8>, pos: int) -> Result<(Seq<u8>, int), DecodeError>
    decreases s.len() - pos,
{
    if !(0 <= pos < s.len()) {
        Err(DecodeError::ReadError)
    } else if s[pos] == 0 {
        Ok((Seq::empty(), pos + 1))
    } else {
        match spec_decode_string(s, pos + 1) {
            Ok((t, p)) => Ok((seq![s[pos]] + t, p)),
            Err(e) => Err(e),
        }
    }
}

/// A little-endian 32-bit integer at `pos` (bounds checked by callers).
pub open spec fn spec_le32(s: Seq<u8>, pos: int) -> u32 {
    (s[pos] + s[pos + 1] * 0x100 + s[pos + 2] * 0x10000 + s[pos + 3] * 0x1000000) as u32
}

/// A little-endian 64-bit integer at `pos` (bounds checked by callers).
pub open spec fn spec_le64(s: Seq<u8>, pos: int) -> u64 {
    (s[pos] + s[pos + 1] * 0x100 + s[pos + 2] * 0x10000 + s[pos + 3] * 0x1000000 + s[pos + 4]
        * 0x100000000 + s[pos + 5] * 0x10000000000 + s[pos + 6] * 0x1000000000000 + s[pos + 7]
        * 0x100000000000000) as u64
}

/// One key record.  `None` closes the node: on a zero length byte (the
/// explicit terminator, consumed) or when the buffer is exhausted (the
/// permissive implicit terminator, nothing consumed).  Otherwise the
/// high bit picks folder (clear) or leaf (set), the low seven bits give
/// the name length, and the name must be well-formed text.
pub open spec fn spec_decode_key(s: Seq<u8>, pos: int) -> Result<
    (Option<(bool, Seq<u8>)>, int),
    DecodeError,
> {
    if !(0 <= pos < s.len()) {
        Ok((Option::None, pos))
    } else {
        let b = s[pos];
        let folder = b < 0x80;
        let len = (b % 0x80) as int;
        if len == 0 {
            Ok((Option::None, pos + 1))
        } else if pos + 1 + len > s.len() {
            Err(DecodeError::ReadError)
        } else if !utf8_valid(s.subrange(pos + 1, pos + 1 + len)) {
            Err(DecodeError::InvalidEncodingError)
        } else {
            Ok((Option::Some((folder, s.subrange(pos + 1, pos + 1 + len))), pos + 1 + len))
        }
    }
}

/// One type-tagged value at `pos`, starting with its tag byte.
pub open spec fn spec_decode_item(s: Seq<u8>, pos: int) -> Result<(ItemModel, int), DecodeError>
    decreases s.len() - pos, 2nat, 0nat,
{
    if !(0 <= pos < s.len()) {
        Err(DecodeError::ReadError)
    } else {
        let tag = s[pos];
        let p1 = pos + 1;
        if tag == 0x01 {
            Ok((ItemModel::Bool(false), p1))
        } else if tag == 0x02 {
            Ok((ItemModel::Bool(true), p1))
        } else if tag == 0x03 {
            if p1 < s.len() {
                Ok((ItemModel::Byte(s[p1]), p1 + 1))
            } else {
                Err(DecodeError::ReadError)
            }
        } else if tag == 0x04 {
            match spec_decode_usize(s, p1) {
                Ok((v, p)) => Ok((ItemModel::Usize(v), p)),
                Err(e) => Err(e),
            }
        } else if tag == 0x05 {
            match spec_decode_isize(s, p1) {
                Ok((v, p)) => Ok((ItemModel::Isize(v), p)),
                Err(e) => Err(e),
            }
        } else if tag == 0x06 {
            if p1 + 4 <= s.len() {
                Ok((ItemModel::F32(spec_le32(s, p1)), p1 + 4))
            } else {
                Err(DecodeError::ReadError)
            }
        } else if tag == 0x07 {
            if p1 + 8 <= s.len() {
                Ok((ItemModel::F64(spec_le64(s, p1)), p1 + 8))
            } else {
                Err(DecodeError::ReadError)
            }
        } else if tag == 0x08 {
            Err(DecodeError::NotImplemented)
        } else if tag == 0x09 {
            if p1 + 3 <= s.len() {
                Ok((ItemModel::Color(s[p1], s[p1 + 1], s[p1 + 2]), p1 + 3))
            } else {
                Err(DecodeError::ReadError)
            }
        } else if tag == 0x80 {
            match spec_decode_bytevec(s, p1) {
                Ok((b2, p)) => Ok((ItemModel::ByteArray(b2), p)),
                Err(e) => Err(e),
            }
        } else if tag == 0x81 {
            match spec_decode_array(s, p1) {
                Ok((ms, p)) => Ok((ItemModel::Array(ms), p)),
                Err(e) => Err(e),
            }
        } else if tag == 0x82 {
            match spec_decode_string(s, p1) {
                Ok((t, p)) => Ok((ItemModel::Text(t), p)),
                Err(e) => Err(e),
            }
        } else if tag == 0x83 {
            match spec_decode_string(s, p1) {
                Ok((t, p)) => Ok((ItemModel::PathText(t), p)),
                Err(e) => Err(e),
            }
        } else {
            Err(DecodeError::InvalidEncodingError)
        }
    }
}

/// A byte-array payload: a length, then that many raw bytes.
pub open spec fn spec_decode_bytevec(s: Seq<u8>, pos: int) -> Result<(Seq<u8>, int), DecodeError> {
    match spec_decode_usize(s, pos) {
        Ok((l, p2)) => if 0 <= p2 && p2 + l <= s.len() {
            Ok((s.subrange(p2, p2 + l), p2 + l))
        } else {
            Err(DecodeError::ReadError)
        },
        Err(e) => Err(e),
    }
}

/// An array payload: an element count, then that many tagged values.
pub open spec fn spec_decode_array(s: Seq<u8>, pos: int) -> Result<
    (Seq<ItemModel>, int),
    DecodeError,
>
    decreases s.len() - pos, 1nat, 0nat,
{
    match spec_decode_usize(s, pos) {
        Ok((l, p2)) => if pos < p2 <= s.len() {
            spec_decode_items(s, p2, l as nat)
        } else {
            Err(DecodeError::ReadError)
        },
        Err(e) => Err(e),
    }
}

/// `count` tagged values, one after the other.
pub open spec fn spec_decode_items(s: Seq<u8>, pos: int, count: nat) -> Result<
    (Seq<ItemModel>, int),
    DecodeError,
>
    decreases s.len() - pos, 3nat, count,
{
    if count == 0 {
        Ok((Seq::empty(), pos))
    } else {
        match spec_decode_item(s, pos) {
            Ok((m, p2)) => if pos <= p2 <= s.len() {
                match spec_decode_items(s, p2, (count - 1) as nat) {
                    Ok((ms, p3)) => Ok((seq![m] + ms, p3)),
                    Err(e) => Err(e),
                }
            } else {
                Err(DecodeError::ReadError)
            },
            Err(e) => Err(e),
        }
    }
}

/// A node body from `pos`: key records folded into `acc` (later entries
/// overwrite earlier ones of the same name) until a terminator.
pub open spec fn spec_decode_body(
    s: Seq<u8>,
    pos: int,
    acc: Seq<(Seq<u8>, ItemModel)>,
) -> Result<(Seq<(Seq<u8>, ItemModel)>, int), DecodeError>
    decreases s.len() - pos, 4nat, 0nat,
{
    match spec_decode_key(s, pos) {
        Ok((Option::None, p)) => Ok((acc, p)),
        Ok((Option::Some((folder, name)), pk)) => if !(pos < pk <= s.len()) {
            Err(DecodeError::ReadError)
        } else if folder {
            match spec_decode_body(s, pk, Seq::empty()) {
                Ok((sub, pv)) => if pos < pv <= s.len() {
                    spec_decode_body(
                        s,
                        pv,
                        upsert(acc, name, ItemModel::Node(NodeModel { entries: sub })),
                    )
                } else {
                    Err(DecodeError::ReadError)
                },
                Err(e) => Err(e),
            }
        } else {
            match spec_decode_item(s, pk) {
                Ok((m, pv)) => if pos < pv <= s.len() {
                    spec_decode_body(s, pv, upsert(acc, name, m))
                } else {
                    Err(DecodeError::ReadError)
                },
                Err(e) => Err(e),
            }
        },
        Err(e) => Err(e),
    }
}

/// The file header: the four-byte signature `7F 43 54 00`, eight reserved
/// bytes, a little-endian version, and the null-terminated root name.
pub open spec fn spec_decode_header(s: Seq<u8>) -> Result<((u32, Seq<u8>), int), DecodeError> {
    if s.len() < 4 {
        Err(DecodeError::ReadError)
    } else if !(s[0] == 0x7F && s[1] == 0x43 && s[2] == 0x54 && s[3] == 0x00) {
        Err(DecodeError::InvalidFileError)
    } else if s.len() < 16 {
        Err(DecodeError::ReadError)
    } else {
        match spec_decode_string(s, 16) {
            Ok((name, p)) => Ok(((spec_le32(s, 12), name), p)),
            Err(e) => Err(e),
        }
    }
}

/// A whole file: the header, then the anonymous root node's body.
/// Bytes after the root terminator are ignored.
pub open spec fn spec_decode_file(s: Seq<u8>) -> Result<NodeModel, DecodeError> {
    match spec_decode_header(s) {
        Ok((_, p)) => match spec_decode_body(s, p, Seq::empty()) {
            Ok((es, _)) => Ok(NodeModel { entries: es }),
            Err(e) => Err(e),
        },
        Err(e) => Err(e),
    }
}

/// Position bounds of the variable-length integer decoder.
pub proof fn lemma_uint_bounds(s: Seq<u8>, pos: int, fuel: nat)
    ensures
        spec_decode_uint_rec(s, pos, fuel) matches Ok((v, p)) ==> pos <= p <= s.len() || (fuel == 0
            && p == pos),
        fuel > 0 ==> (spec_decode_uint_rec(s, pos, fuel) matches Ok((v, p)) ==> pos + 1 <= p
            <= s.len()),
    decreases fuel,
{
    if fuel > 0 && 0 <= pos < s.len() && s[pos] >= 0x80 {
        lemma_uint_bounds(s, pos + 1, (fuel - 1) as nat);
    }
}

/// Position bounds of the terminated-string decoder.
pub proof fn lemma_string_bounds(s: Seq<u8>, pos: int)
    ensures
        spec_decode_string(s, pos) matches Ok((t, p)) ==> pos + 1 <= p <= s.len() && t.len() == p
            - pos - 1,
    decreases s.len() - pos,
{
    if 0 <= pos < s.len() && s[pos] != 0 {
        lemma_string_bounds(s, pos + 1);
    }
}

/// Position bounds of the key-record decoder.
pub proof fn lemma_key_bounds(s: Seq<u8>, pos: int)
    ensures
        spec_decode_key(s, pos) matches Ok((Option::Some(k), p)) ==> pos + 2 <= p <= s.len(),
        spec_decode_key(s, pos) matches Ok((Option::None, p)) ==> pos <= p <= pos + 1 && (p
            <= s.len() || p == pos),
{
}

/// Position bounds of the value, array, element and body decoders.
pub proof fn lemma_item_bounds(s: Seq<u8>, pos: int)
    ensures
        spec_decode_item(s, pos) matches Ok((m, p)) ==> pos + 1 <= p <= s.len(),
    decreases s.len() - pos, 2nat, 0nat,
{
    if 0 <= pos < s.len() {
        let tag = s[pos];
        let p1 = pos + 1;
        lemma_uint_bounds(s, p1, 10);
        lemma_string_bounds(s, p1);
        if tag == 0x81 {
            lemma_array_bounds(s, p1);
        }
    }
}

pub proof fn lemma_array_bounds(s: Seq<u8>, pos: int)
    ensures
        spec_decode_array(s, pos) matches Ok((ms, p)) ==> pos <= p <= s.len(),
    decreases s.len() - pos, 1nat, 0nat,
{
    lemma_uint_bounds(s, pos, 10);
    match spec_decode_usize(s, pos) {
        Ok((l, p2)) => {
            if pos < p2 <= s.len() {
                lemma_items_bounds(s, p2, l as nat);
            }
        },
        Err(_) => {},
    }
}

pub proof fn lemma_items_bounds(s: Seq<u8>, pos: int, count: nat)
    ensures
        spec_decode_items(s, pos, count) matches Ok((ms, p)) ==> pos <= p && (p <= s.len() || p
            == pos) && ms.len() == count,
    decreases s.len() - pos, 3nat, count,
{
    if count > 0 {
        lemma_item_bounds(s, pos);
        match spec_decode_item(s, pos) {
            Ok((m, p2)) => {
                if pos <= p2 <= s.len() {
                    lemma_items_bounds(s, p2, (count - 1) as nat);
                }
            },
            Err(_) => {},
        }
    }
}

pub proof fn lemma_body_bounds(s: Seq<u8>, pos: int, acc: Seq<(Seq<u8>, ItemModel)>)
    ensures
        spec_decode_body(s, pos, acc) matches Ok((es, p)) ==> pos <= p <= s.len() || p
            == pos,
    decreases s.len() - pos, 4nat, 0nat,
{
    lemma_key_bounds(s, pos);
    match spec_decode_key(s, pos) {
        Ok((Option::Some((folder, name)), pk)) => {
            if pos < pk <= s.len() {
                if folder {
                    lemma_body_bounds(s, pk, Seq::empty());
                    match spec_decode_body(s, pk, Seq::empty()) {
                        Ok((sub, pv)) => {
                            if pos < pv <= s.len() {
                                lemma_body_bounds(
                                    s,
                                    pv,
                                    upsert(acc, name, ItemModel::Node(NodeModel { entries: sub })),
                                );
                            }
                        },
                        Err(_) => {},
                    }
                } else {
                    lemma_item_bounds(s, pk);
                    match spec_decode_item(s, pk) {
                        Ok((m, pv)) => {
                            if pos < pv <= s.len() {
                                lemma_body_bounds(s, pv, upsert(acc, name, m));
                            }
                        },
                        Err(_) => {},
                    }
                }
            }
        },
        _ => {},
    }
}

/// 128 to the `n`th power: the value range of `n` seven-bit groups.
pub open spec fn spec_pow128(n: nat) -> nat
    decreases n,
{
    if n == 0 {
        1
    } else {
        128 * spec_pow128((n - 1) as nat)
    }
}

pub proof fn lemma_pow128_pos(n: nat)
    ensures
        spec_pow128(n) >= 1,
    decreases n,
{
    if n > 0 {
        lemma_pow128_pos((n - 1) as nat);
    }
}

pub proof fn lemma_pow128_mono(a: nat, b: nat)
    requires
        a <= b,
    ensures
        spec_pow128(a) <= spec_pow128(b),
    decreases b,
{
    lemma_pow128_pos(a);
    if a < b {
        lemma_pow128_mono(a, (b - 1) as nat);
        lemma_pow128_pos((b - 1) as nat);
    }
}

/// The decoded value stays below `128^fuel`.
pub proof fn lemma_uint_value_bound(s: Seq<u8>, pos: int, fuel: nat)
    ensures
        spec_decode_uint_rec(s, pos, fuel) matches Ok((v, p)) ==> v < spec_pow128(fuel),
    decreases fuel,
{
    lemma_pow128_pos(fuel);
    if fuel > 0 && 0 <= pos < s.len() {
        lemma_uint_value_bound(s, pos + 1, (fuel - 1) as nat);
        lemma_pow128_pos((fuel - 1) as nat);
    }
}

/// One byte of the buffer, or `ReadError` past its end.
pub fn read_byte(data: &Vec<u8>, pos: usize) -> (res: Result<u8, DecodeError>)
    ensures
        pos < data@.len() ==> (res matches Ok(b) && b == data@[pos as int]),
        pos >= data@.len() ==> (res matches Err(e) && e == DecodeError::ReadError),
{
    if pos < data.len() {
        Ok(data[pos])
    } else {
        Err(DecodeError::ReadError)
    }
}

/// Is `v` well-formed UTF-8?
pub fn validate_utf8(v: &Vec<u8>) -> (r: bool)
    ensures
        r == utf8_valid(v@),
{
    let mut i: usize = 0;
    proof {
        assert(v@.skip(0) =~= v@);
    }
    while i < v.len()
        invariant
            i <= v@.len(),
            utf8_valid(v@) == utf8_valid(v@.skip(i as int)),
        decreases v@.len() - i,
    {
        let b = v[i];
        let rem = v.len() - i;
        proof {
            assert(v@.skip(i as int).len() == rem);
            assert forall|j: int| 0 <= j < rem implies v@.skip(i as int)[j] == v@[i + j] by {}
        }
        if b < 0x80 {
            proof {
                assert(v@.skip(i as int).drop_first() =~= v@.skip(i as int + 1));
            }
            i = i + 1;
        } else if 0xC2 <= b && b <= 0xDF {
            if rem < 2 || !(0x80 <= v[i + 1] && v[i + 1] < 0xC0) {
                return false;
            }
            proof {
                assert(v@.skip(i as int).skip(2) =~= v@.skip(i as int + 2));
            }
            i = i + 2;
        } else if b == 0xE0 {
            if rem < 3 || !(0xA0 <= v[i + 1] && v[i + 1] < 0xC0) || !(0x80 <= v[i + 2] && v[i + 2]
                < 0xC0) {
                return false;
            }
            proof {
                assert(v@.skip(i as int).skip(3) =~= v@.skip(i as int + 3));
            }
            i = i + 3;
        } else if (0xE1 <= b && b <= 0xEC) || b == 0xEE || b == 0xEF {
            if rem < 3 || !(0x80 <= v[i + 1] && v[i + 1] < 0xC0) || !(0x80 <= v[i + 2] && v[i + 2]
                < 0xC0) {
                return false;
            }
            proof {
                assert(v@.skip(i as int).skip(3) =~= v@.skip(i as int + 3));
            }
            i = i + 3;
        } else if b == 0xED {
            if rem < 3 || !(0x80 <= v[i + 1] && v[i + 1] < 0xA0) || !(0x80 <= v[i + 2] && v[i + 2]
                < 0xC0) {
                return false;
            }
            proof {
                assert(v@.skip(i as int).skip(3) =~= v@.skip(i as int + 3));
            }
            i = i + 3;
        } else if b == 0xF0 {
            if rem < 4 || !(0x90 <= v[i + 1] && v[i + 1] < 0xC0) || !(0x80 <= v[i + 2] && v[i + 2]
                < 0xC0) || !(0x80 <= v[i + 3] && v[i + 3] < 0xC0) {
                return false;
            }
            proof {
                assert(v@.skip(i as int).skip(4) =~= v@.skip(i as int + 4));
            }
            i = i + 4;
        } else if 0xF1 <= b && b <= 0xF3 {
            if rem < 4 || !(0x80 <= v[i + 1] && v[i + 1] < 0xC0) || !(0x80 <= v[i + 2] && v[i + 2]
                < 0xC0) || !(0x80 <= v[i + 3] && v[i + 3] < 0xC0) {
                return false;
            }
            proof {
                assert(v@.skip(i as int).skip(4) =~= v@.skip(i as int + 4));
            }
            i = i + 4;
        } else if b == 0xF4 {
            if rem < 4 || !(0x80 <= v[i + 1] && v[i + 1] < 0x90) || !(0x80 <= v[i + 2] && v[i + 2]
                < 0xC0) || !(0x80 <= v[i + 3] && v[i + 3] < 0xC0) {
                return false;
            }
            proof {
                assert(v@.skip(i as int).skip(4) =~= v@.skip(i as int + 4));
            }
            i = i + 4;
        } else {
            return false;
        }
    }
    proof {
        assert(v@.skip(i as int) =~= Seq::<u8>::empty());
    }
    true
}

/// The capped variable-length integer decoder, with its exact value.
fn decode_uint_rec(data: &Vec<u8>, pos: usize, fuel: u8) -> (res: Result<
    (u128, usize),
    DecodeError,
>)
    requires
        fuel <= 10,
    ensures
        match spec_decode_uint_rec(data@, pos as int, fuel as nat) {
            Ok((v, p)) => res matches Ok(r) && r.0 == v && r.1 == p,
            Err(e) => res matches Err(e2) && e2 == e,
        },
    decreases fuel,
{
    if fuel == 0 {
        Ok((0, pos))
    } else if pos >= data.len() {
        Err(DecodeError::ReadError)
    } else {
        let b = data[pos];
        if b < 0x80 {
            Ok((b as u128, pos + 1))
        } else {
            match decode_uint_rec(data, pos + 1, fuel - 1) {
                Ok((v, p)) => {
                    proof {
                        lemma_uint_value_bound(data@, pos as int + 1, (fuel - 1) as nat);
                        lemma_pow128_mono((fuel - 1) as nat, 9);
                        assert(spec_pow128(9) == 0x8000000000000000) by {
                            reveal_with_fuel(spec_pow128, 10);
                        }
                    }
                    Ok(((b - 0x80) as u128 + 128 * v, p))
                },
                Err(e) => Err(e),
            }
        }
    }
}

/// The variable-length unsigned integer, reduced to `usize` width.
pub fn decode_usize(data: &Vec<u8>, pos: usize) -> (res: Result<(usize, usize), DecodeError>)
    ensures
        match spec_decode_usize(data@, pos as int) {
            Ok((v, p)) => res matches Ok(r) && r.0 == v && r.1 == p,
            Err(e) => res matches Err(e2) && e2 == e,
        },
{
    match decode_uint_rec(data, pos, 10) {
        Ok((v, p)) => Ok(((v % (usize::MAX as u128 + 1)) as usize, p)),
        Err(e) => Err(e),
    }
}

/// The signed variable-length integer: unsigned decode, inverse zigzag.
pub fn decode_isize(data: &Vec<u8>, pos: usize) -> (res: Result<(isize, usize), DecodeError>)
    ensures
        match spec_decode_isize(data@, pos as int) {
            Ok((v, p)) => res matches Ok(r) && r.0 == v && r.1 == p,
            Err(e) => res matches Err(e2) && e2 == e,
        },
{
    match decode_usize(data, pos) {
        Ok((u, p)) => {
            if u % 2 == 0 {
                Ok(((u / 2) as isize, p))
            } else {
                Ok((-((u / 2) as isize) - 1, p))
            }
        },
        Err(e) => Err(e),
    }
}

/// Bytes up to and excluding a 0x00 terminator.
pub fn decode_string(data: &Vec<u8>, pos: usize) -> (res: Result<(Vec<u8>, usize), DecodeError>)
    ensures
        match spec_decode_string(data@, pos as int) {
            Ok((t, p)) => res matches Ok(r) && r.0@ == t && r.1 == p,
            Err(e) => res matches Err(e2) && e2 == e,
        },
    decreases data@.len() - pos,
{
    if pos >= data.len() {
        Err(DecodeError::ReadError)
    } else {
        let b = data[pos];
        if b == 0 {
            Ok((Vec::new(), pos + 1))
        } else {
            match decode_string(data, pos + 1) {
                Ok((mut t, p)) => {
                    let ghost t0 = t@;
                    t.insert(0, b);
                    proof {
                        assert(t@ =~= seq![b] + t0);
                    }
                    Ok((t, p))
                },
                Err(e) => Err(e),
            }
        }
    }
}

/// A path payload: framed exactly like a string.
pub fn decode_path(data: &Vec<u8>, pos: usize) -> (res: Result<(Vec<u8>, usize), DecodeError>)
    ensures
        match spec_decode_string(data@, pos as int) {
            Ok((t, p)) => res matches Ok(r) && r.0@ == t && r.1 == p,
            Err(e) => res matches Err(e2) && e2 == e,
        },
{
    decode_string(data, pos)
}

/// One key record; see `spec_decode_key` for the grammar.
pub fn decode_key(data: &Vec<u8>, pos: usize) -> (res: Result<
    (Option<(bool, Vec<u8>)>, usize),
    DecodeError,
>)
    ensures
        match spec_decode_key(data@, pos as int) {
            Ok((Option::None, p)) => res matches Ok(r) && r.0 is None && r.1 == p,
            Ok((Option::Some((folder, name)), p)) => res matches Ok(r) && r.0 matches Option::Some(
                k,
            ) && k.0 == folder && k.1@ == name && r.1 == p,
            Err(e) => res matches Err(e2) && e2 == e,
        },
{
    if pos >= data.len() {
        return Ok((Option::None, pos));
    }
    let b = data[pos];
    let folder = b < 0x80;
    let len = (b % 0x80) as usize;
    if len == 0 {
        return Ok((Option::None, pos + 1));
    }
    if len > data.len() - (pos + 1) {
        return Err(DecodeError::ReadError);
    }
    let mut name: Vec<u8> = Vec::new();
    let mut i: usize = 0;
    proof {
        assert(name@ =~= data@.subrange(pos + 1, pos + 1));
    }
    while i < len
        invariant
            i <= len,
            pos + 1 + len <= data@.len(),
            data@.len() <= usize::MAX,
            name@ == data@.subrange(pos + 1, pos + 1 + i),
        decreases len - i,
    {
        name.push(data[pos + 1 + i]);
        proof {
            assert(name@ =~= data@.subrange(pos + 1, pos + 1 + i + 1));
        }
        i = i + 1;
    }
    if !validate_utf8(&name) {
        return Err(DecodeError::InvalidEncodingError);
    }
    Ok((Option::Some((folder, name)), pos + 1 + len))
}

/// Three raw bytes: red, green, blue.
pub fn decode_color(data: &Vec<u8>, pos: usize) -> (res: Result<
    ((u8, u8, u8), usize),
    DecodeError,
>)
    ensures
        pos + 3 <= data@.len() ==> (res matches Ok(r) && r.0 == (
            data@[pos as int],
            data@[pos as int + 1],
            data@[pos as int + 2],
        ) && r.1 == pos + 3),
        pos + 3 > data@.len() ==> (res matches Err(e) && e == DecodeError::ReadError),
{
    if data.len() < 3 || pos > data.len() - 3 {
        Err(DecodeError::ReadError)
    } else {
        Ok(((data[pos], data[pos + 1], data[pos + 2]), pos + 3))
    }
}

/// The timestamp tag is reserved by the format but its payload is not
/// defined anywhere, so decoding one always reports `NotImplemented`.
pub fn decode_timestamp(_data: &Vec<u8>, _pos: usize) -> (res: Result<(u64, usize), DecodeError>)
    ensures
        res matches Err(e) && e == DecodeError::NotImplemented,
{
    Err(DecodeError::NotImplemented)
}

/// A length-prefixed run of raw bytes.
pub fn decode_bytevec(data: &Vec<u8>, pos: usize) -> (res: Result<(Vec<u8>, usize), DecodeError>)
    ensures
        match spec_decode_bytevec(data@, pos as int) {
            Ok((b, p)) => res matches Ok(r) && r.0@ == b && r.1 == p,
            Err(e) => res matches Err(e2) && e2 == e,
        },
{
    match decode_usize(data, pos) {
        Ok((l, p2)) => {
            proof {
                lemma_uint_bounds(data@, pos as int, 10);
            }
            if l > data.len() - p2 {
                return Err(DecodeError::ReadError);
            }
            let mut buf: Vec<u8> = Vec::new();
            let mut i: usize = 0;
            proof {
                assert(buf@ =~= data@.subrange(p2 as int, p2 as int));
            }
            while i < l
                invariant
                    i <= l,
                    p2 + l <= data@.len(),
                    data@.len() <= usize::MAX,
                    buf@ == data@.subrange(p2 as int, p2 + i),
                decreases l - i,
            {
                buf.push(data[p2 + i]);
                proof {
                    assert(buf@ =~= data@.subrange(p2 as int, p2 + i + 1));
                }
                i = i + 1;
            }
            Ok((buf, p2 + l))
        },
        Err(e) => Err(e),
    }
}

/// One type-tagged value, dispatched on its tag byte.
pub fn decode_type(data: &Vec<u8>, pos: usize) -> (res: Result<
    (ConfigurationItem, usize),
    DecodeError,
>)
    ensures
        match spec_decode_item(data@, pos as int) {
            Ok((m, p)) => res matches Ok(r) && r.0.model() == m && r.1 == p,
            Err(e) => res matches Err(e2) && e2 == e,
        },
    decreases data@.len() - pos, 2nat, 0nat,
{
    if pos >= data.len() {
        return Err(DecodeError::ReadError);
    }
    let tag = data[pos];
    let p1 = pos + 1;
    match tag {
        0x01u8 => Ok((ConfigurationItem::Bool(false), p1)),
        0x02u8 => Ok((ConfigurationItem::Bool(true), p1)),
        0x03u8 => match read_byte(data, p1) {
            Ok(b) => Ok((ConfigurationItem::Byte(b), p1 + 1)),
            Err(e) => Err(e),
        },
        0x04u8 => match decode_usize(data, p1) {
            Ok((v, p)) => Ok((ConfigurationItem::Usize(v), p)),
            Err(e) => Err(e),
        },
        0x05u8 => match decode_isize(data, p1) {
            Ok((v, p)) => Ok((ConfigurationItem::Isize(v), p)),
            Err(e) => Err(e),
        },
        0x06u8 => {
            if data.len() < 4 || p1 > data.len() - 4 {
                Err(DecodeError::ReadError)
            } else {
                let bits = data[p1] as u32 + (data[p1 + 1] as u32) * 0x100 + (data[p1 + 2] as u32)
                    * 0x10000 + (data[p1 + 3] as u32) * 0x1000000;
                Ok((ConfigurationItem::F32(bits), p1 + 4))
            }
        },
        0x07u8 => {
            if data.len() < 8 || p1 > data.len() - 8 {
                Err(DecodeError::ReadError)
            } else {
                let bits = data[p1] as u64 + (data[p1 + 1] as u64) * 0x100 + (data[p1 + 2] as u64)
                    * 0x10000 + (data[p1 + 3] as u64) * 0x1000000 + (data[p1 + 4] as u64)
                    * 0x100000000 + (data[p1 + 5] as u64) * 0x10000000000 + (data[p1 + 6] as u64)
                    * 0x1000000000000 + (data[p1 + 7] as u64) * 0x100000000000000;
                Ok((ConfigurationItem::F64(bits), p1 + 8))
            }
        },
        0x08u8 => Err(DecodeError::NotImplemented),
        0x09u8 => match decode_color(data, p1) {
            Ok((c, p)) => Ok((ConfigurationItem::Color(c.0, c.1, c.2), p)),
            Err(e) => Err(e),
        },
        0x80u8 => match decode_bytevec(data, p1) {
            Ok((b, p)) => Ok((ConfigurationItem::ByteArray(b), p)),
            Err(e) => Err(e),
        },
        0x81u8 => match decode_array(data, p1) {
            Ok((a, p)) => Ok((ConfigurationItem::Array(a), p)),
            Err(e) => Err(e),
        },
        0x82u8 => match decode_string(data, p1) {
            Ok((t, p)) => Ok((ConfigurationItem::Text(t), p)),
            Err(e) => Err(e),
        },
        0x83u8 => match decode_path(data, p1) {
            Ok((t, p)) => Ok((ConfigurationItem::PathText(t), p)),
            Err(e) => Err(e),
        },
        _ => Err(DecodeError::InvalidEncodingError),
    }
}

/// An array value: its element count, then its elements.
pub fn decode_array(data: &Vec<u8>, pos: usize) -> (res: Result<
    (Vec<ConfigurationItem>, usize),
    DecodeError,
>)
    ensures
        match spec_decode_array(data@, pos as int) {
            Ok((ms, p)) => res matches Ok(r) && ConfigurationItem::seq_model(r.0@) == ms && r.1
                == p,
            Err(e) => res matches Err(e2) && e2 == e,
        },
    decreases data@.len() - pos, 1nat, 0nat,
{
    match decode_usize(data, pos) {
        Ok((l, p2)) => {
            proof {
                lemma_uint_bounds(data@, pos as int, 10);
            }
            decode_items(data, p2, l)
        },
        Err(e) => Err(e),
    }
}

/// `count` type-tagged values, one after the other.
pub fn decode_items(data: &Vec<u8>, pos: usize, count: usize) -> (res: Result<
    (Vec<ConfigurationItem>, usize),
    DecodeError,
>)
    ensures
        match spec_decode_items(data@, pos as int, count as nat) {
            Ok((ms, p)) => res matches Ok(r) && ConfigurationItem::seq_model(r.0@) == ms && r.1
                == p,
            Err(e) => res matches Err(e2) && e2 == e,
        },
    decreases data@.len() - pos, 3nat, count as nat,
{
    if count == 0 {
        let v: Vec<ConfigurationItem> = Vec::new();
        proof {
            assert(ConfigurationItem::seq_model(v@) =~= Seq::<ItemModel>::empty());
        }
        Ok((v, pos))
    } else {
        match decode_type(data, pos) {
            Ok((it, p2)) => {
                proof {
                    lemma_item_bounds(data@, pos as int);
                }
                match decode_items(data, p2, count - 1) {
                    Ok((mut rest, p3)) => {
                        let ghost itm = it.model();
                        let ghost rest0 = rest@;
                        rest.insert(0, it);
                        proof {
                            lemma_seq_model_index(rest@);
                            lemma_seq_model_index(rest0);
                            assert(rest@[0].model() == itm);
                            assert(ConfigurationItem::seq_model(rest@) =~= seq![itm]
                                + ConfigurationItem::seq_model(rest0));
                        }
                        Ok((rest, p3))
                    },
                    Err(e) => Err(e),
                }
            },
            Err(e) => Err(e),
        }
    }
}

/// A node body accumulated into `acc`; see `spec_decode_body`.
pub fn decode_body(data: &Vec<u8>, pos: usize, acc: ConfigurationNode) -> (res: Result<
    (ConfigurationNode, usize),
    DecodeError,
>)
    ensures
        match spec_decode_body(data@, pos as int, acc.model().entries) {
            Ok((es, p)) => res matches Ok(r) && r.0.model().entries == es && r.1 == p,
            Err(e) => res matches Err(e2) && e2 == e,
        },
    decreases data@.len() - pos, 4nat, 0nat,
{
    match decode_key(data, pos) {
        Ok((k, pk)) => match k {
            Option::None => Ok((acc, pk)),
            Option::Some((folder, name)) => {
                proof {
                    lemma_key_bounds(data@, pos as int);
                }
                if folder {
                    match decode_folder(data, pk) {
                        Ok((sub, pv)) => {
                            proof {
                                lemma_body_bounds(data@, pk as int, Seq::empty());
                            }
                            let ghost subm = sub.model();
                            let mut acc2 = acc;
                            acc2.insert(name, ConfigurationItem::Node(sub));
                            proof {
                                match spec_decode_body(data@, pk as int, Seq::empty()) {
                                    Ok((es_sub, _)) => {
                                        assert(subm =~= NodeModel { entries: es_sub });
                                    },
                                    Err(_) => {},
                                }
                            }
                            decode_body(data, pv, acc2)
                        },
                        Err(e) => Err(e),
                    }
                } else {
                    match decode_type(data, pk) {
                        Ok((item, pv)) => {
                            proof {
                                lemma_item_bounds(data@, pk as int);
                            }
                            let mut acc2 = acc;
                            acc2.insert(name, item);
                            decode_body(data, pv, acc2)
                        },
                        Err(e) => Err(e),
                    }
                }
            },
        },
        Err(e) => Err(e),
    }
}

/// A node body starting from an empty node.
pub fn decode_folder(data: &Vec<u8>, pos: usize) -> (res: Result<
    (ConfigurationNode, usize),
    DecodeError,
>)
    ensures
        match spec_decode_body(data@, pos as int, Seq::empty()) {
            Ok((es, p)) => res matches Ok(r) && r.0.model().entries == es && r.1 == p,
            Err(e) => res matches Err(e2) && e2 == e,
        },
    decreases data@.len() - pos, 5nat, 0nat,
{
    let node = ConfigurationNode::new();
    decode_body(data, pos, node)
}

/// The file header: signature, reserved bytes, version, root name.
pub fn decode_header(data: &Vec<u8>) -> (res: Result<((u32, Vec<u8>), usize), DecodeError>)
    ensures
        match spec_decode_header(data@) {
            Ok(((ver, nm), p)) => res matches Ok(r) && r.0.0 == ver && r.0.1@ == nm && r.1 == p,
            Err(e) => res matches Err(e2) && e2 == e,
        },
{
    if data.len() < 4 {
        return Err(DecodeError::ReadError);
    }
    if !(data[0] == 0x7F && data[1] == 0x43 && data[2] == 0x54 && data[3] == 0x00) {
        return Err(DecodeError::InvalidFileError);
    }
    if data.len() < 16 {
        return Err(DecodeError::ReadError);
    }
    let version = data[12] as u32 + (data[13] as u32) * 0x100 + (data[14] as u32) * 0x10000 + (
    data[15] as u32) * 0x1000000;
    match decode_string(data, 16) {
        Ok((nm, p)) => Ok(((version, nm), p)),
        Err(e) => Err(e),
    }
}

/// Decode a whole buffer: validate the header, then read the root node.
pub fn decode_file(data: &Vec<u8>) -> (res: Result<ConfigurationNode, DecodeError>)
    ensures
        match spec_decode_file(data@) {
            Ok(nm) => res matches Ok(n) && n.model() == nm,
            Err(e) => res matches Err(e2) && e2 == e,
        },
{
    match decode_header(data) {
        Ok((_header, p)) => match decode_folder(data, p) {
            Ok((node, _end)) => {
                proof {
                    match spec_decode_body(data@, p as int, Seq::empty()) {
                        Ok((es, _)) => {
                            assert(node.model() =~= NodeModel { entries: es });
                        },
                        Err(_) => {},
                    }
                }
                Ok(node)
            },
            Err(e) => Err(e),
        },
        Err(e) => Err(e),
    }
}

} // verus!
