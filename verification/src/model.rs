//! Mathematical model of a configuration tree.
//!
//! `ItemModel` and `NodeModel` mirror the executable tree types with
//! sequences in place of vectors; every contract in this crate speaks
//! about these models.

use vstd::prelude::*;

verus! {

/// Model of a single tagged configuration value.
#[verifier::ext_equal]
pub enum ItemModel {
    Absent,
    Bool(bool),
    Byte(u8),
    Usize(usize),
    Isize(isize),
    F32(u32),
    F64(u64),
    Timestamp,
    Color(u8, u8, u8),
    ByteArray(Seq<u8>),
    Array(Seq<ItemModel>),
    Text(Seq<u8>),
    PathText(Seq<u8>),
    Node(NodeModel),
}

/// Model of a node: its entries in insertion order.
/// The key order carries no meaning for lookups, but encoding walks it.
#[verifier::ext_equal]
pub struct NodeModel {
    pub entries: Seq<(Seq<u8>, ItemModel)>,
}

/// Index of the first entry named `name`, or -1 when there is none.
pub open spec fn key_index(entries: Seq<(Seq<u8>, ItemModel)>, name: Seq<u8>) -> int
    decreases entries.len(),
{
    if entries.len() == 0 {
        -1
    } else if entries[0].0 == name {
        0
    } else {
        let r = key_index(entries.drop_first(), name);
        if r < 0 {
            -1
        } else {
            r + 1
        }
    }
}

/// The value stored under `name`, if any.
pub open spec fn lookup(entries: Seq<(Seq<u8>, ItemModel)>, name: Seq<u8>) -> Option<ItemModel> {
    if key_index(entries, name) < 0 {
        Option::None
    } else {
        Option::Some(entries[key_index(entries, name)].1)
    }
}

/// Insert-or-overwrite: replaces the value of an existing entry in place,
/// otherwise appends a new entry at the end.
pub open spec fn upsert(
    entries: Seq<(Seq<u8>, ItemModel)>,
    name: Seq<u8>,
    item: ItemModel,
) -> Seq<(Seq<u8>, ItemModel)> {
    let i = key_index(entries, name);
    if i < 0 {
        entries.push((name, item))
    } else {
        entries.update(i, (entries[i].0, item))
    }
}

pub proof fn lemma_key_index_in_range(entries: Seq<(Seq<u8>, ItemModel)>, name: Seq<u8>)
    ensures
        key_index(entries, name) < entries.len(),
        key_index(entries, name) >= 0 ==> entries[key_index(entries, name)].0 == name,
        key_index(entries, name) < 0 ==> forall|i: int|
            0 <= i < entries.len() ==> (#[trigger] entries[i]).0 != name,
    decreases entries.len(),
{
    if entries.len() != 0 && entries[0].0 != name {
        lemma_key_index_in_range(entries.drop_first(), name);
        assert forall|i: int|
            key_index(entries, name) < 0 && 0 <= i < entries.len() implies (#[trigger] entries[i]).0
            != name by {
            if i > 0 {
                assert(entries.drop_first()[i - 1] == entries[i]);
            }
        }
    }
}

/// `key_index` finds the first entry with the given name.
pub proof fn lemma_key_index_first(entries: Seq<(Seq<u8>, ItemModel)>, name: Seq<u8>, i: int)
    requires
        0 <= i < entries.len(),
        entries[i].0 == name,
        forall|j: int| 0 <= j < i ==> (#[trigger] entries[j]).0 != name,
    ensures
        key_index(entries, name) == i,
    decreases entries.len(),
{
    if i > 0 {
        assert(entries[0].0 != name);
        assert forall|j: int| 0 <= j < i - 1 implies (#[trigger] entries.drop_first()[j]).0
            != name by {
            assert(entries.drop_first()[j] == entries[j + 1]);
        }
        assert(entries.drop_first()[i - 1] == entries[i]);
        lemma_key_index_first(entries.drop_first(), name, i - 1);
    }
}

/// A key of the wire format: one to 127 bytes of well-formed text.
pub open spec fn wf_name(name: Seq<u8>) -> bool {
    &&& 1 <= name.len() <= 127
    &&& utf8_valid(name)
}

/// Valid values: text payloads carry no stray terminator byte, sized
/// payloads fit the machine word their length is decoded into, and
/// every nested value is valid in turn.
pub open spec fn wf_item(m: ItemModel) -> bool
    decreases m,
{
    match m {
        ItemModel::Text(s) => forall|i: int| 0 <= i < s.len() ==> s[i] != 0,
        ItemModel::PathText(s) => forall|i: int| 0 <= i < s.len() ==> s[i] != 0,
        ItemModel::ByteArray(bs) => bs.len() <= usize::MAX,
        ItemModel::Array(ms) => ms.len() <= usize::MAX && forall|i: int|
            0 <= i < ms.len() ==> wf_item(#[trigger] ms[i]),
        ItemModel::Node(n) => wf_entries(n.entries),
        _ => true,
    }
}

/// Valid node entries: well-formed names, pairwise distinct, valid values.
pub open spec fn wf_entries(es: Seq<(Seq<u8>, ItemModel)>) -> bool
    decreases es,
{
    &&& forall|i: int, j: int| 0 <= i < j < es.len() ==> (#[trigger] es[i]).0 != (#[trigger] es[j]).0
    &&& forall|i: int| 0 <= i < es.len() ==> wf_name((#[trigger] es[i]).0)
    &&& forall|i: int| 0 <= i < es.len() ==> wf_item((#[trigger] es[i]).1)
}

pub open spec fn wf_node(n: NodeModel) -> bool {
    wf_entries(n.entries)
}

/// Overlay `e` onto `base`: matching node pairs merge recursively,
/// anything else replaces, a fresh key is appended.
pub open spec fn merge_one(
    base: Seq<(Seq<u8>, ItemModel)>,
    e: (Seq<u8>, ItemModel),
) -> Seq<(Seq<u8>, ItemModel)>
    decreases e,
{
    let i = key_index(base, e.0);
    if i < 0 {
        base.push(e)
    } else {
        match (base[i].1, e.1) {
            (ItemModel::Node(bn), ItemModel::Node(on)) => base.update(
                i,
                (base[i].0, ItemModel::Node(spec_merge(bn, on))),
            ),
            _ => base.update(i, (base[i].0, e.1)),
        }
    }
}

/// Overlay the entries `es` onto `base`, first to last.
pub open spec fn merge_entries(
    base: Seq<(Seq<u8>, ItemModel)>,
    es: Seq<(Seq<u8>, ItemModel)>,
) -> Seq<(Seq<u8>, ItemModel)>
    decreases es,
{
    if es.len() == 0 {
        base
    } else {
        merge_one(merge_entries(base, es.drop_last()), es.last())
    }
}

/// Deep overlay-merge of two trees; `overlay` wins on conflicts, and
/// only node-to-node conflicts recurse.
pub open spec fn spec_merge(base: NodeModel, overlay: NodeModel) -> NodeModel
    decreases overlay,
{
    NodeModel { entries: merge_entries(base.entries, overlay.entries) }
}

/// Is `b` a UTF-8 continuation byte (`10xxxxxx`)?
pub open spec fn utf8_cont(b: u8) -> bool {
    0x80 <= b < 0xC0
}

/// Well-formed UTF-8, by the shortest-form byte ranges of RFC 3629.
pub open spec fn utf8_valid(s: Seq<u8>) -> bool
    decreases s.len(),
{
    if s.len() == 0 {
        true
    } else {
        let b = s[0];
        if b < 0x80 {
            utf8_valid(s.drop_first())
        } else if 0xC2 <= b <= 0xDF {
            &&& s.len() >= 2
            &&& utf8_cont(s[1])
            &&& utf8_valid(s.skip(2))
        } else if b == 0xE0 {
            &&& s.len() >= 3
            &&& 0xA0 <= s[1] < 0xC0
            &&& utf8_cont(s[2])
            &&& utf8_valid(s.skip(3))
        } else if (0xE1 <= b <= 0xEC) || b == 0xEE || b == 0xEF {
            &&& s.len() >= 3
            &&& utf8_cont(s[1])
            &&& utf8_cont(s[2])
            &&& utf8_valid(s.skip(3))
        } else if b == 0xED {
            &&& s.len() >= 3
            &&& 0x80 <= s[1] < 0xA0
            &&& utf8_cont(s[2])
            &&& utf8_valid(s.skip(3))
        } else if b == 0xF0 {
            &&& s.len() >= 4
            &&& 0x90 <= s[1] < 0xC0
            &&& utf8_cont(s[2])
            &&& utf8_cont(s[3])
            &&& utf8_valid(s.skip(4))
        } else if 0xF1 <= b <= 0xF3 {
            &&& s.len() >= 4
            &&& utf8_cont(s[1])
            &&& utf8_cont(s[2])
            &&& utf8_cont(s[3])
            &&& utf8_valid(s.skip(4))
        } else if b == 0xF4 {
            &&& s.len() >= 4
            &&& 0x80 <= s[1] < 0x90
            &&& utf8_cont(s[2])
            &&& utf8_cont(s[3])
            &&& utf8_valid(s.skip(4))
        } else {
            false
        }
    }
}

} // verus!
