//! A compact binary serialization format for hierarchical, named
//! configuration data, with a deterministic overlay-merge.
//!
//! A tree of [`ConfigurationNode`]s maps text keys to tagged values
//! ([`ConfigurationItem`]); [`decode::decode_file`] reads a tree from a
//! byte buffer and [`encode::encode_configuration`] writes one back.
//! Contracts are stated over the models of [`model`].

use vstd::prelude::*;

pub mod decode;
pub mod encode;
pub mod laws;
pub mod model;

use crate::model::{
    key_index, lemma_key_index_first, lookup, merge_entries, merge_one, spec_merge, upsert,
    wf_entries, ItemModel, NodeModel,
};

verus! {

/// A tagged configuration value.
///
/// Floating-point payloads are carried as their IEEE-754 bit patterns
/// (`F32`/`F64`), text payloads as their raw bytes.
#[derive(Debug, PartialEq)]
pub enum ConfigurationItem {
    Absent,
    Bool(bool),
    Byte(u8),
    Usize(usize),
    Isize(isize),
    F32(u32),
    F64(u64),
    Timestamp,
    Color(u8, u8, u8),
    ByteArray(Vec<u8>),
    Array(Vec<ConfigurationItem>),
    Text(Vec<u8>),
    PathText(Vec<u8>),
    Node(ConfigurationNode),
}

/// A mapping from key names to configuration values, in insertion order.
#[derive(Debug, PartialEq)]
pub struct ConfigurationNode {
    pub entries: Vec<(Vec<u8>, ConfigurationItem)>,
}

impl ConfigurationItem {
    /// The model of this value.
    pub open spec fn model(self) -> ItemModel
        decreases self,
    {
        match self {
            ConfigurationItem::Absent => ItemModel::Absent,
            ConfigurationItem::Bool(b) => ItemModel::Bool(b),
            ConfigurationItem::Byte(b) => ItemModel::Byte(b),
            ConfigurationItem::Usize(u) => ItemModel::Usize(u),
            ConfigurationItem::Isize(i) => ItemModel::Isize(i),
            ConfigurationItem::F32(bits) => ItemModel::F32(bits),
            ConfigurationItem::F64(bits) => ItemModel::F64(bits),
            ConfigurationItem::Timestamp => ItemModel::Timestamp,
            ConfigurationItem::Color(r, g, b) => ItemModel::Color(r, g, b),
            ConfigurationItem::ByteArray(v) => ItemModel::ByteArray(v@),
            ConfigurationItem::Array(v) => ItemModel::Array(Self::seq_model(v@)),
            ConfigurationItem::Text(v) => ItemModel::Text(v@),
            ConfigurationItem::PathText(v) => ItemModel::PathText(v@),
            ConfigurationItem::Node(n) => ItemModel::Node(n.model()),
        }
    }

    /// The models of a sequence of values, element by element.
    pub open spec fn seq_model(s: Seq<ConfigurationItem>) -> Seq<ItemModel>
        decreases s,
    {
        if s.len() == 0 {
            Seq::empty()
        } else {
            seq![s[0].model()] + Self::seq_model(s.drop_first())
        }
    }
}

impl ConfigurationNode {
    /// The model of this node.
    pub open spec fn model(self) -> NodeModel
        decreases self,
    {
        NodeModel { entries: Self::entries_model(self.entries@) }
    }

    /// The models of a sequence of entries, entry by entry.
    pub open spec fn entries_model(s: Seq<(Vec<u8>, ConfigurationItem)>) -> Seq<
        (Seq<u8>, ItemModel),
    >
        decreases s,
    {
        if s.len() == 0 {
            Seq::empty()
        } else {
            seq![(s[0].0@, s[0].1.model())] + Self::entries_model(s.drop_first())
        }
    }

    /// A valid tree: well-formed unique key names, valid values throughout.
    pub open spec fn wf(self) -> bool {
        wf_entries(self.model().entries)
    }

    /// An empty node.
    pub fn new() -> (r: Self)
        ensures
            r.model().entries == Seq::<(Seq<u8>, ItemModel)>::empty(),
    {
        ConfigurationNode { entries: Vec::new() }
    }

    /// Insert `item` under `name`, overwriting in place any entry of the
    /// same name and appending otherwise.
    pub fn insert(&mut self, name: Vec<u8>, item: ConfigurationItem)
        ensures
            final(self).model().entries == upsert(old(self).model().entries, name@, item.model()),
    {
        let ghost es0 = self.model().entries;
        let mut i: usize = 0;
        while i < self.entries.len()
            invariant
                i <= self.entries@.len(),
                *self == *old(self),
                es0 == self.model().entries,
                forall|j: int| 0 <= j < i ==> (#[trigger] es0[j]).0 != name@,
            decreases self.entries@.len() - i,
        {
            proof {
                lemma_entries_model_index(self.entries@);
            }
            if bytes_eq(&self.entries[i].0, &name) {
                proof {
                    lemma_key_index_first(es0, name@, i as int);
                }
                let ghost itemm = item.model();
                let kept = self.entries.remove(i);
                self.entries.insert(i, (kept.0, item));
                proof {
                    assert(self.entries@ =~= old(self).entries@.update(
                        i as int,
                        self.entries@[i as int],
                    ));
                    lemma_entries_model_index(self.entries@);
                    lemma_entries_model_index(old(self).entries@);
                    assert(self.entries@[i as int].0@ == name@);
                    assert(self.entries@[i as int].1.model() == itemm);
                    assert(self.model().entries =~= upsert(es0, name@, itemm));
                }
                return ;
            }
            proof {
                assert(es0[i as int].0 == self.entries@[i as int].0@);
            }
            i = i + 1;
        }
        proof {
            lemma_entries_model_index(self.entries@);
            crate::model::lemma_key_index_in_range(es0, name@);
            if key_index(es0, name@) >= 0 {
                assert(es0[key_index(es0, name@)].0 != name@);
                assert(false);
            }
        }
        let ghost itemm = item.model();
        let ghost namev = name@;
        self.entries.push((name, item));
        proof {
            lemma_entries_model_index(self.entries@);
            lemma_entries_model_index(old(self).entries@);
            assert(self.model().entries =~= upsert(es0, namev, itemm));
        }
    }

    /// The value stored under `name`, if any.
    pub fn get(&self, name: &Vec<u8>) -> (res: Option<&ConfigurationItem>)
        ensures
            match lookup(self.model().entries, name@) {
                Option::Some(m) => res matches Option::Some(it) && it.model() == m,
                Option::None => res is None,
            },
    {
        let ghost es = self.model().entries;
        let mut i: usize = 0;
        while i < self.entries.len()
            invariant
                i <= self.entries@.len(),
                es == self.model().entries,
                forall|j: int| 0 <= j < i ==> (#[trigger] es[j]).0 != name@,
            decreases self.entries@.len() - i,
        {
            proof {
                lemma_entries_model_index(self.entries@);
            }
            if bytes_eq(&self.entries[i].0, name) {
                proof {
                    lemma_key_index_first(es, name@, i as int);
                }
                return Option::Some(&self.entries[i].1);
            }
            proof {
                assert(es[i as int].0 == self.entries@[i as int].0@);
            }
            i = i + 1;
        }
        proof {
            lemma_entries_model_index(self.entries@);
            crate::model::lemma_key_index_in_range(es, name@);
            if key_index(es, name@) >= 0 {
                assert(es[key_index(es, name@)].0 != name@);
                assert(false);
            }
        }
        Option::None
    }
}

impl ConfigurationNode {
    /// Deep overlay-merge: `other` takes priority, matching node pairs
    /// merge recursively, everything else is replaced by a copy of the
    /// overlay's value.  `other` is never changed.
    pub fn merge(&mut self, other: &Self)
        ensures
            final(self).model() == spec_merge(old(self).model(), other.model()),
        decreases other,
    {
        let ghost base0 = self.model();
        let ghost oes = other.model().entries;
        let mut i: usize = 0;
        proof {
            lemma_entries_model_index(other.entries@);
            assert(oes.take(0) =~= Seq::<(Seq<u8>, ItemModel)>::empty());
        }
        while i < other.entries.len()
            invariant
                i <= other.entries@.len(),
                oes == other.model().entries,
                oes.len() == other.entries@.len(),
                forall|j: int|
                    0 <= j < oes.len() ==> oes[j] == ((#[trigger] other.entries@[j]).0@,
                    other.entries@[j].1.model()),
                self.model().entries == merge_entries(base0.entries, oes.take(i as int)),
            decreases other.entries@.len() - i,
        {
            proof {
                assert(oes.take(i as int + 1).drop_last() =~= oes.take(i as int));
                assert(oes.take(i as int + 1).last() == oes[i as int]);
            }
            let ghost cur = self.model().entries;
            match find_key(&self.entries, &other.entries[i].0) {
                Option::None => {
                    let cname = clone_bytes(&other.entries[i].0);
                    let citem = clone_item(&other.entries[i].1);
                    let ghost cn = cname@;
                    let ghost cm = citem.model();
                    let ghost pre = self.entries@;
                    self.entries.push((cname, citem));
                    proof {
                        lemma_entries_model_index(self.entries@);
                        lemma_entries_model_index(pre);
                        assert(self.model().entries =~= cur.push((cn, cm)));
                        assert(self.model().entries =~= merge_one(cur, oes[i as int]));
                    }
                },
                Option::Some(k) => {
                    let ghost pre = self.entries@;
                    let pair = self.entries.remove(k);
                    let kn = pair.0;
                    let kv = pair.1;
                    let ghost kvm = kv.model();
                    let ghost knv = kn@;
                    match kv {
                        ConfigurationItem::Node(mut bn) => {
                            if let ConfigurationItem::Node(on) = &other.entries[i].1 {
                                proof {
                                    assert(decreases_to!(*other => other.entries));
                                    assert(decreases_to!(other.entries => other.entries@));
                                    assert(decreases_to!(other.entries@ => other.entries@[
                                    i as int]));
                                }
                                bn.merge(on);
                                let ghost bnm = bn.model();
                                self.entries.insert(k, (kn, ConfigurationItem::Node(bn)));
                                proof {
                                    assert(self.entries@ =~= pre.update(
                                        k as int,
                                        self.entries@[k as int],
                                    ));
                                    lemma_entries_model_index(self.entries@);
                                    lemma_entries_model_index(pre);
                                    assert(self.model().entries =~= cur.update(
                                        k as int,
                                        (knv, ItemModel::Node(bnm)),
                                    ));
                                    assert(self.model().entries =~= merge_one(
                                        cur,
                                        oes[i as int],
                                    ));
                                }
                            } else {
                                let citem = clone_item(&other.entries[i].1);
                                let ghost cm = citem.model();
                                self.entries.insert(k, (kn, citem));
                                proof {
                                    assert(self.entries@ =~= pre.update(
                                        k as int,
                                        self.entries@[k as int],
                                    ));
                                    lemma_entries_model_index(self.entries@);
                                    lemma_entries_model_index(pre);
                                    assert(self.model().entries =~= cur.update(
                                        k as int,
                                        (knv, cm),
                                    ));
                                    assert(self.model().entries =~= merge_one(
                                        cur,
                                        oes[i as int],
                                    ));
                                }
                            }
                        },
                        _ => {
                            let citem = clone_item(&other.entries[i].1);
                            let ghost cm = citem.model();
                            self.entries.insert(k, (kn, citem));
                            proof {
                                assert(self.entries@ =~= pre.update(
                                    k as int,
                                    self.entries@[k as int],
                                ));
                                lemma_entries_model_index(self.entries@);
                                lemma_entries_model_index(pre);
                                assert(!(kvm is Node));
                                assert(self.model().entries =~= cur.update(k as int, (knv, cm)));
                                assert(self.model().entries =~= merge_one(cur, oes[i as int]));
                            }
                        },
                    }
                },
            }
            i = i + 1;
        }
        proof {
            assert(oes.take(i as int) =~= oes);
            assert(final(self).model() =~= spec_merge(base0, other.model()));
        }
    }
}

/// First index holding `name` among `entries`, by the model's `key_index`.
fn find_key(entries: &Vec<(Vec<u8>, ConfigurationItem)>, name: &Vec<u8>) -> (res: Option<usize>)
    ensures
        ({
            let es = ConfigurationNode::entries_model(entries@);
            match res {
                Option::Some(k) => 0 <= k < entries@.len() && key_index(es, name@) == k,
                Option::None => key_index(es, name@) < 0,
            }
        }),
{
    let ghost es = ConfigurationNode::entries_model(entries@);
    let mut i: usize = 0;
    while i < entries.len()
        invariant
            i <= entries@.len(),
            es == ConfigurationNode::entries_model(entries@),
            forall|j: int| 0 <= j < i ==> (#[trigger] es[j]).0 != name@,
        decreases entries@.len() - i,
    {
        proof {
            lemma_entries_model_index(entries@);
        }
        if bytes_eq(&entries[i].0, name) {
            proof {
                lemma_key_index_first(es, name@, i as int);
            }
            return Option::Some(i);
        }
        proof {
            assert(es[i as int].0 == entries@[i as int].0@);
        }
        i = i + 1;
    }
    proof {
        lemma_entries_model_index(entries@);
        crate::model::lemma_key_index_in_range(es, name@);
        if key_index(es, name@) >= 0 {
            assert(es[key_index(es, name@)].0 != name@);
            assert(false);
        }
    }
    Option::None
}

/// A fresh vector with the same bytes.
fn clone_bytes(v: &Vec<u8>) -> (r: Vec<u8>)
    ensures
        r@ == v@,
{
    let mut out: Vec<u8> = Vec::new();
    let mut i: usize = 0;
    while i < v.len()
        invariant
            i <= v@.len(),
            out@ == v@.subrange(0, i as int),
        decreases v@.len() - i,
    {
        out.push(v[i]);
        proof {
            assert(out@ =~= v@.subrange(0, i + 1));
        }
        i = i + 1;
    }
    proof {
        assert(out@ =~= v@);
    }
    out
}

/// A deep copy of a value, with the same model.
fn clone_item(x: &ConfigurationItem) -> (r: ConfigurationItem)
    ensures
        r.model() == x.model(),
    decreases x,
{
    match x {
        ConfigurationItem::Absent => ConfigurationItem::Absent,
        ConfigurationItem::Bool(b) => ConfigurationItem::Bool(*b),
        ConfigurationItem::Byte(b) => ConfigurationItem::Byte(*b),
        ConfigurationItem::Usize(u) => ConfigurationItem::Usize(*u),
        ConfigurationItem::Isize(v) => ConfigurationItem::Isize(*v),
        ConfigurationItem::F32(bits) => ConfigurationItem::F32(*bits),
        ConfigurationItem::F64(bits) => ConfigurationItem::F64(*bits),
        ConfigurationItem::Timestamp => ConfigurationItem::Timestamp,
        ConfigurationItem::Color(r, g, b) => ConfigurationItem::Color(*r, *g, *b),
        ConfigurationItem::ByteArray(v) => ConfigurationItem::ByteArray(clone_bytes(v)),
        ConfigurationItem::Array(a) => {
            let mut out: Vec<ConfigurationItem> = Vec::new();
            let mut i: usize = 0;
            proof {
                lemma_seq_model_index(a@);
            }
            while i < a.len()
                invariant
                    i <= a@.len(),
                    *x == ConfigurationItem::Array(*a),
                    out@.len() == i,
                    forall|j: int|
                        0 <= j < i ==> (#[trigger] out@[j]).model() == a@[j].model(),
                decreases a@.len() - i,
            {
                proof {
                    match x {
                        ConfigurationItem::Array(a2) => {
                            assert(decreases_to!(*x => *a2));
                            assert(*a2 == *a);
                        },
                        _ => {
                            assert(false);
                        },
                    }
                    assert(decreases_to!(*a => a@));
                    assert(decreases_to!(a@ => a@[i as int]));
                }
                let c = clone_item(&a[i]);
                out.push(c);
                i = i + 1;
            }
            proof {
                lemma_seq_model_index(out@);
                lemma_seq_model_index(a@);
                assert(ConfigurationItem::seq_model(out@) =~= ConfigurationItem::seq_model(a@));
            }
            ConfigurationItem::Array(out)
        },
        ConfigurationItem::Text(v) => ConfigurationItem::Text(clone_bytes(v)),
        ConfigurationItem::PathText(v) => ConfigurationItem::PathText(clone_bytes(v)),
        ConfigurationItem::Node(n) => ConfigurationItem::Node(clone_node(n)),
    }
}

/// A deep copy of a node, with the same model.
fn clone_node(n: &ConfigurationNode) -> (r: ConfigurationNode)
    ensures
        r.model() == n.model(),
    decreases n,
{
    let mut out: Vec<(Vec<u8>, ConfigurationItem)> = Vec::new();
    let mut i: usize = 0;
    proof {
        lemma_entries_model_index(n.entries@);
    }
    while i < n.entries.len()
        invariant
            i <= n.entries@.len(),
            out@.len() == i,
            forall|j: int|
                0 <= j < i ==> (#[trigger] out@[j]).0@ == n.entries@[j].0@ && out@[j].1.model()
                    == n.entries@[j].1.model(),
        decreases n.entries@.len() - i,
    {
        proof {
            assert(decreases_to!(*n => n.entries));
            assert(decreases_to!(n.entries => n.entries@));
            assert(decreases_to!(n.entries@ => n.entries@[i as int]));
        }
        let cname = clone_bytes(&n.entries[i].0);
        let citem = clone_item(&n.entries[i].1);
        out.push((cname, citem));
        i = i + 1;
    }
    proof {
        lemma_entries_model_index(out@);
        lemma_entries_model_index(n.entries@);
        assert(ConfigurationNode::entries_model(out@) =~= ConfigurationNode::entries_model(
            n.entries@,
        ));
        assert(ConfigurationNode { entries: out }.model() =~= n.model());
    }
    ConfigurationNode { entries: out }
}

impl Default for ConfigurationNode {
    /// An empty node.
    fn default() -> (r: Self)
        ensures
            r.model().entries == Seq::<(Seq<u8>, ItemModel)>::empty(),
    {
        ConfigurationNode { entries: Vec::new() }
    }
}

/// Do two byte vectors hold the same bytes?
pub fn bytes_eq(a: &Vec<u8>, b: &Vec<u8>) -> (r: bool)
    ensures
        r == (a@ == b@),
{
    if a.len() != b.len() {
        return false;
    }
    let mut i: usize = 0;
    while i < a.len()
        invariant
            i <= a@.len(),
            a@.len() == b@.len(),
            forall|j: int| 0 <= j < i ==> a@[j] == b@[j],
        decreases a@.len() - i,
    {
        if a[i] != b[i] {
            return false;
        }
        i = i + 1;
    }
    proof {
        assert(a@ =~= b@);
    }
    true
}

/// `seq_model` maps the sequence pointwise.
pub proof fn lemma_seq_model_index(s: Seq<ConfigurationItem>)
    ensures
        ConfigurationItem::seq_model(s).len() == s.len(),
        forall|i: int|
            #![trigger ConfigurationItem::seq_model(s)[i]]
            #![trigger s[i]]
            0 <= i < s.len() ==> ConfigurationItem::seq_model(s)[i] == s[i].model(),
    decreases s,
{
    if s.len() != 0 {
        lemma_seq_model_index(s.drop_first());
        assert forall|i: int| 0 <= i < s.len() implies ConfigurationItem::seq_model(s)[i] == (
        #[trigger] s[i]).model() by {
            if i > 0 {
                assert(s.drop_first()[i - 1] == s[i]);
            }
        }
    }
}

/// `entries_model` maps the sequence pointwise.
pub proof fn lemma_entries_model_index(s: Seq<(Vec<u8>, ConfigurationItem)>)
    ensures
        ConfigurationNode::entries_model(s).len() == s.len(),
        forall|i: int|
            #![trigger ConfigurationNode::entries_model(s)[i]]
            #![trigger s[i]]
            0 <= i < s.len() ==> ConfigurationNode::entries_model(s)[i] == (
            s[i].0@,
            s[i].1.model(),
            ),
    decreases s,
{
    if s.len() != 0 {
        lemma_entries_model_index(s.drop_first());
        assert forall|i: int| 0 <= i < s.len() implies ConfigurationNode::entries_model(s)[i] == ((
        #[trigger] s[i]).0@, s[i].1.model()) by {
            if i > 0 {
                assert(s.drop_first()[i - 1] == s[i]);
            }
        }
    }
}

} // verus!
