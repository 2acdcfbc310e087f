//! The decoded manifest tree, and its mathematical model.
use vstd::prelude::*;

verus! {

broadcast use vstd::std_specs::vec::axiom_vec_index_decreases;

/// A value of the decoder that this library carries through without reading it.
#[verifier::external_type_specification]
#[verifier::external_body]
pub struct ExTomlValue(toml::Value);

/// Model of a value: a table is the sequence of its entries in document order.
pub enum Node {
    Table(Seq<(Seq<char>, Node)>),
    Str(Seq<char>),
    Other(toml::Value),
}

/// Model of a table.
pub type Entries = Seq<(Seq<char>, Node)>;

/// The model of a TOML value: tables with their entries in order, strings
/// with their text, and any other value as itself.
pub uninterp spec fn toml_node(v: toml::Value) -> Node;

/// A value of the manifest: a table, a string, or anything else, which the
/// rewriter never looks into (integers, booleans, dates, arrays).
#[derive(Debug, PartialEq)]
pub enum Item {
    Table(Table),
    String(String),
    Other(toml::Value),
}

/// A table of the manifest: its entries in document order.
#[derive(Debug, PartialEq)]
pub struct Table {
    pub entries: Vec<(String, Item)>,
}

pub open spec fn node_of(v: Item) -> Node
    decreases v,
{
    match v {
        Item::Table(t) => Node::Table(
            Seq::new(
                t.entries.len() as nat,
                |i: int|
                    if 0 <= i < t.entries.len() {
                        (t.entries[i].0@, node_of(t.entries[i].1))
                    } else {
                        (Seq::empty(), Node::Str(Seq::empty()))
                    },
            ),
        ),
        Item::String(s) => Node::Str(s@),
        Item::Other(o) => Node::Other(o),
    }
}


impl View for Item {
    type V = Node;

    open spec fn view(&self) -> Node {
        node_of(*self)
    }
}

impl View for Table {
    type V = Entries;

    open spec fn view(&self) -> Entries {
        Seq::new(self.entries.len() as nat, |i: int| (self.entries[i].0@, self.entries[i].1@))
    }
}

/// The model of a table item is the model of the table.
pub broadcast proof fn lemma_table_item_view(t: Table)
    ensures
        #[trigger] Item::Table(t)@ == Node::Table(t@),
{
    assert(node_of(Item::Table(t)) == Node::Table(t@)) by {
        if let Node::Table(es) = node_of(Item::Table(t)) {
            assert(es =~= t@);
        }
    }
}

/// Some entry of `es` has the key `k`.
pub open spec fn has_key(es: Entries, k: Seq<char>) -> bool {
    exists|i: int| 0 <= i < es.len() && #[trigger] es[i].0 == k
}

/// `i` is the first position of the key `k` in `es`.
pub open spec fn is_first(es: Entries, k: Seq<char>, i: int) -> bool {
    &&& 0 <= i < es.len()
    &&& es[i].0 == k
    &&& forall|j: int| 0 <= j < i ==> #[trigger] es[j].0 != k
}

pub open spec fn first_index(es: Entries, k: Seq<char>) -> int {
    choose|i: int| is_first(es, k, i)
}

/// The value of the first entry with the key `k`.
pub open spec fn lookup(es: Entries, k: Seq<char>) -> Option<Node> {
    if has_key(es, k) {
        Some(es[first_index(es, k)].1)
    } else {
        None
    }
}

/// `es` with its first entry of key `k` taken out, if there is one.
pub open spec fn without_key(es: Entries, k: Seq<char>) -> Entries {
    if has_key(es, k) {
        es.remove(first_index(es, k))
    } else {
        es
    }
}

/// The value under key `k` of a value given as a table.
pub open spec fn child(n: Option<Node>, k: Seq<char>) -> Option<Node> {
    match n {
        Some(Node::Table(es)) => lookup(es, k),
        _ => None,
    }
}

/// No two entries of `es` share a key.
pub open spec fn unique_keys(es: Entries) -> bool {
    forall|i: int, j: int|
        0 <= i < es.len() && 0 <= j < es.len() && #[trigger] es[i].0 == #[trigger] es[j].0
            ==> i == j
}

/// Every table in `n`, at any depth, has unique keys, as in any decoded
/// document, and every opaque value is neither a table nor a string.
pub open spec fn node_wf(n: Node) -> bool
    decreases n,
{
    match n {
        Node::Table(es) => {
            &&& unique_keys(es)
            &&& forall|i: int| 0 <= i < es.len() ==> node_wf(#[trigger] es[i].1)
        },
        Node::Str(_) => true,
        Node::Other(v) => toml_node(v) == n,
    }
}

pub open spec fn entries_wf(es: Entries) -> bool {
    node_wf(Node::Table(es))
}

/// Where `i` holds key `k` in a table of unique keys, it is the first place of `k`.
pub proof fn lemma_unique_first(es: Entries, k: Seq<char>, i: int)
    requires
        unique_keys(es),
        0 <= i < es.len(),
        es[i].0 == k,
    ensures
        has_key(es, k),
        first_index(es, k) == i,
{
    assert(is_first(es, k, i));
    lemma_first_index(es, k, i);
}

/// A first position of `k` is the one that `first_index` names.
pub proof fn lemma_first_index(es: Entries, k: Seq<char>, i: int)
    requires
        is_first(es, k, i),
    ensures
        has_key(es, k),
        first_index(es, k) == i,
{
    let j = first_index(es, k);
    assert(is_first(es, k, j));
    if j < i {
        assert(es[j].0 != k);
    } else if i < j {
        assert(es[i].0 != k);
    }
}

/// A key that some entry has has a first position.
pub proof fn lemma_first_exists(es: Entries, k: Seq<char>)
    requires
        has_key(es, k),
    ensures
        is_first(es, k, first_index(es, k)),
    decreases es.len(),
{
    let init = es.drop_last();
    if has_key(init, k) {
        lemma_first_exists(init, k);
        let j = first_index(init, k);
        assert(forall|x: int| 0 <= x < init.len() ==> init[x] == es[x]);
        assert(is_first(es, k, j));
    } else {
        let n = es.len() - 1;
        assert forall|j: int| 0 <= j < n implies #[trigger] es[j].0 != k by {
            assert(init[j] == es[j]);
        }
        assert(is_first(es, k, n));
    }
}

/// Two tables whose keys agree place by place agree on which keys they have
/// and where.
pub proof fn lemma_same_keys(es: Entries, ms: Entries, k: Seq<char>)
    requires
        ms.len() == es.len(),
        forall|i: int| 0 <= i < es.len() ==> #[trigger] ms[i].0 == es[i].0,
    ensures
        has_key(ms, k) == has_key(es, k),
        unique_keys(es) ==> unique_keys(ms),
        has_key(es, k) ==> first_index(ms, k) == first_index(es, k),
{
    if has_key(es, k) {
        lemma_first_exists(es, k);
        let i = first_index(es, k);
        assert(ms[i].0 == k);
        assert forall|j: int| 0 <= j < i implies #[trigger] ms[j].0 != k by {
            assert(es[j].0 != k);
        }
        lemma_first_index(ms, k, i);
    }
    if has_key(ms, k) {
        let j = choose|j: int| 0 <= j < ms.len() && #[trigger] ms[j].0 == k;
        assert(es[j].0 == k);
    }
    if unique_keys(es) {
        assert forall|i: int, j: int|
            0 <= i < ms.len() && 0 <= j < ms.len() && #[trigger] ms[i].0 == #[trigger] ms[j].0
            implies i == j by {
            assert(es[i].0 == es[j].0);
        }
    }
}

/// Taking a key out of a table of unique keys leaves its keys unique, the key
/// gone, and every other key's value as it was.
pub proof fn lemma_without_key(es: Entries, k: Seq<char>)
    requires
        unique_keys(es),
    ensures
        unique_keys(without_key(es, k)),
        !has_key(without_key(es, k), k),
        forall|k2: Seq<char>| k2 != k ==> #[trigger] lookup(without_key(es, k), k2) == lookup(es, k2),
{
    let rs = without_key(es, k);
    if has_key(es, k) {
        lemma_first_exists(es, k);
        let p = first_index(es, k);
        assert(rs == es.remove(p));
        assert forall|i: int| 0 <= i < rs.len() implies #[trigger] rs[i] == es[if i < p { i } else { i + 1 }] by {}
        assert forall|i: int, j: int|
            0 <= i < rs.len() && 0 <= j < rs.len() && #[trigger] rs[i].0 == #[trigger] rs[j].0
            implies i == j by {
            let i2 = if i < p { i } else { i + 1 };
            let j2 = if j < p { j } else { j + 1 };
            assert(es[i2].0 == es[j2].0);
        }
        if has_key(rs, k) {
            let j = choose|j: int| 0 <= j < rs.len() && #[trigger] rs[j].0 == k;
            let j2 = if j < p { j } else { j + 1 };
            assert(es[j2].0 == k);
        }
        assert forall|k2: Seq<char>| k2 != k implies #[trigger] lookup(rs, k2) == lookup(es, k2) by {
            if has_key(es, k2) {
                let q = choose|q: int| 0 <= q < es.len() && #[trigger] es[q].0 == k2;
                lemma_unique_first(es, k2, q);
                let q2 = if q < p { q } else { q - 1 };
                assert(rs[q2] == es[q]);
                lemma_unique_first(rs, k2, q2);
            }
            if has_key(rs, k2) {
                let q = choose|q: int| 0 <= q < rs.len() && #[trigger] rs[q].0 == k2;
                let q2 = if q < p { q } else { q + 1 };
                assert(es[q2].0 == k2);
            }
        }
    }
}

/// What a lookup finds in a table whose keys agree place by place with those
/// of `es`.
pub proof fn lemma_lookup_same_keys(es: Entries, ms: Entries, k: Seq<char>)
    requires
        ms.len() == es.len(),
        forall|i: int| 0 <= i < es.len() ==> #[trigger] ms[i].0 == es[i].0,
    ensures
        has_key(es, k) ==> 0 <= first_index(es, k) < es.len() && es[first_index(es, k)].0 == k
            && lookup(es, k) == Some(
            es[first_index(es, k)].1,
        ) && lookup(ms, k) == Some(ms[first_index(es, k)].1),
        !has_key(es, k) ==> lookup(ms, k) is None && lookup(es, k) is None,
{
    lemma_same_keys(es, ms, k);
    if has_key(es, k) {
        lemma_first_exists(es, k);
    }
}

/// A value found in a well-formed table is well formed.
pub proof fn lemma_lookup_wf(es: Entries, k: Seq<char>)
    requires
        entries_wf(es),
    ensures
        lookup(es, k) matches Some(v) ==> node_wf(v),
{
    if has_key(es, k) {
        lemma_first_exists(es, k);
        assert(node_wf(es[first_index(es, k)].1));
    }
}

/// Taking a key out of a well-formed table leaves it well formed.
pub proof fn lemma_without_key_wf(es: Entries, k: Seq<char>)
    requires
        entries_wf(es),
    ensures
        entries_wf(without_key(es, k)),
{
    lemma_without_key(es, k);
    let rs = without_key(es, k);
    if has_key(es, k) {
        lemma_first_exists(es, k);
        let p = first_index(es, k);
        assert forall|i: int| 0 <= i < rs.len() implies node_wf(#[trigger] rs[i].1) by {
            let i2 = if i < p { i } else { i + 1 };
            assert(rs[i] == es[i2]);
            assert(node_wf(es[i2].1));
        }
    }
}

/// A table whose keys agree place by place with those of a well-formed
/// table, and whose values are well formed, is well formed.
pub proof fn lemma_wf_same_keys(es: Entries, ms: Entries)
    requires
        entries_wf(es),
        ms.len() == es.len(),
        forall|i: int| 0 <= i < es.len() ==> #[trigger] ms[i].0 == es[i].0,
        forall|i: int| 0 <= i < ms.len() ==> node_wf(#[trigger] ms[i].1),
    ensures
        entries_wf(ms),
{
    lemma_same_keys(es, ms, Seq::empty());
}

impl Table {
    /// The table without entries.
    pub fn new() -> (t: Table)
        ensures
            t@ == Seq::<(Seq<char>, Node)>::empty(),
    {
        let t = Table { entries: Vec::new() };
        assert(t@ =~= Seq::<(Seq<char>, Node)>::empty());
        t
    }

    pub open spec fn wf(&self) -> bool {
        entries_wf(self@)
    }

    /// Number of entries.
    pub fn len(&self) -> (n: usize)
        ensures
            n == self@.len(),
    {
        self.entries.len()
    }

    /// The first position of `key`, if the table has it.
    pub fn position(&self, key: &String) -> (r: Option<usize>)
        ensures
            match r {
                Some(i) => is_first(self@, key@, i as int),
                None => !has_key(self@, key@),
            },
    {
        let mut i: usize = 0;
        while i < self.entries.len()
            invariant
                0 <= i <= self.entries.len(),
                forall|j: int| 0 <= j < i ==> #[trigger] self@[j].0 != key@,
            decreases self.entries.len() - i,
        {
            if self.entries[i].0 == *key {
                return Some(i);
            }
            i = i + 1;
        }
        None
    }

    /// The value of `key`.
    pub fn get(&self, key: &str) -> (r: Option<&Item>)
        ensures
            match r {
                Some(v) => lookup(self@, key@) == Some(v@),
                None => lookup(self@, key@) is None,
            },
    {
        let k = key.to_owned();
        match self.position(&k) {
            Some(i) => {
                proof {
                    lemma_first_index(self@, key@, i as int);
                }
                Some(&self.entries[i].1)
            },
            None => None,
        }
    }

    /// Whether the table has `key`.
    pub fn contains_key(&self, key: &str) -> (r: bool)
        ensures
            r == has_key(self@, key@),
    {
        let k = key.to_owned();
        self.position(&k).is_some()
    }

    /// Sets `key` to `item`: in place where the key is there, else at the end.
    /// Returns the value that it replaces.
    pub fn insert(&mut self, key: String, item: Item) -> (r: Option<Item>)
        ensures
            match r {
                Some(v) => {
                    &&& lookup(old(self)@, key@) == Some(v@)
                    &&& final(self)@ == old(self)@.update(
                        first_index(old(self)@, key@),
                        (key@, item@),
                    )
                },
                None => {
                    &&& !has_key(old(self)@, key@)
                    &&& final(self)@ == old(self)@.push((key@, item@))
                },
            },
    {
        match self.position(&key) {
            Some(i) => {
                proof {
                    lemma_first_index(self@, key@, i as int);
                }
                let mut slot = (key, item);
                std::mem::swap(&mut slot, &mut self.entries[i]);
                assert(self@ =~= old(self)@.update(i as int, (slot.0@, node_of(self.entries[i as int].1))));
                Some(slot.1)
            },
            None => {
                self.entries.push((key, item));
                assert(self@ =~= old(self)@.push((key@, item@)));
                None
            },
        }
    }

    /// Takes the entry of `key` out and returns its value.
    pub fn remove(&mut self, key: &str) -> (r: Option<Item>)
        ensures
            final(self)@ == without_key(old(self)@, key@),
            match r {
                Some(v) => lookup(old(self)@, key@) == Some(v@),
                None => !has_key(old(self)@, key@),
            },
    {
        let k = key.to_owned();
        match self.position(&k) {
            Some(i) => {
                proof {
                    lemma_first_index(self@, key@, i as int);
                }
                let (_, v) = self.entries.remove(i);
                assert(self@ =~= old(self)@.remove(i as int));
                Some(v)
            },
            None => None,
        }
    }
}

} // verus!
