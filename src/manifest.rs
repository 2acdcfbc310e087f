//! Decoding a manifest's text into a [`Table`] and encoding a table back,
//! through the TOML decoder and encoder.
use crate::error::ErrorKind;
use crate::frob::{frob_table, frobbed, lemma_frobbed_wf, needs_frob};
use crate::value::{
    entries_wf, lemma_table_item_view, node_wf, toml_node, unique_keys, Entries, Item, Node, Table,
};
use vstd::prelude::*;

verus! {

broadcast use lemma_table_item_view;

/// The top-level table that the TOML decoder makes of `text`, if it accepts it.
pub uninterp spec fn decoded(text: Seq<char>) -> Option<Entries>;

/// The text that the TOML encoder writes for a table, if it can write it.
pub uninterp spec fn encoded(n: Node) -> Option<Seq<char>>;

/// No two of the pairs share a key.
pub open spec fn distinct_keys(es: Seq<(String, toml::Value)>) -> bool {
    forall|i: int, j: int|
        0 <= i < es.len() && 0 <= j < es.len() && #[trigger] es[i].0@ == #[trigger] es[j].0@
            ==> i == j
}

/// The model of a table's entries.
pub open spec fn entries_node(es: Seq<(String, toml::Value)>) -> Entries {
    Seq::new(es.len(), |i: int| (es[i].0@, toml_node(es[i].1)))
}

/// Relies on toml::from_str into a toml::value::Table, and on that map's
/// into_iter, which hands out its entries (distinct keys) in order.
#[verifier::external_body]
fn decode(text: &str) -> (r: Result<Vec<(String, toml::Value)>, toml::de::Error>)
    ensures
        match r {
            Ok(es) => distinct_keys(es@) && decoded(text@) == Some(entries_node(es@)),
            Err(_) => decoded(text@) is None,
        },
{
    match toml::from_str::<toml::value::Table>(text) {
        Ok(t) => Ok(t.into_iter().collect()),
        Err(e) => Err(e),
    }
}

/// Relies on the variants of toml::Value and on toml::map::Map::into_iter: a
/// table's entries, in order and with distinct keys, or the value handed back.
#[verifier::external_body]
fn into_entries(v: toml::Value) -> (r: Result<Vec<(String, toml::Value)>, toml::Value>)
    ensures
        match r {
            Ok(es) => distinct_keys(es@) && toml_node(v) == Node::Table(entries_node(es@)),
            Err(w) => w == v && !(toml_node(v) is Table),
        },
{
    match v {
        toml::Value::Table(t) => Ok(t.into_iter().collect()),
        other => Err(other),
    }
}

/// Relies on the variants of toml::Value: a string's text, or the value
/// handed back, which is then a table or a value of another kind.
#[verifier::external_body]
fn into_string(v: toml::Value) -> (r: Result<String, toml::Value>)
    ensures
        match r {
            Ok(s) => toml_node(v) == Node::Str(s@),
            Err(w) => w == v && (toml_node(v) is Table || toml_node(v) == Node::Other(v)),
        },
{
    match v {
        toml::Value::String(s) => Ok(s),
        other => Err(other),
    }
}

/// Relies on toml::map::Map's FromIterator, which inserts the entries in
/// order: with distinct keys, the table holds them as given.
#[verifier::external_body]
fn table_value(es: Vec<(String, toml::Value)>) -> (r: toml::Value)
    ensures
        distinct_keys(es@) ==> toml_node(r) == Node::Table(entries_node(es@)),
{
    toml::Value::Table(es.into_iter().collect())
}

/// Relies on the variants of toml::Value: the string value of `s`.
#[verifier::external_body]
fn string_value(s: String) -> (r: toml::Value)
    ensures
        toml_node(r) == Node::Str(s@),
{
    toml::Value::String(s)
}

/// Relies on toml::to_string: the document text of a value, or the encoder's
/// failure; which it is depends on the value alone.
#[verifier::external_body]
fn encode(v: &toml::Value) -> (r: Result<String, toml::ser::Error>)
    ensures
        match r {
            Ok(s) => encoded(toml_node(*v)) == Some(s@),
            Err(_) => encoded(toml_node(*v)) is None,
        },
{
    toml::to_string(v)
}

/// The item for a decoded value, tables taken apart at every depth.
fn item_from_toml(v: toml::Value) -> (r: Item)
    ensures
        r@ == toml_node(v),
        node_wf(r@),
    decreases toml_node(v), 1int,
{
    match into_entries(v) {
        Ok(es) => Item::Table(table_from_toml(es)),
        Err(v) => match into_string(v) {
            Ok(s) => Item::String(s),
            Err(v) => Item::Other(v),
        },
    }
}

/// The table of decoded entries with distinct keys, in their order.
fn table_from_toml(es: Vec<(String, toml::Value)>) -> (t: Table)
    requires
        distinct_keys(es@),
    ensures
        t@ == entries_node(es@),
        t.wf(),
    decreases Node::Table(entries_node(es@)), 0int,
{
    let ghost orig = es@;
    let mut rest = es;
    let mut t = Table { entries: Vec::new() };
    while rest.len() > 0
        invariant
            orig == es@,
            t.entries.len() + rest.len() == orig.len(),
            rest@ == orig.subrange(t.entries.len() as int, orig.len() as int),
            forall|i: int| 0 <= i < t.entries.len() ==> #[trigger] t@[i] == entries_node(orig)[i],
            forall|i: int| 0 <= i < t.entries.len() ==> node_wf(#[trigger] t@[i].1),
        decreases rest.len(),
    {
        let ghost before = t@;
        let ghost at = t.entries.len() as int;
        let (k, v) = rest.remove(0);
        assert(decreases_to!(Node::Table(entries_node(es@)) => toml_node(v))) by {
            let n = entries_node(es@);
            let whole = Node::Table(n);
            assert(n[at].1 == toml_node(v));
            assert(decreases_to!(whole => whole->Table_0));
            assert(decreases_to!(n => n[at]));
            assert(decreases_to!(n[at] => n[at].1));
        }
        let item = item_from_toml(v);
        t.entries.push((k, item));
        assert(t@ =~= before.push((k@, item@)));
    }
    assert(t@ =~= entries_node(orig));
    assert forall|i: int, j: int|
        0 <= i < t@.len() && 0 <= j < t@.len() && #[trigger] t@[i].0 == #[trigger] t@[j].0
        implies i == j by {
        assert(orig[i].0@ == orig[j].0@);
    }
    assert(unique_keys(t@));
    t
}

/// Decodes the manifest `text`, read from `path`, into the table that the
/// TOML decoder makes of it. No table in the result repeats a key.
pub fn parse_manifest(text: &str, path: &str) -> (r: Result<Table, ErrorKind>)
    ensures
        match r {
            Ok(t) => decoded(text@) == Some(t@) && t.wf(),
            Err(e) => decoded(text@) is None && (e matches ErrorKind::ManifestParse { path: p, .. }
                && p@ == path@),
        },
{
    match decode(text) {
        Ok(es) => Ok(table_from_toml(es)),
        Err(e) => Err(ErrorKind::ManifestParse { path: path.to_owned(), cause: e }),
    }
}

/// The TOML value of an item; of a well-formed item, one with the same model.
fn item_to_toml(item: Item) -> (r: toml::Value)
    ensures
        node_wf(item@) ==> toml_node(r) == item@,
    decreases item, 0int,
{
    let ghost iv = item@;
    let r = match item {
        Item::Table(t) => {
            let ghost tv = t@;
            proof {
                lemma_table_item_view(t);
                assert(iv == Node::Table(tv));
            }
            let es = entries_to_toml(t);
            proof {
                if node_wf(Node::Table(tv)) {
                    assert forall|i: int, j: int|
                        0 <= i < es@.len() && 0 <= j < es@.len() && #[trigger] es@[i].0@
                            == #[trigger] es@[j].0@ implies i == j by {
                        assert(tv[i].0 == tv[j].0);
                    }
                    assert forall|i: int| 0 <= i < es@.len() implies #[trigger] entries_node(es@)[i]
                        == tv[i] by {
                        assert(node_wf(tv[i].1));
                    }
                    assert(entries_node(es@) =~= tv);
                    assert(distinct_keys(es@));
                }
            }
            let v = table_value(es);
            assert(node_wf(iv) ==> toml_node(v) == iv);
            v
        },
        Item::String(s) => string_value(s),
        Item::Other(v) => v,
    };
    assert(node_wf(iv) ==> toml_node(r) == iv);
    r
}

/// The TOML entries of a table, in order; each well-formed value keeps its model.
fn entries_to_toml(t: Table) -> (r: Vec<(String, toml::Value)>)
    ensures
        r@.len() == t@.len(),
        forall|i: int| 0 <= i < t@.len() ==> #[trigger] r@[i].0@ == t@[i].0,
        forall|i: int|
            0 <= i < t@.len() && node_wf(t@[i].1) ==> toml_node(#[trigger] r@[i].1) == t@[i].1,
    decreases t, 1int,
{
    let ghost orig = t;
    let mut rest = t.entries;
    let mut out: Vec<(String, toml::Value)> = Vec::new();
    while rest.len() > 0
        invariant
            out.len() + rest.len() == orig.entries.len(),
            rest@ == orig.entries@.subrange(out.len() as int, orig.entries.len() as int),
            orig == t,
            forall|i: int| 0 <= i < out.len() ==> #[trigger] out@[i].0@ == orig@[i].0,
            forall|i: int|
                0 <= i < out.len() && node_wf(orig@[i].1) ==> toml_node(#[trigger] out@[i].1)
                    == orig@[i].1,
        decreases rest.len(),
    {
        let ghost at = out.len() as int;
        let (k, v) = rest.remove(0);
        assert(decreases_to!(t => v)) by {
            assert(v == t.entries@[at].1);
            assert(decreases_to!(t => t.entries));
            assert(decreases_to!(t.entries => t.entries@));
            assert(decreases_to!(t.entries@ => t.entries@[at]));
            assert(decreases_to!(t.entries@[at] => t.entries@[at].1));
        }
        let ghost before = out@;
        assert(orig@[at].0 == k@);
        let ghost key = k@;
        out.push((k, item_to_toml(v)));
        assert forall|i: int| 0 <= i < out.len() implies #[trigger] out@[i].0@ == orig@[i].0 && (
        node_wf(orig@[i].1) ==> toml_node(out@[i].1) == orig@[i].1) by {
            if i < at {
                assert(out@[i] == before[i]);
            }
        }
    }
    out
}

/// Encodes a manifest as TOML text: for a well-formed table, the text that the
/// TOML encoder writes for it, or the encoder's failure.
pub fn render_manifest(table: Table) -> (r: Result<String, ErrorKind>)
    ensures
        r matches Err(e) ==> e is ManifestEncode,
        table.wf() ==> match r {
            Ok(s) => encoded(Node::Table(table@)) == Some(s@),
            Err(_) => encoded(Node::Table(table@)) is None,
        },
{
    let v = item_to_toml(Item::Table(table));
    match encode(&v) {
        Ok(s) => Ok(s),
        Err(e) => Err(ErrorKind::ManifestEncode { cause: e }),
    }
}

/// Rewrites a decoded manifest with [`frob_table`]. Returns `None` when the
/// rewrite removes nothing, in which case nothing is to be written; else the
/// text of the rewritten manifest, or the encoder's failure. The result does
/// not depend on `name` and `vers`.
pub fn rewrite_manifest(table: Table, name: &str, vers: &str) -> (r: Result<Option<String>, ErrorKind>)
    ensures
        !needs_frob(table@) <==> r matches Ok(None),
        r matches Err(e) ==> e is ManifestEncode,
        table.wf() && needs_frob(table@) ==> match r {
            Ok(Some(s)) => encoded(Node::Table(frobbed(table@))) == Some(s@),
            Ok(None) => false,
            Err(_) => encoded(Node::Table(frobbed(table@))) is None,
        },
{
    let ghost before = table@;
    let mut table = table;
    if frob_table(&mut table, name, vers) {
        proof {
            if entries_wf(before) {
                lemma_frobbed_wf(before);
            }
        }
        match render_manifest(table) {
            Ok(s) => Ok(Some(s)),
            Err(e) => Err(e),
        }
    } else {
        Ok(None)
    }
}

} // verus!
