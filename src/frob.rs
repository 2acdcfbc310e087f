//! Makes a manifest stand alone: drops `path` from dependencies given as
//! tables, at the top level and under each `target.<platform>`, and drops the
//! `workspace` keys of the manifest and of its `package` table.
use crate::value::{
    child, entries_wf, first_index, has_key, lemma_first_exists, lemma_lookup_same_keys,
    lemma_lookup_wf, lemma_same_keys, lemma_wf_same_keys, lemma_without_key_wf, lemma_table_item_view, lemma_without_key, lookup, node_wf,
    unique_keys, without_key, Entries, Item, Node, Table,
};
use vstd::prelude::*;

verus! {

broadcast use lemma_table_item_view;

/// `k` names one of the three dependency sections.
pub open spec fn is_dependency_section(k: Seq<char>) -> bool {
    k == "dependencies"@ || k == "dev-dependencies"@ || k == "build-dependencies"@
}

/// A dependency given as a table loses its `path` key; any other stays as it is.
pub open spec fn strip_path(dep: Node) -> Node {
    match dep {
        Node::Table(es) => Node::Table(without_key(es, "path"@)),
        _ => dep,
    }
}

/// Each dependency of a section's table stripped.
pub open spec fn strip_paths(es: Entries) -> Entries {
    Seq::new(es.len(), |i: int| (es[i].0, strip_path(es[i].1)))
}

/// A section given as a table has its dependencies stripped; any other stays.
pub open spec fn frob_section(sec: Node) -> Node {
    match sec {
        Node::Table(es) => Node::Table(strip_paths(es)),
        _ => sec,
    }
}

/// A table's dependency sections frobbed, its other entries kept.
pub open spec fn frob_sections(es: Entries) -> Entries {
    Seq::new(
        es.len(),
        |i: int|
            if is_dependency_section(es[i].0) {
                (es[i].0, frob_section(es[i].1))
            } else {
                es[i]
            },
    )
}

/// One platform's table under `target`, frobbed like the manifest's own sections.
pub open spec fn frob_platform(p: Node) -> Node {
    match p {
        Node::Table(es) => Node::Table(frob_sections(es)),
        _ => p,
    }
}

/// The entries of `target` with each platform frobbed.
pub open spec fn frob_platforms(es: Entries) -> Entries {
    Seq::new(es.len(), |i: int| (es[i].0, frob_platform(es[i].1)))
}

/// The `target` table with each platform frobbed.
pub open spec fn frob_targets(t: Node) -> Node {
    match t {
        Node::Table(es) => Node::Table(frob_platforms(es)),
        _ => t,
    }
}

/// A table without its `workspace` key.
pub open spec fn drop_workspace(p: Node) -> Node {
    match p {
        Node::Table(es) => Node::Table(without_key(es, "workspace"@)),
        _ => p,
    }
}

/// What becomes of the value of the manifest's key `k`.
pub open spec fn frob_entry(k: Seq<char>, v: Node) -> Node {
    if is_dependency_section(k) {
        frob_section(v)
    } else if k == "target"@ {
        frob_targets(v)
    } else if k == "package"@ {
        drop_workspace(v)
    } else {
        v
    }
}

/// Each entry of the manifest frobbed by its key.
pub open spec fn frob_entries(es: Entries) -> Entries {
    Seq::new(es.len(), |i: int| (es[i].0, frob_entry(es[i].0, es[i].1)))
}

/// The manifest rewritten to stand alone.
pub open spec fn frobbed(es: Entries) -> Entries {
    without_key(frob_entries(es), "workspace"@)
}

/// A dependency given as a table with a `path` key.
pub open spec fn has_path(dep: Node) -> bool {
    match dep {
        Node::Table(es) => has_key(es, "path"@),
        _ => false,
    }
}

/// A section given as a table with a dependency that has a `path`.
pub open spec fn section_has_path(sec: Node) -> bool {
    match sec {
        Node::Table(es) => exists|i: int| 0 <= i < es.len() && #[trigger] has_path(es[i].1),
        _ => false,
    }
}

/// Some dependency section of the table has a dependency with a `path`.
pub open spec fn sections_have_path(es: Entries) -> bool {
    exists|i: int|
        0 <= i < es.len() && is_dependency_section(es[i].0) && #[trigger] section_has_path(es[i].1)
}

pub open spec fn platform_has_path(p: Node) -> bool {
    match p {
        Node::Table(es) => sections_have_path(es),
        _ => false,
    }
}

pub open spec fn targets_have_path(t: Node) -> bool {
    match t {
        Node::Table(es) => exists|i: int| 0 <= i < es.len() && #[trigger] platform_has_path(es[i].1),
        _ => false,
    }
}

/// A table with a `workspace` key.
pub open spec fn has_workspace(p: Node) -> bool {
    match p {
        Node::Table(es) => has_key(es, "workspace"@),
        _ => false,
    }
}

/// The value of the manifest's key `k` is changed by the rewrite.
pub open spec fn entry_needs_frob(k: Seq<char>, v: Node) -> bool {
    ||| is_dependency_section(k) && section_has_path(v)
    ||| k == "target"@ && targets_have_path(v)
    ||| k == "package"@ && has_workspace(v)
}

/// The rewrite has something to remove from the manifest.
pub open spec fn needs_frob(es: Entries) -> bool {
    ||| has_key(es, "workspace"@)
    ||| exists|i: int| 0 <= i < es.len() && #[trigger] entry_needs_frob(es[i].0, es[i].1)
}

/// The keys that the rewrite looks for are distinct.
pub proof fn lemma_distinct_keys()
    ensures
        !is_dependency_section("target"@),
        !is_dependency_section("package"@),
        !is_dependency_section("workspace"@),
        "target"@ != "package"@,
        "target"@ != "workspace"@,
        "package"@ != "workspace"@,
{
    reveal_strlit("dependencies");
    reveal_strlit("dev-dependencies");
    reveal_strlit("build-dependencies");
    reveal_strlit("target");
    reveal_strlit("package");
    reveal_strlit("workspace");
    assert("target"@.len() != "package"@.len());
    assert("target"@.len() != "workspace"@.len());
    assert("package"@[0] != "workspace"@[0]);
    assert("dependencies"@[0] != "target"@[0]);
    assert("dependencies"@[0] != "package"@[0]);
    assert("dependencies"@[0] != "workspace"@[0]);
    assert("dev-dependencies"@[0] != "target"@[0]);
    assert("dev-dependencies"@[0] != "package"@[0]);
    assert("dev-dependencies"@[0] != "workspace"@[0]);
    assert("build-dependencies"@[0] != "target"@[0]);
    assert("build-dependencies"@[0] != "package"@[0]);
    assert("build-dependencies"@[0] != "workspace"@[0]);
}

fn is_section_key(k: &String) -> (r: bool)
    ensures
        r == is_dependency_section(k@),
{
    *k == "dependencies".to_owned() || *k == "dev-dependencies".to_owned() || *k
        == "build-dependencies".to_owned()
}

/// Drops the `path` key of a dependency given as a table.
fn strip_path_item(dep: &mut Item) -> (changed: bool)
    ensures
        final(dep)@ == strip_path(old(dep)@),
        changed == has_path(old(dep)@),
{
    match dep {
        Item::Table(props) => props.remove("path").is_some(),
        _ => false,
    }
}

fn frob_section_table(deps: &mut Table) -> (changed: bool)
    ensures
        Node::Table(final(deps)@) == frob_section(Node::Table(old(deps)@)),
        changed == section_has_path(Node::Table(old(deps)@)),
{
    let ghost start = deps@;
    let mut changed = false;
    let mut i: usize = 0;
    while i < deps.entries.len()
        invariant
            0 <= i <= deps.entries.len() == start.len(),
            forall|j: int| 0 <= j < i ==> #[trigger] deps@[j] == (start[j].0, strip_path(start[j].1)),
            forall|j: int| i <= j < start.len() ==> #[trigger] deps@[j] == start[j],
            changed == exists|j: int| 0 <= j < i && #[trigger] has_path(start[j].1),
        decreases start.len() - i,
    {
        let ghost before = deps@;
        let c = strip_path_item(&mut deps.entries[i].1);
        assert(deps@ =~= before.update(i as int, (before[i as int].0, strip_path(before[i as int].1))));
        if c {
            changed = true;
        }
        assert(has_path(start[i as int].1) ==> exists|j: int| 0 <= j < i + 1 && #[trigger] has_path(start[j].1));
        i = i + 1;
    }
    assert(deps@ =~= strip_paths(start));
    changed
}

/// Frobs a dependency section given as a table.
fn frob_section_item(sec: &mut Item) -> (changed: bool)
    ensures
        final(sec)@ == frob_section(old(sec)@),
        changed == section_has_path(old(sec)@),
{
    match sec {
        Item::Table(deps) => frob_section_table(deps),
        _ => false,
    }
}


/// Frobs the dependency sections of a table: the manifest's own, or one platform's.
fn frob_dependencies(table: &mut Table) -> (changed: bool)
    ensures
        final(table)@ == frob_sections(old(table)@),
        changed == sections_have_path(old(table)@),
{
    let ghost start = table@;
    let mut changed = false;
    let mut i: usize = 0;
    while i < table.entries.len()
        invariant
            0 <= i <= table.entries.len() == start.len(),
            forall|j: int| 0 <= j < i ==> #[trigger] table@[j] == frob_sections(start)[j],
            forall|j: int| i <= j < start.len() ==> #[trigger] table@[j] == start[j],
            changed == exists|j: int|
                0 <= j < i && is_dependency_section(start[j].0) && #[trigger] section_has_path(
                    start[j].1,
                ),
        decreases start.len() - i,
    {
        let ghost before = table@;
        assert(before[i as int] == start[i as int]);
        if is_section_key(&table.entries[i].0) {
            let c = frob_section_item(&mut table.entries[i].1);
            if c {
                changed = true;
            }
        }
        assert(table@ =~= before.update(i as int, frob_sections(start)[i as int]));
        assert(is_dependency_section(start[i as int].0) && section_has_path(start[i as int].1)
            ==> exists|j: int|
            0 <= j < i + 1 && is_dependency_section(start[j].0) && #[trigger] section_has_path(
                start[j].1,
            ));
        i = i + 1;
    }
    assert(table@ =~= frob_sections(start));
    changed
}

fn frob_platform_item(p: &mut Item) -> (changed: bool)
    ensures
        final(p)@ == frob_platform(old(p)@),
        changed == platform_has_path(old(p)@),
{
    match p {
        Item::Table(t) => frob_dependencies(t),
        _ => false,
    }
}

fn frob_targets_table(targets: &mut Table) -> (changed: bool)
    ensures
        Node::Table(final(targets)@) == frob_targets(Node::Table(old(targets)@)),
        changed == targets_have_path(Node::Table(old(targets)@)),
{
    let ghost start = targets@;
    let mut changed = false;
    let mut i: usize = 0;
    while i < targets.entries.len()
        invariant
            0 <= i <= targets.entries.len() == start.len(),
            forall|j: int|
                0 <= j < i ==> #[trigger] targets@[j] == (start[j].0, frob_platform(start[j].1)),
            forall|j: int| i <= j < start.len() ==> #[trigger] targets@[j] == start[j],
            changed == exists|j: int| 0 <= j < i && #[trigger] platform_has_path(start[j].1),
        decreases start.len() - i,
    {
        let ghost before = targets@;
        let c = frob_platform_item(&mut targets.entries[i].1);
        assert(targets@ =~= before.update(
            i as int,
            (before[i as int].0, frob_platform(before[i as int].1)),
        ));
        if c {
            changed = true;
        }
        assert(platform_has_path(start[i as int].1) ==> exists|j: int|
            0 <= j < i + 1 && #[trigger] platform_has_path(start[j].1));
        i = i + 1;
    }
    assert(targets@ =~= frob_platforms(start));
    changed
}

fn frob_targets_item(targets: &mut Item) -> (changed: bool)
    ensures
        final(targets)@ == frob_targets(old(targets)@),
        changed == targets_have_path(old(targets)@),
{
    match targets {
        Item::Table(t) => frob_targets_table(t),
        _ => false,
    }
}

fn drop_workspace_item(package: &mut Item) -> (changed: bool)
    ensures
        final(package)@ == drop_workspace(old(package)@),
        changed == has_workspace(old(package)@),
{
    match package {
        Item::Table(t) => t.remove("workspace").is_some(),
        _ => false,
    }
}

/// Rewrites the manifest `table` to stand alone: removes `path` from every
/// dependency given as a table in a dependency section, at the top level and
/// under each platform of `target`, and removes the `workspace` keys of the
/// manifest and of its `package` table. Returns whether anything was removed.
/// `name` and `vers` name the package; they do not bear on the rewrite.
pub fn frob_table(table: &mut Table, _name: &str, _vers: &str) -> (changed: bool)
    ensures
        final(table)@ == frobbed(old(table)@),
        changed == needs_frob(old(table)@),
{
    let ghost start = table@;
    let ghost mapped = frob_entries(start);
    let target_key = "target".to_owned();
    let package_key = "package".to_owned();
    let mut changed = false;
    let mut i: usize = 0;
    while i < table.entries.len()
        invariant
            0 <= i <= table.entries.len() == start.len() == mapped.len(),
            target_key@ == "target"@,
            package_key@ == "package"@,
            mapped == frob_entries(start),
            forall|j: int| 0 <= j < i ==> #[trigger] table@[j] == mapped[j],
            forall|j: int| i <= j < start.len() ==> #[trigger] table@[j] == start[j],
            changed == exists|j: int|
                0 <= j < i && #[trigger] entry_needs_frob(start[j].0, start[j].1),
        decreases start.len() - i,
    {
        let ghost before = table@;
        assert(before[i as int] == start[i as int]);
        proof {
            lemma_distinct_keys();
        }
        let c = if is_section_key(&table.entries[i].0) {
            frob_section_item(&mut table.entries[i].1)
        } else if table.entries[i].0 == target_key {
            frob_targets_item(&mut table.entries[i].1)
        } else if table.entries[i].0 == package_key {
            drop_workspace_item(&mut table.entries[i].1)
        } else {
            false
        };
        assert(table@ =~= before.update(i as int, mapped[i as int]));
        assert(c == entry_needs_frob(start[i as int].0, start[i as int].1));
        if c {
            changed = true;
        }
        assert(entry_needs_frob(start[i as int].0, start[i as int].1) ==> exists|j: int|
            0 <= j < i + 1 && #[trigger] entry_needs_frob(start[j].0, start[j].1));
        i = i + 1;
    }
    assert(table@ =~= mapped);
    let dropped = table.remove("workspace");
    if dropped.is_some() {
        changed = true;
    }
    proof {
        assert forall|j: int| 0 <= j < start.len() implies (#[trigger] mapped[j]).0 == start[j].0 by {}
        if has_key(start, "workspace"@) {
            let w = choose|j: int| 0 <= j < start.len() && #[trigger] start[j].0 == "workspace"@;
            assert(mapped[w].0 == "workspace"@);
        }
        if has_key(mapped, "workspace"@) {
            let w = choose|j: int| 0 <= j < mapped.len() && #[trigger] mapped[j].0 == "workspace"@;
            assert(start[w].0 == "workspace"@);
        }
    }
    changed
}


proof fn lemma_strip_paths_unchanged(es: Entries)
    requires
        forall|i: int| 0 <= i < es.len() ==> !#[trigger] has_path(es[i].1),
    ensures
        strip_paths(es) == es,
{
    assert forall|i: int| 0 <= i < es.len() implies #[trigger] strip_paths(es)[i] == es[i] by {
        assert(!has_path(es[i].1));
    }
    assert(strip_paths(es) =~= es);
}

proof fn lemma_sections_unchanged(es: Entries)
    requires
        !sections_have_path(es),
    ensures
        frob_sections(es) == es,
{
    assert forall|i: int| 0 <= i < es.len() implies #[trigger] frob_sections(es)[i] == es[i] by {
        if is_dependency_section(es[i].0) {
            assert(!section_has_path(es[i].1));
            if let Node::Table(deps) = es[i].1 {
                lemma_strip_paths_unchanged(deps);
            }
        }
    }
    assert(frob_sections(es) =~= es);
}

/// An entry of the manifest that the rewrite has nothing to remove from stays.
proof fn lemma_entry_unchanged(k: Seq<char>, v: Node)
    requires
        !entry_needs_frob(k, v),
    ensures
        frob_entry(k, v) == v,
{
    lemma_distinct_keys();
    if is_dependency_section(k) {
        if let Node::Table(deps) = v {
            lemma_strip_paths_unchanged(deps);
        }
    } else if k == "target"@ {
        if let Node::Table(ts) = v {
            assert forall|i: int| 0 <= i < ts.len() implies #[trigger] frob_platforms(ts)[i]
                == ts[i] by {
                assert(!platform_has_path(ts[i].1));
                if let Node::Table(ps) = ts[i].1 {
                    lemma_sections_unchanged(ps);
                }
            }
            assert(frob_platforms(ts) =~= ts);
        }
    }
}

/// A manifest with no `path` in any dependency given as a table, in a section
/// at the top level or under a platform of `target`, and with no `workspace`
/// key at the top level or in `package`, is left as it is.
pub proof fn lemma_no_op(es: Entries)
    requires
        !needs_frob(es),
    ensures
        frobbed(es) == es,
{
    assert forall|i: int| 0 <= i < es.len() implies #[trigger] frob_entries(es)[i] == es[i] by {
        assert(!entry_needs_frob(es[i].0, es[i].1));
        lemma_entry_unchanged(es[i].0, es[i].1);
    }
    assert(frob_entries(es) =~= es);
}

proof fn lemma_strip_paths_settled(es: Entries)
    requires
        entries_wf(es),
    ensures
        !section_has_path(Node::Table(strip_paths(es))),
{
    assert forall|i: int| 0 <= i < es.len() implies !#[trigger] has_path(strip_paths(es)[i].1) by {
        assert(node_wf(es[i].1));
        if let Node::Table(props) = es[i].1 {
            lemma_without_key(props, "path"@);
        }
    }
}

proof fn lemma_sections_settled(es: Entries)
    requires
        entries_wf(es),
    ensures
        !sections_have_path(frob_sections(es)),
{
    assert forall|i: int| 0 <= i < es.len() && is_dependency_section(frob_sections(es)[i].0)
        implies !#[trigger] section_has_path(frob_sections(es)[i].1) by {
        assert(node_wf(es[i].1));
        if let Node::Table(deps) = es[i].1 {
            lemma_strip_paths_settled(deps);
        }
    }
}

/// An entry of a well-formed manifest, once frobbed, has nothing left to remove.
proof fn lemma_entry_settled(k: Seq<char>, v: Node)
    requires
        node_wf(v),
    ensures
        !entry_needs_frob(k, frob_entry(k, v)),
{
    lemma_distinct_keys();
    if is_dependency_section(k) {
        if let Node::Table(deps) = v {
            lemma_strip_paths_settled(deps);
        }
    } else if k == "target"@ {
        if let Node::Table(ts) = v {
            assert forall|i: int| 0 <= i < ts.len() implies !#[trigger] platform_has_path(
                frob_platforms(ts)[i].1,
            ) by {
                assert(node_wf(ts[i].1));
                if let Node::Table(ps) = ts[i].1 {
                    lemma_sections_settled(ps);
                }
            }
        }
    } else if k == "package"@ {
        if let Node::Table(ps) = v {
            lemma_without_key(ps, "workspace"@);
        }
    }
}

/// The rewrite is idempotent: on a well-formed manifest its output has nothing
/// left to remove, and rewriting that output again changes nothing.
pub proof fn lemma_idempotent(es: Entries)
    requires
        entries_wf(es),
    ensures
        !needs_frob(frobbed(es)),
        frobbed(frobbed(es)) == frobbed(es),
{
    let fe = frob_entries(es);
    lemma_same_keys(es, fe, "workspace"@);
    lemma_without_key(fe, "workspace"@);
    let out = frobbed(es);
    if has_key(fe, "workspace"@) {
        lemma_first_exists(fe, "workspace"@);
    }
    let p = if has_key(fe, "workspace"@) { first_index(fe, "workspace"@) } else { fe.len() as int };
    assert forall|i: int| 0 <= i < out.len() implies !#[trigger] entry_needs_frob(out[i].0, out[i].1) by {
        let i2 = if i < p { i } else { i + 1 };
        assert(out[i] == fe[i2]);
        assert(node_wf(es[i2].1));
        lemma_entry_settled(es[i2].0, es[i2].1);
    }
    lemma_no_op(out);
}


/// The entry `name` of the dependency section `sec` of a table.
pub open spec fn dependency(es: Entries, sec: Seq<char>, name: Seq<char>) -> Option<Node> {
    child(lookup(es, sec), name)
}

/// The entry `name` of the dependency section `sec` of the platform `platform`
/// under the manifest's `target`.
pub open spec fn target_dependency(
    es: Entries,
    platform: Seq<char>,
    sec: Seq<char>,
    name: Seq<char>,
) -> Option<Node> {
    child(child(child(lookup(es, "target"@), platform), sec), name)
}

/// A dependency found, after the rewrite.
pub open spec fn stripped(dep: Option<Node>) -> Option<Node> {
    match dep {
        Some(d) => Some(strip_path(d)),
        None => None,
    }
}

proof fn lemma_frobbed_lookup(es: Entries, k: Seq<char>)
    requires
        unique_keys(es),
        k != "workspace"@,
    ensures
        lookup(frobbed(es), k) == match lookup(es, k) {
            Some(v) => Some(frob_entry(k, v)),
            None => None,
        },
{
    let fe = frob_entries(es);
    lemma_lookup_same_keys(es, fe, k);
    lemma_same_keys(es, fe, k);
    lemma_without_key(fe, "workspace"@);
    assert(lookup(frobbed(es), k) == lookup(fe, k));
}

proof fn lemma_section_child(sec: Node, name: Seq<char>)
    ensures
        child(Some(frob_section(sec)), name) == stripped(child(Some(sec), name)),
{
    if let Node::Table(deps) = sec {
        lemma_lookup_same_keys(deps, strip_paths(deps), name);
    }
}

proof fn lemma_platform_child(p: Node, sec: Seq<char>, name: Seq<char>)
    requires
        is_dependency_section(sec),
    ensures
        child(child(Some(frob_platform(p)), sec), name) == stripped(child(child(Some(p), sec), name)),
{
    if let Node::Table(ps) = p {
        lemma_lookup_same_keys(ps, frob_sections(ps), sec);
        if let Some(s) = lookup(ps, sec) {
            lemma_section_child(s, name);
        }
    }
}

/// A dependency in a section at the top level, and one in a section under a
/// platform of `target`, come out of the rewrite the same way: stripped of
/// `path` where they are tables.
pub proof fn lemma_target_frobbed_as_root(
    es: Entries,
    platform: Seq<char>,
    sec: Seq<char>,
    name: Seq<char>,
)
    requires
        entries_wf(es),
        is_dependency_section(sec),
    ensures
        dependency(frobbed(es), sec, name) == stripped(dependency(es, sec, name)),
        target_dependency(frobbed(es), platform, sec, name) == stripped(
            target_dependency(es, platform, sec, name),
        ),
{
    lemma_distinct_keys();
    lemma_frobbed_lookup(es, sec);
    if let Some(s) = lookup(es, sec) {
        lemma_section_child(s, name);
    }
    lemma_frobbed_lookup(es, "target"@);
    if let Some(Node::Table(ts)) = lookup(es, "target"@) {
        lemma_lookup_same_keys(ts, frob_platforms(ts), platform);
        if let Some(p) = lookup(ts, platform) {
            lemma_platform_child(p, sec, name);
        }
    }
}

/// A dependency given as a table with a `path` loses that key and no other:
/// its other entries stay, in their order.
pub proof fn lemma_path_removed(es: Entries, sec: Seq<char>, name: Seq<char>, props: Entries)
    requires
        entries_wf(es),
        is_dependency_section(sec),
        dependency(es, sec, name) == Some(Node::Table(props)),
        has_key(props, "path"@),
    ensures
        dependency(frobbed(es), sec, name) == Some(Node::Table(without_key(props, "path"@))),
        without_key(props, "path"@) == props.remove(first_index(props, "path"@)),
        props[first_index(props, "path"@)].0 == "path"@,
        !has_key(without_key(props, "path"@), "path"@),
        forall|k: Seq<char>|
            k != "path"@ ==> #[trigger] lookup(without_key(props, "path"@), k) == lookup(props, k),
{
    lemma_target_frobbed_as_root(es, "target"@, sec, name);
    lemma_lookup_wf(es, sec);
    let s = lookup(es, sec)->Some_0;
    if let Node::Table(deps) = s {
        lemma_lookup_wf(deps, name);
    }
    lemma_first_exists(props, "path"@);
    lemma_without_key(props, "path"@);
}

/// The rewrite leaves no `workspace` key at the top level, whatever its value was.
pub proof fn lemma_workspace_removed(es: Entries)
    requires
        entries_wf(es),
    ensures
        !has_key(frobbed(es), "workspace"@),
{
    lemma_same_keys(es, frob_entries(es), "workspace"@);
    lemma_without_key(frob_entries(es), "workspace"@);
}

/// The `workspace` key of `package` is removed, whether or not the top level
/// has one too, and nothing else of `package` changes.
pub proof fn lemma_package_workspace_removed(es: Entries, package: Entries)
    requires
        entries_wf(es),
        lookup(es, "package"@) == Some(Node::Table(package)),
    ensures
        lookup(frobbed(es), "package"@) == Some(Node::Table(without_key(package, "workspace"@))),
        !has_key(without_key(package, "workspace"@), "workspace"@),
        forall|k: Seq<char>|
            k != "workspace"@ ==> #[trigger] lookup(without_key(package, "workspace"@), k)
                == lookup(package, k),
{
    lemma_distinct_keys();
    lemma_frobbed_lookup(es, "package"@);
    lemma_lookup_wf(es, "package"@);
    lemma_without_key(package, "workspace"@);
}

/// A dependency that is not a table (a plain version string) is never altered,
/// at the top level or under a platform of `target`.
pub proof fn lemma_scalar_untouched(
    es: Entries,
    platform: Seq<char>,
    sec: Seq<char>,
    name: Seq<char>,
    dep: Node,
)
    requires
        entries_wf(es),
        is_dependency_section(sec),
        !(dep is Table),
    ensures
        dependency(es, sec, name) == Some(dep) ==> dependency(frobbed(es), sec, name) == Some(dep),
        target_dependency(es, platform, sec, name) == Some(dep) ==> target_dependency(
            frobbed(es),
            platform,
            sec,
            name,
        ) == Some(dep),
{
    lemma_target_frobbed_as_root(es, platform, sec, name);
}


proof fn lemma_strip_path_wf(dep: Node)
    requires
        node_wf(dep),
    ensures
        node_wf(strip_path(dep)),
{
    if let Node::Table(props) = dep {
        lemma_without_key_wf(props, "path"@);
    }
}

proof fn lemma_section_wf(sec: Node)
    requires
        node_wf(sec),
    ensures
        node_wf(frob_section(sec)),
{
    if let Node::Table(deps) = sec {
        assert forall|i: int| 0 <= i < deps.len() implies node_wf(#[trigger] strip_paths(deps)[i].1) by {
            assert(node_wf(deps[i].1));
            lemma_strip_path_wf(deps[i].1);
        }
        lemma_wf_same_keys(deps, strip_paths(deps));
    }
}

proof fn lemma_platform_wf(p: Node)
    requires
        node_wf(p),
    ensures
        node_wf(frob_platform(p)),
{
    if let Node::Table(ps) = p {
        assert forall|i: int| 0 <= i < ps.len() implies node_wf(#[trigger] frob_sections(ps)[i].1) by {
            assert(node_wf(ps[i].1));
            lemma_section_wf(ps[i].1);
        }
        lemma_wf_same_keys(ps, frob_sections(ps));
    }
}

proof fn lemma_entry_wf(k: Seq<char>, v: Node)
    requires
        node_wf(v),
    ensures
        node_wf(frob_entry(k, v)),
{
    lemma_section_wf(v);
    if let Node::Table(ts) = v {
        assert forall|i: int| 0 <= i < ts.len() implies node_wf(#[trigger] frob_platforms(ts)[i].1) by {
            assert(node_wf(ts[i].1));
            lemma_platform_wf(ts[i].1);
        }
        lemma_wf_same_keys(ts, frob_platforms(ts));
        lemma_without_key_wf(ts, "workspace"@);
    }
}

/// The rewrite keeps a well-formed manifest well formed.
pub proof fn lemma_frobbed_wf(es: Entries)
    requires
        entries_wf(es),
    ensures
        entries_wf(frobbed(es)),
{
    assert forall|i: int| 0 <= i < es.len() implies node_wf(#[trigger] frob_entries(es)[i].1) by {
        assert(node_wf(es[i].1));
        lemma_entry_wf(es[i].0, es[i].1);
    }
    lemma_wf_same_keys(es, frob_entries(es));
    lemma_without_key_wf(frob_entries(es), "workspace"@);
}

} // verus!
