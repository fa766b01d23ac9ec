//! What holds of every database and of every detection.

use vstd::prelude::*;
use crate::graph::{
    has_parent, edges_within, successors, is_source_list, is_cycle, has_cycle, closes,
};
use crate::magic::{RuleModel, rule_matches, matches_at, forest_matches, branch_matches};
use crate::ruleset::{EntryModel, add_entry, add_entries, lookup_forest};
use crate::basetype::{base_types, base_edges, is_base_type};
use crate::names::{is_builtin, all_all, all_allfiles, octet_stream, text_plain, add_missing};
use crate::typegraph::{is_type_graph, is_sorted_set_of, with_builtins, explicit_edges, fallback_edges};
use crate::tree_magic::{
    MimeDatabase, SubjectModel, resolve, first_match, walk_graph, ordered_children, listed, named,
    unlisted, hot_list, edges_from, edges_by_name, type_matches,
};

verus! {

/// What a walk finds is a node of the graph.
pub proof fn walk_stays_in_graph(
    names: Seq<Seq<char>>,
    edges: Seq<(u32, u32)>,
    table: Seq<(Seq<char>, Seq<RuleModel>)>,
    aliases: Seq<(Seq<char>, Seq<char>)>,
    node: u32,
    subject: SubjectModel,
    depth: nat,
)
    requires
        edges_within(edges, names.len()),
    ensures
        walk_graph(names, edges, table, aliases, node, subject, depth) matches Some(v) ==> v
            < names.len(),
    decreases depth,
{
    if depth > 0 {
        match step(names, edges, table, aliases, node, subject) {
            Some(child) => {
                step_follows_an_edge(names, edges, table, aliases, node, subject);
                let e = choose|e: int| 0 <= e < edges.len() && edges[e] == (node, child);
                assert(edges[e].1 < names.len());
                walk_stays_in_graph(names, edges, table, aliases, child, subject, (depth - 1) as nat);
            },
            None => {},
        }
    }
}

/// Detection always gives a type, and the type it gives is one of the types
/// of the database.
pub proof fn detected_type_is_supported(db: MimeDatabase, subject: SubjectModel)
    requires
        db.wf(),
    ensures
        db.names().contains(db.detect(subject)),
{
    walk_stays_in_graph(
        db.names(),
        db.edges(),
        db.rule_table(),
        db.alias_table(),
        db.root(),
        subject,
        db.names().len(),
    );
    match db.walk(db.root(), subject) {
        Some(node) => {
            assert(db.names()[node as int] == db.detect(subject));
        },
        None => {
            assert(db.names()[db.root() as int] == db.detect(subject));
        },
    }
}

/// Detection is a function of the database and the subject: two databases
/// that hold the same and two subjects that are the same give the same type.
pub proof fn detection_is_deterministic(
    a: MimeDatabase,
    b: MimeDatabase,
    first: SubjectModel,
    second: SubjectModel,
)
    requires
        a.names() == b.names(),
        a.edges() == b.edges(),
        a.root() == b.root(),
        a.rule_table() == b.rule_table(),
        a.alias_table() == b.alias_table(),
        first == second,
    ensures
        a.detect(first) == b.detect(second),
{
}

/// Resolving an alias is one step: a name with an entry in the alias table
/// resolves to what its last entry says, whether or not the table has an
/// entry for that name in turn.
pub proof fn resolve_is_single_hop(aliases: Seq<(Seq<char>, Seq<char>)>, alias: Seq<char>, name: Seq<char>)
    ensures
        resolve(aliases.push((alias, name)), alias) == name,
        forall|other: Seq<char>| other != alias ==> resolve(aliases.push((alias, name)), other)
            == resolve(aliases, other),
{
    let table = aliases.push((alias, name));
    assert(table.last() == (alias, name));
    assert(table.drop_last() =~= aliases);
}

/// A name without an entry in the alias table resolves to itself, and a name
/// with entries resolves to what one of them says.
pub proof fn resolve_is_a_lookup(aliases: Seq<(Seq<char>, Seq<char>)>, name: Seq<char>)
    ensures
        (forall|k: int| 0 <= k < aliases.len() ==> (#[trigger] aliases[k]).0 != name) ==> resolve(
            aliases,
            name,
        ) == name,
        (exists|k: int| 0 <= k < aliases.len() && (#[trigger] aliases[k]).0 == name) ==> exists|k: int|
            0 <= k < aliases.len() && (#[trigger] aliases[k]) == (name, resolve(aliases, name)),
    decreases aliases.len(),
{
    if aliases.len() > 0 {
        let rest = aliases.drop_last();
        resolve_is_a_lookup(rest, name);
        if aliases.last().0 == name {
            assert(aliases[aliases.len() - 1] == (name, resolve(aliases, name)));
        } else {
            if exists|k: int| 0 <= k < aliases.len() && (#[trigger] aliases[k]).0 == name {
                let k = choose|k: int| 0 <= k < aliases.len() && (#[trigger] aliases[k]).0 == name;
                assert(rest[k].0 == name);
                let j = choose|j: int| 0 <= j < rest.len() && (#[trigger] rest[j]) == (
                    name,
                    resolve(rest, name),
                );
                assert(aliases[j] == (name, resolve(aliases, name)));
            } else {
                assert forall|k: int| 0 <= k < rest.len() implies (#[trigger] rest[k]).0 != name by {
                    assert(rest[k] == aliases[k]);
                }
            }
        }
    }
}

/// Among the synthesized edges for the first `upto` nodes there is one to
/// every node that is not built in and that no declared edge leads to.
proof fn lemma_fallback_covers(names: Seq<Seq<char>>, explicit: Seq<(u32, u32)>, upto: nat, v: u32)
    requires
        v < upto,
        upto <= u32::MAX,
        !is_builtin(names[v as int]),
        !has_parent(explicit, v),
    ensures
        has_parent(fallback_edges(names, explicit, upto), v),
    decreases upto,
{
    let all = fallback_edges(names, explicit, upto);
    let prev = fallback_edges(names, explicit, (upto - 1) as nat);
    if v == upto - 1 {
        assert(all[all.len() - 1].1 == v);
    } else {
        lemma_fallback_covers(names, explicit, (upto - 1) as nat, v);
        let k = choose|k: int| 0 <= k < prev.len() && (#[trigger] prev[k]).1 == v;
        assert(all[k].1 == v);
    }
}

/// In the graph built from a list of types and declared subclass pairs, every
/// type but the four built-in ones has a parent: a declared one, or the one
/// synthesized from its top-level name.
pub proof fn every_type_has_a_parent(
    names: Seq<Seq<char>>,
    edges: Seq<(u32, u32)>,
    mimelist: Seq<Seq<char>>,
    raw: Seq<(Seq<char>, Seq<char>)>,
    v: u32,
)
    requires
        is_type_graph(names, edges, mimelist, raw),
        names.len() <= u32::MAX,
        v < names.len(),
        !is_builtin(names[v as int]),
    ensures
        has_parent(edges, v),
{
    let base = choose|base: Seq<Seq<char>>| #[trigger]
        is_sorted_set_of(base, mimelist) && names == with_builtins(base) && edges == explicit_edges(
            base,
            raw,
        ) + fallback_edges(names, explicit_edges(base, raw), names.len());
    let explicit = explicit_edges(base, raw);
    let fallback = fallback_edges(names, explicit, names.len());
    if has_parent(explicit, v) {
        let k = choose|k: int| 0 <= k < explicit.len() && (#[trigger] explicit[k]).1 == v;
        assert(edges[k].1 == v);
    } else {
        lemma_fallback_covers(names, explicit, names.len(), v);
        let k = choose|k: int| 0 <= k < fallback.len() && (#[trigger] fallback[k]).1 == v;
        assert(edges[explicit.len() + k].1 == v);
    }
}

/// In a database every type but the root has a parent, and the root has
/// none.
pub proof fn only_the_root_has_no_parent(db: MimeDatabase, v: u32)
    requires
        db.wf(),
        v < db.names().len(),
    ensures
        v != db.root() ==> has_parent(db.edges(), v),
        !has_parent(db.edges(), db.root()),
{
    let roots = seq![db.root()];
    assert(is_source_list(roots, db.names().len(), db.edges()));
    assert(roots[0] == db.root());
    if v != db.root() && !has_parent(db.edges(), v) {
        assert(roots.contains(v));
    }
}


/// A node is a child of another exactly where an edge leads from the one to
/// the other.
pub proof fn children_are_edge_targets(edges: Seq<(u32, u32)>, a: u32, b: u32)
    ensures
        successors(edges, a).contains(b) <==> edges.contains((a, b)),
    decreases edges.len(),
{
    if edges.len() > 0 {
        let rest = edges.drop_last();
        let last = edges.last();
        children_are_edge_targets(rest, a, b);
        let all = successors(edges, a);
        let sub = successors(rest, a);
        if edges.contains((a, b)) {
            let k = choose|k: int| 0 <= k < edges.len() && edges[k] == (a, b);
            if k == edges.len() - 1 {
                assert(all[0] == b);
            } else {
                assert(rest[k] == (a, b));
                assert(sub.contains(b));
                let j = choose|j: int| 0 <= j < sub.len() && sub[j] == b;
                if last.0 == a {
                    assert(all[j + 1] == b);
                } else {
                    assert(all[j] == b);
                }
            }
        }
        if all.contains(b) {
            let j = choose|j: int| 0 <= j < all.len() && all[j] == b;
            if last.0 == a && j == 0 {
                assert(edges[edges.len() - 1] == (a, b));
            } else {
                if last.0 == a {
                    assert(sub[j - 1] == b);
                } else {
                    assert(sub[j] == b);
                }
                assert(rest.contains((a, b)));
                let k = choose|k: int| 0 <= k < rest.len() && rest[k] == (a, b);
                assert(edges[k] == (a, b));
            }
        }
    }
}

/// `pair` names the two ends of an edge that leaves one of the first `upto`
/// nodes.
pub open spec fn names_an_edge(
    names: Seq<Seq<char>>,
    edges: Seq<(u32, u32)>,
    upto: nat,
    pair: (Seq<char>, Seq<char>),
) -> bool {
    exists|k: int|
        0 <= k < edges.len() && (#[trigger] edges[k]).0 < upto && pair == (
            names[edges[k].0 as int],
            names[edges[k].1 as int],
        )
}

/// The pairs listed for the first `upto` nodes are the pairs that name an
/// edge from one of those nodes: none is left out and none is made up.
pub proof fn listed_pairs_are_the_edges(
    names: Seq<Seq<char>>,
    edges: Seq<(u32, u32)>,
    upto: nat,
    pair: (Seq<char>, Seq<char>),
)
    requires
        upto <= u32::MAX,
    ensures
        edges_by_name(names, edges, upto).contains(pair) <==> names_an_edge(names, edges, upto, pair),
    decreases upto,
{
    if upto > 0 {
        let v = (upto - 1) as u32;
        let front = edges_by_name(names, edges, (upto - 1) as nat);
        let back = edges_from(names, edges, v);
        let all = edges_by_name(names, edges, upto);
        let kids = successors(edges, v);
        listed_pairs_are_the_edges(names, edges, (upto - 1) as nat, pair);
        if all.contains(pair) {
            let i = choose|i: int| 0 <= i < all.len() && all[i] == pair;
            if i < front.len() {
                assert(front[i] == pair);
                assert(front.contains(pair));
                let k = choose|k: int|
                    0 <= k < edges.len() && (#[trigger] edges[k]).0 < upto - 1 && pair == (
                        names[edges[k].0 as int],
                        names[edges[k].1 as int],
                    );
                assert(edges[k].0 < upto);
            } else {
                let j = i - front.len();
                assert(back[j] == pair);
                assert(kids.contains(kids[j]));
                children_are_edge_targets(edges, v, kids[j]);
                let k = choose|k: int| 0 <= k < edges.len() && edges[k] == (v, kids[j]);
                assert(edges[k].0 < upto);
            }
        }
        if names_an_edge(names, edges, upto, pair) {
            let k = choose|k: int|
                0 <= k < edges.len() && (#[trigger] edges[k]).0 < upto && pair == (
                    names[edges[k].0 as int],
                    names[edges[k].1 as int],
                );
            if edges[k].0 < upto - 1 {
                assert(names_an_edge(names, edges, (upto - 1) as nat, pair));
                let i = choose|i: int| 0 <= i < front.len() && front[i] == pair;
                assert(all[i] == pair);
            } else {
                assert(edges[k] == (v, edges[k].1));
                assert(edges.contains((v, edges[k].1)));
                children_are_edge_targets(edges, v, edges[k].1);
                let j = choose|j: int| 0 <= j < kids.len() && kids[j] == edges[k].1;
                assert(back[j] == pair);
                assert(all[front.len() + j] == pair);
            }
        }
    }
}


/// A declared pair whose two names are nodes is among the declared edges.
proof fn lemma_explicit_has(base: Seq<Seq<char>>, raw: Seq<(Seq<char>, Seq<char>)>, k: int)
    requires
        0 <= k < raw.len(),
        base.contains(raw[k].0),
        base.contains(raw[k].1),
    ensures
        explicit_edges(base, raw).contains(
            (base.index_of(raw[k].0) as u32, base.index_of(raw[k].1) as u32),
        ),
    decreases raw.len(),
{
    let edge = (base.index_of(raw[k].0) as u32, base.index_of(raw[k].1) as u32);
    let prev = explicit_edges(base, raw.drop_last());
    let all = explicit_edges(base, raw);
    if k < raw.len() - 1 {
        assert(raw.drop_last()[k] == raw[k]);
        lemma_explicit_has(base, raw.drop_last(), k);
        let i = choose|i: int| 0 <= i < prev.len() && prev[i] == edge;
        assert(all[i] == edge);
    } else {
        if !prev.contains(edge) {
            assert(all[all.len() - 1] == edge);
        }
    }
}

/// In the graph built from types that include the built-in ones and from
/// pairs that include those among the built-in types, a node without a parent
/// is the root `all/all`.
pub proof fn node_without_parent_is_the_root(
    names: Seq<Seq<char>>,
    edges: Seq<(u32, u32)>,
    mimelist: Seq<Seq<char>>,
    raw: Seq<(Seq<char>, Seq<char>)>,
    node: u32,
)
    requires
        is_type_graph(names, edges, mimelist, raw),
        names.len() <= u32::MAX,
        node < names.len(),
        !has_parent(edges, node),
        forall|k: int| 0 <= k < base_types().len() ==> mimelist.contains(#[trigger] base_types()[k]),
        forall|k: int| 0 <= k < base_edges().len() ==> raw.contains(#[trigger] base_edges()[k]),
    ensures
        names[node as int] == all_all(),
{
    let base = choose|base: Seq<Seq<char>>| #[trigger]
        is_sorted_set_of(base, mimelist) && names == with_builtins(base) && edges == explicit_edges(
            base,
            raw,
        ) + fallback_edges(names, explicit_edges(base, raw), names.len());
    let explicit = explicit_edges(base, raw);
    assert forall|k: int| 0 <= k < base_types().len() implies base.contains(#[trigger] base_types()[k]) by {
        assert(mimelist.contains(base_types()[k]));
        assert(mimelist.to_set().contains(base_types()[k]));
        assert(base.to_set().contains(base_types()[k]));
    }
    assert(base.contains(base_types()[0]));
    assert(base.contains(base_types()[1]));
    assert(base.contains(base_types()[2]));
    assert(base.contains(base_types()[3]));
    assert(base.contains(base_types()[4]));
    assert(names == base);
    let name = names[node as int];
    if name != all_all() {
        if !is_builtin(name) {
            every_type_has_a_parent(names, edges, mimelist, raw, node);
        } else {
            let e: int = if name == all_allfiles() {
                0
            } else if name == octet_stream() {
                2
            } else {
                3
            };
            let pair = base_edges()[e];
            assert(pair.1 == name);
            assert(raw.contains(pair));
            let k = choose|k: int| 0 <= k < raw.len() && raw[k] == pair;
            assert(base.contains(pair.0));
            assert(base.contains(name));
            lemma_explicit_has(base, raw, k);
            assert(base.index_of(name) == node);
            let edge = (base.index_of(pair.0) as u32, node);
            let i = choose|i: int| 0 <= i < explicit.len() && explicit[i] == edge;
            assert(edges[i] == edge);
            assert(has_parent(edges, node));
        }
    }
}


/// The rules of the entries for the type `name`, joined in the order of the
/// entries.
pub open spec fn rules_named(entries: Seq<EntryModel>, name: Seq<char>) -> Seq<RuleModel>
    decreases entries.len(),
{
    if entries.len() == 0 {
        Seq::empty()
    } else if entries.last().mime == name {
        rules_named(entries.drop_last(), name) + entries.last().rules
    } else {
        rules_named(entries.drop_last(), name)
    }
}

/// Some entry is for the type `name`.
pub open spec fn has_entry(entries: Seq<EntryModel>, name: Seq<char>) -> bool {
    exists|i: int| 0 <= i < entries.len() && (#[trigger] entries[i]).mime == name
}

/// Adding rules for a type to a table leaves the rules of every other type
/// as they were, and puts the new rules behind those the type had.
proof fn lemma_add_entry_lookup(
    table: Seq<(Seq<char>, Seq<RuleModel>)>,
    name: Seq<char>,
    rules: Seq<RuleModel>,
    other: Seq<char>,
)
    ensures
        other != name ==> lookup_forest(add_entry(table, name, rules), other) == lookup_forest(
            table,
            other,
        ),
        lookup_forest(add_entry(table, name, rules), name) == Some(
            match lookup_forest(table, name) {
                Some(had) => had + rules,
                None => rules,
            },
        ),
    decreases table.len(),
{
    let after = add_entry(table, name, rules);
    if table.len() == 0 {
        assert(after.len() == 1);
        assert(after[0] == (name, rules));
        assert(after.drop_first() =~= Seq::<(Seq<char>, Seq<RuleModel>)>::empty());
        assert(lookup_forest(after.drop_first(), other) is None);
    } else if table[0].0 == name {
        assert(after.len() > 0);
        assert(after[0] == (name, table[0].1 + rules));
        assert(after.drop_first() =~= table.drop_first());
    } else {
        lemma_add_entry_lookup(table.drop_first(), name, rules, other);
        assert(after.len() > 0);
        assert(after[0] == table[0]);
        assert(after.drop_first() =~= add_entry(table.drop_first(), name, rules));
    }
}

/// In the table built from the entries of magic files, a type has the rules
/// of all its entries, joined in the order of the entries; a type without an
/// entry is not in the table.
pub proof fn table_joins_entries_by_type(entries: Seq<EntryModel>, name: Seq<char>)
    ensures
        lookup_forest(add_entries(Seq::empty(), entries), name) == if has_entry(entries, name) {
            Some(rules_named(entries, name))
        } else {
            None
        },
    decreases entries.len(),
{
    if entries.len() > 0 {
        let rest = entries.drop_last();
        let last = entries.last();
        table_joins_entries_by_type(rest, name);
        lemma_add_entry_lookup(add_entries(Seq::empty(), rest), last.mime, last.rules, name);
        if has_entry(rest, name) {
            let i = choose|i: int| 0 <= i < rest.len() && (#[trigger] rest[i]).mime == name;
            assert(entries[i].mime == name);
        }
        if last.mime == name {
            assert(entries[entries.len() - 1].mime == name);
            if !has_entry(rest, name) {
                lemma_rules_named_empty(rest, name);
                assert(rules_named(rest, name) + last.rules =~= last.rules);
            }
        } else {
            if has_entry(entries, name) {
                let i = choose|i: int| 0 <= i < entries.len() && (#[trigger] entries[i]).mime == name;
                assert(rest[i].mime == name);
            }
        }
    }
}

/// Entries none of which is for a type hold no rules for it.
proof fn lemma_rules_named_empty(entries: Seq<EntryModel>, name: Seq<char>)
    requires
        !has_entry(entries, name),
    ensures
        rules_named(entries, name) == Seq::<RuleModel>::empty(),
    decreases entries.len(),
{
    if entries.len() > 0 {
        assert(entries[entries.len() - 1].mime != name);
        assert forall|i: int| 0 <= i < entries.drop_last().len() implies (#[trigger] entries.drop_last()[i]).mime
            != name by {
            assert(entries.drop_last()[i] == entries[i]);
        }
        lemma_rules_named_empty(entries.drop_last(), name);
    }
}


/// The child below which a walk from `node` goes on: the first child of
/// `node`, in the order of testing, that the subject is of.
pub open spec fn step(
    names: Seq<Seq<char>>,
    edges: Seq<(u32, u32)>,
    table: Seq<(Seq<char>, Seq<RuleModel>)>,
    aliases: Seq<(Seq<char>, Seq<char>)>,
    node: u32,
    subject: SubjectModel,
) -> Option<u32> {
    first_match(names, table, aliases, ordered_children(names, edges, node), subject)
}

/// The nodes that a walk from `node` passes in its first `k` steps, `node`
/// first. The walk may end before it has made `k` steps.
pub open spec fn trail(
    names: Seq<Seq<char>>,
    edges: Seq<(u32, u32)>,
    table: Seq<(Seq<char>, Seq<RuleModel>)>,
    aliases: Seq<(Seq<char>, Seq<char>)>,
    node: u32,
    subject: SubjectModel,
    k: nat,
) -> Seq<u32>
    decreases k,
{
    if k == 0 {
        seq![node]
    } else {
        match step(names, edges, table, aliases, node, subject) {
            None => seq![node],
            Some(child) => seq![node] + trail(names, edges, table, aliases, child, subject, (k - 1) as nat),
        }
    }
}

/// The nodes picked by name from a list of nodes are of that list.
proof fn lemma_named_from(names: Seq<Seq<char>>, kids: Seq<u32>, target: Seq<char>, all: Seq<u32>)
    requires
        forall|k: int| 0 <= k < kids.len() ==> all.contains(#[trigger] kids[k]),
    ensures
        forall|k: int|
            0 <= k < named(names, kids, target).len() ==> all.contains(
                #[trigger] named(names, kids, target)[k],
            ),
    decreases kids.len(),
{
    if kids.len() > 0 {
        assert(all.contains(kids[kids.len() - 1]));
        assert forall|k: int| 0 <= k < kids.drop_last().len() implies all.contains(
            #[trigger] kids.drop_last()[k],
        ) by {
            assert(kids.drop_last()[k] == kids[k]);
        }
        lemma_named_from(names, kids.drop_last(), target, all);
        let rest = named(names, kids.drop_last(), target);
        assert forall|k: int| 0 <= k < named(names, kids, target).len() implies all.contains(
            #[trigger] named(names, kids, target)[k],
        ) by {
            if k < rest.len() {
                assert(named(names, kids, target)[k] == rest[k]);
            }
        }
    }
}

/// The nodes left over by the hot list are of the list they were taken from.
proof fn lemma_unlisted_from(names: Seq<Seq<char>>, kids: Seq<u32>, all: Seq<u32>)
    requires
        forall|k: int| 0 <= k < kids.len() ==> all.contains(#[trigger] kids[k]),
    ensures
        forall|k: int|
            0 <= k < unlisted(names, kids).len() ==> all.contains(#[trigger] unlisted(names, kids)[k]),
    decreases kids.len(),
{
    if kids.len() > 0 {
        assert(all.contains(kids[kids.len() - 1]));
        assert forall|k: int| 0 <= k < kids.drop_last().len() implies all.contains(
            #[trigger] kids.drop_last()[k],
        ) by {
            assert(kids.drop_last()[k] == kids[k]);
        }
        lemma_unlisted_from(names, kids.drop_last(), all);
        let rest = unlisted(names, kids.drop_last());
        assert forall|k: int| 0 <= k < unlisted(names, kids).len() implies all.contains(
            #[trigger] unlisted(names, kids)[k],
        ) by {
            if k < rest.len() {
                assert(unlisted(names, kids)[k] == rest[k]);
            }
        }
    }
}

/// The nodes picked by the hot list are of the list they were taken from.
proof fn lemma_listed_from(names: Seq<Seq<char>>, kids: Seq<u32>, h: nat)
    ensures
        forall|k: int|
            0 <= k < listed(names, kids, h).len() ==> kids.contains(#[trigger] listed(names, kids, h)[k]),
    decreases h,
{
    if h > 0 {
        lemma_listed_from(names, kids, (h - 1) as nat);
        assert forall|k: int| 0 <= k < kids.len() implies kids.contains(#[trigger] kids[k]) by {}
        lemma_named_from(names, kids, hot_list()[h - 1], kids);
        let front = listed(names, kids, (h - 1) as nat);
        let back = named(names, kids, hot_list()[h - 1]);
        assert forall|k: int| 0 <= k < listed(names, kids, h).len() implies kids.contains(
            #[trigger] listed(names, kids, h)[k],
        ) by {
            if k < front.len() {
                assert(listed(names, kids, h)[k] == front[k]);
            } else {
                assert(listed(names, kids, h)[k] == back[k - front.len()]);
            }
        }
    }
}

/// The first matching node of a list is of the list.
proof fn lemma_first_match_from(
    names: Seq<Seq<char>>,
    table: Seq<(Seq<char>, Seq<RuleModel>)>,
    aliases: Seq<(Seq<char>, Seq<char>)>,
    kids: Seq<u32>,
    subject: SubjectModel,
)
    ensures
        first_match(names, table, aliases, kids, subject) matches Some(v) ==> kids.contains(v),
    decreases kids.len(),
{
    if kids.len() > 0 {
        lemma_first_match_from(names, table, aliases, kids.drop_first(), subject);
        match first_match(names, table, aliases, kids, subject) {
            Some(v) => {
                if v != kids[0] {
                    let k = choose|k: int| 0 <= k < kids.drop_first().len() && kids.drop_first()[k] == v;
                    assert(kids[k + 1] == v);
                }
            },
            None => {},
        }
    }
}

/// A walk goes from a node to one of its children: there is an edge from
/// each node it passes to the next.
pub proof fn step_follows_an_edge(
    names: Seq<Seq<char>>,
    edges: Seq<(u32, u32)>,
    table: Seq<(Seq<char>, Seq<RuleModel>)>,
    aliases: Seq<(Seq<char>, Seq<char>)>,
    node: u32,
    subject: SubjectModel,
)
    ensures
        step(names, edges, table, aliases, node, subject) matches Some(child) ==> edges.contains(
            (node, child),
        ),
{
    let kids = successors(edges, node);
    let ordered = ordered_children(names, edges, node);
    match step(names, edges, table, aliases, node, subject) {
        Some(child) => {
            lemma_first_match_from(names, table, aliases, ordered, subject);
            lemma_listed_from(names, kids, hot_list().len());
            assert forall|k: int| 0 <= k < kids.len() implies kids.contains(#[trigger] kids[k]) by {}
            lemma_unlisted_from(names, kids, kids);
            let i = choose|i: int| 0 <= i < ordered.len() && ordered[i] == child;
            let front = listed(names, kids, hot_list().len());
            if i < front.len() {
                assert(ordered[i] == front[i]);
            } else {
                assert(ordered[i] == unlisted(names, kids)[i - front.len()]);
            }
            assert(kids.contains(child));
            children_are_edge_targets(edges, node, child);
        },
        None => {},
    }
}

/// There is an edge from node `i` of a chain to the next.
pub open spec fn link(edges: Seq<(u32, u32)>, t: Seq<u32>, i: int) -> bool {
    edges.contains((t[i], t[i + 1]))
}

/// Along the trail of a walk there is an edge from each node to the next,
/// and a walk that has not ended after `k` steps has passed `k + 1` nodes.
proof fn lemma_trail(
    names: Seq<Seq<char>>,
    edges: Seq<(u32, u32)>,
    table: Seq<(Seq<char>, Seq<RuleModel>)>,
    aliases: Seq<(Seq<char>, Seq<char>)>,
    node: u32,
    subject: SubjectModel,
    k: nat,
)
    ensures
        ({
            let t = trail(names, edges, table, aliases, node, subject, k);
            &&& 1 <= t.len() <= k + 1
            &&& t[0] == node
            &&& forall|i: int| 0 <= i < t.len() - 1 ==> #[trigger] link(edges, t, i)
        }),
    decreases k,
{
    let t = trail(names, edges, table, aliases, node, subject, k);
    if k > 0 {
        match step(names, edges, table, aliases, node, subject) {
            Some(child) => {
                let rest = trail(names, edges, table, aliases, child, subject, (k - 1) as nat);
                lemma_trail(names, edges, table, aliases, child, subject, (k - 1) as nat);
                step_follows_an_edge(names, edges, table, aliases, node, subject);
                assert forall|i: int| 0 <= i < t.len() - 1 implies #[trigger] link(edges, t, i) by {
                    if i == 0 {
                        assert(t[1] == rest[0]);
                    } else {
                        assert(link(edges, rest, i - 1));
                        assert(t[i] == rest[i - 1]);
                        assert(t[i + 1] == rest[i]);
                    }
                }
            },
            None => {},
        }
    }
}

/// A walk whose trail after `k` steps is shorter than `k + 1` nodes has
/// ended: more depth does not change what it finds.
proof fn lemma_ended_walk(
    names: Seq<Seq<char>>,
    edges: Seq<(u32, u32)>,
    table: Seq<(Seq<char>, Seq<RuleModel>)>,
    aliases: Seq<(Seq<char>, Seq<char>)>,
    node: u32,
    subject: SubjectModel,
    k: nat,
    more: nat,
)
    requires
        trail(names, edges, table, aliases, node, subject, k).len() <= k,
    ensures
        walk_graph(names, edges, table, aliases, node, subject, k + more) == walk_graph(
            names,
            edges,
            table,
            aliases,
            node,
            subject,
            k,
        ),
    decreases k,
{
    if k > 0 {
        match step(names, edges, table, aliases, node, subject) {
            Some(child) => {
                lemma_ended_walk(names, edges, table, aliases, child, subject, (k - 1) as nat, more);
                assert((k + more - 1) as nat == (k - 1) as nat + more);
            },
            None => {},
        }
    }
}

/// There are `n` numbers below `n`.
proof fn lemma_count_below(n: nat)
    requires
        n <= u32::MAX,
    ensures
        Set::new(|v: u32| v < n).finite(),
        Set::new(|v: u32| v < n).len() == n,
    decreases n,
{
    if n == 0 {
        assert(Set::new(|v: u32| v < n) =~= Set::<u32>::empty());
    } else {
        lemma_count_below((n - 1) as nat);
        let less = Set::new(|v: u32| v < n - 1);
        assert(Set::new(|v: u32| v < n) =~= less.insert((n - 1) as u32));
    }
}

/// Among more than `n` numbers below `n`, one occurs twice.
proof fn lemma_pigeonhole(s: Seq<u32>, n: nat)
    requires
        n <= u32::MAX,
        s.len() > n,
        forall|i: int| 0 <= i < s.len() ==> (#[trigger] s[i]) < n,
    ensures
        !s.no_duplicates(),
{
    if s.no_duplicates() {
        s.unique_seq_to_set();
        lemma_count_below(n);
        let below = Set::new(|v: u32| v < n);
        assert(s.to_set().subset_of(below)) by {
            assert forall|v: u32| s.to_set().contains(v) implies below.contains(v) by {
                let i = choose|i: int| 0 <= i < s.len() && s[i] == v;
                assert(s[i] < n);
            }
        }
        vstd::set_lib::lemma_len_subset(s.to_set(), below);
    }
}

/// A chain of edges that comes back to a node it has passed runs in a
/// circle.
proof fn lemma_chain_closes(edges: Seq<(u32, u32)>, t: Seq<u32>, lo: int, hi: int)
    requires
        0 <= lo < hi < t.len(),
        t[lo] == t[hi],
        forall|i: int| 0 <= i < t.len() - 1 ==> #[trigger] link(edges, t, i),
    ensures
        has_cycle(edges),
{
    let path = t.subrange(lo, hi);
    let len = path.len() as int;
    assert(len == hi - lo);
    assert forall|x: int| 0 <= x < path.len() implies #[trigger] closes(edges, path, x) by {
        assert(path[x] == t[lo + x]);
        assert(link(edges, t, lo + x));
        if x + 1 < len {
            vstd::arithmetic::div_mod::lemma_small_mod((x + 1) as nat, len as nat);
            assert(path[x + 1] == t[lo + x + 1]);
        } else {
            vstd::arithmetic::div_mod::lemma_mod_self_0(len);
            assert(path[0] == t[lo]);
        }
    }
    assert(is_cycle(edges, path));
}

/// The nodes of a chain of edges that starts at a node of the graph are
/// nodes of the graph.
proof fn lemma_chain_within(edges: Seq<(u32, u32)>, t: Seq<u32>, n: nat)
    requires
        edges_within(edges, n),
        t.len() >= 1,
        t[0] < n,
        forall|i: int| 0 <= i < t.len() - 1 ==> #[trigger] link(edges, t, i),
    ensures
        forall|i: int| 0 <= i < t.len() ==> (#[trigger] t[i]) < n,
{
    assert forall|i: int| 0 <= i < t.len() implies (#[trigger] t[i]) < n by {
        if i > 0 {
            assert(link(edges, t, i - 1));
            let e = choose|e: int| 0 <= e < edges.len() && edges[e] == (t[i - 1], t[i]);
            assert(edges[e].1 < n);
        }
    }
}

/// In a graph of `n` nodes without a circle, a walk ends within `n` steps:
/// the trail of a walk never holds more than `n` nodes.
proof fn lemma_trail_is_short(
    names: Seq<Seq<char>>,
    edges: Seq<(u32, u32)>,
    table: Seq<(Seq<char>, Seq<RuleModel>)>,
    aliases: Seq<(Seq<char>, Seq<char>)>,
    node: u32,
    subject: SubjectModel,
    k: nat,
)
    requires
        names.len() <= u32::MAX,
        edges_within(edges, names.len()),
        node < names.len(),
        !has_cycle(edges),
    ensures
        trail(names, edges, table, aliases, node, subject, k).len() <= names.len(),
{
    let t = trail(names, edges, table, aliases, node, subject, k);
    lemma_trail(names, edges, table, aliases, node, subject, k);
    lemma_chain_within(edges, t, names.len());
    if t.len() > names.len() {
        lemma_pigeonhole(t, names.len());
        let (i, j) = choose|i: int, j: int| 0 <= i < t.len() && 0 <= j < t.len() && i != j && t[i] == t[j];
        if i < j {
            lemma_chain_closes(edges, t, i, j);
        } else {
            lemma_chain_closes(edges, t, j, i);
        }
    }
}

/// In a database the depth to which detection walks is no limit: the walk
/// from any node ends by itself before it gets that deep, and finds the same
/// at any greater depth.
pub proof fn walk_depth_is_no_limit(db: MimeDatabase, node: u32, subject: SubjectModel, more: nat)
    requires
        db.wf(),
        node < db.names().len(),
    ensures
        walk_graph(
            db.names(),
            db.edges(),
            db.rule_table(),
            db.alias_table(),
            node,
            subject,
            db.names().len() + more,
        ) == db.walk(node, subject),
{
    lemma_trail_is_short(
        db.names(),
        db.edges(),
        db.rule_table(),
        db.alias_table(),
        node,
        subject,
        db.names().len(),
    );
    lemma_ended_walk(
        db.names(),
        db.edges(),
        db.rule_table(),
        db.alias_table(),
        node,
        subject,
        db.names().len(),
        more,
    );
}


/// Where no type has the empty name, detection gives a name that is not
/// empty.
pub proof fn detected_type_is_not_empty(db: MimeDatabase, subject: SubjectModel)
    requires
        db.wf(),
        forall|k: int| 0 <= k < db.names().len() ==> (#[trigger] db.names()[k]).len() > 0,
    ensures
        db.detect(subject).len() > 0,
{
    detected_type_is_supported(db, subject);
    let k = choose|k: int| 0 <= k < db.names().len() && db.names()[k] == db.detect(subject);
    assert(db.names()[k].len() > 0);
}

/// The first matching node of a list is of a type that the subject is of.
proof fn lemma_first_match_matches(
    names: Seq<Seq<char>>,
    table: Seq<(Seq<char>, Seq<RuleModel>)>,
    aliases: Seq<(Seq<char>, Seq<char>)>,
    kids: Seq<u32>,
    subject: SubjectModel,
)
    ensures
        first_match(names, table, aliases, kids, subject) matches Some(v) ==> type_matches(
            table,
            resolve(aliases, names[v as int]),
            subject,
        ),
    decreases kids.len(),
{
    if kids.len() > 0 {
        lemma_first_match_matches(names, table, aliases, kids.drop_first(), subject);
    }
}

/// What a walk finds is a type that the subject is of: under the name that
/// its alias stands for, the type found accepts the subject.
pub proof fn found_type_matches(
    names: Seq<Seq<char>>,
    edges: Seq<(u32, u32)>,
    table: Seq<(Seq<char>, Seq<RuleModel>)>,
    aliases: Seq<(Seq<char>, Seq<char>)>,
    node: u32,
    subject: SubjectModel,
    depth: nat,
)
    ensures
        walk_graph(names, edges, table, aliases, node, subject, depth) matches Some(v)
            ==> type_matches(table, resolve(aliases, names[v as int]), subject),
    decreases depth,
{
    if depth > 0 {
        lemma_first_match_matches(
            names,
            table,
            aliases,
            ordered_children(names, edges, node),
            subject,
        );
        match step(names, edges, table, aliases, node, subject) {
            Some(child) => {
                found_type_matches(names, edges, table, aliases, child, subject, (depth - 1) as nat);
            },
            None => {},
        }
    }
}

/// The empty buffer satisfies only a rule whose literal is empty and that
/// looks at the very start.
pub proof fn empty_buffer_matches_empty_literal(rule: RuleModel)
    requires
        rule_matches(Seq::<u8>::empty(), rule),
    ensures
        rule.val.len() == 0,
        rule.start_off == 0,
{
    let off = choose|off: int|
        rule.start_off <= off <= rule.start_off + rule.region_len && #[trigger] matches_at(
            Seq::<u8>::empty(),
            rule,
            off,
        );
    assert(off + rule.val.len() <= 0);
}

/// Some rule of the forest has an empty literal.
pub open spec fn has_empty_literal(forest: Seq<RuleModel>) -> bool {
    exists|k: int| 0 <= k < forest.len() && (#[trigger] forest[k]).val.len() == 0
}

/// For the empty buffer detection gives the root, a built-in type that every
/// buffer or every text is of, or a type among whose rules one has an empty
/// literal; never a type whose rules all ask for bytes. The name meant is the
/// one that the alias of the type found stands for.
pub proof fn empty_buffer_type(db: MimeDatabase)
    requires
        db.wf(),
    ensures
        ({
            let found = db.detect(SubjectModel::Bytes(Seq::empty()));
            let name = resolve(db.alias_table(), found);
            ||| found == all_all()
            ||| name == all_allfiles()
            ||| name == octet_stream()
            ||| name == text_plain()
            ||| (!is_base_type(name) && lookup_forest(db.rule_table(), name) is Some
                && has_empty_literal(lookup_forest(db.rule_table(), name)->0))
        }),
{
    let subject = SubjectModel::Bytes(Seq::<u8>::empty());
    found_type_matches(
        db.names(),
        db.edges(),
        db.rule_table(),
        db.alias_table(),
        db.root(),
        subject,
        db.names().len(),
    );
    match db.walk(db.root(), subject) {
        Some(v) => {
            let name = resolve(db.alias_table(), db.names()[v as int]);
            assert(type_matches(db.rule_table(), name, subject));
            if !is_base_type(name) {
                let forest = lookup_forest(db.rule_table(), name)->0;
                assert(forest_matches(Seq::<u8>::empty(), forest));
                let i = choose|i: int|
                    0 <= i < forest.len() && #[trigger] branch_matches(Seq::<u8>::empty(), forest, i);
                empty_buffer_matches_empty_literal(forest[i]);
            }
        },
        None => {},
    }
}

/// Adding a missing name leaves the names that were there in their places.
proof fn lemma_add_missing_keeps(s: Seq<Seq<char>>, x: Seq<char>)
    ensures
        s.len() <= add_missing(s, x).len(),
        forall|k: int| 0 <= k < s.len() ==> add_missing(s, x)[k] == #[trigger] s[k],
{
}

/// Adding the built-in types leaves the names that were there in their
/// places.
proof fn lemma_builtins_keep(base: Seq<Seq<char>>)
    ensures
        base.len() <= with_builtins(base).len(),
        forall|k: int| 0 <= k < base.len() ==> with_builtins(base)[k] == #[trigger] base[k],
{
    let s1 = add_missing(base, text_plain());
    let s2 = add_missing(s1, octet_stream());
    let s3 = add_missing(s2, all_all());
    lemma_add_missing_keeps(base, text_plain());
    lemma_add_missing_keeps(s1, octet_stream());
    lemma_add_missing_keeps(s2, all_all());
    lemma_add_missing_keeps(s3, all_allfiles());
    assert forall|k: int| 0 <= k < base.len() implies with_builtins(base)[k] == #[trigger] base[k] by {
        assert(s1[k] == base[k]);
        assert(s2[k] == s1[k]);
        assert(s3[k] == s2[k]);
    }
}

/// Every declared edge leads to a node whose name is the second of a
/// declared pair.
proof fn lemma_explicit_target(base: Seq<Seq<char>>, raw: Seq<(Seq<char>, Seq<char>)>, e: int)
    requires
        0 <= e < explicit_edges(base, raw).len(),
        base.len() <= u32::MAX,
    ensures
        explicit_edges(base, raw)[e].1 < base.len(),
        exists|k: int| 0 <= k < raw.len() && (#[trigger] raw[k]).1 == base[explicit_edges(base, raw)[e].1 as int],
    decreases raw.len(),
{
    let prev = explicit_edges(base, raw.drop_last());
    let pair = raw.last();
    if e < prev.len() {
        lemma_explicit_target(base, raw.drop_last(), e);
        let k = choose|k: int|
            0 <= k < raw.drop_last().len() && (#[trigger] raw.drop_last()[k]).1 == base[prev[e].1 as int];
        assert(raw[k].1 == base[prev[e].1 as int]);
        assert(explicit_edges(base, raw)[e] == prev[e]);
    } else {
        assert(base.contains(pair.1));
        assert(base[base.index_of(pair.1)] == pair.1);
        assert(raw[raw.len() - 1].1 == pair.1);
    }
}

/// Every synthesized edge leads to a node that is not built in.
proof fn lemma_fallback_target(names: Seq<Seq<char>>, explicit: Seq<(u32, u32)>, upto: nat, e: int)
    requires
        0 <= e < fallback_edges(names, explicit, upto).len(),
    ensures
        !is_builtin(names[fallback_edges(names, explicit, upto)[e].1 as int]),
    decreases upto,
{
    if upto > 0 {
        let prev = fallback_edges(names, explicit, (upto - 1) as nat);
        if e < prev.len() {
            lemma_fallback_target(names, explicit, (upto - 1) as nat, e);
            assert(fallback_edges(names, explicit, upto)[e] == prev[e]);
        }
    }
}

/// In the graph built from a list of types and declared subclass pairs, the
/// root `all/all` has no parent unless a declared pair gives it one.
pub proof fn root_gets_no_parent(
    names: Seq<Seq<char>>,
    edges: Seq<(u32, u32)>,
    mimelist: Seq<Seq<char>>,
    raw: Seq<(Seq<char>, Seq<char>)>,
    node: u32,
)
    requires
        is_type_graph(names, edges, mimelist, raw),
        names.len() <= u32::MAX,
        node < names.len(),
        names[node as int] == all_all(),
        forall|k: int| 0 <= k < raw.len() ==> (#[trigger] raw[k]).1 != all_all(),
    ensures
        !has_parent(edges, node),
{
    let base = choose|base: Seq<Seq<char>>| #[trigger]
        is_sorted_set_of(base, mimelist) && names == with_builtins(base) && edges == explicit_edges(
            base,
            raw,
        ) + fallback_edges(names, explicit_edges(base, raw), names.len());
    let explicit = explicit_edges(base, raw);
    let fallback = fallback_edges(names, explicit, names.len());
    lemma_builtins_keep(base);
    if has_parent(edges, node) {
        let e = choose|e: int| 0 <= e < edges.len() && (#[trigger] edges[e]).1 == node;
        if e < explicit.len() {
            assert(explicit[e] == edges[e]);
            lemma_explicit_target(base, raw, e);
            let k = choose|k: int| 0 <= k < raw.len() && (#[trigger] raw[k]).1 == base[explicit[e].1 as int];
            assert(names[node as int] == base[node as int]);
        } else {
            assert(fallback[e - explicit.len()] == edges[e]);
            lemma_fallback_target(names, explicit, names.len(), e - explicit.len());
        }
    }
}


/// An edge that leads to `node`, where there is one.
pub open spec fn edge_to(edges: Seq<(u32, u32)>, node: u32) -> int {
    choose|e: int| 0 <= e < edges.len() && (#[trigger] edges[e]).1 == node
}

/// A parent of `node`: the node from which that edge comes.
pub open spec fn parent_of(edges: Seq<(u32, u32)>, node: u32) -> u32 {
    edges[edge_to(edges, node)].0
}

/// The line of parents above `node`, at most `k` of them, the farthest
/// first and `node` last.
pub open spec fn lineage(edges: Seq<(u32, u32)>, node: u32, k: nat) -> Seq<u32>
    decreases k,
{
    if k == 0 || !has_parent(edges, node) {
        seq![node]
    } else {
        lineage(edges, parent_of(edges, node), (k - 1) as nat).push(node)
    }
}

/// A lineage is a chain of edges that ends at its node; where it is shorter
/// than it may be, it begins at a node without a parent.
proof fn lemma_lineage(edges: Seq<(u32, u32)>, node: u32, k: nat)
    ensures
        ({
            let t = lineage(edges, node, k);
            &&& 1 <= t.len() <= k + 1
            &&& t[t.len() - 1] == node
            &&& forall|i: int| 0 <= i < t.len() - 1 ==> #[trigger] link(edges, t, i)
            &&& (t.len() <= k ==> !has_parent(edges, t[0]))
        }),
    decreases k,
{
    let t = lineage(edges, node, k);
    if k > 0 && has_parent(edges, node) {
        let e = edge_to(edges, node);
        let parent = parent_of(edges, node);
        let above = lineage(edges, parent, (k - 1) as nat);
        lemma_lineage(edges, parent, (k - 1) as nat);
        assert(0 <= e < edges.len() && edges[e].1 == node);
        assert(edges[e] == (parent, node));
        assert forall|i: int| 0 <= i < t.len() - 1 implies #[trigger] link(edges, t, i) by {
            if i < above.len() - 1 {
                assert(link(edges, above, i));
                assert(t[i] == above[i]);
                assert(t[i + 1] == above[i + 1]);
            } else {
                assert(t[i] == parent);
                assert(t[i + 1] == node);
            }
        }
        assert(t[0] == above[0]);
    }
}

/// In a database every type descends from the root: a chain of edges leads
/// from the root to it.
pub proof fn every_type_descends_from_the_root(db: MimeDatabase, node: u32) -> (path: Seq<u32>)
    requires
        db.wf(),
        node < db.names().len(),
    ensures
        path.len() >= 1,
        path[0] == db.root(),
        path[path.len() - 1] == node,
        forall|i: int| 0 <= i < path.len() - 1 ==> #[trigger] link(db.edges(), path, i),
{
    let edges = db.edges();
    let n = db.names().len();
    let t = lineage(edges, node, n);
    lemma_lineage(edges, node, n);
    assert(t[0] < n) by {
        if t.len() > 1 {
            assert(link(edges, t, 0));
            let e = choose|e: int| 0 <= e < edges.len() && edges[e] == (t[0], t[1]);
            assert(edges[e].0 < n);
        }
    }
    lemma_chain_within(edges, t, n);
    if t.len() > n {
        lemma_pigeonhole(t, n);
        let (i, j) = choose|i: int, j: int| 0 <= i < t.len() && 0 <= j < t.len() && i != j && t[i] == t[j];
        if i < j {
            lemma_chain_closes(edges, t, i, j);
        } else {
            lemma_chain_closes(edges, t, j, i);
        }
    }
    only_the_root_has_no_parent(db, t[0]);
    t
}

} // verus!
