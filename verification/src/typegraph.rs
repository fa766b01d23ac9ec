//! Building the graph of MIME types from a list of types and the declared
//! subclass pairs.

use vstd::prelude::*;
use vstd::string::StringExecFns;
use crate::graph::{
    TypeStruct, graph_names, graph_edges, has_parent, is_source_list, edges_within, graph_new,
    graph_add_node, graph_extend_with_edges, graph_externals_incoming,
};
use crate::names::{
    all_all, all_allfiles, octet_stream, text_plain, is_builtin, fallback_parent, names_sorted,
    add_missing, sort_names, position, dedup_names, has_top_level,
};

verus! {

/// `base` holds the names of `mimelist`, each once, in ascending order.
pub open spec fn is_sorted_set_of(base: Seq<Seq<char>>, mimelist: Seq<Seq<char>>) -> bool {
    &&& names_sorted(base)
    &&& base.no_duplicates()
    &&& base.to_set() == mimelist.to_set()
}

/// `base` followed by those of the four built-in types that it lacks.
pub open spec fn with_builtins(base: Seq<Seq<char>>) -> Seq<Seq<char>> {
    add_missing(
        add_missing(add_missing(add_missing(base, text_plain()), octet_stream()), all_all()),
        all_allfiles(),
    )
}

/// The declared edges over the nodes `base`: each pair of `raw` names a type
/// and one of its subclasses; a pair with a name that is no node is dropped,
/// and so is a pair that occurred before.
pub open spec fn explicit_edges(base: Seq<Seq<char>>, raw: Seq<(Seq<char>, Seq<char>)>) -> Seq<
    (u32, u32),
>
    decreases raw.len(),
{
    if raw.len() == 0 {
        Seq::empty()
    } else {
        let prev = explicit_edges(base, raw.drop_last());
        let pair = raw.last();
        let edge = (base.index_of(pair.0) as u32, base.index_of(pair.1) as u32);
        if base.contains(pair.0) && base.contains(pair.1) && !prev.contains(edge) {
            prev.push(edge)
        } else {
            prev
        }
    }
}

/// The synthesized edges for the first `upto` nodes: each node that is not
/// built in and that no declared edge leads to gets one edge, from the type
/// that its top-level name calls for.
pub open spec fn fallback_edges(names: Seq<Seq<char>>, explicit: Seq<(u32, u32)>, upto: nat) -> Seq<
    (u32, u32),
>
    decreases upto,
{
    if upto == 0 {
        Seq::empty()
    } else {
        let prev = fallback_edges(names, explicit, (upto - 1) as nat);
        let v = (upto - 1) as u32;
        if !is_builtin(names[v as int]) && !has_parent(explicit, v) {
            prev.push((names.index_of(fallback_parent(names[v as int])) as u32, v))
        } else {
            prev
        }
    }
}

/// `names` and `edges` are the type graph of the given types and declared
/// subclass pairs: the nodes are the distinct types in ascending order,
/// followed by the built-in types that were missing; the edges are the
/// declared ones among those types, followed by the synthesized ones.
pub open spec fn is_type_graph(
    names: Seq<Seq<char>>,
    edges: Seq<(u32, u32)>,
    mimelist: Seq<Seq<char>>,
    raw: Seq<(Seq<char>, Seq<char>)>,
) -> bool {
    exists|base: Seq<Seq<char>>| #[trigger]
        is_sorted_set_of(base, mimelist) && names == with_builtins(base) && edges
            == explicit_edges(base, raw) + fallback_edges(
            names,
            explicit_edges(base, raw),
            names.len(),
        )
}

/// Sequences that hold the same elements equally often are alike in having
/// no element twice, and hold the same set.
proof fn lemma_permutation(a: Seq<Seq<char>>, b: Seq<Seq<char>>)
    requires
        a.to_multiset() == b.to_multiset(),
        a.no_duplicates(),
    ensures
        b.no_duplicates(),
        b.to_set() == a.to_set(),
        b.len() == a.len(),
{
    broadcast use vstd::seq_lib::to_multiset_contains, vstd::seq_lib::to_multiset_len;

    a.lemma_multiset_has_no_duplicates();
    b.lemma_multiset_has_no_duplicates_conv();
    vstd::seq_lib::to_multiset_len(a);
    vstd::seq_lib::to_multiset_len(b);
    assert forall|x: Seq<char>| a.to_set().contains(x) <==> b.to_set().contains(x) by {
        assert(a.contains(x) <==> a.to_multiset().count(x) > 0);
        assert(b.contains(x) <==> b.to_multiset().count(x) > 0);
    }
    assert(b.to_set() =~= a.to_set());
}

/// Whether `edge` is among `edges`.
fn contains_edge(edges: &Vec<(u32, u32)>, edge: (u32, u32)) -> (found: bool)
    ensures
        found == edges@.contains(edge),
{
    let n: usize = edges.len();
    let mut i: usize = 0;
    while i < n
        invariant
            n == edges.len(),
            i <= n,
            forall|k: int| 0 <= k < i ==> edges@[k] != edge,
        decreases n - i,
    {
        if edges[i].0 == edge.0 && edges[i].1 == edge.1 {
            return true;
        }
        i = i + 1;
    }
    false
}

/// Makes sure that the graph has a node called `name`, and says which.
fn ensure_node(graph: &mut TypeStruct, names: &mut Vec<String>, name: &str) -> (idx: u32)
    requires
        graph_names(*old(graph)) == old(names).deep_view(),
        old(names).deep_view().no_duplicates(),
        old(names).len() < u32::MAX,
    ensures
        graph_names(*final(graph)) == final(names).deep_view(),
        final(names).deep_view() == add_missing(old(names).deep_view(), name@),
        final(names).deep_view().no_duplicates(),
        graph_edges(*final(graph)) == graph_edges(*old(graph)),
        idx < final(names).len(),
        final(names).len() <= old(names).len() + 1,
        final(names).deep_view()[idx as int] == name@,
{
    let wanted = String::from_str(name);
    match position(names, &wanted) {
        Some(i) => {
            assert(names.deep_view().contains(name@));
            i as u32
        },
        None => {
            let ghost before = names.deep_view();
            let idx = graph_add_node(graph, wanted.clone());
            names.push(wanted);
            assert(names.deep_view() =~= before.push(name@));
            idx
        },
    }
}

/// Builds the graph of types. The nodes are the distinct names of `mimelist`
/// in ascending order; each pair of `edgelist_raw` names a type and one of
/// its subclasses and becomes an edge from the first to the second, unless one
/// of the names is unknown or the edge is there already; the four built-in
/// types are added where they are missing; and every other type that no edge
/// leads to is placed under the type that its top-level name calls for.
pub fn graph_init(mimelist: &Vec<String>, edgelist_raw: &Vec<(String, String)>) -> (graph: TypeStruct)
    requires
        mimelist.len() + edgelist_raw.len() + 4 <= u32::MAX,
    ensures
        is_type_graph(
            graph_names(graph),
            graph_edges(graph),
            mimelist.deep_view(),
            edgelist_raw.deep_view(),
        ),
        graph_names(graph).no_duplicates(),
        graph_edges(graph).no_duplicates(),
        graph_names(graph).len() <= mimelist.len() + 4,
        edges_within(graph_edges(graph), graph_names(graph).len()),
        graph_names(graph).contains(all_all()),
{
    let mut names = dedup_names(mimelist);
    let ghost unsorted = names.deep_view();
    sort_names(&mut names);
    proof {
        lemma_permutation(unsorted, names.deep_view());
    }
    let ghost base = names.deep_view();
    let ghost raw = edgelist_raw.deep_view();
    assert(is_sorted_set_of(base, mimelist.deep_view()));

    let mut graph = graph_new();
    let nbase: usize = names.len();
    let mut i: usize = 0;
    while i < nbase
        invariant
            nbase == names.len(),
            i <= nbase,
            nbase + 4 <= u32::MAX,
            graph_names(graph) == names.deep_view().take(i as int),
            graph_edges(graph) == Seq::<(u32, u32)>::empty(),
        decreases nbase - i,
    {
        let ghost before = graph_names(graph);
        graph_add_node(&mut graph, names[i].clone());
        assert(names.deep_view().take(i + 1) =~= before.push(names.deep_view()[i as int]));
        i = i + 1;
    }
    assert(names.deep_view().take(nbase as int) =~= base);

    let mut explicit: Vec<(u32, u32)> = Vec::new();
    let m: usize = edgelist_raw.len();
    let mut k: usize = 0;
    while k < m
        invariant
            m == edgelist_raw.len(),
            k <= m,
            raw == edgelist_raw.deep_view(),
            base == names.deep_view(),
            base.no_duplicates(),
            nbase == names.len(),
            nbase + 4 <= u32::MAX,
            explicit.len() <= k,
            explicit@ == explicit_edges(base, raw.take(k as int)),
            explicit@.no_duplicates(),
            edges_within(explicit@, nbase as nat),
        decreases m - k,
    {
        let from = position(&names, &edgelist_raw[k].0);
        let to = position(&names, &edgelist_raw[k].1);
        proof {
            assert(raw.take(k + 1).drop_last() =~= raw.take(k as int));
            assert(raw.take(k + 1).last() == raw[k as int]);
            assert(raw[k as int].0 == edgelist_raw@[k as int].0@);
            assert(raw[k as int].1 == edgelist_raw@[k as int].1@);
        }
        match (from, to) {
            (Some(a), Some(b)) => {
                assert(base.contains(raw[k as int].0) && base.contains(raw[k as int].1));
                assert(base.index_of(raw[k as int].0) == a);
                assert(base.index_of(raw[k as int].1) == b);
                let edge = (a as u32, b as u32);
                if !contains_edge(&explicit, edge) {
                    explicit.push(edge);
                }
            },
            _ => {},
        }
        k = k + 1;
    }
    assert(raw.take(m as int) =~= raw);
    graph_extend_with_edges(&mut graph, &explicit);

    let text = ensure_node(&mut graph, &mut names, "text/plain");
    let octet = ensure_node(&mut graph, &mut names, "application/octet-stream");
    let allall = ensure_node(&mut graph, &mut names, "all/all");
    let allfiles = ensure_node(&mut graph, &mut names, "all/allfiles");
    let ghost all = names.deep_view();
    assert(all == with_builtins(base));
    proof {
        lemma_builtins_present(base);
    }
    assert(all[text as int] == text_plain());
    assert(all[octet as int] == octet_stream());
    assert(all[allall as int] == all_all());
    assert(all[allfiles as int] == all_allfiles());

    let roots = graph_externals_incoming(&graph);
    assert(explicit@.no_duplicates());
    let n: usize = names.len();
    let mut fallback: Vec<(u32, u32)> = Vec::new();
    let mut v: usize = 0;
    let mut r: usize = 0;
    while v < n
        invariant
            n == names.len(),
            n <= u32::MAX,
            v <= n,
            r <= roots.len(),
            all == names.deep_view(),
            all.no_duplicates(),
            explicit@.no_duplicates(),
            is_source_list(roots@, n as nat, explicit@),
            forall|j: int| 0 <= j < r ==> roots@[j] < v,
            forall|j: int| r <= j < roots.len() ==> roots@[j] >= v,
            text < n && octet < n && allall < n && allfiles < n,
            all[text as int] == text_plain(),
            all[octet as int] == octet_stream(),
            all[allall as int] == all_all(),
            all[allfiles as int] == all_allfiles(),
            fallback.len() <= v,
            fallback@ == fallback_edges(all, explicit@, v as nat),
            fallback@.no_duplicates(),
            forall|j: int|
                0 <= j < fallback.len() ==> (#[trigger] fallback@[j]).1 < v && !has_parent(
                    explicit@,
                    fallback@[j].1,
                ),
            edges_within(fallback@, n as nat),
        decreases n - v,
    {
        let is_root: bool = r < roots.len() && roots[r] as usize == v;
        proof {
            if is_root {
                assert(!has_parent(explicit@, v as u32));
            } else {
                if !has_parent(explicit@, v as u32) {
                    assert(roots@.contains(v as u32));
                    let j = choose|j: int| 0 <= j < roots@.len() && roots@[j] == v as u32;
                    assert(false);
                }
            }
        }
        if is_root {
            r = r + 1;
            let node: u32 = v as u32;
            let builtin: bool = node == text || node == octet || node == allall || node == allfiles;
            assert(builtin == is_builtin(all[v as int]));
            if !builtin {
                let name = names[v].as_str();
                assert(name@ == all[v as int]);
                let parent: u32 = if has_top_level(name, "text") {
                    text
                } else if has_top_level(name, "inode") {
                    allall
                } else {
                    octet
                };
                assert(all[parent as int] == fallback_parent(all[v as int]));
                assert(all.index_of(fallback_parent(all[v as int])) == parent);
                fallback.push((parent, node));
            }
        }
        v = v + 1;
    }
    graph_extend_with_edges(&mut graph, &fallback);
    proof {
        assert(graph_edges(graph) == explicit@ + fallback@);
        assert forall|i: int, j: int|
            0 <= i < explicit@.len() && 0 <= j < fallback@.len() implies explicit@[i] != fallback@[j] by {
            if explicit@[i] == fallback@[j] {
                assert(has_parent(explicit@, fallback@[j].1));
            }
        }
        vstd::seq_lib::lemma_no_dup_in_concat(explicit@, fallback@);
        assert(is_sorted_set_of(base, mimelist.deep_view()));
        assert(all.contains(all_all()));
    }
    graph
}

/// After the built-in types were added where missing, all four are there.
proof fn lemma_builtins_present(base: Seq<Seq<char>>)
    ensures
        with_builtins(base).contains(text_plain()),
        with_builtins(base).contains(octet_stream()),
        with_builtins(base).contains(all_all()),
        with_builtins(base).contains(all_allfiles()),
{
    let s1 = add_missing(base, text_plain());
    let s2 = add_missing(s1, octet_stream());
    let s3 = add_missing(s2, all_all());
    let s4 = add_missing(s3, all_allfiles());
    lemma_add_missing(base, text_plain());
    lemma_add_missing(s1, octet_stream());
    lemma_add_missing(s2, all_all());
    lemma_add_missing(s3, all_allfiles());
}

/// Adding a missing name keeps what was there and makes the name present.
proof fn lemma_add_missing(s: Seq<Seq<char>>, x: Seq<char>)
    ensures
        add_missing(s, x).contains(x),
        forall|y: Seq<char>| s.contains(y) ==> add_missing(s, x).contains(y),
{
    let t = add_missing(s, x);
    if !s.contains(x) {
        assert(t[s.len() as int] == x);
        assert forall|y: Seq<char>| s.contains(y) implies t.contains(y) by {
            let k = choose|k: int| 0 <= k < s.len() && s[k] == y;
            assert(t[k] == y);
        }
    }
}

} // verus!
