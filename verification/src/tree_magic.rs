//! A database of MIME types and the detection that walks its graph.

use vstd::prelude::*;
use vstd::string::StringExecFns;
use crate::basetype::{base_types, base_edges, is_base_type, base_matches};
use crate::typegraph::{graph_init, is_type_graph};
use crate::graph::{
    TypeStruct, graph_names, graph_edges, is_source_list, edges_within, successors, has_cycle,
    graph_externals_incoming, graph_children, graph_name, graph_is_cyclic, graph_node_count,
};
use crate::magic::{MagicRule, RuleModel, models, forest_matches};
use crate::names::{all_all, inode_directory};
use crate::ruleset::{table_model, table_names, lookup_forest, rules_of};

verus! {

/// How many bytes from the start of a file detection looks at. A type whose
/// rules look further into the file is not found by them.
pub const PREFIX_LEN: usize = 2048;

/// What detection looks at: the leading bytes of a file, or a thing that is
/// no file.
pub enum Subject<'a> {
    /// The bytes of a file, or a buffer of bytes.
    Bytes(&'a [u8]),
    /// A directory.
    Directory,
    /// Something that is neither a file nor a directory.
    Other,
}

/// A subject as a plain value.
pub enum SubjectModel {
    Bytes(Seq<u8>),
    Directory,
    Other,
}

impl<'a> View for Subject<'a> {
    type V = SubjectModel;

    open spec fn view(&self) -> SubjectModel {
        match self {
            Subject::Bytes(b) => SubjectModel::Bytes(b@),
            Subject::Directory => SubjectModel::Directory,
            Subject::Other => SubjectModel::Other,
        }
    }
}

/// Which part of the library tests a type.
#[derive(Debug, Clone, Copy, PartialEq, Eq, Structural)]
pub enum Checker {
    /// The type has magic rules.
    FdoMagic,
    /// The type is built in.
    BaseType,
}

/// Why a database cannot be used.
#[derive(Debug, Clone, Copy, PartialEq, Eq, Structural)]
pub enum DatabaseIntegrityError {
    /// The graph has no type without a parent, or more than one.
    NoUniqueRoot,
    /// The subclass relation runs in a circle.
    Cyclic,
}

/// The types that are tested first among the children of a node, in this
/// order.
pub open spec fn hot_list() -> Seq<Seq<char>> {
    seq![
        "image/png"@,
        "image/jpeg"@,
        "image/gif"@,
        "application/zip"@,
        "application/x-msdos-executable"@,
        "application/pdf"@,
    ]
}

/// The canonical name of `name`: what the last entry for `name` in the alias
/// table maps it to, and `name` itself where there is no entry. The result is
/// not looked up again.
pub open spec fn resolve(aliases: Seq<(Seq<char>, Seq<char>)>, name: Seq<char>) -> Seq<char>
    decreases aliases.len(),
{
    if aliases.len() == 0 {
        name
    } else if aliases.last().0 == name {
        aliases.last().1
    } else {
        resolve(aliases.drop_last(), name)
    }
}

/// Whether the subject is of the type `name`. A built-in type is told by
/// what the subject is; any other type by its magic rules, which only bytes
/// can satisfy.
pub open spec fn type_matches(
    table: Seq<(Seq<char>, Seq<RuleModel>)>,
    name: Seq<char>,
    subject: SubjectModel,
) -> bool {
    match subject {
        SubjectModel::Bytes(buf) => if is_base_type(name) {
            base_matches(name, buf)
        } else {
            match lookup_forest(table, name) {
                Some(forest) => forest_matches(buf, forest),
                None => false,
            }
        },
        SubjectModel::Directory => name == all_all() || name == inode_directory(),
        SubjectModel::Other => name == all_all(),
    }
}

/// The nodes of `kids` that are called `target`, in order.
pub open spec fn named(names: Seq<Seq<char>>, kids: Seq<u32>, target: Seq<char>) -> Seq<u32>
    decreases kids.len(),
{
    if kids.len() == 0 {
        Seq::empty()
    } else if names[kids.last() as int] == target {
        named(names, kids.drop_last(), target).push(kids.last())
    } else {
        named(names, kids.drop_last(), target)
    }
}

/// The nodes of `kids` whose names are not in the hot list, in order.
pub open spec fn unlisted(names: Seq<Seq<char>>, kids: Seq<u32>) -> Seq<u32>
    decreases kids.len(),
{
    if kids.len() == 0 {
        Seq::empty()
    } else if !hot_list().contains(names[kids.last() as int]) {
        unlisted(names, kids.drop_last()).push(kids.last())
    } else {
        unlisted(names, kids.drop_last())
    }
}

/// The nodes of `kids` that bear one of the first `h` names of the hot list,
/// in the order of that list.
pub open spec fn listed(names: Seq<Seq<char>>, kids: Seq<u32>, h: nat) -> Seq<u32>
    decreases h,
{
    if h == 0 {
        Seq::empty()
    } else {
        listed(names, kids, (h - 1) as nat) + named(names, kids, hot_list()[h - 1])
    }
}

/// The order in which children are tested: those in the hot list first, in
/// the order of that list, then the others in the order they had.
pub open spec fn hot_first(names: Seq<Seq<char>>, kids: Seq<u32>) -> Seq<u32> {
    listed(names, kids, hot_list().len()) + unlisted(names, kids)
}

/// The children of `node` in the order in which they are tested. Before the
/// hot list is applied, the child of the most recently added edge comes
/// first.
pub open spec fn ordered_children(names: Seq<Seq<char>>, edges: Seq<(u32, u32)>, node: u32) -> Seq<
    u32,
> {
    hot_first(names, successors(edges, node))
}

/// The first of `kids` whose type, with its alias resolved, the subject is
/// of.
pub open spec fn first_match(
    names: Seq<Seq<char>>,
    table: Seq<(Seq<char>, Seq<RuleModel>)>,
    aliases: Seq<(Seq<char>, Seq<char>)>,
    kids: Seq<u32>,
    subject: SubjectModel,
) -> Option<u32>
    decreases kids.len(),
{
    if kids.len() == 0 {
        None
    } else if type_matches(table, resolve(aliases, names[kids[0] as int]), subject) {
        Some(kids[0])
    } else {
        first_match(names, table, aliases, kids.drop_first(), subject)
    }
}

/// The most specific type below `node` that the subject is of: the first
/// child that matches, or what the walk finds below that child. `None` where
/// no child matches. The walk goes at most `depth` levels down.
pub open spec fn walk_graph(
    names: Seq<Seq<char>>,
    edges: Seq<(u32, u32)>,
    table: Seq<(Seq<char>, Seq<RuleModel>)>,
    aliases: Seq<(Seq<char>, Seq<char>)>,
    node: u32,
    subject: SubjectModel,
    depth: nat,
) -> Option<u32>
    decreases depth,
{
    if depth == 0 {
        None
    } else {
        match first_match(names, table, aliases, ordered_children(names, edges, node), subject) {
            None => None,
            Some(child) => match walk_graph(
                names,
                edges,
                table,
                aliases,
                child,
                subject,
                (depth - 1) as nat,
            ) {
                Some(below) => Some(below),
                None => Some(child),
            },
        }
    }
}

/// `root` is the one node that no edge leads to.
pub open spec fn is_only_root(names: Seq<Seq<char>>, edges: Seq<(u32, u32)>, root: u32) -> bool {
    is_source_list(seq![root], names.len(), edges)
}

/// A database of MIME types: the graph of their subclass relations, their
/// magic rules and their aliases. It is built once and not changed after.
pub struct MimeDatabase {
    graph: TypeStruct,
    root: u32,
    rules: Vec<(String, Vec<MagicRule>)>,
    aliases: Vec<(String, String)>,
}

impl MimeDatabase {
    /// The names of the types, by node.
    pub closed spec fn names(&self) -> Seq<Seq<char>> {
        graph_names(self.graph)
    }

    /// The subclass edges, each from a type to one of its subclasses.
    pub closed spec fn edges(&self) -> Seq<(u32, u32)> {
        graph_edges(self.graph)
    }

    /// The node from which detection starts.
    pub closed spec fn root(&self) -> u32 {
        self.root
    }

    /// The magic rules by type.
    pub closed spec fn rule_table(&self) -> Seq<(Seq<char>, Seq<RuleModel>)> {
        table_model(self.rules@)
    }

    /// The aliases, each an alternate name and the name it stands for.
    pub closed spec fn alias_table(&self) -> Seq<(Seq<char>, Seq<char>)> {
        self.aliases.deep_view()
    }

    /// What holds of every database: the names are distinct and so are the
    /// edges, the edges join nodes of the graph and do not run in a circle, and
    /// exactly one node has no parent, the root `all/all`.
    pub open spec fn wf(&self) -> bool {
        &&& self.names().len() <= u32::MAX
        &&& self.names().no_duplicates()
        &&& self.edges().no_duplicates()
        &&& edges_within(self.edges(), self.names().len())
        &&& self.root() < self.names().len()
        &&& is_only_root(self.names(), self.edges(), self.root())
        &&& self.names()[self.root() as int] == all_all()
        &&& !has_cycle(self.edges())
    }

    #[verifier::type_invariant]
    spec fn inv(&self) -> bool {
        self.wf()
    }

    /// The most specific type below `node` that the subject is of.
    pub open spec fn walk(&self, node: u32, subject: SubjectModel) -> Option<u32> {
        walk_graph(
            self.names(),
            self.edges(),
            self.rule_table(),
            self.alias_table(),
            node,
            subject,
            self.names().len(),
        )
    }

    /// The type that detection gives for a subject: the most specific type
    /// below the root that the subject is of, and the root where there is
    /// none.
    pub open spec fn detect(&self, subject: SubjectModel) -> Seq<char> {
        match self.walk(self.root(), subject) {
            Some(node) => self.names()[node as int],
            None => self.names()[self.root() as int],
        }
    }
}

/// The alias tables of several sources as one table, in the order of the
/// sources.
pub open spec fn merged(tables: Seq<Seq<(Seq<char>, Seq<char>)>>) -> Seq<(Seq<char>, Seq<char>)>
    decreases tables.len(),
{
    if tables.len() == 0 {
        Seq::empty()
    } else {
        merged(tables.drop_last()) + tables.last()
    }
}

/// Name `h` of the hot list.
fn hot_name(h: usize) -> (name: &'static str)
    requires
        h < 6,
    ensures
        name@ == hot_list()[h as int],
{
    if h == 0 {
        "image/png"
    } else if h == 1 {
        "image/jpeg"
    } else if h == 2 {
        "image/gif"
    } else if h == 3 {
        "application/zip"
    } else if h == 4 {
        "application/x-msdos-executable"
    } else {
        "application/pdf"
    }
}

/// The children of a node are nodes of the graph.
proof fn lemma_successors_within(edges: Seq<(u32, u32)>, node: u32, n: nat)
    requires
        edges_within(edges, n),
    ensures
        forall|k: int| 0 <= k < successors(edges, node).len() ==> (#[trigger] successors(edges, node)[k]) < n,
    decreases edges.len(),
{
    if edges.len() > 0 {
        assert(edges[edges.len() - 1].1 < n);
        lemma_successors_within(edges.drop_last(), node, n);
        let rest = successors(edges.drop_last(), node);
        assert forall|k: int| 0 <= k < successors(edges, node).len() implies (#[trigger] successors(
            edges,
            node,
        )[k]) < n by {
            if edges.last().0 == node && k > 0 {
                assert(successors(edges, node)[k] == rest[k - 1]);
            }
        }
    }
}

/// Where one node alone has no parent, the list of the nodes without a
/// parent holds that node and no other.
proof fn lemma_root_unique(roots: Seq<u32>, n: nat, edges: Seq<(u32, u32)>, root: u32)
    requires
        is_source_list(roots, n, edges),
        is_source_list(seq![root], n, edges),
    ensures
        roots == seq![root],
{
    assert(seq![root][0] == root);
    assert(roots.contains(root));
    assert forall|i: int| 0 <= i < roots.len() implies roots[i] == root by {
        assert(seq![root].contains(roots[i]));
    }
    if roots.len() >= 2 {
        assert(roots[0] < roots[1]);
    }
}

/// What `mimetype` stands for by the alias table: the second name of the
/// last entry whose first name it is, and `mimetype` itself where there is no
/// such entry. One step only: the result is not looked up again.
pub fn alias_of<'a>(aliases: &'a Vec<(String, String)>, mimetype: &'a str) -> (name: &'a str)
    ensures
        name@ == resolve(aliases.deep_view(), mimetype@),
{
    let wanted = String::from_str(mimetype);
    let ghost table = aliases.deep_view();
    let mut i: usize = aliases.len();
    assert(table.take(i as int) =~= table);
    while i > 0
        invariant
            i <= aliases.len(),
            table == aliases.deep_view(),
            wanted@ == mimetype@,
            resolve(table, mimetype@) == resolve(table.take(i as int), mimetype@),
        decreases i,
    {
        i = i - 1;
        proof {
            assert(table.take(i + 1).drop_last() =~= table.take(i as int));
            assert(table.take(i + 1).last() == table[i as int]);
            assert(table[i as int].0 == aliases@[i as int].0@);
            assert(table[i as int].1 == aliases@[i as int].1@);
        }
        if aliases[i].0 == wanted {
            return aliases[i].1.as_str();
        }
    }
    mimetype
}

/// Merges the alias tables of several sources into one, in the order of the
/// sources, so that a later source decides where two have an entry for one
/// name.
pub fn aliases_init(tables: &Vec<Vec<(String, String)>>) -> (out: Vec<(String, String)>)
    ensures
        out.deep_view() == merged(tables.deep_view()),
{
    let mut out: Vec<(String, String)> = Vec::new();
    let n: usize = tables.len();
    let mut i: usize = 0;
    assert(out.deep_view() =~= merged(tables.deep_view().take(0)));
    while i < n
        invariant
            n == tables.len(),
            i <= n,
            out.deep_view() == merged(tables.deep_view().take(i as int)),
        decreases n - i,
    {
        let table = &tables[i];
        let m: usize = table.len();
        let ghost before = out.deep_view();
        let mut j: usize = 0;
        while j < m
            invariant
                m == table.len(),
                j <= m,
                out.deep_view() == before + table.deep_view().take(j as int),
            decreases m - j,
        {
            let ghost prev = out.deep_view();
            out.push((table[j].0.clone(), table[j].1.clone()));
            assert(out.deep_view() =~= prev.push(table.deep_view()[j as int]));
            assert(table.deep_view().take(j + 1) =~= table.deep_view().take(j as int).push(
                table.deep_view()[j as int],
            ));
            j = j + 1;
        }
        proof {
            assert(table.deep_view().take(m as int) =~= table.deep_view());
            assert(tables.deep_view().take(i + 1).drop_last() =~= tables.deep_view().take(i as int));
            assert(tables.deep_view().take(i + 1).last() == table.deep_view());
        }
        i = i + 1;
    }
    assert(tables.deep_view().take(n as int) =~= tables.deep_view());
    out
}

impl MimeDatabase {
    /// Builds a database from the magic rules by type, the aliases, and the
    /// declared subclass pairs, each a type and one of its subclasses. The
    /// built-in types and the edges among them are always part of it. A
    /// database whose graph has no single root, or runs in a circle, is
    /// refused.
    pub fn new(
        rules: Vec<(String, Vec<MagicRule>)>,
        aliases: Vec<(String, String)>,
        subclasses: &Vec<(String, String)>,
    ) -> (made: Result<MimeDatabase, DatabaseIntegrityError>)
        requires
            rules.len() + subclasses.len() + 13 <= u32::MAX,
        ensures
            match made {
                Ok(db) => {
                    &&& db.wf()
                    &&& is_type_graph(
                        db.names(),
                        db.edges(),
                        table_names(rules@) + base_types(),
                        subclasses.deep_view() + base_edges(),
                    )
                    &&& db.rule_table() == table_model(rules@)
                    &&& db.alias_table() == aliases.deep_view()
                },
                Err(DatabaseIntegrityError::NoUniqueRoot) => exists|
                    names: Seq<Seq<char>>,
                    edges: Seq<(u32, u32)>,
                |
                    {
                        &&& #[trigger] is_type_graph(
                            names,
                            edges,
                            table_names(rules@) + base_types(),
                            subclasses.deep_view() + base_edges(),
                        )
                        &&& forall|root: u32| !is_only_root(names, edges, root)
                    },
                Err(DatabaseIntegrityError::Cyclic) => exists|
                    names: Seq<Seq<char>>,
                    edges: Seq<(u32, u32)>,
                |
                    {
                        &&& #[trigger] is_type_graph(
                            names,
                            edges,
                            table_names(rules@) + base_types(),
                            subclasses.deep_view() + base_edges(),
                        )
                        &&& has_cycle(edges)
                    },
            },
    {
        let mut mimelist: Vec<String> = Vec::new();
        let n: usize = rules.len();
        let mut i: usize = 0;
        while i < n
            invariant
                n == rules.len(),
                i <= n,
                mimelist.len() == i,
                mimelist.deep_view() == table_names(rules@).take(i as int),
            decreases n - i,
        {
            let ghost before = mimelist.deep_view();
            mimelist.push(rules[i].0.clone());
            assert(mimelist.deep_view() =~= before.push(rules@[i as int].0@));
            assert(table_names(rules@).take(i + 1) =~= before.push(rules@[i as int].0@));
            i = i + 1;
        }
        assert(table_names(rules@).take(n as int) =~= table_names(rules@));
        let mut base = crate::basetype::get_supported();
        let ghost first = mimelist.deep_view();
        mimelist.append(&mut base);
        assert(mimelist.deep_view() =~= first + base_types());

        let mut edgelist: Vec<(String, String)> = Vec::new();
        let m: usize = subclasses.len();
        let mut k: usize = 0;
        while k < m
            invariant
                m == subclasses.len(),
                k <= m,
                edgelist.len() == k,
                edgelist.deep_view() == subclasses.deep_view().take(k as int),
            decreases m - k,
        {
            let ghost before = edgelist.deep_view();
            edgelist.push((subclasses[k].0.clone(), subclasses[k].1.clone()));
            assert(edgelist.deep_view() =~= before.push(subclasses.deep_view()[k as int]));
            assert(subclasses.deep_view().take(k + 1) =~= before.push(subclasses.deep_view()[k as int]));
            k = k + 1;
        }
        assert(subclasses.deep_view().take(m as int) =~= subclasses.deep_view());
        let mut more = crate::basetype::get_subclasses();
        let ghost declared = edgelist.deep_view();
        edgelist.append(&mut more);
        assert(edgelist.deep_view() =~= declared + base_edges());

        let graph = graph_init(&mimelist, &edgelist);
        let roots = graph_externals_incoming(&graph);
        let count = graph_node_count(&graph);
        if roots.len() != 1 {
            proof {
                assert forall|root: u32| !is_only_root(graph_names(graph), graph_edges(graph), root) by {
                    if is_only_root(graph_names(graph), graph_edges(graph), root) {
                        lemma_root_unique(roots@, graph_names(graph).len(), graph_edges(graph), root);
                    }
                }
            }
            return Err(DatabaseIntegrityError::NoUniqueRoot);
        }
        if graph_is_cyclic(&graph) {
            return Err(DatabaseIntegrityError::Cyclic);
        }
        let root: u32 = roots[0];
        proof {
            assert(roots@ =~= seq![root]);
            assert(roots@[0] < count);
            let list = mimelist.deep_view();
            let raw = edgelist.deep_view();
            assert forall|k: int| 0 <= k < base_types().len() implies list.contains(
                #[trigger] base_types()[k],
            ) by {
                assert(list[first.len() + k] == base_types()[k]);
            }
            assert forall|k: int| 0 <= k < base_edges().len() implies raw.contains(
                #[trigger] base_edges()[k],
            ) by {
                assert(raw[declared.len() + k] == base_edges()[k]);
            }
            crate::laws::node_without_parent_is_the_root(
                graph_names(graph),
                graph_edges(graph),
                list,
                raw,
                root,
            );
        }
        Ok(MimeDatabase { graph, root, rules, aliases })
    }

    /// The node that bears the name `mimetype`, if there is one.
    pub fn node(&self, mimetype: &str) -> (found: Option<u32>)
        ensures
            match found {
                Some(v) => v < self.names().len() && self.names()[v as int] == mimetype@,
                None => !self.names().contains(mimetype@),
            },
    {
        proof {
            use_type_invariant(self);
        }
        let wanted = String::from_str(mimetype);
        let n: usize = graph_node_count(&self.graph);
        let mut v: usize = 0;
        while v < n
            invariant
                n == self.names().len(),
                n <= u32::MAX,
                v <= n,
                wanted@ == mimetype@,
                forall|k: int| 0 <= k < v ==> self.names()[k] != mimetype@,
            decreases n - v,
        {
            if *graph_name(&self.graph, v as u32) == wanted {
                return Some(v as u32);
            }
            v = v + 1;
        }
        None
    }

    /// The names of all types of the database, by node.
    pub fn supported_types(&self) -> (types: Vec<String>)
        ensures
            types.deep_view() == self.names(),
    {
        proof {
            use_type_invariant(self);
        }
        let mut types: Vec<String> = Vec::new();
        let n: usize = graph_node_count(&self.graph);
        let mut v: usize = 0;
        while v < n
            invariant
                n == self.names().len(),
                n <= u32::MAX,
                v <= n,
                types.deep_view() == self.names().take(v as int),
            decreases n - v,
        {
            let ghost before = types.deep_view();
            types.push(graph_name(&self.graph, v as u32).clone());
            assert(types.deep_view() =~= before.push(self.names()[v as int]));
            assert(self.names().take(v + 1) =~= before.push(self.names()[v as int]));
            v = v + 1;
        }
        assert(self.names().take(n as int) =~= self.names());
        types
    }

    /// Transforms an alias into the name it stands for, and leaves any other
    /// name as it is. One step only: the result is not looked up again.
    pub fn get_alias<'a>(&'a self, mimetype: &'a str) -> (name: &'a str)
        ensures
            name@ == resolve(self.alias_table(), mimetype@),
    {
        alias_of(&self.aliases, mimetype)
    }

    /// The rules of a type, where it has an entry in the rule table.
    fn rules_for(&self, name: &String) -> (found: Option<&Vec<MagicRule>>)
        ensures
            match found {
                Some(forest) => lookup_forest(self.rule_table(), name@) == Some(models(forest@)),
                None => lookup_forest(self.rule_table(), name@) is None,
            },
    {
        rules_of(&self.rules, name)
    }

    /// Which part of the library tests a type: the built-in tests for a
    /// built-in type, the magic rules for a type that has an entry in the rule
    /// table, and none for any other.
    pub fn checker_support(&self, mimetype: &str) -> (checker: Option<Checker>)
        ensures
            checker == if is_base_type(mimetype@) {
                Some(Checker::BaseType)
            } else if lookup_forest(self.rule_table(), mimetype@) is Some {
                Some(Checker::FdoMagic)
            } else {
                None
            },
    {
        let name = String::from_str(mimetype);
        if crate::basetype::can_check(&name) {
            Some(Checker::BaseType)
        } else if self.rules_for(&name).is_some() {
            Some(Checker::FdoMagic)
        } else {
            None
        }
    }

    /// Tests a subject against the type called `mimetype`, which is taken as
    /// it is, without looking for an alias.
    pub fn match_noalias(&self, mimetype: &str, subject: &Subject) -> (found: bool)
        ensures
            found == type_matches(self.rule_table(), mimetype@, subject@),
    {
        let name = String::from_str(mimetype);
        match subject {
            Subject::Bytes(bytes) => {
                if crate::basetype::can_check(&name) {
                    crate::basetype::from_u8(bytes, &name)
                } else {
                    match self.rules_for(&name) {
                        Some(forest) => crate::check::from_u8(bytes, forest),
                        None => false,
                    }
                }
            },
            Subject::Directory => name == String::from_str("all/all") || name == String::from_str(
                "inode/directory",
            ),
            Subject::Other => name == String::from_str("all/all"),
        }
    }

    /// Tests a byte buffer against the type called `mimetype`, which is taken
    /// as it is, without looking for an alias. An unknown type gives `false`.
    pub fn match_u8_noalias(&self, mimetype: &str, bytes: &[u8]) -> (found: bool)
        ensures
            found == type_matches(self.rule_table(), mimetype@, SubjectModel::Bytes(bytes@)),
    {
        self.match_noalias(mimetype, &Subject::Bytes(bytes))
    }

    /// Checks whether a byte buffer is of the given type. Where `mimetype` is
    /// an alias, the buffer is tested against the type it stands for. An
    /// unknown type gives `false`.
    pub fn match_u8(&self, mimetype: &str, bytes: &[u8]) -> (found: bool)
        ensures
            found == type_matches(
                self.rule_table(),
                resolve(self.alias_table(), mimetype@),
                SubjectModel::Bytes(bytes@),
            ),
    {
        self.match_u8_noalias(self.get_alias(mimetype), bytes)
    }
}


/// Whether `name` is in the hot list.
fn is_hot(name: &String) -> (hot: bool)
    ensures
        hot == hot_list().contains(name@),
{
    let mut h: usize = 0;
    while h < 6
        invariant
            h <= 6,
            forall|k: int| 0 <= k < h ==> hot_list()[k] != name@,
        decreases 6 - h,
    {
        if *name == String::from_str(hot_name(h)) {
            assert(hot_list()[h as int] == name@);
            return true;
        }
        h = h + 1;
    }
    false
}

impl MimeDatabase {
    /// The node from which detection starts: the one type without a parent.
    pub fn root_node(&self) -> (root: u32)
        ensures
            root == self.root(),
            root < self.names().len(),
    {
        proof {
            use_type_invariant(self);
        }
        self.root
    }

    /// Puts the children of a node in the order in which they are tested.
    fn order_children(&self, kids: &Vec<u32>) -> (out: Vec<u32>)
        requires
            forall|k: int| 0 <= k < kids.len() ==> (#[trigger] kids@[k]) < self.names().len(),
        ensures
            out@ == hot_first(self.names(), kids@),
            forall|k: int| 0 <= k < out.len() ==> (#[trigger] out@[k]) < self.names().len(),
    {
        let n: usize = kids.len();
        let mut out: Vec<u32> = Vec::new();
        let mut h: usize = 0;
        while h < 6
            invariant
                n == kids.len(),
                h <= 6,
                forall|k: int| 0 <= k < kids.len() ==> (#[trigger] kids@[k]) < self.names().len(),
                out@ == listed(self.names(), kids@, h as nat),
                forall|k: int| 0 <= k < out.len() ==> (#[trigger] out@[k]) < self.names().len(),
            decreases 6 - h,
        {
            let target = String::from_str(hot_name(h));
            let ghost before = out@;
            let mut i: usize = 0;
            while i < n
                invariant
                    n == kids.len(),
                    i <= n,
                    h < 6,
                    target@ == hot_list()[h as int],
                    forall|k: int| 0 <= k < kids.len() ==> (#[trigger] kids@[k]) < self.names().len(),
                    out@ == before + named(self.names(), kids@.take(i as int), target@),
                    forall|k: int| 0 <= k < out.len() ==> (#[trigger] out@[k]) < self.names().len(),
                decreases n - i,
            {
                proof {
                    assert(kids@.take(i + 1).drop_last() =~= kids@.take(i as int));
                    assert(kids@.take(i + 1).last() == kids@[i as int]);
                }
                let ghost prev = out@;
                if *graph_name(&self.graph, kids[i]) == target {
                    out.push(kids[i]);
                    assert(out@ =~= before + named(self.names(), kids@.take(i + 1), target@));
                }
                i = i + 1;
            }
            assert(kids@.take(n as int) =~= kids@);
            h = h + 1;
        }
        let ghost before = out@;
        let mut i: usize = 0;
        while i < n
            invariant
                n == kids.len(),
                i <= n,
                forall|k: int| 0 <= k < kids.len() ==> (#[trigger] kids@[k]) < self.names().len(),
                out@ == before + unlisted(self.names(), kids@.take(i as int)),
                forall|k: int| 0 <= k < out.len() ==> (#[trigger] out@[k]) < self.names().len(),
            decreases n - i,
        {
            proof {
                assert(kids@.take(i + 1).drop_last() =~= kids@.take(i as int));
                assert(kids@.take(i + 1).last() == kids@[i as int]);
            }
            if !is_hot(graph_name(&self.graph, kids[i])) {
                out.push(kids[i]);
                assert(out@ =~= before + unlisted(self.names(), kids@.take(i + 1)));
            }
            i = i + 1;
        }
        assert(kids@.take(n as int) =~= kids@);
        out
    }

    /// Walks the graph below `parentnode`: the children are tested in order,
    /// each under the name that its alias stands for; the walk goes on below
    /// the first child that matches and returns what it finds there, or that
    /// child. `None` where no child matches. The walk goes at most `depth`
    /// levels down.
    pub fn typegraph_walker(&self, parentnode: u32, subject: &Subject, depth: usize) -> (found: Option<
        u32,
    >)
        requires
            parentnode < self.names().len(),
        ensures
            found == walk_graph(
                self.names(),
                self.edges(),
                self.rule_table(),
                self.alias_table(),
                parentnode,
                subject@,
                depth as nat,
            ),
            found matches Some(v) ==> v < self.names().len(),
        decreases depth,
    {
        proof {
            use_type_invariant(self);
        }
        if depth == 0 {
            return None;
        }
        let kids = graph_children(&self.graph, parentnode);
        proof {
            lemma_successors_within(self.edges(), parentnode, self.names().len());
        }
        let children = self.order_children(&kids);
        let n: usize = children.len();
        let mut i: usize = 0;
        assert(children@.skip(0) =~= children@);
        while i < n
            invariant
                n == children.len(),
                i <= n,
                depth > 0,
                children@ == ordered_children(self.names(), self.edges(), parentnode),
                forall|k: int| 0 <= k < children.len() ==> (#[trigger] children@[k]) < self.names().len(),
                first_match(
                    self.names(),
                    self.rule_table(),
                    self.alias_table(),
                    children@,
                    subject@,
                ) == first_match(
                    self.names(),
                    self.rule_table(),
                    self.alias_table(),
                    children@.skip(i as int),
                    subject@,
                ),
            decreases n - i,
        {
            let childnode: u32 = children[i];
            proof {
                assert(children@.skip(i as int).drop_first() =~= children@.skip(i + 1));
                assert(children@.skip(i as int)[0] == childnode);
            }
            let mimetype = graph_name(&self.graph, childnode);
            if self.match_noalias(self.get_alias(mimetype.as_str()), subject) {
                return match self.typegraph_walker(childnode, subject, depth - 1) {
                    Some(foundtype) => Some(foundtype),
                    None => Some(childnode),
                };
            }
            i = i + 1;
        }
        None
    }

    /// The most specific type below `parentnode` that the subject is of, by
    /// name. `None` where the subject is of none of the types below it.
    pub fn from_node(&self, parentnode: u32, subject: &Subject) -> (found: Option<&str>)
        requires
            parentnode < self.names().len(),
        ensures
            match found {
                Some(name) => self.walk(parentnode, subject@) matches Some(v) && v
                    < self.names().len() && name@ == self.names()[v as int],
                None => self.walk(parentnode, subject@) is None,
            },
    {
        let depth = graph_node_count(&self.graph);
        match self.typegraph_walker(parentnode, subject, depth) {
            Some(v) => Some(graph_name(&self.graph, v).as_str()),
            None => None,
        }
    }

    /// Gets the type of a byte buffer, starting at a certain node of the
    /// graph. `None` where the buffer is of none of the types below that node.
    pub fn from_u8_node(&self, parentnode: u32, bytes: &[u8]) -> (found: Option<&str>)
        requires
            parentnode < self.names().len(),
        ensures
            match found {
                Some(name) => self.walk(parentnode, SubjectModel::Bytes(bytes@)) matches Some(v)
                    && v < self.names().len() && name@ == self.names()[v as int],
                None => self.walk(parentnode, SubjectModel::Bytes(bytes@)) is None,
            },
    {
        self.from_node(parentnode, &Subject::Bytes(bytes))
    }

    /// Gets the type of a subject: the most specific type that the subject is
    /// of, found by walking down from the root. Every subject has a type: where
    /// it is of none of the types below the root, the root itself is returned.
    pub fn from_subject(&self, subject: &Subject) -> (name: &str)
        ensures
            name@ == self.detect(subject@),
            self.names().contains(name@),
    {
        proof {
            use_type_invariant(self);
        }
        match self.from_node(self.root, subject) {
            Some(name) => name,
            None => graph_name(&self.graph, self.root).as_str(),
        }
    }

    /// Gets the type of a byte buffer: the most specific type that the buffer
    /// is of, found by walking down from the root. Every buffer has a type:
    /// where it is of none of the types below the root, the root itself is
    /// returned.
    pub fn from_u8(&self, bytes: &[u8]) -> (name: &str)
        ensures
            name@ == self.detect(SubjectModel::Bytes(bytes@)),
            self.names().contains(name@),
    {
        self.from_subject(&Subject::Bytes(bytes))
    }

    /// How many bytes of a file have to be read to test it against the type
    /// called `mimetype`, which is taken as it is: the largest reach among the
    /// rules of the type, and `None` for a type without rules.
    pub fn scan_len(&self, mimetype: &str) -> (len: Option<usize>)
        ensures
            match lookup_forest(self.rule_table(), mimetype@) {
                Some(forest) => len == Some(
                    if crate::fdo_magic::longest_reach(forest) <= usize::MAX {
                        crate::fdo_magic::longest_reach(forest) as usize
                    } else {
                        usize::MAX
                    },
                ),
                None => len is None,
            },
    {
        let name = String::from_str(mimetype);
        match self.rules_for(&name) {
            Some(forest) => Some(crate::fdo_magic::scan_len(forest)),
            None => None,
        }
    }
}


/// The edges that leave `node`, by the names of their ends, the most
/// recently added edge first.
pub open spec fn edges_from(names: Seq<Seq<char>>, edges: Seq<(u32, u32)>, node: u32) -> Seq<
    (Seq<char>, Seq<char>),
> {
    Seq::new(
        successors(edges, node).len(),
        |k: int| (names[node as int], names[successors(edges, node)[k] as int]),
    )
}

/// The edges that leave the first `upto` nodes, by the names of their ends,
/// node after node.
pub open spec fn edges_by_name(names: Seq<Seq<char>>, edges: Seq<(u32, u32)>, upto: nat) -> Seq<
    (Seq<char>, Seq<char>),
>
    decreases upto,
{
    if upto == 0 {
        Seq::empty()
    } else {
        edges_by_name(names, edges, (upto - 1) as nat) + edges_from(names, edges, (upto - 1) as u32)
    }
}

impl MimeDatabase {
    /// The subclass relation of the database: each pair names a type and one
    /// of its subclasses. The pairs come by the node of the type; those of one
    /// type come with the most recently added edge first.
    pub fn subclass_edges(&self) -> (pairs: Vec<(String, String)>)
        ensures
            pairs.deep_view() == edges_by_name(self.names(), self.edges(), self.names().len()),
    {
        proof {
            use_type_invariant(self);
        }
        let mut pairs: Vec<(String, String)> = Vec::new();
        let n: usize = graph_node_count(&self.graph);
        let mut v: usize = 0;
        assert(pairs.deep_view() =~= edges_by_name(self.names(), self.edges(), 0));
        while v < n
            invariant
                n == self.names().len(),
                n <= u32::MAX,
                v <= n,
                edges_within(self.edges(), self.names().len()),
                pairs.deep_view() == edges_by_name(self.names(), self.edges(), v as nat),
            decreases n - v,
        {
            let node: u32 = v as u32;
            let kids = graph_children(&self.graph, node);
            proof {
                lemma_successors_within(self.edges(), node, self.names().len());
            }
            let ghost before = pairs.deep_view();
            let ghost here = edges_from(self.names(), self.edges(), node);
            let m: usize = kids.len();
            let mut i: usize = 0;
            assert(pairs.deep_view() =~= before + here.take(0));
            while i < m
                invariant
                    m == kids.len(),
                    i <= m,
                    node < self.names().len(),
                    kids@ == successors(self.edges(), node),
                    here == edges_from(self.names(), self.edges(), node),
                    forall|k: int| 0 <= k < kids.len() ==> (#[trigger] kids@[k]) < self.names().len(),
                    pairs.deep_view() == before + here.take(i as int),
                decreases m - i,
            {
                let ghost prev = pairs.deep_view();
                let parent = graph_name(&self.graph, node).clone();
                let child = graph_name(&self.graph, kids[i]).clone();
                pairs.push((parent, child));
                proof {
                    assert(pairs.deep_view() =~= prev.push(here[i as int]));
                    assert(here.take(i + 1) =~= here.take(i as int).push(here[i as int]));
                }
                i = i + 1;
            }
            assert(here.take(m as int) =~= here);
            v = v + 1;
        }
        pairs
    }
}

} // verus!
