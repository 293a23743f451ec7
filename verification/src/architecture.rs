//! Architecture graph construction: pure, deterministic functions that turn
//! parsed [`FileAst`]s and a [`FileTree`] into an [`ArchitectureModel`].
//!
//! Import and call resolution are best-effort and name-based; there is no
//! semantic resolution:
//!
//! - An import is resolved by matching its final path segment (after `/` or
//!   `::`) to a parsed source file's stem. Unresolved targets become
//!   `External` nodes.
//! - A call is resolved to a function of the same name, preferring one in the
//!   same file, then a unique match across the repository; ambiguous or
//!   unknown callees are dropped.
use vstd::prelude::*;

use crate::entities::ast::{AstView, FunctionView, ImportView, asts_view};
use crate::entities::graph::{EdgeView, GraphView, NodeView};
use crate::entities::tree::node_path;
use crate::entities::{
    ArchitectureModel, EdgeKind, FileAst, FileNode, FileTree, Graph, GraphEdge, GraphNode, NodeKind,
};
use crate::order::{
    compare_str, dedup_runs, insert_sorted, is_sorted, lemma_dedup_runs_last, lemma_seq_lt_total,
    lemma_seq_lt_trans, lemma_sort_contains, lemma_sort_sorted, order_total, order_transitive,
    seq_le, seq_lt, sort_by_key, sort_seq, views, Comparison, SortKey, SpecOrder,
};
use crate::paths::{
    after_last_slash, after_last_slash_str, dir_of, dir_of_str, file_name, file_name_str,
    file_stem, file_stem_str, last_segment, last_segment_str, normalize_path, path_str,
};
use crate::text::{concat, str_eq};

verus! {

// --- Orders and graph normalization ------------------------------------

/// Rank of an edge kind in the alphabetical order of the kinds' names
/// (`Calls` < `Contains` < `DependsOn` < `Imports`).
pub open spec fn kind_rank(k: EdgeKind) -> int {
    match k {
        EdgeKind::Calls => 0,
        EdgeKind::Contains => 1,
        EdgeKind::DependsOn => 2,
        EdgeKind::Imports => 3,
    }
}

fn kind_rank_exec(k: EdgeKind) -> (r: u8)
    ensures
        r == kind_rank(k),
{
    match k {
        EdgeKind::Calls => 0,
        EdgeKind::Contains => 1,
        EdgeKind::DependsOn => 2,
        EdgeKind::Imports => 3,
    }
}

impl SpecOrder for NodeView {
    /// Nodes order by id.
    open spec fn order_le(&self, other: &Self) -> bool {
        seq_le(self.id, other.id)
    }
}

impl SpecOrder for EdgeView {
    /// Edges order by source id, then target id, then kind name.
    open spec fn order_le(&self, other: &Self) -> bool {
        if self.from != other.from {
            seq_lt(self.from, other.from)
        } else if self.to != other.to {
            seq_lt(self.to, other.to)
        } else {
            kind_rank(self.kind) <= kind_rank(other.kind)
        }
    }
}

impl SortKey for GraphNode {
    fn sort_le_exec(&self, other: &Self) -> (r: bool) {
        match compare_str(&self.id, &other.id) {
            Comparison::Greater => false,
            _ => true,
        }
    }
}

impl SortKey for GraphEdge {
    fn sort_le_exec(&self, other: &Self) -> (r: bool) {
        match compare_str(&self.from, &other.from) {
            Comparison::Less => true,
            Comparison::Greater => false,
            Comparison::Equal => match compare_str(&self.to, &other.to) {
                Comparison::Less => true,
                Comparison::Greater => false,
                Comparison::Equal => kind_rank_exec(self.kind) <= kind_rank_exec(other.kind),
            },
        }
    }
}

/// Whether some node of `nodes` has id `id`.
pub open spec fn has_id(nodes: Seq<NodeView>, id: Seq<char>) -> bool {
    exists|i: int| 0 <= i < nodes.len() && #[trigger] nodes[i].id == id
}

/// `nodes` with `n` added unless a node with its id is already present.
pub open spec fn push_node_spec(nodes: Seq<NodeView>, n: NodeView) -> Seq<NodeView> {
    if has_id(nodes, n.id) {
        nodes
    } else {
        nodes.push(n)
    }
}

/// `nodes` with each of `s` added in order by `push_node_spec`.
pub open spec fn add_nodes(nodes: Seq<NodeView>, s: Seq<NodeView>) -> Seq<NodeView>
    decreases s.len(),
{
    if s.len() == 0 {
        nodes
    } else {
        push_node_spec(add_nodes(nodes, s.drop_last()), s.last())
    }
}

/// Adding two runs of nodes is adding their concatenation.
pub proof fn lemma_add_nodes_append(acc: Seq<NodeView>, s1: Seq<NodeView>, s2: Seq<NodeView>)
    ensures
        add_nodes(acc, s1 + s2) == add_nodes(add_nodes(acc, s1), s2),
    decreases s2.len(),
{
    if s2.len() == 0 {
        assert(s1 + s2 == s1);
    } else {
        lemma_add_nodes_append(acc, s1, s2.drop_last());
        assert((s1 + s2).drop_last() == s1 + s2.drop_last());
        assert((s1 + s2).last() == s2.last());
    }
}

/// Adds a node if the graph does not already contain its id.
fn push_node(nodes: &mut Vec<GraphNode>, id: &str, label: &str, kind: NodeKind)
    ensures
        views(final(nodes)@) == push_node_spec(
            views(old(nodes)@),
            NodeView { id: id@, label: label@, kind },
        ),
{
    let mut i: usize = 0;
    while i < nodes.len()
        invariant
            i <= nodes@.len(),
            forall|j: int| 0 <= j < i ==> nodes@[j].id@ != id@,
        decreases nodes@.len() - i,
    {
        if str_eq(&nodes[i].id, id) {
            assert(views(nodes@)[i as int].id == id@);
            return;
        }
        i += 1;
    }
    let ghost before = nodes@;
    proof {
        assert forall|j: int| 0 <= j < views(before).len() implies #[trigger] views(before)[j].id
            != id@ by {
            assert(views(before)[j] == before[j]@);
        }
    }
    nodes.push(GraphNode::new(id, label, kind));
    assert(views(nodes@) =~= views(before).push(NodeView { id: id@, label: label@, kind }));
}

/// Whether two edges are equal.
fn same_edge(a: &GraphEdge, b: &GraphEdge) -> (r: bool)
    ensures
        r == (a@ == b@),
{
    str_eq(&a.from, &b.from) && str_eq(&a.to, &b.to) && a.kind == b.kind
}

/// Collapses runs of equal consecutive edges.
fn dedup_edge_vec(v: Vec<GraphEdge>) -> (r: Vec<GraphEdge>)
    ensures
        views(r@) == dedup_runs(views(v@)),
{
    let ghost s = views(v@);
    let mut v = v;
    let mut rev: Vec<GraphEdge> = Vec::new();
    let n = v.len();
    while v.len() > 0
        invariant
            v@.len() + rev@.len() == n,
            n == s.len(),
            forall|j: int| 0 <= j < v@.len() ==> v@[j]@ == s[j],
            forall|j: int| 0 <= j < rev@.len() ==> rev@[j]@ == s[n - 1 - j],
        decreases v@.len(),
    {
        let e = v.pop().unwrap();
        rev.push(e);
    }
    let mut out: Vec<GraphEdge> = Vec::new();
    let mut i: usize = 0;
    assert(views(out@) =~= dedup_runs(s.take(0)));
    while rev.len() > 0
        invariant
            i + rev@.len() == n,
            n == s.len(),
            forall|j: int| 0 <= j < rev@.len() ==> rev@[j]@ == s[n - 1 - j],
            views(out@) == dedup_runs(s.take(i as int)),
            i > 0 ==> out@.len() > 0 && out@.last()@ == s[i - 1],
        decreases rev@.len(),
    {
        let e = rev.pop().unwrap();
        assert(e@ == s[i as int]);
        assert(s.take(i + 1).drop_last() == s.take(i as int));
        let keep = if out.len() == 0 {
            true
        } else {
            !same_edge(&out[out.len() - 1], &e)
        };
        proof {
            if i > 0 {
                assert(s.take(i + 1)[i - 1] == s[i - 1]);
                lemma_dedup_runs_last(s.take(i as int));
            }
        }
        if keep {
            out.push(e);
        }
        proof {
            assert(views(out@) =~= dedup_runs(s.take(i + 1)));
        }
        i += 1;
    }
    assert(s.take(n as int) == s);
    out
}

/// The normal form of a graph: nodes sorted by id, edges sorted by
/// `(from, to, kind)` with duplicates removed.
pub open spec fn normalized(g: GraphView) -> GraphView {
    GraphView { nodes: sort_seq(g.nodes), edges: dedup_runs(sort_seq(g.edges)) }
}

/// Sorts nodes and edges into a deterministic order and removes duplicate
/// edges.
fn sort_graph(nodes: Vec<GraphNode>, edges: Vec<GraphEdge>) -> (r: Graph)
    ensures
        r@ == normalized(GraphView { nodes: views(nodes@), edges: views(edges@) }),
{
    proof {
        lemma_node_order();
        lemma_edge_order();
    }
    let nodes = sort_by_key(nodes);
    let edges = sort_by_key(edges);
    let edges = dedup_edge_vec(edges);
    Graph { nodes, edges }
}

// --- Folder graph ------------------------------------------------------

/// Node id of a directory: its normalized path, or `.` for the root.
pub open spec fn dir_id(p: Seq<char>) -> Seq<char> {
    if normalize_path(p).len() == 0 {
        seq!['.']
    } else {
        normalize_path(p)
    }
}

/// Label of a directory: its file name, or `.` when it has none.
pub open spec fn dir_label(p: Seq<char>) -> Seq<char> {
    match file_name(p) {
        Some(n) => n,
        None => seq!['.'],
    }
}

/// Directory nodes of a subtree, in pre-order.
pub open spec fn folder_nodes(n: FileNode) -> Seq<NodeView>
    decreases n,
{
    match n {
        FileNode::File { .. } => Seq::empty(),
        FileNode::Directory { path, children } => seq![
            NodeView { id: dir_id(path@), label: dir_label(path@), kind: NodeKind::Directory },
        ] + folder_nodes_in(children@),
    }
}

/// Directory nodes of a list of subtrees, in pre-order.
pub open spec fn folder_nodes_in(cs: Seq<FileNode>) -> Seq<NodeView>
    decreases cs,
{
    if cs.len() == 0 {
        Seq::empty()
    } else {
        folder_nodes_in(cs.drop_last()) + folder_nodes(cs.last())
    }
}

/// Containment edges of a subtree: each directory to each child
/// directory, in pre-order.
pub open spec fn folder_edges(n: FileNode) -> Seq<EdgeView>
    decreases n,
{
    match n {
        FileNode::File { .. } => Seq::empty(),
        FileNode::Directory { path, children } => folder_edges_in(dir_id(path@), children@),
    }
}

/// Containment edges from `parent` to the directories among `cs`, each
/// followed by the edges of its own subtree.
pub open spec fn folder_edges_in(parent: Seq<char>, cs: Seq<FileNode>) -> Seq<EdgeView>
    decreases cs,
{
    if cs.len() == 0 {
        Seq::empty()
    } else {
        folder_edges_in(parent, cs.drop_last()) + match cs.last() {
            FileNode::Directory { path, .. } => seq![
                EdgeView { from: parent, to: normalize_path(path@), kind: EdgeKind::Contains },
            ] + folder_edges(cs.last()),
            FileNode::File { .. } => Seq::empty(),
        }
    }
}

/// The directory containment graph of a tree.
pub open spec fn folder_graph_spec(root: FileNode) -> GraphView {
    normalized(
        GraphView {
            nodes: add_nodes(Seq::empty(), folder_nodes(root)),
            edges: folder_edges(root),
        },
    )
}

/// Builds the directory containment graph.
fn folder_graph(tree: &FileTree) -> (r: Graph)
    ensures
        r@ == folder_graph_spec(tree.root),
{
    let mut nodes: Vec<GraphNode> = Vec::new();
    let mut edges: Vec<GraphEdge> = Vec::new();
    assert(views(nodes@) =~= Seq::<NodeView>::empty());
    assert(views(edges@) =~= Seq::<EdgeView>::empty());
    folder_visit(&tree.root, &mut nodes, &mut edges);
    assert(views(edges@) =~= folder_edges(tree.root));
    sort_graph(nodes, edges)
}

/// Adds a directory node and edges to its child directories, recursively.
fn folder_visit(node: &FileNode, nodes: &mut Vec<GraphNode>, edges: &mut Vec<GraphEdge>)
    ensures
        views(final(nodes)@) == add_nodes(views(old(nodes)@), folder_nodes(*node)),
        views(final(edges)@) == views(old(edges)@) + folder_edges(*node),
    decreases *node,
{
    match node {
        FileNode::File { .. } => {
            assert(views(edges@) =~= views(edges@) + Seq::<EdgeView>::empty());
        },
        FileNode::Directory { path, children } => {
            let raw = path_str(path);
            let id = if raw.as_str().is_empty() {
                let dot = vec!['.'];
                crate::text::string_of(&dot)
            } else {
                raw
            };
            proof {
                if raw@.len() == 0 {
                    assert(seq!['.'] =~= seq!['.']);
                }
            }
            assert(id@ == dir_id(path@));
            let label = match file_name_str(path) {
                Some(name) => name,
                None => {
                    let dot = vec!['.'];
                    crate::text::string_of(&dot)
                },
            };
            assert(label@ == dir_label(path@));
            let ghost start_nodes = views(nodes@);
            let ghost start_edges = views(edges@);
            push_node(nodes, &id, &label, NodeKind::Directory);
            let ghost me = NodeView { id: dir_id(path@), label: dir_label(path@), kind: NodeKind::Directory };
            assert(add_nodes(start_nodes, seq![me]) == push_node_spec(start_nodes, me)) by {
                assert(seq![me].drop_last() =~= Seq::<NodeView>::empty());
                assert(add_nodes(start_nodes, Seq::<NodeView>::empty()) == start_nodes);
            }
            let mut i: usize = 0;
            assert(children@.take(0) =~= Seq::<FileNode>::empty());
            assert(folder_nodes_in(children@.take(0)) =~= Seq::<NodeView>::empty());
            while i < children.len()
                invariant
                    i <= children@.len(),
                    *node matches FileNode::Directory { children: c, path: p } && c == children && p
                        == path,
                    id@ == dir_id(path@),
                    views(nodes@) == add_nodes(
                        add_nodes(start_nodes, seq![me]),
                        folder_nodes_in(children@.take(i as int)),
                    ),
                    views(edges@) == start_edges + folder_edges_in(
                        id@,
                        children@.take(i as int),
                    ),
                decreases children@.len() - i,
            {
                let child = &children[i];
                assert(children@.take(i + 1).drop_last() == children@.take(i as int));
                assert(children@.take(i + 1).last() == *child);
                let ghost before_nodes = views(nodes@);
                let ghost before_edges = views(edges@);
                match child {
                    FileNode::Directory { path: child_path, .. } => {
                        let child_id = path_str(child_path);
                        let ghost e0 = views(edges@);
                        edges.push(GraphEdge::new(&id, &child_id, EdgeKind::Contains));
                        assert(views(edges@) =~= e0.push(
                            EdgeView { from: id@, to: normalize_path(child_path@), kind: EdgeKind::Contains },
                        ));
                        proof {
                            assert(decreases_to!(*node => children@[i as int]));
                        }
                        folder_visit(child, nodes, edges);
                    },
                    FileNode::File { .. } => {},
                }
                proof {
                    lemma_add_nodes_append(
                        add_nodes(start_nodes, seq![me]),
                        folder_nodes_in(children@.take(i as int)),
                        folder_nodes(*child),
                    );
                    assert(views(edges@) =~= start_edges + folder_edges_in(
                        id@,
                        children@.take(i + 1),
                    ));
                }
                i += 1;
            }
            proof {
                assert(children@.take(children@.len() as int) == children@);
                lemma_add_nodes_append(start_nodes, seq![me], folder_nodes_in(children@));
            }
        },
    }
}

// --- Import resolution -------------------------------------------------

/// A pair of ids or strings.
pub type Pair = (Seq<char>, Seq<char>);

/// Views of a sequence of string pairs.
pub open spec fn pairs_view(s: Seq<(String, String)>) -> Seq<Pair> {
    s.map_values(|p: (String, String)| (p.0@, p.1@))
}

/// Node id of a parsed file: its normalized path.
pub open spec fn file_id(a: AstView) -> Seq<char> {
    normalize_path(a.path)
}

/// Ids of the parsed files whose stem is `seg`, in input order.
pub open spec fn stem_matches(asts: Seq<AstView>, seg: Seq<char>) -> Seq<Seq<char>>
    decreases asts.len(),
{
    if asts.len() == 0 {
        Seq::empty()
    } else {
        let r = stem_matches(asts.drop_last(), seg);
        if file_stem(asts.last().path) == Some(seg) {
            r.push(file_id(asts.last()))
        } else {
            r
        }
    }
}

/// The file an import with source `source` from file `from` resolves to:
/// the one file whose stem is the source's last segment, unless that is
/// `from` itself.
pub open spec fn resolve_import(all: Seq<AstView>, from: Seq<char>, source: Seq<char>) -> Option<
    Seq<char>,
> {
    let t = stem_matches(all, last_segment(source));
    if t.len() == 1 && t[0] != from {
        Some(t[0])
    } else {
        None
    }
}

/// Resolved `(from, target)` pairs of the imports `imps` of file `from`.
pub open spec fn internal_of(all: Seq<AstView>, from: Seq<char>, imps: Seq<ImportView>) -> Seq<
    Pair,
>
    decreases imps.len(),
{
    if imps.len() == 0 {
        Seq::empty()
    } else {
        let r = internal_of(all, from, imps.drop_last());
        match resolve_import(all, from, imps.last().source) {
            Some(t) => r.push((from, t)),
            None => r,
        }
    }
}

/// Unresolved `(from, source)` pairs of the imports `imps` of file `from`.
pub open spec fn external_of(all: Seq<AstView>, from: Seq<char>, imps: Seq<ImportView>) -> Seq<
    Pair,
>
    decreases imps.len(),
{
    if imps.len() == 0 {
        Seq::empty()
    } else {
        let r = external_of(all, from, imps.drop_last());
        match resolve_import(all, from, imps.last().source) {
            Some(t) => r,
            None => r.push((from, imps.last().source)),
        }
    }
}

/// Resolved imports of the files `asts`, resolving against `all`.
pub open spec fn internal_edges(all: Seq<AstView>, asts: Seq<AstView>) -> Seq<Pair>
    decreases asts.len(),
{
    if asts.len() == 0 {
        Seq::empty()
    } else {
        internal_edges(all, asts.drop_last()) + internal_of(
            all,
            file_id(asts.last()),
            asts.last().imports,
        )
    }
}

/// Unresolved imports of the files `asts`, resolving against `all`.
pub open spec fn external_edges(all: Seq<AstView>, asts: Seq<AstView>) -> Seq<Pair>
    decreases asts.len(),
{
    if asts.len() == 0 {
        Seq::empty()
    } else {
        external_edges(all, asts.drop_last()) + external_of(
            all,
            file_id(asts.last()),
            asts.last().imports,
        )
    }
}

/// A copy of a string pair.
fn pair_of(a: &str, b: &str) -> (r: (String, String))
    ensures
        r.0@ == a@,
        r.1@ == b@,
{
    (a.to_owned(), b.to_owned())
}

/// The stem and id of each parsed file, in order.
fn stem_index(asts: &[FileAst]) -> (r: Vec<(Option<String>, String)>)
    ensures
        r@.len() == asts@.len(),
        forall|k: int|
            0 <= k < asts@.len() ==> (match r@[k].0 {
                Some(s) => file_stem(asts@[k].path@) == Some(s@),
                None => file_stem(asts@[k].path@) is None,
            }) && r@[k].1@ == file_id(asts@[k]@),
{
    let mut r: Vec<(Option<String>, String)> = Vec::new();
    let mut k: usize = 0;
    while k < asts.len()
        invariant
            k <= asts@.len(),
            r@.len() == k,
            forall|j: int|
                0 <= j < k ==> (match r@[j].0 {
                    Some(s) => file_stem(asts@[j].path@) == Some(s@),
                    None => file_stem(asts@[j].path@) is None,
                }) && r@[j].1@ == file_id(asts@[j]@),
        decreases asts@.len() - k,
    {
        let stem = file_stem_str(&asts[k].path);
        let id = path_str(&asts[k].path);
        r.push((stem, id));
        k += 1;
    }
    r
}

/// Ids of the parsed files whose stem is `seg`.
fn lookup_stem(index: &Vec<(Option<String>, String)>, asts: &[FileAst], seg: &str) -> (r: Vec<
    String,
>)
    requires
        index@.len() == asts@.len(),
        forall|k: int|
            0 <= k < asts@.len() ==> (match index@[k].0 {
                Some(s) => file_stem(asts@[k].path@) == Some(s@),
                None => file_stem(asts@[k].path@) is None,
            }) && index@[k].1@ == file_id(asts@[k]@),
    ensures
        crate::entities::ast::strings_view(r@) == stem_matches(asts_view(asts@), seg@),
{
    let mut r: Vec<String> = Vec::new();
    let mut k: usize = 0;
    let ghost all = asts_view(asts@);
    assert(all.take(0) =~= Seq::<AstView>::empty());
    while k < index.len()
        invariant
            k <= index@.len(),
            index@.len() == asts@.len(),
            all == asts_view(asts@),
            forall|j: int|
                0 <= j < asts@.len() ==> (match index@[j].0 {
                    Some(s) => file_stem(asts@[j].path@) == Some(s@),
                    None => file_stem(asts@[j].path@) is None,
                }) && index@[j].1@ == file_id(asts@[j]@),
            crate::entities::ast::strings_view(r@) == stem_matches(all.take(k as int), seg@),
        decreases index@.len() - k,
    {
        assert(all.take(k + 1).drop_last() == all.take(k as int));
        assert(all.take(k + 1).last() == asts@[k as int]@);
        let hit = match &index[k].0 {
            Some(s) => str_eq(s, seg),
            None => false,
        };
        if hit {
            r.push(index[k].1.clone());
        }
        assert(crate::entities::ast::strings_view(r@) =~= stem_matches(all.take(k + 1), seg@));
        k += 1;
    }
    assert(all.take(index@.len() as int) == all);
    r
}

/// Resolves every file's imports into internal file-to-file edges and
/// external file-to-dependency edges.
fn resolved_imports(asts: &[FileAst]) -> (r: (Vec<(String, String)>, Vec<(String, String)>))
    ensures
        pairs_view(r.0@) == internal_edges(asts_view(asts@), asts_view(asts@)),
        pairs_view(r.1@) == external_edges(asts_view(asts@), asts_view(asts@)),
{
    let ghost all = asts_view(asts@);
    let index = stem_index(asts);
    let mut internal: Vec<(String, String)> = Vec::new();
    let mut external: Vec<(String, String)> = Vec::new();
    let mut k: usize = 0;
    assert(all.take(0) =~= Seq::<AstView>::empty());
    assert(pairs_view(internal@) =~= Seq::<Pair>::empty());
    assert(pairs_view(external@) =~= Seq::<Pair>::empty());
    while k < asts.len()
        invariant
            k <= asts@.len(),
            all == asts_view(asts@),
            index@.len() == asts@.len(),
            forall|j: int|
                0 <= j < asts@.len() ==> (match index@[j].0 {
                    Some(s) => file_stem(asts@[j].path@) == Some(s@),
                    None => file_stem(asts@[j].path@) is None,
                }) && index@[j].1@ == file_id(asts@[j]@),
            pairs_view(internal@) == internal_edges(all, all.take(k as int)),
            pairs_view(external@) == external_edges(all, all.take(k as int)),
        decreases asts@.len() - k,
    {
        let ast = &asts[k];
        let from = path_str(&ast.path);
        let ghost imps = ast@.imports;
        let ghost int0 = pairs_view(internal@);
        let ghost ext0 = pairs_view(external@);
        let mut m: usize = 0;
        assert(imps.take(0) =~= Seq::<ImportView>::empty());
        assert(int0 + internal_of(all, from@, imps.take(0)) =~= int0);
        assert(ext0 + external_of(all, from@, imps.take(0)) =~= ext0);
        while m < ast.imports.len()
            invariant
                m <= imps.len(),
                imps == ast@.imports,
                imps.len() == ast.imports@.len(),
                all == asts_view(asts@),
                index@.len() == asts@.len(),
                forall|j: int|
                    0 <= j < asts@.len() ==> (match index@[j].0 {
                        Some(s) => file_stem(asts@[j].path@) == Some(s@),
                        None => file_stem(asts@[j].path@) is None,
                    }) && index@[j].1@ == file_id(asts@[j]@),
                pairs_view(internal@) == int0 + internal_of(all, from@, imps.take(m as int)),
                pairs_view(external@) == ext0 + external_of(all, from@, imps.take(m as int)),
            decreases imps.len() - m,
        {
            let import = &ast.imports[m];
            assert(imps[m as int] == import@);
            assert(imps.take(m + 1).drop_last() == imps.take(m as int));
            assert(imps.take(m + 1).last() == import@);
            let segment = last_segment_str(&import.source);
            let targets = lookup_stem(&index, asts, &segment);
            let resolved = targets.len() == 1 && !str_eq(&targets[0], &from);
            let ghost t = stem_matches(all, last_segment(import@.source));
            assert(t == crate::entities::ast::strings_view(targets@));
            assert(t.len() == targets@.len());
            proof {
                if targets@.len() == 1 {
                    assert(t[0] == targets@[0]@);
                }
            }
            assert(resolved ==> resolve_import(all, from@, import@.source) == Some(targets@[0]@));
            assert(!resolved ==> resolve_import(all, from@, import@.source) is None);
            if resolved {
                let ghost before = internal@;
                internal.push(pair_of(&from, &targets[0]));
                assert(pairs_view(internal@) =~= pairs_view(before).push((from@, targets@[0]@)));
                assert(internal_of(all, from@, imps.take(m + 1)) == internal_of(
                    all,
                    from@,
                    imps.take(m as int),
                ).push((from@, targets@[0]@)));
                assert(external_of(all, from@, imps.take(m + 1)) == external_of(
                    all,
                    from@,
                    imps.take(m as int),
                ));
                assert(pairs_view(internal@) =~= int0 + internal_of(all, from@, imps.take(m + 1)));
                assert(pairs_view(external@) =~= ext0 + external_of(all, from@, imps.take(m + 1)));
            } else {
                let ghost before = external@;
                external.push(pair_of(&from, &import.source));
                assert(pairs_view(external@) =~= pairs_view(before).push((from@, import@.source)));
                assert(external_of(all, from@, imps.take(m + 1)) == external_of(
                    all,
                    from@,
                    imps.take(m as int),
                ).push((from@, import@.source)));
                assert(internal_of(all, from@, imps.take(m + 1)) == internal_of(
                    all,
                    from@,
                    imps.take(m as int),
                ));
                assert(pairs_view(internal@) =~= int0 + internal_of(all, from@, imps.take(m + 1)));
                assert(pairs_view(external@) =~= ext0 + external_of(all, from@, imps.take(m + 1)));
            }
            m += 1;
        }
        assert(imps.take(imps.len() as int) == imps);
        assert(all.take(k + 1).drop_last() == all.take(k as int));
        assert(all.take(k + 1).last() == ast@);
        assert(from@ == file_id(ast@));
        k += 1;
    }
    assert(all.take(asts@.len() as int) == all);
    (internal, external)
}

// --- Dependency graph --------------------------------------------------

/// Node of a parsed file: its id, labelled by its file name.
pub open spec fn file_node_view(a: AstView) -> NodeView {
    NodeView {
        id: file_id(a),
        label: match file_name(a.path) {
            Some(n) => n,
            None => file_id(a),
        },
        kind: NodeKind::File,
    }
}

/// Nodes of the parsed files, in order.
pub open spec fn file_nodes(asts: Seq<AstView>) -> Seq<NodeView> {
    asts.map_values(|a: AstView| file_node_view(a))
}

/// Id of the node of an external dependency: `ext:` and its source.
pub open spec fn ext_id(source: Seq<char>) -> Seq<char> {
    seq!['e', 'x', 't', ':'] + source
}

/// Nodes of the external dependencies, in order.
pub open spec fn ext_nodes(external: Seq<Pair>) -> Seq<NodeView> {
    external.map_values(|p: Pair| NodeView { id: ext_id(p.1), label: p.1, kind: NodeKind::External })
}

/// Import edges between files, one per internal pair.
pub open spec fn internal_import_edges(internal: Seq<Pair>) -> Seq<EdgeView>
    decreases internal.len(),
{
    if internal.len() == 0 {
        Seq::empty()
    } else {
        internal_import_edges(internal.drop_last()).push(
            EdgeView { from: internal.last().0, to: internal.last().1, kind: EdgeKind::Imports },
        )
    }
}

/// Import edges to external dependency nodes, one per external pair.
pub open spec fn external_import_edges(external: Seq<Pair>) -> Seq<EdgeView>
    decreases external.len(),
{
    if external.len() == 0 {
        Seq::empty()
    } else {
        external_import_edges(external.drop_last()).push(
            EdgeView {
                from: external.last().0,
                to: ext_id(external.last().1),
                kind: EdgeKind::Imports,
            },
        )
    }
}

/// Import edges: internal ones to files, then external ones to dependencies.
pub open spec fn dep_edges(internal: Seq<Pair>, external: Seq<Pair>) -> Seq<EdgeView> {
    internal_import_edges(internal) + external_import_edges(external)
}

/// The file-to-file import graph, with external dependency nodes.
pub open spec fn dependency_graph_spec(
    all: Seq<AstView>,
    internal: Seq<Pair>,
    external: Seq<Pair>,
) -> GraphView {
    normalized(
        GraphView {
            nodes: add_nodes(add_nodes(Seq::empty(), file_nodes(all)), ext_nodes(external)),
            edges: dep_edges(internal, external),
        },
    )
}

/// Builds the file-to-file import graph, with external dependency nodes.
fn dependency_graph(
    asts: &[FileAst],
    internal: &Vec<(String, String)>,
    external: &Vec<(String, String)>,
) -> (r: Graph)
    ensures
        r@ == dependency_graph_spec(asts_view(asts@), pairs_view(internal@), pairs_view(external@)),
{
    let ghost all = asts_view(asts@);
    let mut nodes: Vec<GraphNode> = Vec::new();
    let mut edges: Vec<GraphEdge> = Vec::new();
    let mut k: usize = 0;
    assert(views(nodes@) =~= add_nodes(Seq::empty(), file_nodes(all).take(0)));
    while k < asts.len()
        invariant
            k <= asts@.len(),
            all == asts_view(asts@),
            views(nodes@) == add_nodes(Seq::empty(), file_nodes(all).take(k as int)),
        decreases asts@.len() - k,
    {
        let id = path_str(&asts[k].path);
        let label = match file_name_str(&asts[k].path) {
            Some(name) => name,
            None => id.clone(),
        };
        push_node(&mut nodes, &id, &label, NodeKind::File);
        assert(file_nodes(all).take(k + 1).drop_last() == file_nodes(all).take(k as int));
        assert(file_nodes(all).take(k + 1).last() == file_node_view(asts@[k as int]@));
        k += 1;
    }
    assert(file_nodes(all).take(asts@.len() as int) == file_nodes(all));
    let ghost base = views(nodes@);
    let mut i: usize = 0;
    assert(edges@.len() == 0);
    assert(views(edges@) =~= internal_import_edges(pairs_view(internal@).take(0)));
    while i < internal.len()
        invariant
            i <= internal@.len(),
            views(edges@) == internal_import_edges(pairs_view(internal@).take(i as int)),
        decreases internal@.len() - i,
    {
        let ghost e0 = edges@;
        edges.push(GraphEdge::new(&internal[i].0, &internal[i].1, EdgeKind::Imports));
        assert(pairs_view(internal@).take(i + 1).drop_last() == pairs_view(internal@).take(
            i as int,
        ));
        assert(pairs_view(internal@).take(i + 1).last() == (internal@[i as int].0@, internal@[i as int].1@));
        assert(views(edges@) =~= views(e0).push(edges@.last()@));
        i += 1;
    }
    assert(pairs_view(internal@).take(internal@.len() as int) == pairs_view(internal@));
    let ghost int_edges = views(edges@);
    let mut j: usize = 0;
    assert(views(nodes@) =~= add_nodes(base, ext_nodes(pairs_view(external@)).take(0)));
    assert(views(edges@) =~= int_edges + external_import_edges(pairs_view(external@).take(0)));
    while j < external.len()
        invariant
            j <= external@.len(),
            views(nodes@) == add_nodes(base, ext_nodes(pairs_view(external@)).take(j as int)),
            views(edges@) == int_edges + external_import_edges(
                pairs_view(external@).take(j as int),
            ),
        decreases external@.len() - j,
    {
        let ghost e0 = edges@;
        let prefix = vec!['e', 'x', 't', ':'];
        let prefix = crate::text::string_of(&prefix);
        let id = concat(&prefix, &external[j].1);
        push_node(&mut nodes, &id, &external[j].1, NodeKind::External);
        edges.push(GraphEdge::new(&external[j].0, &id, EdgeKind::Imports));
        assert(ext_nodes(pairs_view(external@)).take(j + 1).drop_last() == ext_nodes(
            pairs_view(external@),
        ).take(j as int));
        assert(pairs_view(external@).take(j + 1).drop_last() == pairs_view(external@).take(
            j as int,
        ));
        assert(pairs_view(external@).take(j + 1).last() == (external@[j as int].0@, external@[j as int].1@));
        assert(views(edges@) =~= views(e0).push(edges@.last()@));
        assert(views(edges@) =~= int_edges + external_import_edges(
            pairs_view(external@).take(j + 1),
        ));
        j += 1;
    }
    assert(ext_nodes(pairs_view(external@)).take(external@.len() as int) == ext_nodes(
        pairs_view(external@),
    ));
    assert(pairs_view(external@).take(external@.len() as int) == pairs_view(external@));
    sort_graph(nodes, edges)
}

// --- Module graph ------------------------------------------------------

/// Node of a module (directory): labelled by its last path segment.
pub open spec fn module_node(m: Seq<char>) -> NodeView {
    NodeView { id: m, label: after_last_slash(m), kind: NodeKind::Module }
}

/// Module nodes of the internal edges: source then target directory of
/// each edge, in order.
pub open spec fn module_nodes(internal: Seq<Pair>) -> Seq<NodeView>
    decreases internal.len(),
{
    if internal.len() == 0 {
        Seq::empty()
    } else {
        let p = internal.last();
        module_nodes(internal.drop_last()).push(module_node(dir_of(p.0))).push(
            module_node(dir_of(p.1)),
        )
    }
}

/// Module dependency edges: the directories of each internal edge, when
/// they differ.
pub open spec fn module_edges(internal: Seq<Pair>) -> Seq<EdgeView>
    decreases internal.len(),
{
    if internal.len() == 0 {
        Seq::empty()
    } else {
        let p = internal.last();
        let r = module_edges(internal.drop_last());
        if dir_of(p.0) != dir_of(p.1) {
            r.push(EdgeView { from: dir_of(p.0), to: dir_of(p.1), kind: EdgeKind::DependsOn })
        } else {
            r
        }
    }
}

/// The directory-to-directory dependency graph of the internal edges.
pub open spec fn module_graph_spec(internal: Seq<Pair>) -> GraphView {
    normalized(
        GraphView {
            nodes: add_nodes(Seq::empty(), module_nodes(internal)),
            edges: module_edges(internal),
        },
    )
}

/// Builds the directory-to-directory dependency graph by aggregating internal
/// file imports to their parent directories.
fn module_graph(internal: &Vec<(String, String)>) -> (r: Graph)
    ensures
        r@ == module_graph_spec(pairs_view(internal@)),
{
    let ghost all = pairs_view(internal@);
    let mut nodes: Vec<GraphNode> = Vec::new();
    let mut edges: Vec<GraphEdge> = Vec::new();
    let mut i: usize = 0;
    assert(all.take(0) =~= Seq::<Pair>::empty());
    assert(views(nodes@) =~= Seq::<NodeView>::empty());
    assert(views(edges@) =~= Seq::<EdgeView>::empty());
    while i < internal.len()
        invariant
            i <= internal@.len(),
            all == pairs_view(internal@),
            views(nodes@) == add_nodes(Seq::empty(), module_nodes(all.take(i as int))),
            views(edges@) == module_edges(all.take(i as int)),
        decreases internal@.len() - i,
    {
        let from_dir = dir_of_str(&internal[i].0);
        let to_dir = dir_of_str(&internal[i].1);
        let from_label = after_last_slash_str(&from_dir);
        let to_label = after_last_slash_str(&to_dir);
        let ghost n0 = views(nodes@);
        push_node(&mut nodes, &from_dir, &from_label, NodeKind::Module);
        push_node(&mut nodes, &to_dir, &to_label, NodeKind::Module);
        let ghost take1 = all.take(i + 1);
        assert(take1.drop_last() == all.take(i as int));
        assert(take1.last() == all[i as int]);
        proof {
            let s0 = module_nodes(all.take(i as int));
            let s1 = module_nodes(take1);
            assert(s1 == s0.push(module_node(dir_of(all[i as int].0))).push(
                module_node(dir_of(all[i as int].1)),
            ));
            assert(s1.drop_last() == s0.push(module_node(dir_of(all[i as int].0))));
            assert(s1.drop_last().drop_last() == s0);
            assert(add_nodes(Seq::empty(), s1) == push_node_spec(
                add_nodes(Seq::empty(), s1.drop_last()),
                s1.last(),
            ));
            assert(add_nodes(Seq::empty(), s1.drop_last()) == push_node_spec(
                add_nodes(Seq::empty(), s0),
                s1.drop_last().last(),
            ));
        }
        if !str_eq(&from_dir, &to_dir) {
            edges.push(GraphEdge::new(&from_dir, &to_dir, EdgeKind::DependsOn));
        }
        assert(views(edges@) =~= module_edges(take1));
        i += 1;
    }
    assert(all.take(internal@.len() as int) == all);
    sort_graph(nodes, edges)
}

// --- Call graph --------------------------------------------------------

/// Node id of function `name` of file `file`: `file::name`.
pub open spec fn fn_id(file: Seq<char>, name: Seq<char>) -> Seq<char> {
    file + seq![':', ':'] + name
}

/// `(name, id)` of each function of `fs`, defined in file `file`.
pub open spec fn fn_entries(file: Seq<char>, fs: Seq<FunctionView>) -> Seq<Pair> {
    fs.map_values(|f: FunctionView| (f.name, fn_id(file, f.name)))
}

/// `(name, id)` of every function of the parsed files, file by file.
pub open spec fn flat_fns(asts: Seq<AstView>) -> Seq<Pair>
    decreases asts.len(),
{
    if asts.len() == 0 {
        Seq::empty()
    } else {
        flat_fns(asts.drop_last()) + fn_entries(file_id(asts.last()), asts.last().functions)
    }
}

/// Ids of the functions of `entries` named `name`, in order.
pub open spec fn ids_with(entries: Seq<Pair>, name: Seq<char>) -> Seq<Seq<char>>
    decreases entries.len(),
{
    if entries.len() == 0 {
        Seq::empty()
    } else {
        let r = ids_with(entries.drop_last(), name);
        if entries.last().0 == name {
            r.push(entries.last().1)
        } else {
            r
        }
    }
}

/// The function that a call of `callee` made in file `file` resolves to:
/// the function of that name in the same file, else the only function of
/// that name; none when the name is unknown or ambiguous.
pub open spec fn call_target(entries: Seq<Pair>, file: Seq<char>, callee: Seq<char>) -> Option<
    Seq<char>,
> {
    let ids = ids_with(entries, callee);
    if ids.contains(fn_id(file, callee)) {
        Some(fn_id(file, callee))
    } else if ids.len() == 1 {
        Some(ids[0])
    } else {
        None
    }
}

/// Call edges from function `from` of file `file` to the resolved `calls`.
pub open spec fn callee_edges(
    entries: Seq<Pair>,
    file: Seq<char>,
    from: Seq<char>,
    calls: Seq<Seq<char>>,
) -> Seq<EdgeView>
    decreases calls.len(),
{
    if calls.len() == 0 {
        Seq::empty()
    } else {
        let r = callee_edges(entries, file, from, calls.drop_last());
        match call_target(entries, file, calls.last()) {
            Some(t) => r.push(EdgeView { from, to: t, kind: EdgeKind::Calls }),
            None => r,
        }
    }
}

/// Call edges of the functions `fs` of file `file`.
pub open spec fn fn_edges(entries: Seq<Pair>, file: Seq<char>, fs: Seq<FunctionView>) -> Seq<
    EdgeView,
>
    decreases fs.len(),
{
    if fs.len() == 0 {
        Seq::empty()
    } else {
        fn_edges(entries, file, fs.drop_last()) + callee_edges(
            entries,
            file,
            fn_id(file, fs.last().name),
            fs.last().calls,
        )
    }
}

/// Call edges of the functions of the parsed files `asts`.
pub open spec fn call_edges(entries: Seq<Pair>, asts: Seq<AstView>) -> Seq<EdgeView>
    decreases asts.len(),
{
    if asts.len() == 0 {
        Seq::empty()
    } else {
        call_edges(entries, asts.drop_last()) + fn_edges(
            entries,
            file_id(asts.last()),
            asts.last().functions,
        )
    }
}

/// Function nodes, labelled by the function's name.
pub open spec fn call_nodes(entries: Seq<Pair>) -> Seq<NodeView> {
    entries.map_values(|p: Pair| NodeView { id: p.1, label: p.0, kind: NodeKind::Function })
}

/// The function-to-function call graph of the parsed files.
pub open spec fn call_graph_spec(all: Seq<AstView>) -> GraphView {
    normalized(
        GraphView {
            nodes: add_nodes(Seq::empty(), call_nodes(flat_fns(all))),
            edges: call_edges(flat_fns(all), all),
        },
    )
}

/// `file::name`.
pub(crate) fn fn_id_str(file: &str, name: &str) -> (r: String)
    ensures
        r@ == fn_id(file@, name@),
{
    let sep = vec![':', ':'];
    let sep = crate::text::string_of(&sep);
    let head = concat(file, &sep);
    concat(&head, name)
}

/// `(name, id)` of every function of the parsed files.
fn function_entries(asts: &[FileAst]) -> (r: Vec<(String, String)>)
    ensures
        pairs_view(r@) == flat_fns(asts_view(asts@)),
{
    let ghost all = asts_view(asts@);
    let mut r: Vec<(String, String)> = Vec::new();
    let mut k: usize = 0;
    assert(all.take(0) =~= Seq::<AstView>::empty());
    assert(pairs_view(r@) =~= Seq::<Pair>::empty());
    while k < asts.len()
        invariant
            k <= asts@.len(),
            all == asts_view(asts@),
            pairs_view(r@) == flat_fns(all.take(k as int)),
        decreases asts@.len() - k,
    {
        let ast = &asts[k];
        let file = path_str(&ast.path);
        let ghost fs = ast@.functions;
        let ghost r0 = pairs_view(r@);
        let mut m: usize = 0;
        assert(fn_entries(file@, fs.take(0)) =~= Seq::<Pair>::empty());
        assert(r0 + fn_entries(file@, fs.take(0)) =~= r0);
        while m < ast.functions.len()
            invariant
                m <= fs.len(),
                fs == ast@.functions,
                fs.len() == ast.functions@.len(),
                pairs_view(r@) == r0 + fn_entries(file@, fs.take(m as int)),
            decreases fs.len() - m,
        {
            let f = &ast.functions[m];
            assert(fs[m as int] == f@);
            let id = fn_id_str(&file, &f.name);
            let ghost before = pairs_view(r@);
            r.push(pair_of(&f.name, &id));
            assert(pairs_view(r@) =~= before.push((f.name@, fn_id(file@, f.name@))));
            assert(fn_entries(file@, fs.take(m + 1)) =~= fn_entries(file@, fs.take(m as int)).push(
                (f.name@, fn_id(file@, f.name@)),
            ));
            assert(pairs_view(r@) =~= r0 + fn_entries(file@, fs.take(m + 1)));
            m += 1;
        }
        assert(fs.take(fs.len() as int) == fs);
        assert(all.take(k + 1).drop_last() == all.take(k as int));
        assert(all.take(k + 1).last() == ast@);
        assert(file@ == file_id(ast@));
        k += 1;
    }
    assert(all.take(asts@.len() as int) == all);
    r
}

/// Resolves a call of `callee` made in file `file`.
fn resolve_call(entries: &Vec<(String, String)>, file: &str, callee: &str) -> (r: Option<String>)
    ensures
        match r {
            Some(t) => call_target(pairs_view(entries@), file@, callee@) == Some(t@),
            None => call_target(pairs_view(entries@), file@, callee@) is None,
        },
{
    let ghost e = pairs_view(entries@);
    let target = fn_id_str(file, callee);
    let mut found_same = false;
    let mut count: usize = 0;
    let mut first: usize = 0;
    let mut i: usize = 0;
    assert(e.take(0) =~= Seq::<Pair>::empty());
    while i < entries.len()
        invariant
            i <= entries@.len(),
            e == pairs_view(entries@),
            target@ == fn_id(file@, callee@),
            count == ids_with(e.take(i as int), callee@).len(),
            count <= i,
            found_same == ids_with(e.take(i as int), callee@).contains(target@),
            count > 0 ==> first < entries@.len() && ids_with(e.take(i as int), callee@)[0]
                == entries@[first as int].1@,
        decreases entries@.len() - i,
    {
        let ghost ids0 = ids_with(e.take(i as int), callee@);
        assert(e.take(i + 1).drop_last() == e.take(i as int));
        assert(e.take(i + 1).last() == e[i as int]);
        assert(e[i as int] == (entries@[i as int].0@, entries@[i as int].1@));
        if str_eq(&entries[i].0, callee) {
            let ghost ids1 = ids0.push(entries@[i as int].1@);
            assert(ids_with(e.take(i + 1), callee@) == ids1);
            assert(ids1.contains(target@) <==> (ids0.contains(target@) || entries@[i as int].1@
                == target@)) by {
                if ids1.contains(target@) {
                    let j = choose|j: int| 0 <= j < ids1.len() && ids1[j] == target@;
                    if j < ids0.len() {
                        assert(ids0[j] == target@);
                    }
                }
                if ids0.contains(target@) {
                    let j = choose|j: int| 0 <= j < ids0.len() && ids0[j] == target@;
                    assert(ids1[j] == target@);
                }
                if entries@[i as int].1@ == target@ {
                    assert(ids1[ids0.len() as int] == target@);
                }
            }
            if str_eq(&entries[i].1, &target) {
                found_same = true;
            }
            if count == 0 {
                first = i;
            }
            count += 1;
        } else {
            assert(ids_with(e.take(i + 1), callee@) == ids0);
        }
        i += 1;
    }
    assert(e.take(entries@.len() as int) == e);
    if found_same {
        Some(target)
    } else if count == 1 {
        Some(entries[first].1.clone())
    } else {
        None
    }
}

/// Adds the call edges from function `from` of file `file` to `edges`.
fn add_callee_edges(
    entries: &Vec<(String, String)>,
    file: &str,
    from: &str,
    calls: &Vec<String>,
    edges: &mut Vec<GraphEdge>,
)
    ensures
        views(final(edges)@) == views(old(edges)@) + callee_edges(
            pairs_view(entries@),
            file@,
            from@,
            crate::entities::ast::strings_view(calls@),
        ),
{
    let ghost cs = crate::entities::ast::strings_view(calls@);
    let ghost e0 = views(edges@);
    let mut c: usize = 0;
    assert(cs.take(0) =~= Seq::<Seq<char>>::empty());
    assert(e0 + callee_edges(pairs_view(entries@), file@, from@, cs.take(0)) =~= e0);
    while c < calls.len()
        invariant
            c <= calls@.len(),
            cs == crate::entities::ast::strings_view(calls@),
            views(edges@) == e0 + callee_edges(pairs_view(entries@), file@, from@, cs.take(c as int)),
        decreases calls@.len() - c,
    {
        assert(cs.take(c + 1).drop_last() == cs.take(c as int));
        assert(cs.take(c + 1).last() == calls@[c as int]@);
        let ghost before = views(edges@);
        match resolve_call(entries, file, &calls[c]) {
            Some(to) => {
                edges.push(GraphEdge::new(from, &to, EdgeKind::Calls));
                assert(views(edges@) =~= before.push(
                    EdgeView { from: from@, to: to@, kind: EdgeKind::Calls },
                ));
            },
            None => {},
        }
        assert(views(edges@) =~= e0 + callee_edges(
            pairs_view(entries@),
            file@,
            from@,
            cs.take(c + 1),
        ));
        c += 1;
    }
    assert(cs.take(calls@.len() as int) == cs);
}

/// Builds the function-to-function call graph.
#[verifier::rlimit(40)]
#[verifier::spinoff_prover]
fn call_graph(asts: &[FileAst]) -> (r: Graph)
    ensures
        r@ == call_graph_spec(asts_view(asts@)),
{
    let ghost all = asts_view(asts@);
    let entries = function_entries(asts);
    let ghost e = pairs_view(entries@);
    let mut nodes: Vec<GraphNode> = Vec::new();
    let mut i: usize = 0;
    assert(views(nodes@) =~= add_nodes(Seq::empty(), call_nodes(e).take(0)));
    while i < entries.len()
        invariant
            i <= entries@.len(),
            e == pairs_view(entries@),
            views(nodes@) == add_nodes(Seq::empty(), call_nodes(e).take(i as int)),
        decreases entries@.len() - i,
    {
        push_node(&mut nodes, &entries[i].1, &entries[i].0, NodeKind::Function);
        assert(call_nodes(e).take(i + 1).drop_last() == call_nodes(e).take(i as int));
        assert(call_nodes(e).take(i + 1).last() == NodeView {
            id: entries@[i as int].1@,
            label: entries@[i as int].0@,
            kind: NodeKind::Function,
        });
        i += 1;
    }
    assert(call_nodes(e).take(entries@.len() as int) == call_nodes(e));
    let mut edges: Vec<GraphEdge> = Vec::new();
    let mut k: usize = 0;
    assert(all.take(0) =~= Seq::<AstView>::empty());
    assert(views(edges@) =~= Seq::<EdgeView>::empty());
    while k < asts.len()
        invariant
            k <= asts@.len(),
            all == asts_view(asts@),
            e == pairs_view(entries@),
            views(edges@) == call_edges(e, all.take(k as int)),
        decreases asts@.len() - k,
    {
        let ast = &asts[k];
        let file = path_str(&ast.path);
        let ghost fs = ast@.functions;
        let ghost e0 = views(edges@);
        let mut m: usize = 0;
        assert(fs.take(0) =~= Seq::<FunctionView>::empty());
        assert(e0 + fn_edges(e, file@, fs.take(0)) =~= e0);
        while m < ast.functions.len()
            invariant
                m <= fs.len(),
                fs == ast@.functions,
                fs.len() == ast.functions@.len(),
                e == pairs_view(entries@),
                views(edges@) == e0 + fn_edges(e, file@, fs.take(m as int)),
            decreases fs.len() - m,
        {
            let f = &ast.functions[m];
            assert(fs[m as int] == f@);
            let from = fn_id_str(&file, &f.name);
            let ghost before = views(edges@);
            add_callee_edges(&entries, &file, &from, &f.calls, &mut edges);
            assert(fs.take(m + 1).drop_last() == fs.take(m as int));
            assert(fs.take(m + 1).last() == f@);
            assert(views(edges@) =~= e0 + fn_edges(e, file@, fs.take(m + 1)));
            m += 1;
        }
        assert(fs.take(fs.len() as int) == fs);
        assert(all.take(k + 1).drop_last() == all.take(k as int));
        assert(all.take(k + 1).last() == ast@);
        assert(file@ == file_id(ast@));
        k += 1;
    }
    assert(all.take(asts@.len() as int) == all);
    sort_graph(nodes, edges)
}

// --- The model ---------------------------------------------------------

/// Builds the full architecture model from parsed files and the file tree.
pub fn build(asts: &[FileAst], tree: &FileTree) -> (r: ArchitectureModel)
    ensures
        r.folder_graph@ == folder_graph_spec(tree.root),
        r.dependency_graph@ == dependency_graph_spec(
            asts_view(asts@),
            internal_edges(asts_view(asts@), asts_view(asts@)),
            external_edges(asts_view(asts@), asts_view(asts@)),
        ),
        r.module_graph@ == module_graph_spec(internal_edges(asts_view(asts@), asts_view(asts@))),
        r.call_graph@ == call_graph_spec(asts_view(asts@)),
{
    let (internal, external) = resolved_imports(asts);
    ArchitectureModel {
        folder_graph: folder_graph(tree),
        dependency_graph: dependency_graph(asts, &internal, &external),
        module_graph: module_graph(&internal),
        call_graph: call_graph(asts),
    }
}

// --- Laws ----------------------------------------------------------------

/// Whether no two nodes of `nodes` share an id.
pub open spec fn distinct_ids(nodes: Seq<NodeView>) -> bool {
    forall|i: int, j: int| 0 <= i < j < nodes.len() ==> #[trigger] nodes[i].id != #[trigger] nodes[j].id
}

/// Whether the node ids of `nodes` strictly increase.
pub open spec fn ids_increase(nodes: Seq<NodeView>) -> bool {
    forall|i: int, j: int| 0 <= i < j < nodes.len() ==> seq_lt(#[trigger] nodes[i].id, #[trigger] nodes[j].id)
}

/// Adding nodes by id keeps ids distinct, and every added id is present.
proof fn lemma_add_nodes_ids(acc: Seq<NodeView>, s: Seq<NodeView>)
    requires
        distinct_ids(acc),
    ensures
        distinct_ids(add_nodes(acc, s)),
        forall|i: int| 0 <= i < s.len() ==> has_id(add_nodes(acc, s), #[trigger] s[i].id),
        forall|i: int| 0 <= i < acc.len() ==> has_id(add_nodes(acc, s), #[trigger] acc[i].id),
    decreases s.len(),
{
    if s.len() > 0 {
        let p = add_nodes(acc, s.drop_last());
        lemma_add_nodes_ids(acc, s.drop_last());
        let r = add_nodes(acc, s);
        let x = s.last();
        if !has_id(p, x.id) {
            assert(r == p.push(x));
            assert forall|i: int, j: int| 0 <= i < j < r.len() implies #[trigger] r[i].id != #[trigger] r[j].id by {
                if j == p.len() {
                    assert(r[i] == p[i]);
                    if r[i].id == x.id {
                        assert(p[i].id == x.id);
                    }
                } else {
                    assert(r[i] == p[i] && r[j] == p[j]);
                }
            }
            assert forall|i: int| 0 <= i < s.len() implies has_id(r, #[trigger] s[i].id) by {
                if i < s.len() - 1 {
                    assert(s[i] == s.drop_last()[i]);
                    assert(has_id(p, s.drop_last()[i].id));
                    let m = choose|m: int| 0 <= m < p.len() && #[trigger] p[m].id == s[i].id;
                    assert(r[m] == p[m]);
                } else {
                    assert(r[p.len() as int] == x);
                }
            }
            assert forall|i: int| 0 <= i < acc.len() implies has_id(r, #[trigger] acc[i].id) by {
                assert(has_id(p, acc[i].id));
                let m = choose|m: int| 0 <= m < p.len() && #[trigger] p[m].id == acc[i].id;
                assert(r[m] == p[m]);
            }
        } else {
            assert forall|i: int| 0 <= i < s.len() implies has_id(r, #[trigger] s[i].id) by {
                if i < s.len() - 1 {
                    assert(s[i] == s.drop_last()[i]);
                    assert(has_id(p, s.drop_last()[i].id));
                }
            }
        }
    }
}

/// Inserting a node whose id is new keeps ids distinct.
proof fn lemma_insert_distinct(s: Seq<NodeView>, x: NodeView)
    requires
        distinct_ids(s),
        !has_id(s, x.id),
    ensures
        distinct_ids(insert_sorted(s, x)),
        forall|k: int| 0 <= k < insert_sorted(s, x).len() ==> #[trigger] insert_sorted(s, x)[k] == x
            || s.contains(insert_sorted(s, x)[k]),
    decreases s.len(),
{
    let r = insert_sorted(s, x);
    if s.len() == 0 {
    } else if s.last().order_le(&x) {
        assert(r == s.push(x));
        assert forall|i: int, j: int| 0 <= i < j < r.len() implies #[trigger] r[i].id != #[trigger] r[j].id by {
            if j == s.len() {
                assert(r[i] == s[i]);
            } else {
                assert(r[i] == s[i] && r[j] == s[j]);
            }
        }
        assert forall|k: int| 0 <= k < r.len() implies #[trigger] r[k] == x || s.contains(r[k]) by {
            if k < s.len() {
                assert(r[k] == s[k]);
            }
        }
    } else {
        let d = s.drop_last();
        assert(distinct_ids(d)) by {
            assert forall|i: int, j: int| 0 <= i < j < d.len() implies #[trigger] d[i].id != #[trigger] d[j].id by {
                assert(d[i] == s[i] && d[j] == s[j]);
            }
        }
        assert(!has_id(d, x.id)) by {
            if has_id(d, x.id) {
                let m = choose|m: int| 0 <= m < d.len() && #[trigger] d[m].id == x.id;
                assert(s[m] == d[m]);
            }
        }
        lemma_insert_distinct(d, x);
        let t = insert_sorted(d, x);
        assert(r == t.push(s.last()));
        let l = s.last();
        assert forall|k: int| 0 <= k < t.len() implies #[trigger] t[k].id != l.id by {
            if t[k] == x {
                assert(s[s.len() - 1] == l);
            } else {
                assert(d.contains(t[k]));
                let m = choose|m: int| 0 <= m < d.len() && d[m] == t[k];
                assert(s[m] == d[m]);
                assert(s[m].id != s[s.len() - 1].id);
            }
        }
        assert forall|i: int, j: int| 0 <= i < j < r.len() implies #[trigger] r[i].id != #[trigger] r[j].id by {
            if j == t.len() {
                assert(r[i] == t[i]);
                assert(t[i].id != l.id);
            } else {
                assert(r[i] == t[i] && r[j] == t[j]);
            }
        }
        assert forall|k: int| 0 <= k < r.len() implies #[trigger] r[k] == x || s.contains(r[k]) by {
            if k < t.len() {
                assert(r[k] == t[k]);
                if t[k] != x {
                    let m = choose|m: int| 0 <= m < d.len() && d[m] == t[k];
                    assert(s[m] == d[m]);
                }
            } else {
                assert(s[s.len() - 1] == r[k]);
            }
        }
    }
}

/// Sorting nodes with distinct ids keeps them distinct.
proof fn lemma_sort_distinct(s: Seq<NodeView>)
    requires
        distinct_ids(s),
    ensures
        distinct_ids(sort_seq(s)),
    decreases s.len(),
{
    if s.len() > 0 {
        let d = s.drop_last();
        assert(distinct_ids(d)) by {
            assert forall|i: int, j: int| 0 <= i < j < d.len() implies #[trigger] d[i].id != #[trigger] d[j].id by {
                assert(d[i] == s[i] && d[j] == s[j]);
            }
        }
        lemma_sort_distinct(d);
        lemma_sort_contains(d);
        let sd = sort_seq(d);
        assert(!has_id(sd, s.last().id)) by {
            if has_id(sd, s.last().id) {
                let m = choose|m: int| 0 <= m < sd.len() && #[trigger] sd[m].id == s.last().id;
                assert(d.contains(sd[m]));
                let j = choose|j: int| 0 <= j < d.len() && d[j] == sd[m];
                assert(s[j] == d[j]);
                assert(s[j].id != s[s.len() - 1].id);
            }
        }
        lemma_insert_distinct(sd, s.last());
    }
}

/// Nodes order totally and transitively.
pub(crate) proof fn lemma_node_order()
    ensures
        order_total::<NodeView>(),
        order_transitive::<NodeView>(),
{
    assert forall|a: NodeView, b: NodeView| #[trigger] a.order_le(&b) || b.order_le(&a) by {
        lemma_seq_lt_total(a.id, b.id);
    }
    assert forall|a: NodeView, b: NodeView, c: NodeView|
        #![trigger a.order_le(&b), b.order_le(&c)]
        a.order_le(&b) && b.order_le(&c) implies a.order_le(&c) by {
        if seq_lt(a.id, b.id) && seq_lt(b.id, c.id) {
            lemma_seq_lt_trans(a.id, b.id, c.id);
        }
    }
}

/// Normalizing a graph whose node ids are distinct lists them in strictly
/// increasing order.
proof fn lemma_normalized_ids(g: GraphView)
    requires
        distinct_ids(g.nodes),
    ensures
        ids_increase(normalized(g).nodes),
{
    lemma_node_order();
    lemma_sort_sorted(g.nodes);
    lemma_sort_distinct(g.nodes);
    let n = sort_seq(g.nodes);
    assert forall|i: int, j: int| 0 <= i < j < n.len() implies seq_lt(#[trigger] n[i].id, #[trigger] n[j].id) by {
        assert(n[i].order_le(&n[j]));
    }
}

/// Every graph of the architecture model lists its nodes once each, by
/// strictly increasing id.
pub proof fn law_graph_nodes_unique_and_ordered(asts: Seq<AstView>, root: FileNode)
    ensures
        ids_increase(folder_graph_spec(root).nodes),
        ids_increase(
            dependency_graph_spec(asts, internal_edges(asts, asts), external_edges(asts, asts)).nodes,
        ),
        ids_increase(module_graph_spec(internal_edges(asts, asts)).nodes),
        ids_increase(call_graph_spec(asts).nodes),
{
    let e = Seq::<NodeView>::empty();
    lemma_add_nodes_ids(e, folder_nodes(root));
    lemma_normalized_ids(GraphView { nodes: add_nodes(e, folder_nodes(root)), edges: folder_edges(root) });
    let internal = internal_edges(asts, asts);
    let external = external_edges(asts, asts);
    lemma_add_nodes_ids(e, file_nodes(asts));
    lemma_add_nodes_ids(add_nodes(e, file_nodes(asts)), ext_nodes(external));
    lemma_normalized_ids(
        GraphView {
            nodes: add_nodes(add_nodes(e, file_nodes(asts)), ext_nodes(external)),
            edges: dep_edges(internal, external),
        },
    );
    lemma_add_nodes_ids(e, module_nodes(internal));
    lemma_normalized_ids(GraphView { nodes: add_nodes(e, module_nodes(internal)), edges: module_edges(internal) });
    lemma_add_nodes_ids(e, call_nodes(flat_fns(asts)));
    lemma_normalized_ids(
        GraphView { nodes: add_nodes(e, call_nodes(flat_fns(asts))), edges: call_edges(flat_fns(asts), asts) },
    );
}

/// Whether every edge of `g` leads from a node of `g` to a node of `g`.
pub open spec fn edges_join_nodes(g: GraphView) -> bool {
    forall|k: int|
        0 <= k < g.edges.len() ==> has_id(g.nodes, (#[trigger] g.edges[k]).from) && has_id(
            g.nodes,
            g.edges[k].to,
        )
}

/// Collapsing runs keeps only edges of the input.
proof fn lemma_dedup_edges_contains(s: Seq<EdgeView>)
    ensures
        forall|k: int| 0 <= k < dedup_runs(s).len() ==> s.contains(#[trigger] dedup_runs(s)[k]),
    decreases s.len(),
{
    if s.len() > 1 {
        let d = s.drop_last();
        lemma_dedup_edges_contains(d);
        let r = dedup_runs(s);
        let q = dedup_runs(d);
        assert forall|k: int| 0 <= k < r.len() implies s.contains(#[trigger] r[k]) by {
            if k < q.len() {
                assert(r[k] == q[k]);
                let m = choose|m: int| 0 <= m < d.len() && d[m] == q[k];
                assert(s[m] == d[m]);
            } else {
                assert(s[s.len() - 1] == r[k]);
            }
        }
    } else {
        assert forall|k: int| 0 <= k < dedup_runs(s).len() implies s.contains(#[trigger] dedup_runs(s)[k]) by {
            assert(s[k] == dedup_runs(s)[k]);
        }
    }
}

/// Normalizing keeps edges joined to nodes.
proof fn lemma_normalized_joins(g: GraphView)
    requires
        edges_join_nodes(g),
    ensures
        edges_join_nodes(normalized(g)),
{
    let se = sort_seq(g.edges);
    let sn = sort_seq(g.nodes);
    lemma_dedup_edges_contains(se);
    lemma_sort_contains(g.edges);
    lemma_sort_contains(g.nodes);
    let n = normalized(g);
    assert forall|k: int| 0 <= k < n.edges.len() implies has_id(n.nodes, (#[trigger] n.edges[k]).from)
        && has_id(n.nodes, n.edges[k].to) by {
        let e = n.edges[k];
        assert(se.contains(e));
        let m = choose|m: int| 0 <= m < se.len() && se[m] == e;
        assert(g.edges.contains(se[m]));
        let j = choose|j: int| 0 <= j < g.edges.len() && g.edges[j] == e;
        assert(has_id(g.nodes, g.edges[j].from) && has_id(g.nodes, g.edges[j].to));
        let a = choose|a: int| 0 <= a < g.nodes.len() && #[trigger] g.nodes[a].id == e.from;
        let b = choose|b: int| 0 <= b < g.nodes.len() && #[trigger] g.nodes[b].id == e.to;
        assert(sn.contains(g.nodes[a]));
        assert(sn.contains(g.nodes[b]));
        let a2 = choose|a2: int| 0 <= a2 < sn.len() && sn[a2] == g.nodes[a];
        let b2 = choose|b2: int| 0 <= b2 < sn.len() && sn[b2] == g.nodes[b];
        assert(sn[a2].id == e.from);
        assert(sn[b2].id == e.to);
    }
}

/// Whether `id` is the id of one of the parsed files.
pub open spec fn is_file_id(all: Seq<AstView>, id: Seq<char>) -> bool {
    exists|i: int| 0 <= i < all.len() && #[trigger] file_id(all[i]) == id
}

/// Files matched by stem are parsed files.
proof fn lemma_stem_matches(asts: Seq<AstView>, seg: Seq<char>)
    ensures
        forall|k: int| 0 <= k < stem_matches(asts, seg).len() ==> is_file_id(asts, #[trigger] stem_matches(asts, seg)[k]),
    decreases asts.len(),
{
    if asts.len() > 0 {
        let d = asts.drop_last();
        lemma_stem_matches(d, seg);
        let r = stem_matches(asts, seg);
        let q = stem_matches(d, seg);
        assert forall|k: int| 0 <= k < r.len() implies is_file_id(asts, #[trigger] r[k]) by {
            if k < q.len() {
                assert(r[k] == q[k]);
                let i = choose|i: int| 0 <= i < d.len() && #[trigger] file_id(d[i]) == q[k];
                assert(asts[i] == d[i]);
            } else {
                assert(file_id(asts[asts.len() - 1]) == r[k]);
            }
        }
    }
}

/// Resolved and unresolved imports start at a parsed file; resolved ones
/// end at one.
proof fn lemma_import_pairs(all: Seq<AstView>, xs: Seq<AstView>)
    requires
        forall|j: int| 0 <= j < xs.len() ==> all.contains(#[trigger] xs[j]),
    ensures
        forall|k: int| 0 <= k < internal_edges(all, xs).len() ==> is_file_id(all, (#[trigger] internal_edges(all, xs)[k]).0)
            && is_file_id(all, internal_edges(all, xs)[k].1),
        forall|k: int| 0 <= k < external_edges(all, xs).len() ==> is_file_id(all, (#[trigger] external_edges(all, xs)[k]).0),
    decreases xs.len(),
{
    if xs.len() > 0 {
        let d = xs.drop_last();
        assert forall|j: int| 0 <= j < d.len() implies all.contains(#[trigger] d[j]) by {
            assert(d[j] == xs[j]);
        }
        lemma_import_pairs(all, d);
        let x = xs.last();
        assert(all.contains(xs[xs.len() - 1]));
        let i = choose|i: int| 0 <= i < all.len() && all[i] == x;
        assert(is_file_id(all, file_id(x))) by {
            assert(file_id(all[i]) == file_id(x));
        }
        lemma_internal_of(all, file_id(x), x.imports);
        lemma_external_of(all, file_id(x), x.imports);
        let r = internal_edges(all, xs);
        let q = internal_edges(all, d);
        let t = internal_of(all, file_id(x), x.imports);
        assert(r == q + t);
        assert forall|k: int| 0 <= k < r.len() implies is_file_id(all, (#[trigger] r[k]).0) && is_file_id(all, r[k].1) by {
            if k < q.len() {
                assert(r[k] == q[k]);
            } else {
                assert(r[k] == t[k - q.len()]);
            }
        }
        let re = external_edges(all, xs);
        let qe = external_edges(all, d);
        let te = external_of(all, file_id(x), x.imports);
        assert(re == qe + te);
        assert forall|k: int| 0 <= k < re.len() implies is_file_id(all, (#[trigger] re[k]).0) by {
            if k < qe.len() {
                assert(re[k] == qe[k]);
            } else {
                assert(re[k] == te[k - qe.len()]);
            }
        }
    }
}

/// The resolved imports of one file start at it and end at parsed files.
proof fn lemma_internal_of(all: Seq<AstView>, from: Seq<char>, imps: Seq<ImportView>)
    ensures
        forall|k: int| 0 <= k < internal_of(all, from, imps).len() ==> (#[trigger] internal_of(all, from, imps)[k]).0 == from
            && is_file_id(all, internal_of(all, from, imps)[k].1),
    decreases imps.len(),
{
    if imps.len() > 0 {
        lemma_internal_of(all, from, imps.drop_last());
        let seg = last_segment(imps.last().source);
        lemma_stem_matches(all, seg);
        let r = internal_of(all, from, imps);
        let q = internal_of(all, from, imps.drop_last());
        assert forall|k: int| 0 <= k < r.len() implies (#[trigger] r[k]).0 == from && is_file_id(all, r[k].1) by {
            if k < q.len() {
                assert(r[k] == q[k]);
            } else {
                assert(is_file_id(all, stem_matches(all, seg)[0]));
            }
        }
    }
}

/// The unresolved imports of one file start at it.
proof fn lemma_external_of(all: Seq<AstView>, from: Seq<char>, imps: Seq<ImportView>)
    ensures
        forall|k: int| 0 <= k < external_of(all, from, imps).len() ==> (#[trigger] external_of(all, from, imps)[k]).0 == from,
    decreases imps.len(),
{
    if imps.len() > 0 {
        lemma_external_of(all, from, imps.drop_last());
        let r = external_of(all, from, imps);
        let q = external_of(all, from, imps.drop_last());
        assert forall|k: int| 0 <= k < r.len() implies (#[trigger] r[k]).0 == from by {
            if k < q.len() {
                assert(r[k] == q[k]);
            }
        }
    }
}

/// Import edges follow the pairs they come from.
proof fn lemma_import_edges(internal: Seq<Pair>, external: Seq<Pair>)
    ensures
        internal_import_edges(internal).len() == internal.len(),
        forall|k: int| 0 <= k < internal.len() ==> (#[trigger] internal_import_edges(internal)[k]).from == internal[k].0
            && internal_import_edges(internal)[k].to == internal[k].1,
        external_import_edges(external).len() == external.len(),
        forall|k: int| 0 <= k < external.len() ==> (#[trigger] external_import_edges(external)[k]).from == external[k].0
            && external_import_edges(external)[k].to == ext_id(external[k].1),
    decreases internal.len() + external.len(),
{
    if internal.len() > 0 {
        lemma_import_edges(internal.drop_last(), external);
        assert forall|k: int| 0 <= k < internal.len() implies (#[trigger] internal_import_edges(internal)[k]).from == internal[k].0
            && internal_import_edges(internal)[k].to == internal[k].1 by {
            if k < internal.len() - 1 {
                assert(internal_import_edges(internal)[k] == internal_import_edges(internal.drop_last())[k]);
                assert(internal[k] == internal.drop_last()[k]);
            }
        }
    } else if external.len() > 0 {
        lemma_import_edges(internal, external.drop_last());
        assert forall|k: int| 0 <= k < external.len() implies (#[trigger] external_import_edges(external)[k]).from == external[k].0
            && external_import_edges(external)[k].to == ext_id(external[k].1) by {
            if k < external.len() - 1 {
                assert(external_import_edges(external)[k] == external_import_edges(external.drop_last())[k]);
                assert(external[k] == external.drop_last()[k]);
            }
        }
    }
}

/// Every import edge of the dependency graph leads from a file node to a
/// file node or to an external dependency node.
proof fn lemma_dependency_joins(asts: Seq<AstView>)
    ensures
        edges_join_nodes(
            GraphView {
                nodes: add_nodes(add_nodes(Seq::empty(), file_nodes(asts)), ext_nodes(external_edges(asts, asts))),
                edges: dep_edges(internal_edges(asts, asts), external_edges(asts, asts)),
            },
        ),
{
    let internal = internal_edges(asts, asts);
    let external = external_edges(asts, asts);
    let e = Seq::<NodeView>::empty();
    let acc = add_nodes(e, file_nodes(asts));
    let nodes = add_nodes(acc, ext_nodes(external));
    let edges = dep_edges(internal, external);
    assert forall|j: int| 0 <= j < asts.len() implies asts.contains(#[trigger] asts[j]) by {}
    lemma_import_pairs(asts, asts);
    lemma_import_edges(internal, external);
    lemma_add_nodes_ids(e, file_nodes(asts));
    lemma_add_nodes_ids(acc, ext_nodes(external));
    assert forall|id: Seq<char>| #[trigger] is_file_id(asts, id) implies has_id(nodes, id) by {
        let i = choose|i: int| 0 <= i < asts.len() && #[trigger] file_id(asts[i]) == id;
        assert(file_nodes(asts)[i].id == id);
        assert(has_id(acc, file_nodes(asts)[i].id));
        let m = choose|m: int| 0 <= m < acc.len() && #[trigger] acc[m].id == id;
        assert(has_id(nodes, acc[m].id));
    }
    let ni = internal_import_edges(internal);
    let ne = external_import_edges(external);
    assert(edges == ni + ne);
    let g = GraphView { nodes, edges };
    assert forall|k: int| 0 <= k < edges.len() implies has_id(nodes, (#[trigger] edges[k]).from) && has_id(nodes, edges[k].to) by {
        if k < ni.len() {
            assert(edges[k] == ni[k]);
            assert(is_file_id(asts, internal[k].0));
            assert(is_file_id(asts, internal[k].1));
        } else {
            let j = k - ni.len();
            assert(edges[k] == ne[j]);
            assert(is_file_id(asts, external[j].0));
            assert(ext_nodes(external)[j].id == ext_id(external[j].1));
        }
    }
}

/// Module nodes list the directories of each pair's ends.
proof fn lemma_module_parts(internal: Seq<Pair>)
    ensures
        module_nodes(internal).len() == 2 * internal.len(),
        forall|j: int| 0 <= j < internal.len() ==> (#[trigger] module_nodes(internal)[2 * j]).id == dir_of(internal[j].0)
            && module_nodes(internal)[2 * j + 1].id == dir_of(internal[j].1),
        forall|k: int| 0 <= k < module_edges(internal).len() ==> exists|j: int|
            0 <= j < internal.len() && (#[trigger] module_edges(internal)[k]).from == dir_of(internal[j].0)
                && module_edges(internal)[k].to == dir_of(#[trigger] internal[j].1),
    decreases internal.len(),
{
    if internal.len() > 0 {
        let d = internal.drop_last();
        lemma_module_parts(d);
        let mn = module_nodes(internal);
        let dn = module_nodes(d);
        assert forall|j: int| 0 <= j < internal.len() implies (#[trigger] mn[2 * j]).id == dir_of(internal[j].0)
            && mn[2 * j + 1].id == dir_of(internal[j].1) by {
            if j < d.len() {
                assert(mn[2 * j] == dn[2 * j]);
                assert(mn[2 * j + 1] == dn[2 * j + 1]);
                assert(internal[j] == d[j]);
            }
        }
        let me = module_edges(internal);
        let de = module_edges(d);
        assert forall|k: int| 0 <= k < me.len() implies exists|j: int|
            0 <= j < internal.len() && (#[trigger] me[k]).from == dir_of(internal[j].0)
                && me[k].to == dir_of(#[trigger] internal[j].1) by {
            if k < de.len() {
                assert(me[k] == de[k]);
                let j = choose|j: int|
                    0 <= j < d.len() && (#[trigger] de[k]).from == dir_of(d[j].0) && de[k].to == dir_of(#[trigger] d[j].1);
                assert(internal[j] == d[j]);
            } else {
                let j = internal.len() - 1;
                assert(me[k].to == dir_of(internal[j].1));
            }
        }
    }
}

/// Every module edge leads between module nodes.
proof fn lemma_module_joins(internal: Seq<Pair>)
    ensures
        edges_join_nodes(GraphView { nodes: add_nodes(Seq::empty(), module_nodes(internal)), edges: module_edges(internal) }),
{
    let e = Seq::<NodeView>::empty();
    let mn = module_nodes(internal);
    let nodes = add_nodes(e, mn);
    let edges = module_edges(internal);
    lemma_module_parts(internal);
    lemma_add_nodes_ids(e, mn);
    assert forall|k: int| 0 <= k < edges.len() implies has_id(nodes, (#[trigger] edges[k]).from) && has_id(nodes, edges[k].to) by {
        let j = choose|j: int|
            0 <= j < internal.len() && (#[trigger] edges[k]).from == dir_of(internal[j].0) && edges[k].to == dir_of(#[trigger] internal[j].1);
        assert(mn[2 * j].id == dir_of(internal[j].0));
        assert(has_id(nodes, mn[2 * j].id));
        assert(has_id(nodes, mn[2 * j + 1].id));
    }
}

/// Whether `id` is the id of one of the functions listed in `entries`.
pub open spec fn is_entry_id(entries: Seq<Pair>, id: Seq<char>) -> bool {
    exists|k: int| 0 <= k < entries.len() && #[trigger] entries[k].1 == id
}

/// Every function of the parsed files is listed among the entries.
proof fn lemma_flat_fns(all: Seq<AstView>)
    ensures
        forall|i: int, m: int|
            0 <= i < all.len() && 0 <= m < all[i].functions.len() ==> is_entry_id(
                flat_fns(all),
                fn_id(file_id(#[trigger] all[i]), #[trigger] all[i].functions[m].name),
            ),
    decreases all.len(),
{
    if all.len() > 0 {
        let d = all.drop_last();
        lemma_flat_fns(d);
        let fl = flat_fns(all);
        let fd = flat_fns(d);
        let last = all.last();
        let fe = fn_entries(file_id(last), last.functions);
        assert(fl == fd + fe);
        assert forall|i: int, m: int|
            0 <= i < all.len() && 0 <= m < all[i].functions.len() implies is_entry_id(
                fl,
                fn_id(file_id(#[trigger] all[i]), #[trigger] all[i].functions[m].name),
            ) by {
            if i < d.len() {
                assert(all[i] == d[i]);
                let id = fn_id(file_id(d[i]), d[i].functions[m].name);
                assert(is_entry_id(fd, id));
                let k = choose|k: int| 0 <= k < fd.len() && #[trigger] fd[k].1 == id;
                assert(fl[k] == fd[k]);
            } else {
                assert(all[i] == last);
                assert(fe[m] == (last.functions[m].name, fn_id(file_id(last), last.functions[m].name)));
                assert(fl[fd.len() + m] == fe[m]);
                assert(fl[fd.len() + m].1 == fn_id(file_id(all[i]), all[i].functions[m].name));
            }
        }
    }
}

/// The ids found by name are entry ids.
proof fn lemma_ids_with(entries: Seq<Pair>, name: Seq<char>)
    ensures
        forall|k: int| 0 <= k < ids_with(entries, name).len() ==> is_entry_id(entries, #[trigger] ids_with(entries, name)[k]),
    decreases entries.len(),
{
    if entries.len() > 0 {
        let d = entries.drop_last();
        lemma_ids_with(d, name);
        let r = ids_with(entries, name);
        let q = ids_with(d, name);
        assert forall|k: int| 0 <= k < r.len() implies is_entry_id(entries, #[trigger] r[k]) by {
            if k < q.len() {
                assert(r[k] == q[k]);
                let j = choose|j: int| 0 <= j < d.len() && #[trigger] d[j].1 == q[k];
                assert(entries[j] == d[j]);
            } else {
                assert(entries[entries.len() - 1].1 == r[k]);
            }
        }
    }
}

/// Call edges of one function start at it and end at listed functions.
proof fn lemma_callee_edges(entries: Seq<Pair>, file: Seq<char>, from: Seq<char>, calls: Seq<Seq<char>>)
    ensures
        forall|k: int| 0 <= k < callee_edges(entries, file, from, calls).len() ==> (#[trigger] callee_edges(
            entries,
            file,
            from,
            calls,
        )[k]).from == from && is_entry_id(entries, callee_edges(entries, file, from, calls)[k].to),
    decreases calls.len(),
{
    if calls.len() > 0 {
        lemma_callee_edges(entries, file, from, calls.drop_last());
        let callee = calls.last();
        let ids = ids_with(entries, callee);
        lemma_ids_with(entries, callee);
        let r = callee_edges(entries, file, from, calls);
        let q = callee_edges(entries, file, from, calls.drop_last());
        assert forall|k: int| 0 <= k < r.len() implies (#[trigger] r[k]).from == from && is_entry_id(entries, r[k].to) by {
            if k < q.len() {
                assert(r[k] == q[k]);
            } else if ids.contains(fn_id(file, callee)) {
                let m = choose|m: int| 0 <= m < ids.len() && ids[m] == fn_id(file, callee);
                assert(is_entry_id(entries, ids[m]));
            } else {
                assert(is_entry_id(entries, ids[0]));
            }
        }
    }
}

/// Call edges of a file's functions start at one of them and end at
/// listed functions.
proof fn lemma_fn_edges(entries: Seq<Pair>, file: Seq<char>, fs: Seq<FunctionView>)
    ensures
        forall|k: int| 0 <= k < fn_edges(entries, file, fs).len() ==> (exists|m: int|
            0 <= m < fs.len() && (#[trigger] fn_edges(entries, file, fs)[k]).from == fn_id(file, #[trigger] fs[m].name))
            && is_entry_id(entries, fn_edges(entries, file, fs)[k].to),
    decreases fs.len(),
{
    if fs.len() > 0 {
        let d = fs.drop_last();
        lemma_fn_edges(entries, file, d);
        let from = fn_id(file, fs.last().name);
        lemma_callee_edges(entries, file, from, fs.last().calls);
        let r = fn_edges(entries, file, fs);
        let q = fn_edges(entries, file, d);
        let c = callee_edges(entries, file, from, fs.last().calls);
        assert(r == q + c);
        assert forall|k: int| 0 <= k < r.len() implies (exists|m: int|
            0 <= m < fs.len() && (#[trigger] r[k]).from == fn_id(file, #[trigger] fs[m].name))
            && is_entry_id(entries, r[k].to) by {
            if k < q.len() {
                assert(r[k] == q[k]);
                let m = choose|m: int| 0 <= m < d.len() && (#[trigger] q[k]).from == fn_id(file, #[trigger] d[m].name);
                assert(fs[m] == d[m]);
            } else {
                assert(r[k] == c[k - q.len()]);
                assert(r[k].from == fn_id(file, fs[fs.len() - 1].name));
            }
        }
    }
}

/// Call edges of parsed files lead between listed functions.
proof fn lemma_call_edges(all: Seq<AstView>, xs: Seq<AstView>)
    requires
        forall|j: int| 0 <= j < xs.len() ==> all.contains(#[trigger] xs[j]),
    ensures
        forall|k: int| 0 <= k < call_edges(flat_fns(all), xs).len() ==> is_entry_id(
            flat_fns(all),
            (#[trigger] call_edges(flat_fns(all), xs)[k]).from,
        ) && is_entry_id(flat_fns(all), call_edges(flat_fns(all), xs)[k].to),
    decreases xs.len(),
{
    if xs.len() > 0 {
        let entries = flat_fns(all);
        let d = xs.drop_last();
        assert forall|j: int| 0 <= j < d.len() implies all.contains(#[trigger] d[j]) by {
            assert(d[j] == xs[j]);
        }
        lemma_call_edges(all, d);
        let x = xs.last();
        assert(all.contains(xs[xs.len() - 1]));
        let i = choose|i: int| 0 <= i < all.len() && all[i] == x;
        lemma_flat_fns(all);
        lemma_fn_edges(entries, file_id(x), x.functions);
        let r = call_edges(entries, xs);
        let q = call_edges(entries, d);
        let f = fn_edges(entries, file_id(x), x.functions);
        assert(r == q + f);
        assert forall|k: int| 0 <= k < r.len() implies is_entry_id(entries, (#[trigger] r[k]).from)
            && is_entry_id(entries, r[k].to) by {
            if k < q.len() {
                assert(r[k] == q[k]);
            } else {
                assert(r[k] == f[k - q.len()]);
                let m = choose|m: int|
                    0 <= m < x.functions.len() && (#[trigger] f[k - q.len()]).from == fn_id(file_id(x), #[trigger] x.functions[m].name);
                assert(is_entry_id(entries, fn_id(file_id(all[i]), all[i].functions[m].name)));
            }
        }
    }
}

/// Every call edge leads between function nodes.
proof fn lemma_call_joins(all: Seq<AstView>)
    ensures
        edges_join_nodes(
            GraphView { nodes: add_nodes(Seq::empty(), call_nodes(flat_fns(all))), edges: call_edges(flat_fns(all), all) },
        ),
{
    let entries = flat_fns(all);
    let e = Seq::<NodeView>::empty();
    let cn = call_nodes(entries);
    let nodes = add_nodes(e, cn);
    let edges = call_edges(entries, all);
    assert forall|j: int| 0 <= j < all.len() implies all.contains(#[trigger] all[j]) by {}
    lemma_call_edges(all, all);
    lemma_add_nodes_ids(e, cn);
    assert forall|id: Seq<char>| #[trigger] is_entry_id(entries, id) implies has_id(nodes, id) by {
        let k = choose|k: int| 0 <= k < entries.len() && #[trigger] entries[k].1 == id;
        assert(cn[k].id == id);
        assert(has_id(nodes, cn[k].id));
    }
    assert forall|k: int| 0 <= k < edges.len() implies has_id(nodes, (#[trigger] edges[k]).from) && has_id(nodes, edges[k].to) by {
        assert(is_entry_id(entries, edges[k].from));
        assert(is_entry_id(entries, edges[k].to));
    }
}

/// Every edge of the dependency, module and call graphs leads from a node
/// of its graph to a node of its graph: imports join files and external
/// dependencies, module edges join directories, calls join functions.
pub proof fn law_graph_edges_join_nodes(asts: Seq<AstView>)
    ensures
        edges_join_nodes(dependency_graph_spec(asts, internal_edges(asts, asts), external_edges(asts, asts))),
        edges_join_nodes(module_graph_spec(internal_edges(asts, asts))),
        edges_join_nodes(call_graph_spec(asts)),
{
    let internal = internal_edges(asts, asts);
    let external = external_edges(asts, asts);
    let e = Seq::<NodeView>::empty();
    lemma_dependency_joins(asts);
    lemma_normalized_joins(
        GraphView {
            nodes: add_nodes(add_nodes(e, file_nodes(asts)), ext_nodes(external)),
            edges: dep_edges(internal, external),
        },
    );
    lemma_module_joins(internal);
    lemma_normalized_joins(GraphView { nodes: add_nodes(e, module_nodes(internal)), edges: module_edges(internal) });
    lemma_call_joins(asts);
    lemma_normalized_joins(
        GraphView { nodes: add_nodes(e, call_nodes(flat_fns(asts))), edges: call_edges(flat_fns(asts), asts) },
    );
}

/// Whether the edges strictly increase: each orders before the next and
/// no edge occurs twice.
pub open spec fn edges_increase(edges: Seq<EdgeView>) -> bool {
    forall|i: int, j: int|
        #![trigger edges[i], edges[j]]
        0 <= i < j < edges.len() ==> edges[i].order_le(&edges[j]) && edges[i] != edges[j]
}

/// Edges order totally, transitively and antisymmetrically.
proof fn lemma_edge_order()
    ensures
        order_total::<EdgeView>(),
        order_transitive::<EdgeView>(),
        forall|a: EdgeView, b: EdgeView| #[trigger] a.order_le(&b) && #[trigger] b.order_le(&a) ==> a == b,
{
    assert forall|a: EdgeView, b: EdgeView| #[trigger] a.order_le(&b) || b.order_le(&a) by {
        lemma_seq_lt_total(a.from, b.from);
        lemma_seq_lt_total(a.to, b.to);
    }
    assert forall|a: EdgeView, b: EdgeView, c: EdgeView|
        #![trigger a.order_le(&b), b.order_le(&c)]
        a.order_le(&b) && b.order_le(&c) implies a.order_le(&c) by {
        lemma_seq_lt_total(a.from, c.from);
        lemma_seq_lt_total(a.to, c.to);
        if seq_lt(a.from, b.from) && seq_lt(b.from, c.from) {
            lemma_seq_lt_trans(a.from, b.from, c.from);
        }
        if seq_lt(a.to, b.to) && seq_lt(b.to, c.to) {
            lemma_seq_lt_trans(a.to, b.to, c.to);
        }
    }
    assert forall|a: EdgeView, b: EdgeView| #[trigger] a.order_le(&b) && #[trigger] b.order_le(&a) implies a == b by {
        lemma_seq_lt_total(a.from, b.from);
        lemma_seq_lt_total(a.to, b.to);
    }
}

/// Collapsing runs of a sorted sequence of edges leaves strictly
/// increasing edges, keeping the last one.
proof fn lemma_dedup_sorted(s: Seq<EdgeView>)
    requires
        is_sorted(s),
        order_transitive::<EdgeView>(),
        forall|a: EdgeView, b: EdgeView| #[trigger] a.order_le(&b) && #[trigger] b.order_le(&a) ==> a == b,
    ensures
        edges_increase(dedup_runs(s)),
        forall|k: int| 0 <= k < dedup_runs(s).len() ==> s.contains(#[trigger] dedup_runs(s)[k]),
    decreases s.len(),
{
    lemma_dedup_edges_contains(s);
    if s.len() > 1 {
        let p = s.drop_last();
        assert(is_sorted(p)) by {
            assert forall|i: int, j: int| 0 <= i < j < p.len() implies p[i].order_le(&p[j]) by {
                assert(p[i] == s[i] && p[j] == s[j]);
            }
        }
        lemma_dedup_sorted(p);
        let d = dedup_runs(p);
        let r = dedup_runs(s);
        let l = s.last();
        let n = s.len() - 1;
        if l != s[n - 1] {
            assert(r == d.push(l));
            assert forall|i: int| 0 <= i < d.len() implies (#[trigger] d[i]).order_le(&l) && d[i] != l by {
                assert(p.contains(d[i]));
                let m = choose|m: int| 0 <= m < p.len() && p[m] == d[i];
                assert(s[m] == p[m]);
                assert(s[m].order_le(&s[n]));
                if m < n - 1 {
                    assert(s[m].order_le(&s[n - 1]));
                }
                assert(s[n - 1].order_le(&s[n]));
                if d[i] == l {
                    assert(s[n].order_le(&s[n - 1]));
                }
            }
            assert forall|i: int, j: int|
                #![trigger r[i], r[j]]
                0 <= i < j < r.len() implies r[i].order_le(&r[j]) && r[i] != r[j] by {
                if j == d.len() {
                    assert(r[i] == d[i] && r[j] == l);
                } else {
                    assert(r[i] == d[i] && r[j] == d[j]);
                }
            }
        }
    }
}

/// The edges of every graph of the architecture model come sorted by
/// source, then target, then kind, each edge once.
pub proof fn law_graph_edges_sorted_unique(asts: Seq<AstView>, root: FileNode)
    ensures
        edges_increase(folder_graph_spec(root).edges),
        edges_increase(dependency_graph_spec(asts, internal_edges(asts, asts), external_edges(asts, asts)).edges),
        edges_increase(module_graph_spec(internal_edges(asts, asts)).edges),
        edges_increase(call_graph_spec(asts).edges),
{
    lemma_edge_order();
    let internal = internal_edges(asts, asts);
    let external = external_edges(asts, asts);
    let f = folder_edges(root);
    let d = dep_edges(internal, external);
    let m = module_edges(internal);
    let c = call_edges(flat_fns(asts), asts);
    lemma_sort_sorted(f);
    lemma_sort_sorted(d);
    lemma_sort_sorted(m);
    lemma_sort_sorted(c);
    lemma_dedup_sorted(sort_seq(f));
    lemma_dedup_sorted(sort_seq(d));
    lemma_dedup_sorted(sort_seq(m));
    lemma_dedup_sorted(sort_seq(c));
}

// --- Edge kinds and folder edges ------------------------------------------

/// Whether every edge of `es` has kind `k`.
pub open spec fn edges_of_kind(es: Seq<EdgeView>, k: EdgeKind) -> bool {
    forall|i: int| 0 <= i < es.len() ==> (#[trigger] es[i]).kind == k
}

/// Whether no edge of `es` leads from a node to itself.
pub open spec fn no_self_edges(es: Seq<EdgeView>) -> bool {
    forall|i: int| 0 <= i < es.len() ==> (#[trigger] es[i]).from != es[i].to
}

/// Normalizing keeps only edges of the graph.
proof fn lemma_normalized_edges(g: GraphView)
    ensures
        forall|k: int| 0 <= k < normalized(g).edges.len() ==> g.edges.contains(#[trigger] normalized(g).edges[k]),
{
    let se = sort_seq(g.edges);
    lemma_dedup_edges_contains(se);
    lemma_sort_contains(g.edges);
    assert forall|k: int| 0 <= k < normalized(g).edges.len() implies g.edges.contains(#[trigger] normalized(g).edges[k]) by {
        assert(se.contains(normalized(g).edges[k]));
        let m = choose|m: int| 0 <= m < se.len() && se[m] == normalized(g).edges[k];
        assert(g.edges.contains(se[m]));
    }
}

/// Normalizing keeps the kind of every edge and the absence of self-edges.
proof fn lemma_normalized_kind(g: GraphView, k: EdgeKind)
    ensures
        edges_of_kind(g.edges, k) ==> edges_of_kind(normalized(g).edges, k),
        no_self_edges(g.edges) ==> no_self_edges(normalized(g).edges),
{
    lemma_normalized_edges(g);
    let n = normalized(g).edges;
    assert forall|i: int| 0 <= i < n.len() implies exists|j: int| 0 <= j < g.edges.len() && g.edges[j] == #[trigger] n[i] by {
        assert(g.edges.contains(n[i]));
    }
}

/// Containment edges are all of kind `Contains`.
proof fn lemma_folder_kind(n: FileNode)
    ensures
        edges_of_kind(folder_edges(n), EdgeKind::Contains),
    decreases n,
{
    match n {
        FileNode::File { .. } => {},
        FileNode::Directory { path, children } => {
            lemma_folder_kind_in(dir_id(path@), children@);
        },
    }
}

/// Containment edges of a list of subtrees are all of kind `Contains`.
proof fn lemma_folder_kind_in(parent: Seq<char>, cs: Seq<FileNode>)
    ensures
        edges_of_kind(folder_edges_in(parent, cs), EdgeKind::Contains),
    decreases cs,
{
    if cs.len() > 0 {
        lemma_folder_kind_in(parent, cs.drop_last());
        let a = folder_edges_in(parent, cs.drop_last());
        match cs.last() {
            FileNode::Directory { path, .. } => {
                assert(decreases_to!(cs => cs.last()));
                lemma_folder_kind(cs.last());
                let b = seq![EdgeView { from: parent, to: normalize_path(path@), kind: EdgeKind::Contains }]
                    + folder_edges(cs.last());
                assert(folder_edges_in(parent, cs) == a + b);
                assert forall|i: int| 0 <= i < (a + b).len() implies (#[trigger] (a + b)[i]).kind
                    == EdgeKind::Contains by {
                    if i < a.len() {
                        assert((a + b)[i] == a[i]);
                    } else if i > a.len() {
                        assert((a + b)[i] == folder_edges(cs.last())[i - a.len() - 1]);
                    }
                }
            },
            FileNode::File { .. } => {
                assert(folder_edges_in(parent, cs) =~= a);
            },
        }
    }
}

/// Import edges are all of kind `Imports`.
proof fn lemma_import_kind(internal: Seq<Pair>, external: Seq<Pair>)
    ensures
        edges_of_kind(internal_import_edges(internal), EdgeKind::Imports),
        edges_of_kind(external_import_edges(external), EdgeKind::Imports),
        edges_of_kind(dep_edges(internal, external), EdgeKind::Imports),
    decreases internal.len() + external.len(),
{
    if internal.len() > 0 {
        lemma_import_kind(internal.drop_last(), external);
        let a = internal_import_edges(internal.drop_last());
        assert forall|i: int| 0 <= i < internal_import_edges(internal).len() implies (
        #[trigger] internal_import_edges(internal)[i]).kind == EdgeKind::Imports by {
            if i < a.len() {
                assert(internal_import_edges(internal)[i] == a[i]);
            }
        }
    }
    if external.len() > 0 {
        lemma_import_kind(Seq::empty(), external.drop_last());
        let a = external_import_edges(external.drop_last());
        assert forall|i: int| 0 <= i < external_import_edges(external).len() implies (
        #[trigger] external_import_edges(external)[i]).kind == EdgeKind::Imports by {
            if i < a.len() {
                assert(external_import_edges(external)[i] == a[i]);
            }
        }
    }
    let d = dep_edges(internal, external);
    let ie = internal_import_edges(internal);
    let ee = external_import_edges(external);
    assert forall|i: int| 0 <= i < d.len() implies (#[trigger] d[i]).kind == EdgeKind::Imports by {
        if i < ie.len() {
            assert(d[i] == ie[i]);
        } else {
            assert(d[i] == ee[i - ie.len()]);
        }
    }
}

/// Module edges are of kind `DependsOn` and join two different modules.
proof fn lemma_module_kind(internal: Seq<Pair>)
    ensures
        edges_of_kind(module_edges(internal), EdgeKind::DependsOn),
        no_self_edges(module_edges(internal)),
    decreases internal.len(),
{
    if internal.len() > 0 {
        lemma_module_kind(internal.drop_last());
        let a = module_edges(internal.drop_last());
        let m = module_edges(internal);
        assert forall|i: int| 0 <= i < m.len() implies (#[trigger] m[i]).kind == EdgeKind::DependsOn
            && m[i].from != m[i].to by {
            if i < a.len() {
                assert(m[i] == a[i]);
            }
        }
    }
}

/// Call edges from one function are of kind `Calls`.
proof fn lemma_callee_kind(entries: Seq<Pair>, file: Seq<char>, from: Seq<char>, calls: Seq<Seq<char>>)
    ensures
        edges_of_kind(callee_edges(entries, file, from, calls), EdgeKind::Calls),
    decreases calls.len(),
{
    if calls.len() > 0 {
        lemma_callee_kind(entries, file, from, calls.drop_last());
        let a = callee_edges(entries, file, from, calls.drop_last());
        let c = callee_edges(entries, file, from, calls);
        assert forall|i: int| 0 <= i < c.len() implies (#[trigger] c[i]).kind == EdgeKind::Calls by {
            if i < a.len() {
                assert(c[i] == a[i]);
            }
        }
    }
}

/// Two runs of edges of kind `k` make a run of kind `k`.
proof fn lemma_kind_concat(a: Seq<EdgeView>, b: Seq<EdgeView>, k: EdgeKind)
    requires
        edges_of_kind(a, k),
        edges_of_kind(b, k),
    ensures
        edges_of_kind(a + b, k),
{
    assert forall|i: int| 0 <= i < (a + b).len() implies (#[trigger] (a + b)[i]).kind == k by {
        if i < a.len() {
            assert((a + b)[i] == a[i]);
        } else {
            assert((a + b)[i] == b[i - a.len()]);
        }
    }
}

/// Call edges of the functions of a file are of kind `Calls`.
proof fn lemma_fn_kind(entries: Seq<Pair>, file: Seq<char>, fs: Seq<FunctionView>)
    ensures
        edges_of_kind(fn_edges(entries, file, fs), EdgeKind::Calls),
    decreases fs.len(),
{
    if fs.len() > 0 {
        lemma_fn_kind(entries, file, fs.drop_last());
        lemma_callee_kind(entries, file, fn_id(file, fs.last().name), fs.last().calls);
        lemma_kind_concat(
            fn_edges(entries, file, fs.drop_last()),
            callee_edges(entries, file, fn_id(file, fs.last().name), fs.last().calls),
            EdgeKind::Calls,
        );
    }
}

/// Call edges of the parsed files are of kind `Calls`.
proof fn lemma_call_kind(entries: Seq<Pair>, asts: Seq<AstView>)
    ensures
        edges_of_kind(call_edges(entries, asts), EdgeKind::Calls),
    decreases asts.len(),
{
    if asts.len() > 0 {
        lemma_call_kind(entries, asts.drop_last());
        lemma_fn_kind(entries, file_id(asts.last()), asts.last().functions);
        lemma_kind_concat(
            call_edges(entries, asts.drop_last()),
            fn_edges(entries, file_id(asts.last()), asts.last().functions),
            EdgeKind::Calls,
        );
    }
}

/// Each graph has edges of one kind: the folder graph `Contains`, the
/// dependency graph `Imports`, the module graph `DependsOn` and the call
/// graph `Calls`; no module depends on itself.
pub proof fn law_graph_edge_kinds(asts: Seq<AstView>, root: FileNode)
    ensures
        edges_of_kind(folder_graph_spec(root).edges, EdgeKind::Contains),
        edges_of_kind(
            dependency_graph_spec(asts, internal_edges(asts, asts), external_edges(asts, asts)).edges,
            EdgeKind::Imports,
        ),
        edges_of_kind(module_graph_spec(internal_edges(asts, asts)).edges, EdgeKind::DependsOn),
        no_self_edges(module_graph_spec(internal_edges(asts, asts)).edges),
        edges_of_kind(call_graph_spec(asts).edges, EdgeKind::Calls),
{
    let internal = internal_edges(asts, asts);
    let external = external_edges(asts, asts);
    let e = Seq::<NodeView>::empty();
    lemma_folder_kind(root);
    lemma_normalized_kind(
        GraphView { nodes: add_nodes(e, folder_nodes(root)), edges: folder_edges(root) },
        EdgeKind::Contains,
    );
    lemma_import_kind(internal, external);
    lemma_normalized_kind(
        GraphView {
            nodes: add_nodes(add_nodes(e, file_nodes(asts)), ext_nodes(external)),
            edges: dep_edges(internal, external),
        },
        EdgeKind::Imports,
    );
    lemma_module_kind(internal);
    lemma_normalized_kind(
        GraphView { nodes: add_nodes(e, module_nodes(internal)), edges: module_edges(internal) },
        EdgeKind::DependsOn,
    );
    lemma_call_kind(flat_fns(asts), asts);
    lemma_normalized_kind(
        GraphView { nodes: add_nodes(e, call_nodes(flat_fns(asts))), edges: call_edges(flat_fns(asts), asts) },
        EdgeKind::Calls,
    );
}

/// Whether every directory below `n` has a non-empty normalized path, so
/// that its node id is that path.
pub open spec fn subdirs_named(n: FileNode) -> bool
    decreases n,
{
    match n {
        FileNode::File { .. } => true,
        FileNode::Directory { children, .. } => subdirs_named_in(children@),
    }
}

/// Whether every directory among and below `cs` has a non-empty normalized
/// path.
pub open spec fn subdirs_named_in(cs: Seq<FileNode>) -> bool
    decreases cs,
{
    if cs.len() == 0 {
        true
    } else {
        &&& subdirs_named_in(cs.drop_last())
        &&& subdirs_named(cs.last())
        &&& cs.last() matches FileNode::Directory { path, .. } ==> normalize_path(path@).len() > 0
    }
}

/// An id is among a concatenation's ids exactly when it is among the ids of
/// one of the parts.
proof fn lemma_has_id_concat(a: Seq<NodeView>, b: Seq<NodeView>, id: Seq<char>)
    ensures
        has_id(a + b, id) <==> (has_id(a, id) || has_id(b, id)),
{
    if has_id(a, id) {
        let i = choose|i: int| 0 <= i < a.len() && #[trigger] a[i].id == id;
        assert((a + b)[i] == a[i]);
    }
    if has_id(b, id) {
        let j = choose|j: int| 0 <= j < b.len() && #[trigger] b[j].id == id;
        assert((a + b)[a.len() + j] == b[j]);
    }
    if has_id(a + b, id) {
        let m = choose|m: int| 0 <= m < (a + b).len() && #[trigger] (a + b)[m].id == id;
        if m < a.len() {
            assert(a[m] == (a + b)[m]);
        } else {
            assert(b[m - a.len()] == (a + b)[m]);
        }
    }
}

/// The containment edges of a subtree join directories of that subtree.
proof fn lemma_folder_joins(n: FileNode)
    requires
        subdirs_named(n),
    ensures
        forall|k: int|
            0 <= k < folder_edges(n).len() ==> has_id(folder_nodes(n), (#[trigger] folder_edges(n)[k]).from)
                && has_id(folder_nodes(n), folder_edges(n)[k].to),
    decreases n,
{
    match n {
        FileNode::File { .. } => {},
        FileNode::Directory { path, children } => {
            let parent = dir_id(path@);
            let me = NodeView { id: parent, label: dir_label(path@), kind: NodeKind::Directory };
            lemma_folder_joins_in(parent, children@);
            let rest = folder_nodes_in(children@);
            let es = folder_edges(n);
            assert(folder_nodes(n) == seq![me] + rest);
            assert forall|k: int| 0 <= k < es.len() implies has_id(folder_nodes(n), (#[trigger] es[k]).from)
                && has_id(folder_nodes(n), es[k].to) by {
                lemma_has_id_concat(seq![me], rest, es[k].from);
                lemma_has_id_concat(seq![me], rest, es[k].to);
                if es[k].from == parent {
                    assert(seq![me][0].id == parent);
                }
            }
        },
    }
}

/// The containment edges of a list of subtrees lead from `parent` or a
/// directory of the subtrees, to a directory of the subtrees.
proof fn lemma_folder_joins_in(parent: Seq<char>, cs: Seq<FileNode>)
    requires
        subdirs_named_in(cs),
    ensures
        forall|k: int|
            0 <= k < folder_edges_in(parent, cs).len() ==> ((#[trigger] folder_edges_in(parent, cs)[k]).from
                == parent || has_id(folder_nodes_in(cs), folder_edges_in(parent, cs)[k].from)) && has_id(
                folder_nodes_in(cs),
                folder_edges_in(parent, cs)[k].to,
            ),
    decreases cs,
{
    if cs.len() > 0 {
        let init = cs.drop_last();
        let last = cs.last();
        lemma_folder_joins_in(parent, init);
        let a = folder_edges_in(parent, init);
        let na = folder_nodes_in(init);
        let nb = folder_nodes(last);
        assert(folder_nodes_in(cs) == na + nb);
        let es = folder_edges_in(parent, cs);
        match last {
            FileNode::Directory { path, .. } => {
                assert(decreases_to!(cs => cs.last()));
                lemma_folder_joins(last);
                let fe = folder_edges(last);
                let direct = EdgeView { from: parent, to: normalize_path(path@), kind: EdgeKind::Contains };
                assert(es == a + (seq![direct] + fe));
                assert(nb[0].id == dir_id(path@));
                assert(dir_id(path@) == normalize_path(path@));
                assert forall|k: int| 0 <= k < es.len() implies ((#[trigger] es[k]).from == parent || has_id(
                    na + nb,
                    es[k].from,
                )) && has_id(na + nb, es[k].to) by {
                    lemma_has_id_concat(na, nb, es[k].from);
                    lemma_has_id_concat(na, nb, es[k].to);
                    if k < a.len() {
                        assert(es[k] == a[k]);
                    } else if k == a.len() {
                        assert(es[k] == direct);
                        assert(has_id(nb, nb[0].id));
                    } else {
                        assert(es[k] == fe[k - a.len() - 1]);
                    }
                }
            },
            FileNode::File { .. } => {
                assert(es =~= a);
                assert forall|k: int| 0 <= k < es.len() implies ((#[trigger] es[k]).from == parent || has_id(
                    na + nb,
                    es[k].from,
                )) && has_id(na + nb, es[k].to) by {
                    lemma_has_id_concat(na, nb, es[k].from);
                    lemma_has_id_concat(na, nb, es[k].to);
                    assert(es[k] == a[k]);
                }
            },
        }
    }
}

/// Every containment edge of the folder graph leads from a directory node
/// to a directory node, when every directory below the root has a
/// non-empty path (the root's node is `.`).
pub proof fn law_folder_edges_join_nodes(root: FileNode)
    requires
        subdirs_named(root),
    ensures
        edges_join_nodes(folder_graph_spec(root)),
{
    let e = Seq::<NodeView>::empty();
    let fnodes = folder_nodes(root);
    let nodes = add_nodes(e, fnodes);
    let edges = folder_edges(root);
    lemma_folder_joins(root);
    lemma_add_nodes_ids(e, fnodes);
    assert forall|k: int| 0 <= k < edges.len() implies has_id(nodes, (#[trigger] edges[k]).from) && has_id(
        nodes,
        edges[k].to,
    ) by {
        let a = choose|a: int| 0 <= a < fnodes.len() && #[trigger] fnodes[a].id == edges[k].from;
        let b = choose|b: int| 0 <= b < fnodes.len() && #[trigger] fnodes[b].id == edges[k].to;
        assert(has_id(nodes, fnodes[a].id));
        assert(has_id(nodes, fnodes[b].id));
    }
    lemma_normalized_joins(GraphView { nodes, edges });
}

} // verus!
