use vstd::prelude::*;

use crate::order::views;

verus! {

/// Kind of a graph node.
#[derive(Clone, Copy, PartialEq, Eq, Structural, Debug)]
pub enum NodeKind {
    /// A source file.
    File,
    /// A directory.
    Directory,
    /// A module (a directory grouping of files).
    Module,
    /// A function or method.
    Function,
    /// An external dependency (unresolved import target).
    External,
}

/// A node in an architecture graph.
#[derive(Clone, PartialEq, Eq, Debug)]
pub struct GraphNode {
    /// Stable, unique identifier within the graph.
    pub id: String,
    /// Human-readable label.
    pub label: String,
    /// What the node represents.
    pub kind: NodeKind,
}

/// Kind of a graph edge.
#[derive(Clone, Copy, PartialEq, Eq, Structural, Debug)]
pub enum EdgeKind {
    /// A directory contains a file or subdirectory.
    Contains,
    /// A file imports another file or an external dependency.
    Imports,
    /// A module depends on another module.
    DependsOn,
    /// A function calls another function.
    Calls,
}

/// A directed edge between two nodes, referenced by id.
#[derive(Clone, PartialEq, Eq, Debug)]
pub struct GraphEdge {
    /// Source node id.
    pub from: String,
    /// Target node id.
    pub to: String,
    /// What the edge represents.
    pub kind: EdgeKind,
}

/// A directed graph of nodes and edges.
#[derive(Clone, PartialEq, Eq, Debug)]
pub struct Graph {
    /// Nodes, in a deterministic order.
    pub nodes: Vec<GraphNode>,
    /// Edges, in a deterministic order.
    pub edges: Vec<GraphEdge>,
}

/// The complete architecture model of a repository: four related graphs
/// derived from the AST and file tree.
#[derive(Clone, PartialEq, Eq, Debug)]
pub struct ArchitectureModel {
    /// Directory containment graph.
    pub folder_graph: Graph,
    /// File-to-file import graph.
    pub dependency_graph: Graph,
    /// Module-to-module dependency graph (directories).
    pub module_graph: Graph,
    /// Function-to-function call graph.
    pub call_graph: Graph,
}

/// Abstract view of a [`GraphNode`].
pub struct NodeView {
    pub id: Seq<char>,
    pub label: Seq<char>,
    pub kind: NodeKind,
}

/// Abstract view of a [`GraphEdge`].
pub struct EdgeView {
    pub from: Seq<char>,
    pub to: Seq<char>,
    pub kind: EdgeKind,
}

/// Abstract view of a [`Graph`].
pub struct GraphView {
    pub nodes: Seq<NodeView>,
    pub edges: Seq<EdgeView>,
}

impl View for GraphNode {
    type V = NodeView;

    open spec fn view(&self) -> NodeView {
        NodeView { id: self.id@, label: self.label@, kind: self.kind }
    }
}

impl View for GraphEdge {
    type V = EdgeView;

    open spec fn view(&self) -> EdgeView {
        EdgeView { from: self.from@, to: self.to@, kind: self.kind }
    }
}

impl View for Graph {
    type V = GraphView;

    open spec fn view(&self) -> GraphView {
        GraphView { nodes: views(self.nodes@), edges: views(self.edges@) }
    }
}

impl GraphNode {
    /// A node with the given id, label and kind.
    pub fn new(id: &str, label: &str, kind: NodeKind) -> (r: GraphNode)
        ensures
            r@ == (NodeView { id: id@, label: label@, kind }),
    {
        GraphNode { id: id.to_owned(), label: label.to_owned(), kind }
    }

    /// A copy of this node.
    pub fn duplicate(&self) -> (r: GraphNode)
        ensures
            r@ == self@,
    {
        GraphNode { id: self.id.clone(), label: self.label.clone(), kind: self.kind }
    }
}

impl GraphEdge {
    /// An edge from `from` to `to` of the given kind.
    pub fn new(from: &str, to: &str, kind: EdgeKind) -> (r: GraphEdge)
        ensures
            r@ == (EdgeView { from: from@, to: to@, kind }),
    {
        GraphEdge { from: from.to_owned(), to: to.to_owned(), kind }
    }
}

impl Graph {
    /// A graph with no nodes and no edges.
    pub fn empty() -> (r: Graph)
        ensures
            r@.nodes.len() == 0,
            r@.edges.len() == 0,
    {
        Graph { nodes: Vec::new(), edges: Vec::new() }
    }
}

} // verus!
