//! The directed graph that stores nodes and edges.
//!
//! Storage is a `petgraph` graph. What is assumed of it is stated here, over the
//! nodes and the edges that a graph holds.

use crate::domain::edge::EdgeKind;
use crate::domain::node::Node;
use petgraph::graph::DiGraph;
use petgraph::visit::EdgeRef;
use vstd::prelude::*;

verus! {

/// The graph type of `petgraph`.
#[verifier::external_type_specification]
#[verifier::external_body]
#[verifier::reject_recursive_types(N)]
#[verifier::reject_recursive_types(E)]
#[verifier::reject_recursive_types(Ty)]
#[verifier::reject_recursive_types(Ix)]
pub struct ExGraph<N, E, Ty, Ix>(petgraph::Graph<N, E, Ty, Ix>);

/// The marker of directed graphs of `petgraph`.
#[verifier::external_type_specification]
#[verifier::external_body]
pub struct ExDirected(petgraph::Directed);

/// Position of a node in the graph.
#[derive(Debug, Clone, Copy, PartialEq, Eq, PartialOrd, Ord, Hash, Structural)]
pub struct NodeIndex {
    pub ix: u32,
}

impl NodeIndex {
    /// The index of the node at a position.
    pub fn new(position: usize) -> (r: Self)
        requires
            position <= u32::MAX,
        ensures
            r.ix == position,
    {
        NodeIndex { ix: position as u32 }
    }

    pub fn index(self) -> (position: usize)
        ensures
            position == self.ix,
    {
        self.ix as usize
    }
}

/// An edge from one node to another.
#[derive(Debug, Clone, Copy, PartialEq, Eq, Structural)]
pub struct Link {
    pub source: NodeIndex,
    pub target: NodeIndex,
    pub kind: EdgeKind,
}

/// Which end of its edges a node is at.
#[derive(Debug, Clone, Copy, PartialEq, Eq, Structural)]
pub enum EdgeDirection {
    /// Edges that start at the node.
    Outgoing,
    /// Edges that end at the node.
    Incoming,
}

/// The node weights of a graph, by index.
pub uninterp spec fn graph_nodes(graph: DiGraph<Node, EdgeKind>) -> Seq<Node>;

/// The edges of a graph, in the order in which they were added.
pub uninterp spec fn graph_links(graph: DiGraph<Node, EdgeKind>) -> Seq<Link>;

/// The edges that start or end at a node, the newest first.
pub open spec fn links_at(links: Seq<Link>, node: NodeIndex, direction: EdgeDirection) -> Seq<Link>
    decreases links.len(),
{
    if links.len() == 0 {
        Seq::empty()
    } else {
        let older = links_at(links.drop_last(), node, direction);
        let link = links.last();
        let end = match direction {
            EdgeDirection::Outgoing => link.source,
            EdgeDirection::Incoming => link.target,
        };
        if end == node {
            seq![link] + older
        } else {
            older
        }
    }
}

/// An edge is listed at both of its ends.
pub proof fn lemma_link_listed(links: Seq<Link>, i: int, direction: EdgeDirection)
    requires
        0 <= i < links.len(),
    ensures
        match direction {
            EdgeDirection::Outgoing => links_at(links, links[i].source, direction).contains(
                links[i],
            ),
            EdgeDirection::Incoming => links_at(links, links[i].target, direction).contains(
                links[i],
            ),
        },
    decreases links.len(),
{
    let rest = links.drop_last();
    let node = match direction {
        EdgeDirection::Outgoing => links[i].source,
        EdgeDirection::Incoming => links[i].target,
    };
    let older = links_at(rest, node, direction);
    let all = links_at(links, node, direction);
    if i < rest.len() {
        assert(rest[i] == links[i]);
        lemma_link_listed(rest, i, direction);
        let k = choose|k: int| 0 <= k < older.len() && older[k] == links[i];
        if all.len() == older.len() {
            assert(all[k] == links[i]);
        } else {
            assert(all[k + 1] == links[i]);
        }
    } else {
        assert(all[0] == links[i]);
    }
}

/// `Graph::new` makes a graph without nodes and edges.
#[verifier::external_body]
pub(crate) fn new_graph() -> (graph: DiGraph<Node, EdgeKind>)
    ensures
        graph_nodes(graph) == Seq::<Node>::empty(),
        graph_links(graph) == Seq::<Link>::empty(),
{
    DiGraph::new()
}

/// `Graph::add_node` adds a node with the next index, which it returns. It panics
/// when the graph is at the largest number of nodes for its index type.
#[verifier::external_body]
pub(crate) fn add_node(graph: &mut DiGraph<Node, EdgeKind>, node: Node) -> (r: NodeIndex)
    requires
        graph_nodes(*old(graph)).len() < u32::MAX,
    ensures
        r.ix == graph_nodes(*old(graph)).len(),
        graph_nodes(*final(graph)) == graph_nodes(*old(graph)).push(node),
        graph_links(*final(graph)) == graph_links(*old(graph)),
{
    NodeIndex { ix: graph.add_node(node).index() as u32 }
}

/// `Graph::add_edge` adds an edge, also where there is one between the two nodes.
/// It panics when one of the nodes does not exist, or when the graph is at the
/// largest number of edges for its index type.
#[verifier::external_body]
pub(crate) fn add_edge(
    graph: &mut DiGraph<Node, EdgeKind>,
    source: NodeIndex,
    target: NodeIndex,
    kind: EdgeKind,
)
    requires
        source.ix < graph_nodes(*old(graph)).len(),
        target.ix < graph_nodes(*old(graph)).len(),
        graph_links(*old(graph)).len() < u32::MAX,
    ensures
        graph_nodes(*final(graph)) == graph_nodes(*old(graph)),
        graph_links(*final(graph)) == graph_links(*old(graph)).push(
            Link { source, target, kind },
        ),
{
    graph.add_edge(source.ix.into(), target.ix.into(), kind);
}

/// `Graph::node_count` returns the number of nodes.
#[verifier::external_body]
pub(crate) fn node_count(graph: &DiGraph<Node, EdgeKind>) -> (n: usize)
    ensures
        n == graph_nodes(*graph).len(),
{
    graph.node_count()
}

/// `Graph::edge_count` returns the number of edges.
#[verifier::external_body]
pub(crate) fn edge_count(graph: &DiGraph<Node, EdgeKind>) -> (n: usize)
    ensures
        n == graph_links(*graph).len(),
{
    graph.edge_count()
}

/// `Index` of `Graph` returns the weight of a node. It panics when the node does not
/// exist.
#[verifier::external_body]
pub(crate) fn node_at(graph: &DiGraph<Node, EdgeKind>, node: NodeIndex) -> (r: &Node)
    requires
        node.ix < graph_nodes(*graph).len(),
    ensures
        *r == graph_nodes(*graph)[node.ix as int],
{
    &graph[petgraph::graph::NodeIndex::from(node.ix)]
}

/// `Graph::node_weight_mut` gives access to the weight of a node.
#[verifier::external_body]
pub(crate) fn node_weight_mut(
    graph: &mut DiGraph<Node, EdgeKind>,
    node: NodeIndex,
) -> (r: Option<&mut Node>)
    ensures
        r is Some <==> node.ix < graph_nodes(*old(graph)).len(),
        graph_links(*final(graph)) == graph_links(*old(graph)),
        match r {
            Some(weight) => *weight == graph_nodes(*old(graph))[node.ix as int]
                && graph_nodes(*final(graph)) == graph_nodes(*old(graph)).update(
                node.ix as int,
                *final(weight),
            ),
            None => graph_nodes(*final(graph)) == graph_nodes(*old(graph)),
        },
{
    graph.node_weight_mut(node.ix.into())
}

/// `Graph::edges_directed` lists the edges of a node in one direction with their
/// weights, the most recently added edge first.
#[verifier::external_body]
pub(crate) fn edges_directed(
    graph: &DiGraph<Node, EdgeKind>,
    node: NodeIndex,
    direction: EdgeDirection,
) -> (r: Vec<Link>)
    ensures
        r@ == links_at(graph_links(*graph), node, direction),
{
    let side = match direction {
        EdgeDirection::Outgoing => petgraph::Direction::Outgoing,
        EdgeDirection::Incoming => petgraph::Direction::Incoming,
    };
    graph
        .edges_directed(node.ix.into(), side)
        .map(|edge| Link {
            source: NodeIndex { ix: edge.source().index() as u32 },
            target: NodeIndex { ix: edge.target().index() as u32 },
            kind: *edge.weight(),
        })
        .collect()
}

/// A node has no more edges than there are.
pub proof fn lemma_links_at_len(links: Seq<Link>, node: NodeIndex, direction: EdgeDirection)
    ensures
        links_at(links, node, direction).len() <= links.len(),
    decreases links.len(),
{
    if links.len() > 0 {
        lemma_links_at_len(links.drop_last(), node, direction);
    }
}

/// What is listed at a node are edges that start or end there.
pub proof fn lemma_links_at(links: Seq<Link>, node: NodeIndex, direction: EdgeDirection, k: int)
    requires
        0 <= k < links_at(links, node, direction).len(),
    ensures
        ({
            let link = links_at(links, node, direction)[k];
            &&& links.contains(link)
            &&& match direction {
                EdgeDirection::Outgoing => link.source == node,
                EdgeDirection::Incoming => link.target == node,
            }
        }),
    decreases links.len(),
{
    let rest = links.drop_last();
    let older = links_at(rest, node, direction);
    let all = links_at(links, node, direction);
    let at = if all.len() == older.len() {
        k
    } else {
        k - 1
    };
    if at < 0 {
        assert(links[links.len() - 1] == links.last());
    } else {
        lemma_links_at(rest, node, direction, at);
        assert(all[k] == older[at]);
        let i = choose|i: int| 0 <= i < rest.len() && rest[i] == older[at];
        assert(links[i] == older[at]);
    }
}

} // verus!
