//! The context graph: code units, the edges between them, and their types.

use crate::domain::digraph;
use crate::domain::digraph::{EdgeDirection, Link};
use crate::domain::edge::EdgeKind;
use crate::domain::node::Node;
use crate::domain::sort;
use crate::domain::sort::sort_texts;
use crate::domain::symbol_table::SymbolTable;
use crate::domain::text;
use crate::domain::text::same_text;
use crate::domain::type_registry::{TypeInfo, TypeRegistry};
use petgraph::graph::DiGraph;
use vstd::prelude::*;
use vstd::string::StringExecFns;

pub use crate::domain::digraph::NodeIndex;

verus! {

/// Symbol identifier (globally unique symbol string).
pub type SymbolId = String;

/// How much of the source the graph accounts for.
#[derive(Debug, Clone, Copy, PartialEq, Eq, Structural)]
pub struct GraphCoverage {
    pub total_references: usize,
    pub unresolved_calls: usize,
    pub total_functions: usize,
    pub functions_with_explicit_fragments: usize,
}

impl Default for GraphCoverage {
    fn default() -> (r: Self)
        ensures
            r == (GraphCoverage {
                total_references: 0,
                unresolved_calls: 0,
                total_functions: 0,
                functions_with_explicit_fragments: 0,
            }),
    {
        GraphCoverage {
            total_references: 0,
            unresolved_calls: 0,
            total_functions: 0,
            functions_with_explicit_fragments: 0,
        }
    }
}

/// The edges of one kind, or all of them.
pub open spec fn of_kind(
    edges: Seq<(NodeIndex, EdgeKind)>,
    filter: Option<EdgeKind>,
) -> Seq<(NodeIndex, EdgeKind)>
    decreases edges.len(),
{
    if edges.len() == 0 {
        Seq::empty()
    } else {
        let rest = of_kind(edges.drop_last(), filter);
        if filter is None || filter == Some(edges.last().1) {
            rest.push(edges.last())
        } else {
            rest
        }
    }
}

/// What is left of a kind is among the edges, and has that kind.
pub proof fn lemma_of_kind(edges: Seq<(NodeIndex, EdgeKind)>, filter: Option<EdgeKind>, k: int)
    requires
        0 <= k < of_kind(edges, filter).len(),
    ensures
        edges.contains(of_kind(edges, filter)[k]),
        filter is Some ==> of_kind(edges, filter)[k].1 == filter->0,
    decreases edges.len(),
{
    let rest = of_kind(edges.drop_last(), filter);
    if k < rest.len() {
        lemma_of_kind(edges.drop_last(), filter, k);
        let i = choose|i: int|
            0 <= i < edges.drop_last().len() && edges.drop_last()[i] == rest[k];
        assert(edges[i] == rest[k]);
        assert(of_kind(edges, filter)[k] == rest[k]);
    } else {
        assert(edges[edges.len() - 1] == edges.last());
    }
}

/// There are no more edges of a kind than edges.
pub proof fn lemma_of_kind_len(edges: Seq<(NodeIndex, EdgeKind)>, filter: Option<EdgeKind>)
    ensures
        of_kind(edges, filter).len() <= edges.len(),
    decreases edges.len(),
{
    if edges.len() > 0 {
        lemma_of_kind_len(edges.drop_last(), filter);
    }
}

/// The context graph.
pub struct ContextGraph {
    /// Nodes and edges.
    pub graph: DiGraph<Node, EdgeKind>,
    /// Index of the node of each symbol.
    pub symbol_to_node: SymbolTable<NodeIndex>,
    /// Type definitions, which are not nodes.
    pub type_registry: TypeRegistry,
    pub coverage: GraphCoverage,
    pub size_function_id: String,
    pub measurement_scope_id: String,
}

impl ContextGraph {
    /// The nodes by index.
    pub open spec fn nodes(&self) -> Seq<Node> {
        digraph::graph_nodes(self.graph)
    }

    /// The edges in order of addition.
    pub open spec fn links(&self) -> Seq<Link> {
        digraph::graph_links(self.graph)
    }

    /// The registered types.
    pub open spec fn types(&self) -> Map<Seq<char>, TypeInfo> {
        self.type_registry@
    }

    pub open spec fn has(&self, idx: NodeIndex) -> bool {
        idx.ix < self.nodes().len()
    }

    /// The node at an index.
    pub open spec fn at(&self, idx: NodeIndex) -> Node {
        self.nodes()[idx.ix as int]
    }

    /// What the parts of a graph keep by themselves: edges join nodes, and the tables are
    /// sound.
    pub open spec fn parts_wf(&self) -> bool {
        &&& self.nodes().len() <= u32::MAX
        &&& self.links().len() <= u32::MAX
        &&& forall|k: int|
            0 <= k < self.links().len() ==> self.has((#[trigger] self.links()[k]).source)
                && self.has(self.links()[k].target)
        &&& self.type_registry.wf()
        &&& self.symbol_to_node.wf()
    }

    /// Edges join nodes of the graph, and symbols name nodes of it.
    pub open spec fn wf(&self) -> bool {
        &&& self.parts_wf()
        &&& forall|symbol: Seq<char>| #[trigger]
            self.symbol_to_node@.contains_key(symbol) ==> self.has(self.symbol_to_node@[symbol])
    }

    /// The edges that start at a node, the newest first: where they lead, and their
    /// kinds.
    pub open spec fn outgoing(&self, idx: NodeIndex) -> Seq<(NodeIndex, EdgeKind)> {
        digraph::links_at(self.links(), idx, EdgeDirection::Outgoing).map_values(
            |link: Link| (link.target, link.kind),
        )
    }

    /// Whether there is an edge of a kind from one node to another.
    pub open spec fn has_link(&self, source: NodeIndex, target: NodeIndex, kind: EdgeKind) -> bool {
        self.links().contains((Link { source, target, kind }))
    }

    /// The edges that end at a node, the newest first: where they start, and their
    /// kinds.
    pub open spec fn all_incoming(&self, idx: NodeIndex) -> Seq<(NodeIndex, EdgeKind)> {
        digraph::links_at(self.links(), idx, EdgeDirection::Incoming).map_values(
            |link: Link| (link.source, link.kind),
        )
    }

    /// The edges of one kind, or of any, that end at a node.
    pub open spec fn incoming(
        &self,
        idx: NodeIndex,
        filter: Option<EdgeKind>,
    ) -> Seq<(NodeIndex, EdgeKind)> {
        of_kind(self.all_incoming(idx), filter)
    }

    /// Edges that are listed lead to nodes of the graph, and are edges of it.
    pub proof fn lemma_outgoing(&self, idx: NodeIndex, k: int)
        requires
            self.wf(),
            0 <= k < self.outgoing(idx).len(),
        ensures
            self.has(self.outgoing(idx)[k].0),
            self.links().contains(
                (Link {
                    source: idx,
                    target: self.outgoing(idx)[k].0,
                    kind: self.outgoing(idx)[k].1,
                }),
            ),
    {
        let link = digraph::links_at(self.links(), idx, EdgeDirection::Outgoing)[k];
        digraph::lemma_links_at(self.links(), idx, EdgeDirection::Outgoing, k);
        let i = choose|i: int| 0 <= i < self.links().len() && self.links()[i] == link;
        assert(self.has(self.links()[i].target));
        assert(self.outgoing(idx)[k] == (link.target, link.kind));
    }

    /// Edges that are listed come from nodes of the graph, and are edges of it.
    pub proof fn lemma_incoming(&self, idx: NodeIndex, filter: Option<EdgeKind>, k: int)
        requires
            self.wf(),
            0 <= k < self.incoming(idx, filter).len(),
        ensures
            self.has(self.incoming(idx, filter)[k].0),
            self.links().contains(
                (Link {
                    source: self.incoming(idx, filter)[k].0,
                    target: idx,
                    kind: self.incoming(idx, filter)[k].1,
                }),
            ),
            filter is Some ==> self.incoming(idx, filter)[k].1 == filter->0,
    {
        let all = self.all_incoming(idx);
        let edge = self.incoming(idx, filter)[k];
        lemma_of_kind(all, filter, k);
        let i = choose|i: int| 0 <= i < all.len() && all[i] == edge;
        let link = digraph::links_at(self.links(), idx, EdgeDirection::Incoming)[i];
        digraph::lemma_links_at(self.links(), idx, EdgeDirection::Incoming, i);
        let j = choose|j: int| 0 <= j < self.links().len() && self.links()[j] == link;
        assert(self.has(self.links()[j].source));
        assert(edge == (link.source, link.kind));
    }

    /// The last of some symbols that names a node, or the empty text if none does.
    pub open spec fn last_symbol(&self, symbols: Seq<Seq<char>>, idx: NodeIndex) -> Seq<char>
        decreases symbols.len(),
    {
        if symbols.len() == 0 {
            Seq::empty()
        } else if self.symbol_to_node@[symbols.last()] == idx {
            symbols.last()
        } else {
            self.last_symbol(symbols.drop_last(), idx)
        }
    }

    /// The symbol of a node, or the empty text if it has none.
    pub open spec fn symbol_of(&self, idx: NodeIndex) -> Seq<char> {
        self.last_symbol(self.symbol_to_node.symbols(), idx)
    }

    /// Edges in the order of the symbols of their nodes.
    pub open spec fn by_symbol(
        &self,
        edges: Seq<(NodeIndex, EdgeKind)>,
    ) -> Seq<(NodeIndex, EdgeKind)> {
        sort::stable_order(
            edges.len(),
            sort::text_first(
                edges.map_values(|edge: (NodeIndex, EdgeKind)| self.symbol_of(edge.0)),
            ),
        ).map_values(|k: usize| edges[k as int])
    }

    /// The symbols of all nodes, by index.
    pub fn symbol_names(&self) -> (names: Vec<&str>)
        requires
            self.wf(),
        ensures
            names@.len() == self.nodes().len(),
            forall|i: int|
                0 <= i < names@.len() ==> (#[trigger] names@[i])@ == self.symbol_of(
                    NodeIndex { ix: i as u32 },
                ),
    {
        let count: usize = self.node_count();
        let mut names: Vec<&str> = Vec::new();
        let mut i: usize = 0;
        while i < count
            invariant
                names@.len() == i,
                i <= count,
                forall|k: int| 0 <= k < i ==> (#[trigger] names@[k])@ == ""@,
            decreases count - i,
        {
            names.push("");
            i += 1;
        }
        let ghost symbols = self.symbol_to_node.symbols();
        proof {
            self.symbol_to_node.lemma_symbols();
            reveal_strlit("");
            assert forall|i: int| 0 <= i < names@.len() implies (#[trigger] names@[i])@
                == self.last_symbol(symbols.take(0), NodeIndex { ix: i as u32 }) by {
                assert(names@[i]@ =~= Seq::empty());
            }
        }
        let n: usize = self.symbol_to_node.len();
        let mut j: usize = 0;
        while j < n
            invariant
                self.wf(),
                symbols == self.symbol_to_node.symbols(),
                n == symbols.len(),
                j <= n,
                names@.len() == self.nodes().len(),
                forall|i: int|
                    0 <= i < names@.len() ==> (#[trigger] names@[i])@ == self.last_symbol(
                        symbols.take(j as int),
                        NodeIndex { ix: i as u32 },
                    ),
            decreases n - j,
        {
            let key: &str = self.symbol_to_node.key_at(j).as_str();
            let idx = *self.symbol_to_node.value_at(j);
            assert(self.has(self.symbol_to_node@[symbols[j as int]]));
            let ghost before = names@;
            names.set(idx.ix as usize, key);
            proof {
                let more = symbols.take(j + 1);
                assert(more.drop_last() =~= symbols.take(j as int));
                assert(more.last() == key@);
                assert forall|i: int| 0 <= i < names@.len() implies (#[trigger] names@[i])@
                    == self.last_symbol(more, NodeIndex { ix: i as u32 }) by {
                    if i != idx.ix {
                        assert(names@[i] == before[i]);
                    }
                }
            }
            j += 1;
        }
        assert(symbols.take(j as int) =~= symbols);
        names
    }

    /// A graph without nodes.
    pub fn new() -> (r: Self)
        ensures
            r.wf(),
            r.nodes() == Seq::<Node>::empty(),
            r.links() == Seq::<Link>::empty(),
            r.symbol_to_node@ == Map::<Seq<char>, NodeIndex>::empty(),
            r.symbol_to_node.symbols() == Seq::<Seq<char>>::empty(),
            r.types() == Map::<Seq<char>, TypeInfo>::empty(),
            r.type_registry.ids() == Seq::<Seq<char>>::empty(),
            r.type_registry.implementor_map() == Map::<Seq<char>, Seq<Seq<char>>>::empty(),
            r.coverage == (GraphCoverage {
                total_references: 0,
                unresolved_calls: 0,
                total_functions: 0,
                functions_with_explicit_fragments: 0,
            }),
            r.size_function_id@ == "unknown"@,
            r.measurement_scope_id@ == "repository-local"@,
    {
        ContextGraph {
            graph: digraph::new_graph(),
            symbol_to_node: SymbolTable::new(),
            type_registry: TypeRegistry::new(),
            coverage: GraphCoverage::default(),
            size_function_id: String::from_str("unknown"),
            measurement_scope_id: String::from_str("repository-local"),
        }
    }

    /// Adds a node under a symbol, which no longer names an earlier node then.
    pub fn add_node(&mut self, symbol: SymbolId, node: Node) -> (idx: NodeIndex)
        requires
            old(self).wf(),
            old(self).nodes().len() < u32::MAX,
        ensures
            final(self).wf(),
            idx.ix == old(self).nodes().len(),
            final(self).nodes() == old(self).nodes().push(node),
            final(self).links() == old(self).links(),
            final(self).symbol_to_node@ == old(self).symbol_to_node@.insert(symbol@, idx),
            final(self).symbol_to_node.symbols() == if old(self).symbol_to_node@.contains_key(
                symbol@,
            ) {
                old(self).symbol_to_node.symbols()
            } else {
                old(self).symbol_to_node.symbols().push(symbol@)
            },
            final(self).type_registry == old(self).type_registry,
            final(self).coverage == old(self).coverage,
            final(self).size_function_id == old(self).size_function_id,
            final(self).measurement_scope_id == old(self).measurement_scope_id,
    {
        let idx = digraph::add_node(&mut self.graph, node);
        self.symbol_to_node.insert(symbol, idx);
        idx
    }

    /// Adds an edge.
    pub fn add_edge(&mut self, source: NodeIndex, target: NodeIndex, kind: EdgeKind)
        requires
            old(self).wf(),
            old(self).has(source),
            old(self).has(target),
            old(self).links().len() < u32::MAX,
        ensures
            final(self).wf(),
            final(self).nodes() == old(self).nodes(),
            final(self).links() == old(self).links().push(Link { source, target, kind }),
            final(self).symbol_to_node == old(self).symbol_to_node,
            final(self).type_registry == old(self).type_registry,
            final(self).coverage == old(self).coverage,
            final(self).size_function_id == old(self).size_function_id,
            final(self).measurement_scope_id == old(self).measurement_scope_id,
    {
        digraph::add_edge(&mut self.graph, source, target, kind);
    }

    /// Whether every symbol names a node of the graph.
    pub fn is_consistent(&self) -> (r: bool)
        requires
            self.parts_wf(),
        ensures
            r == self.wf(),
    {
        let ghost names = self.symbol_to_node.symbols();
        proof {
            self.symbol_to_node.lemma_symbols();
        }
        let n: usize = self.symbol_to_node.len();
        let count: usize = self.node_count();
        let mut i: usize = 0;
        while i < n
            invariant
                self.parts_wf(),
                names == self.symbol_to_node.symbols(),
                n == names.len(),
                count == self.nodes().len(),
                i <= n,
                forall|k: int|
                    #![trigger names[k]]
                    0 <= k < i ==> self.has(self.symbol_to_node@[names[k]]),
            decreases n - i,
        {
            let idx = *self.symbol_to_node.value_at(i);
            assert(self.symbol_to_node@[names[i as int]] == idx);
            if idx.ix as usize >= count {
                assert(self.symbol_to_node@.contains_key(names[i as int]));
                return false;
            }
            i += 1;
        }
        proof {
            assert forall|symbol: Seq<char>| #[trigger]
                self.symbol_to_node@.contains_key(symbol) implies self.has(
                self.symbol_to_node@[symbol],
            ) by {
                let k = choose|k: int| 0 <= k < names.len() && names[k] == symbol;
                assert(self.has(self.symbol_to_node@[names[k]]));
            }
        }
        true
    }

    pub fn node_count(&self) -> (n: usize)
        ensures
            n == self.nodes().len(),
    {
        digraph::node_count(&self.graph)
    }

    pub fn edge_count(&self) -> (n: usize)
        ensures
            n == self.links().len(),
    {
        digraph::edge_count(&self.graph)
    }

    pub fn get_node_by_symbol(&self, symbol: &str) -> (r: Option<NodeIndex>)
        requires
            self.wf(),
        ensures
            match r {
                Some(idx) => self.symbol_to_node@.contains_key(symbol@) && idx
                    == self.symbol_to_node@[symbol@] && self.has(idx),
                None => !self.symbol_to_node@.contains_key(symbol@),
            },
    {
        match self.symbol_to_node.get(symbol) {
            Some(idx) => Some(*idx),
            None => None,
        }
    }

    pub fn node(&self, idx: NodeIndex) -> (r: &Node)
        requires
            self.has(idx),
        ensures
            *r == self.at(idx),
    {
        digraph::node_at(&self.graph, idx)
    }

    /// Edges that start at `idx` (forward traversal).
    pub fn outgoing_edges(&self, idx: NodeIndex) -> (r: Vec<(NodeIndex, EdgeKind)>)
        requires
            self.wf(),
        ensures
            r@ == self.outgoing(idx),
            forall|k: int| 0 <= k < r@.len() ==> self.has((#[trigger] r@[k]).0),
    {
        let links = digraph::edges_directed(&self.graph, idx, EdgeDirection::Outgoing);
        let mut r: Vec<(NodeIndex, EdgeKind)> = Vec::new();
        let mut i: usize = 0;
        while i < links.len()
            invariant
                self.wf(),
                links@ == digraph::links_at(self.links(), idx, EdgeDirection::Outgoing),
                i <= links@.len(),
                r@ == self.outgoing(idx).take(i as int),
                forall|k: int| 0 <= k < r@.len() ==> self.has((#[trigger] r@[k]).0),
            decreases links@.len() - i,
        {
            proof {
                self.lemma_outgoing(idx, i as int);
            }
            r.push((links[i].target, links[i].kind));
            i += 1;
            assert(r@ =~= self.outgoing(idx).take(i as int));
        }
        assert(self.outgoing(idx).take(i as int) =~= self.outgoing(idx));
        r
    }

    /// Edges that end at `idx` (reverse exploration), of one kind or of any.
    pub fn incoming_edges(
        &self,
        idx: NodeIndex,
        filter: Option<EdgeKind>,
    ) -> (r: Vec<(NodeIndex, EdgeKind)>)
        requires
            self.wf(),
        ensures
            r@ == self.incoming(idx, filter),
            forall|k: int| 0 <= k < r@.len() ==> self.has((#[trigger] r@[k]).0),
    {
        let links = digraph::edges_directed(&self.graph, idx, EdgeDirection::Incoming);
        let mut r: Vec<(NodeIndex, EdgeKind)> = Vec::new();
        let mut i: usize = 0;
        while i < links.len()
            invariant
                self.wf(),
                links@ == digraph::links_at(self.links(), idx, EdgeDirection::Incoming),
                i <= links@.len(),
                r@ == of_kind(self.all_incoming(idx).take(i as int), filter),
            decreases links@.len() - i,
        {
            let kind = links[i].kind;
            proof {
                assert(self.all_incoming(idx).take(i + 1).drop_last() =~= self.all_incoming(
                    idx,
                ).take(i as int));
                assert(self.all_incoming(idx).take(i + 1).last() == (
                    links@[i as int].source,
                    kind,
                ));
            }
            let wanted: bool = match filter {
                None => true,
                Some(wanted_kind) => kind == wanted_kind,
            };
            if wanted {
                r.push((links[i].source, kind));
            }
            i += 1;
        }
        proof {
            assert(self.all_incoming(idx).take(i as int) =~= self.all_incoming(idx));
            assert forall|k: int| 0 <= k < r@.len() implies self.has((#[trigger] r@[k]).0) by {
                self.lemma_incoming(idx, filter, k);
            }
        }
        r
    }

    /// Another name of [`ContextGraph::outgoing_edges`].
    pub fn neighbors(&self, idx: NodeIndex) -> (r: Vec<(NodeIndex, EdgeKind)>)
        requires
            self.wf(),
        ensures
            r@ == self.outgoing(idx),
            forall|k: int| 0 <= k < r@.len() ==> self.has((#[trigger] r@[k]).0),
    {
        self.outgoing_edges(idx)
    }
}

/// Whether a node is a method of a type.
pub open spec fn is_member(node: Node, class_symbol: Seq<char>) -> bool {
    match node {
        Node::Function(f) => text::optional_text(f.core.scope) == Some(class_symbol),
        Node::Variable(_) => false,
    }
}

impl ContextGraph {
    /// Those symbols of a list that name methods of a type.
    pub open spec fn members_among(
        &self,
        symbols: Seq<Seq<char>>,
        class_symbol: Seq<char>,
    ) -> Seq<Seq<char>>
        decreases symbols.len(),
    {
        if symbols.len() == 0 {
            Seq::empty()
        } else {
            let rest = self.members_among(symbols.drop_last(), class_symbol);
            if is_member(self.at(self.symbol_to_node@[symbols.last()]), class_symbol) {
                rest.push(symbols.last())
            } else {
                rest
            }
        }
    }

    /// The symbols of the methods of a type, sorted.
    pub open spec fn class_members(&self, class_symbol: Seq<char>) -> Seq<Seq<char>> {
        sort::sorted_texts(self.members_among(self.symbol_to_node.symbols(), class_symbol))
    }

    /// Finds the methods whose scope is a type: their symbols and nodes, sorted by
    /// symbol.
    pub fn find_class_members(&self, class_symbol: &str) -> (r: Vec<(String, NodeIndex)>)
        requires
            self.wf(),
        ensures
            r@.map_values(|member: (String, NodeIndex)| member.0@) == self.class_members(
                class_symbol@,
            ),
            forall|k: int|
                #![trigger r@[k]]
                0 <= k < r@.len() ==> self.symbol_to_node@.contains_key(r@[k].0@)
                    && self.symbol_to_node@[r@[k].0@] == r@[k].1 && self.has(r@[k].1) && is_member(
                    self.at(r@[k].1),
                    class_symbol@,
                ),
    {
        let ghost symbols = self.symbol_to_node.symbols();
        let n: usize = self.symbol_to_node.len();
        let mut keys: Vec<&str> = Vec::new();
        let mut nodes: Vec<NodeIndex> = Vec::new();
        let mut i: usize = 0;
        proof {
            self.symbol_to_node.lemma_symbols();
            assert(symbols.take(0) =~= Seq::empty());
        }
        while i < n
            invariant
                self.wf(),
                symbols == self.symbol_to_node.symbols(),
                n == symbols.len(),
                i <= n,
                keys@.len() == nodes@.len(),
                sort::views(keys@) == self.members_among(symbols.take(i as int), class_symbol@),
                forall|k: int|
                    #![trigger nodes@[k]]
                    0 <= k < nodes@.len() ==> self.symbol_to_node@.contains_key(keys@[k]@)
                        && self.symbol_to_node@[keys@[k]@] == nodes@[k] && self.has(nodes@[k])
                        && is_member(self.at(nodes@[k]), class_symbol@),
            decreases n - i,
        {
            let key: &str = self.symbol_to_node.key_at(i).as_str();
            let idx = *self.symbol_to_node.value_at(i);
            proof {
                assert(symbols.take(i + 1).drop_last() =~= symbols.take(i as int));
                assert(symbols.take(i + 1).last() == key@);
                assert(self.has(idx));
            }
            let member: bool = match self.node(idx) {
                Node::Function(f) => match &f.core.scope {
                    Some(scope) => same_text(scope.as_str(), class_symbol),
                    None => false,
                },
                Node::Variable(_) => false,
            };
            if member {
                let ghost before = keys@;
                keys.push(key);
                nodes.push(idx);
                assert(sort::views(keys@) =~= sort::views(before).push(key@));
            }
            i += 1;
        }
        let ghost list = self.members_among(symbols, class_symbol@);
        proof {
            assert(symbols.take(i as int) =~= symbols);
            assert(sort::views(keys@).len() == keys@.len());
        }
        let order = sort_texts(&keys);
        let mut r: Vec<(String, NodeIndex)> = Vec::new();
        let mut j: usize = 0;
        assert(r@.map_values(|member: (String, NodeIndex)| member.0@) =~= Seq::empty());
        while j < order.len()
            invariant
                self.wf(),
                keys@.len() == nodes@.len(),
                list == sort::views(keys@),
                order@.len() == list.len(),
                order@ == sort::stable_order(list.len(), sort::text_first(list)),
                forall|k: int| 0 <= k < order@.len() ==> (#[trigger] order@[k]) < list.len(),
                forall|k: int|
                    #![trigger nodes@[k]]
                    0 <= k < nodes@.len() ==> self.symbol_to_node@.contains_key(keys@[k]@)
                        && self.symbol_to_node@[keys@[k]@] == nodes@[k] && self.has(nodes@[k])
                        && is_member(self.at(nodes@[k]), class_symbol@),
                j <= order@.len(),
                r@.map_values(|member: (String, NodeIndex)| member.0@) == sort::sorted_texts(
                    list,
                ).take(j as int),
                forall|k: int|
                    #![trigger r@[k]]
                    0 <= k < r@.len() ==> self.symbol_to_node@.contains_key(r@[k].0@)
                        && self.symbol_to_node@[r@[k].0@] == r@[k].1 && self.has(r@[k].1)
                        && is_member(self.at(r@[k].1), class_symbol@),
            decreases order@.len() - j,
        {
            let k: usize = order[j];
            let symbol = keys[k].to_owned();
            let idx = nodes[k];
            let ghost before = r@;
            r.push((symbol, idx));
            j += 1;
            assert(r@.map_values(|member: (String, NodeIndex)| member.0@) =~= before.map_values(
                |member: (String, NodeIndex)| member.0@,
            ).push(symbol@));
            assert(sort::sorted_texts(list).take(j as int) =~= sort::sorted_texts(list).take(
                j - 1,
            ).push(list[k as int]));
        }
        assert(sort::sorted_texts(list).take(j as int) =~= sort::sorted_texts(list));
        r
    }
}

impl ContextGraph {
    proof fn lemma_members_among(&self, symbols: Seq<Seq<char>>, class_symbol: Seq<char>)
        ensures
            self.members_among(symbols, class_symbol).len() <= symbols.len(),
            forall|symbol: Seq<char>| #[trigger]
                self.members_among(symbols, class_symbol).contains(symbol) <==> symbols.contains(
                    symbol,
                ) && is_member(self.at(self.symbol_to_node@[symbol]), class_symbol),
        decreases symbols.len(),
    {
        if symbols.len() > 0 {
            let rest = symbols.drop_last();
            let before = self.members_among(rest, class_symbol);
            let after = self.members_among(symbols, class_symbol);
            self.lemma_members_among(rest, class_symbol);
            assert forall|symbol: Seq<char>| #[trigger]
                after.contains(symbol) <==> symbols.contains(symbol) && is_member(
                    self.at(self.symbol_to_node@[symbol]),
                    class_symbol,
                ) by {
                if after.contains(symbol) {
                    let k = choose|k: int| 0 <= k < after.len() && after[k] == symbol;
                    if k < before.len() {
                        assert(before[k] == symbol);
                        assert(before.contains(symbol));
                        let j = choose|j: int| 0 <= j < rest.len() && rest[j] == symbol;
                        assert(symbols[j] == symbol);
                    } else {
                        assert(symbols[symbols.len() - 1] == symbol);
                    }
                }
                if symbols.contains(symbol) && is_member(
                    self.at(self.symbol_to_node@[symbol]),
                    class_symbol,
                ) {
                    let j = choose|j: int| 0 <= j < symbols.len() && symbols[j] == symbol;
                    if j < rest.len() {
                        assert(rest[j] == symbol);
                        assert(before.contains(symbol));
                        let k = choose|k: int| 0 <= k < before.len() && before[k] == symbol;
                        assert(after[k] == symbol);
                    } else {
                        assert(after[before.len() as int] == symbol);
                    }
                }
            }
        }
    }

    /// The members of a type are the nodes that are its methods.
    pub proof fn law_class_members(&self, class_symbol: Seq<char>, symbol: Seq<char>)
        requires
            self.wf(),
        ensures
            self.class_members(class_symbol).contains(symbol)
                <==> self.symbol_to_node@.contains_key(symbol) && is_member(
                self.at(self.symbol_to_node@[symbol]),
                class_symbol,
            ),
    {
        let symbols = self.symbol_to_node.symbols();
        let list = self.members_among(symbols, class_symbol);
        self.symbol_to_node.lemma_symbols();
        self.symbol_to_node.lemma_len();
        self.lemma_members_among(symbols, class_symbol);
        sort::law_sorted_texts(list);
        list.to_multiset_ensures();
        self.class_members(class_symbol).to_multiset_ensures();
        assert(list.contains(symbol) <==> list.to_multiset().count(symbol) > 0);
        assert(self.class_members(class_symbol).contains(symbol) <==> self.class_members(
            class_symbol,
        ).to_multiset().count(symbol) > 0);
        if symbols.contains(symbol) {
            let k = choose|k: int| 0 <= k < symbols.len() && symbols[k] == symbol;
            assert(self.symbol_to_node@.contains_key(symbols[k]));
        }
    }

    /// Every edge is listed at its source and at its target, with its kind, and nothing
    /// else is.
    pub proof fn law_edges_are_listed_at_both_ends(
        &self,
        source: NodeIndex,
        target: NodeIndex,
        kind: EdgeKind,
    )
        requires
            self.wf(),
        ensures
            self.outgoing(source).contains((target, kind)) <==> self.has_link(
                source,
                target,
                kind,
            ),
            self.incoming(target, Some(kind)).contains((source, kind)) <==> self.has_link(
                source,
                target,
                kind,
            ),
            self.incoming(target, None).contains((source, kind)) <==> self.has_link(
                source,
                target,
                kind,
            ),
    {
        let out = self.outgoing(source);
        let all = self.all_incoming(target);
        let link = Link { source, target, kind };
        if self.has_link(source, target, kind) {
            let i = choose|i: int| 0 <= i < self.links().len() && self.links()[i] == link;
            digraph::lemma_link_listed(self.links(), i, EdgeDirection::Outgoing);
            digraph::lemma_link_listed(self.links(), i, EdgeDirection::Incoming);
            let starting = digraph::links_at(self.links(), source, EdgeDirection::Outgoing);
            let ending = digraph::links_at(self.links(), target, EdgeDirection::Incoming);
            let j = choose|j: int| 0 <= j < starting.len() && starting[j] == link;
            assert(out[j] == (target, kind));
            let k = choose|k: int| 0 <= k < ending.len() && ending[k] == link;
            assert(all[k] == (source, kind));
            lemma_of_kind_kept(all, Some(kind), (source, kind));
            lemma_of_kind_kept(all, None, (source, kind));
        }
        if out.contains((target, kind)) {
            let k = choose|k: int| 0 <= k < out.len() && out[k] == (target, kind);
            self.lemma_outgoing(source, k);
        }
        let some = self.incoming(target, Some(kind));
        if some.contains((source, kind)) {
            let k = choose|k: int| 0 <= k < some.len() && some[k] == (source, kind);
            self.lemma_incoming(target, Some(kind), k);
        }
        let any = self.incoming(target, None);
        if any.contains((source, kind)) {
            let k = choose|k: int| 0 <= k < any.len() && any[k] == (source, kind);
            self.lemma_incoming(target, None, k);
        }
    }
}

/// What has a kind is kept when edges are filtered by it.
proof fn lemma_of_kind_kept(
    edges: Seq<(NodeIndex, EdgeKind)>,
    filter: Option<EdgeKind>,
    edge: (NodeIndex, EdgeKind),
)
    requires
        edges.contains(edge),
        filter is None || filter == Some(edge.1),
    ensures
        of_kind(edges, filter).contains(edge),
    decreases edges.len(),
{
    let rest = edges.drop_last();
    let before = of_kind(rest, filter);
    let after = of_kind(edges, filter);
    let k = choose|k: int| 0 <= k < edges.len() && edges[k] == edge;
    if k < rest.len() {
        assert(rest[k] == edge);
        lemma_of_kind_kept(rest, filter, edge);
        let j = choose|j: int| 0 <= j < before.len() && before[j] == edge;
        assert(after[j] == edge);
    } else {
        assert(after[before.len() as int] == edge);
    }
}

impl Default for ContextGraph {
    fn default() -> (r: Self)
        ensures
            r.wf(),
            r.nodes() == Seq::<Node>::empty(),
            r.links() == Seq::<Link>::empty(),
            r.symbol_to_node@ == Map::<Seq<char>, NodeIndex>::empty(),
            r.types() == Map::<Seq<char>, TypeInfo>::empty(),
    {
        Self::new()
    }
}

} // verus!
