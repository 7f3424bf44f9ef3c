//! The adjacency container of the ledger: which identifiers are nodes, the
//! children recorded for an identifier, and the blocks that were handed to
//! it. It checks nothing; whoever fills it decides what may go in, and
//! whether the ends of an edge are nodes.

use crate::tangle::block::BlockView;
use crate::tangle::block::TangleBlock;
use vstd::hash_map::StringHashMap;
use vstd::hash_set::StringHashSet;
use vstd::prelude::*;

verus! {

/// A graph as a mathematical value: the blocks by identifier, the nodes,
/// and the sets of children by identifier.
pub struct GraphView {
    pub blocks: Map<Seq<char>, BlockView>,
    pub nodes: Set<Seq<char>>,
    pub edges: Map<Seq<char>, Set<Seq<char>>>,
}

/// The children recorded for `id` in an adjacency map; none for an
/// identifier for which the map keeps no set.
pub open spec fn children_in(edges: Map<Seq<char>, Set<Seq<char>>>, id: Seq<char>) -> Set<Seq<char>> {
    if edges.contains_key(id) {
        edges[id]
    } else {
        Set::empty()
    }
}

impl GraphView {
    /// The graph without blocks, nodes or edges.
    pub open spec fn empty() -> GraphView {
        GraphView { blocks: Map::empty(), nodes: Set::empty(), edges: Map::empty() }
    }

    /// The children recorded for `id`; none where no set is kept for it.
    pub open spec fn children_of(self, id: Seq<char>) -> Set<Seq<char>> {
        children_in(self.edges, id)
    }

    /// The graph in which `id` is a node, with a set of children: the
    /// children recorded for it, if any.
    pub open spec fn with_node(self, id: Seq<char>) -> GraphView {
        GraphView {
            blocks: self.blocks,
            nodes: self.nodes.insert(id),
            edges: self.edges.insert(id, self.children_of(id)),
        }
    }

    /// The graph in which `to` is one of the children recorded for `from`.
    /// Blocks and nodes are as they were.
    pub open spec fn with_edge(self, from: Seq<char>, to: Seq<char>) -> GraphView {
        GraphView {
            blocks: self.blocks,
            nodes: self.nodes,
            edges: self.edges.insert(from, self.children_of(from).insert(to)),
        }
    }

    /// The graph that holds `block` under its identifier, which is a node.
    pub open spec fn with_block(self, block: BlockView) -> GraphView {
        GraphView {
            blocks: self.blocks.insert(block.id, block),
            nodes: self.with_node(block.id).nodes,
            edges: self.with_node(block.id).edges,
        }
    }

    /// The identifier of every stored block is a node, and a set of
    /// children is kept for every node.
    pub open spec fn is_consistent(self) -> bool {
        &&& forall|id: Seq<char>| #[trigger] self.blocks.contains_key(id) ==> self.nodes.contains(id)
        &&& forall|id: Seq<char>| #[trigger] self.nodes.contains(id) ==> self.edges.contains_key(id)
    }

    /// Finitely many blocks, nodes and sets of children, and finitely many
    /// children each.
    pub open spec fn is_finite(self) -> bool {
        &&& self.blocks.dom().finite()
        &&& self.nodes.finite()
        &&& self.edges.dom().finite()
        &&& forall|id: Seq<char>| self.edges.contains_key(id) ==> (#[trigger] self.edges[id]).finite()
    }
}

/// Making a node of what is a node changes nothing.
pub proof fn lemma_with_node_idempotent(graph: GraphView, id: Seq<char>)
    ensures
        graph.with_node(id).with_node(id) == graph.with_node(id),
        graph.nodes.contains(id) && graph.edges.contains_key(id) ==> graph.with_node(id) == graph,
{
    assert(graph.with_node(id).with_node(id).edges =~= graph.with_node(id).edges);
    assert(graph.with_node(id).with_node(id).nodes =~= graph.with_node(id).nodes);
    if graph.nodes.contains(id) && graph.edges.contains_key(id) {
        assert(graph.with_node(id).edges =~= graph.edges);
        assert(graph.with_node(id).nodes =~= graph.nodes);
    }
}

/// Recording an edge that is recorded changes nothing.
pub proof fn lemma_with_edge_idempotent(graph: GraphView, from: Seq<char>, to: Seq<char>)
    ensures
        graph.with_edge(from, to).with_edge(from, to) == graph.with_edge(from, to),
{
    let once = graph.with_edge(from, to);
    assert(once.children_of(from).insert(to) =~= once.children_of(from));
    assert(once.with_edge(from, to).edges =~= once.edges);
}

/// Recording an edge touches nothing but the children of its source: the
/// blocks and the nodes are as they were, the children recorded for any
/// other identifier are as they were, and the source loses no child.
pub proof fn lemma_with_edge_frame(graph: GraphView, from: Seq<char>, to: Seq<char>)
    ensures
        graph.with_edge(from, to).blocks == graph.blocks,
        graph.with_edge(from, to).nodes == graph.nodes,
        forall|other: Seq<char>|
            other != from ==> #[trigger] graph.with_edge(from, to).children_of(other) == graph.children_of(other),
        graph.children_of(from).subset_of(graph.with_edge(from, to).children_of(from)),
        graph.with_edge(from, to).children_of(from) == graph.children_of(from).insert(to),
{
}

/// Blocks by identifier, the nodes, and the children by identifier.
pub struct Graph {
    blocks: StringHashMap<TangleBlock>,
    nodes: StringHashSet,
    slots: StringHashMap<usize>,
    children: Vec<StringHashSet>,
}

impl View for Graph {
    type V = GraphView;

    closed spec fn view(&self) -> GraphView {
        GraphView {
            blocks: Map::new(|id: Seq<char>| self.blocks@.contains_key(id), |id: Seq<char>| self.blocks@[id]@),
            nodes: self.nodes@,
            edges: Map::new(
                |id: Seq<char>| self.slots@.contains_key(id),
                |id: Seq<char>| self.children@[self.slots@[id] as int]@,
            ),
        }
    }
}

impl Graph {
    /// Every set of children has a place of its own, the identifier of
    /// every stored block is a node, and a set of children is kept for
    /// every node.
    pub closed spec fn wf(&self) -> bool {
        &&& self.blocks@.dom().finite()
        &&& self.nodes@.finite()
        &&& self.slots@.dom().finite()
        &&& forall|id: Seq<char>| #[trigger] self.blocks@.contains_key(id) ==> self.nodes@.contains(id)
        &&& forall|id: Seq<char>| #[trigger] self.nodes@.contains(id) ==> self.slots@.contains_key(id)
        &&& forall|id: Seq<char>| self.slots@.contains_key(id) ==> (#[trigger] self.slots@[id]) < self.children@.len()
        &&& forall|a: Seq<char>, b: Seq<char>|
            self.slots@.contains_key(a) && self.slots@.contains_key(b) && #[trigger] self.slots@[a]
                == #[trigger] self.slots@[b] ==> a == b
        &&& forall|i: int| 0 <= i < self.children@.len() ==> (#[trigger] self.children@[i])@.finite()
    }

    /// A well-formed graph is finite.
    pub proof fn lemma_finite(&self)
        requires
            self.wf(),
        ensures
            self@.is_finite(),
    {
        assert(self@.blocks.dom() =~= self.blocks@.dom());
        assert(self@.edges.dom() =~= self.slots@.dom());
    }

    /// In a well-formed graph the identifier of every stored block is a
    /// node, and a set of children is kept for every node.
    pub proof fn lemma_consistent(&self)
        requires
            self.wf(),
        ensures
            self@.is_consistent(),
    {
    }

    /// The empty graph.
    pub fn new() -> (graph: Graph)
        ensures
            graph.wf(),
            graph@ == GraphView::empty(),
    {
        let graph = Graph {
            blocks: StringHashMap::new(),
            nodes: StringHashSet::new(),
            slots: StringHashMap::new(),
            children: Vec::new(),
        };
        proof {
            assert(graph@.blocks =~= Map::<Seq<char>, BlockView>::empty());
            assert(graph@.edges =~= Map::<Seq<char>, Set<Seq<char>>>::empty());
        }
        graph
    }

    /// Stores `block` under its identifier, in place of any block that was
    /// stored under it, and makes the identifier a node.
    pub fn insert(&mut self, block: TangleBlock)
        requires
            old(self).wf(),
        ensures
            final(self).wf(),
            final(self)@ == old(self)@.with_block(block@),
    {
        let block_id = block.id.clone();
        let ghost before = self@;
        self.add_node(block_id.clone());
        self.blocks.insert(block_id, block);
        proof {
            assert(self@.blocks =~= before.blocks.insert(block@.id, block@));
        }
    }

    /// Makes `id` a node. The children recorded for it stay as they are.
    pub fn add_node(&mut self, id: String)
        requires
            old(self).wf(),
        ensures
            final(self).wf(),
            final(self)@ == old(self)@.with_node(id@),
    {
        let ghost before = self@;
        if !self.slots.contains_key(id.as_str()) {
            let at = self.children.len();
            self.children.push(StringHashSet::new());
            self.slots.insert(id.clone(), at);
        }
        self.nodes.insert(id);
        proof {
            assert(self@.blocks =~= before.blocks);
            assert(self@.edges =~= before.with_node(id@).edges);
        }
    }

    /// Records `to` as a child of `from`. Neither end needs to be a node or
    /// a known block, and neither becomes one.
    pub fn add_edge(&mut self, from: String, to: String)
        requires
            old(self).wf(),
        ensures
            final(self).wf(),
            final(self)@ == old(self)@.with_edge(from@, to@),
    {
        let ghost before = self@;
        let ghost source = from@;
        let known = match self.slots.get(from.as_str()) {
            Some(at) => Some(*at),
            None => None,
        };
        let at = match known {
            Some(at) => at,
            None => {
                let at = self.children.len();
                self.children.push(StringHashSet::new());
                self.slots.insert(from, at);
                at
            },
        };
        self.children[at].insert(to);
        proof {
            assert(self@.blocks =~= before.blocks);
            assert(self@.edges =~= before.with_edge(source, to@).edges);
        }
    }

    /// The block stored under `id`.
    pub fn get(&self, id: &str) -> (found: Option<&TangleBlock>)
        ensures
            match found {
                Some(block) => self@.blocks.contains_key(id@) && block@ == self@.blocks[id@],
                None => !self@.blocks.contains_key(id@),
            },
    {
        self.blocks.get(id)
    }

    /// Whether `id` is a node.
    pub fn contains(&self, id: &str) -> (known: bool)
        ensures
            known == self@.nodes.contains(id@),
    {
        self.nodes.contains(id)
    }

    /// The number of nodes.
    pub fn len(&self) -> (count: usize)
        ensures
            count == self@.nodes.len(),
    {
        self.nodes.len()
    }

    /// The children recorded for `id`, if a set of children is kept for
    /// it: it is a node, or the source of an edge.
    pub fn children(&self, id: &str) -> (found: Option<&StringHashSet>)
        requires
            self.wf(),
        ensures
            match found {
                Some(set) => self@.edges.contains_key(id@) && set@ == self@.edges[id@],
                None => !self@.edges.contains_key(id@),
            },
    {
        match self.slots.get(id) {
            Some(at) => Some(&self.children[*at]),
            None => None,
        }
    }
}

} // verus!
