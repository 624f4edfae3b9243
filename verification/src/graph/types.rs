use std::collections::HashMap;
use vstd::prelude::*;

verus! {

broadcast use vstd::std_specs::hash::group_hash_axioms;

/// One graph node. The scalar visual attributes (score and position) travel as
/// raw IEEE-754 bit patterns: the decoder and the model move them around
/// byte-for-byte and never do arithmetic on them, so they are held as plain
/// 32-bit integers here and interpreted as floats only by the host layer.
#[derive(Clone, Debug)]
pub struct Node {
    pub id: u32,
    pub label: String,
    pub pagerank_bits: u32,
    pub degree: u16,
    pub x_bits: u32,
    pub y_bits: u32,
}

/// One undirected edge between two node ids; the `(source, target)` order of
/// the wire payload is preserved.
#[derive(Clone, Copy, Debug, PartialEq, Eq, Structural)]
pub struct Edge {
    pub source: u32,
    pub target: u32,
}

/// The in-memory graph: an ordered node sequence, an ordered edge sequence,
/// and an id-to-index map built once at construction. Topology is immutable
/// after construction; only node scalar attributes may be rewritten.
pub struct Graph {
    nodes: Vec<Node>,
    edges: Vec<Edge>,
    id_to_index: HashMap<u32, usize>,
}

/// The neighbor ids of `id`: for every edge touching `id` in either position,
/// the opposite endpoint, in edge order. Parallel edges yield duplicates.
pub open spec fn spec_neighbors(edges: Seq<Edge>, id: u32) -> Seq<u32>
    decreases edges.len(),
{
    if edges.len() == 0 {
        Seq::empty()
    } else {
        let rest = spec_neighbors(edges.drop_last(), id);
        let e = edges.last();
        if e.source == id {
            rest.push(e.target)
        } else if e.target == id {
            rest.push(e.source)
        } else {
            rest
        }
    }
}

impl Graph {
    pub closed spec fn nodes_seq(self) -> Seq<Node> {
        self.nodes@
    }

    pub closed spec fn edges_seq(self) -> Seq<Edge> {
        self.edges@
    }

    pub closed spec fn index_map(self) -> Map<u32, usize> {
        self.id_to_index@
    }

    /// Some node carries this id.
    pub open spec fn spec_has_id(self, id: u32) -> bool {
        exists|i: int| 0 <= i < self.nodes_seq().len() && self.nodes_seq()[i].id == id
    }

    /// `i` is the index that `id` resolves to: the last node carrying that id
    /// (construction is last-write-wins when ids collide).
    pub open spec fn spec_index_of(self, id: u32, i: int) -> bool {
        &&& 0 <= i < self.nodes_seq().len()
        &&& self.nodes_seq()[i].id == id
        &&& forall|j: int| i < j < self.nodes_seq().len() ==> self.nodes_seq()[j].id != id
    }

    /// The id index is exactly the last-write-wins map over the node sequence.
    pub open spec fn wf(self) -> bool {
        &&& forall|id: u32|
            #[trigger] self.index_map().contains_key(id) ==> self.spec_index_of(
                id,
                self.index_map()[id] as int,
            )
        &&& forall|i: int|
            0 <= i < self.nodes_seq().len() ==> self.index_map().contains_key(
                #[trigger] self.nodes_seq()[i].id,
            )
    }

    pub fn new(nodes: Vec<Node>, edges: Vec<Edge>) -> (g: Graph)
        ensures
            g.wf(),
            g.nodes_seq() == nodes@,
            g.edges_seq() == edges@,
    {
        let mut id_to_index: HashMap<u32, usize> = HashMap::new();
        let n = nodes.len();
        let mut i: usize = 0;
        while i < n
            invariant
                n == nodes@.len(),
                i <= n,
                forall|id: u32| #[trigger]
                    id_to_index@.contains_key(id) ==> {
                        let k = id_to_index@[id] as int;
                        &&& 0 <= k < i
                        &&& nodes@[k].id == id
                        &&& forall|j: int| k < j < i ==> nodes@[j].id != id
                    },
                forall|j: int|
                    0 <= j < i ==> id_to_index@.contains_key(#[trigger] nodes@[j].id),
            decreases n - i,
        {
            id_to_index.insert(nodes[i].id, i);
            i += 1;
        }
        Graph { nodes, edges, id_to_index }
    }

    pub fn node_count(&self) -> (c: usize)
        ensures
            c == self.nodes_seq().len(),
    {
        self.nodes.len()
    }

    pub fn edge_count(&self) -> (c: usize)
        ensures
            c == self.edges_seq().len(),
    {
        self.edges.len()
    }

    pub fn nodes(&self) -> (r: &Vec<Node>)
        ensures
            r@ == self.nodes_seq(),
    {
        &self.nodes
    }

    pub fn edges(&self) -> (r: &Vec<Edge>)
        ensures
            r@ == self.edges_seq(),
    {
        &self.edges
    }

    /// Rewrites the score bits of the node at `i`; topology is untouched.
    pub fn set_pagerank_bits(&mut self, i: usize, bits: u32)
        requires
            old(self).wf(),
            i < old(self).nodes_seq().len(),
        ensures
            final(self).wf(),
            final(self).edges_seq() == old(self).edges_seq(),
            final(self).nodes_seq() == old(self).nodes_seq().update(
                i as int,
                Node { pagerank_bits: bits, ..old(self).nodes_seq()[i as int] },
            ),
    {
        let mut node = self.nodes.remove(i);
        node.pagerank_bits = bits;
        self.nodes.insert(i, node);
        proof {
            assert(self.nodes@ =~= old(self).nodes@.update(
                i as int,
                Node { pagerank_bits: bits, ..old(self).nodes@[i as int] },
            ));
        }
    }

    /// Rewrites the position bits of the node at `i`; topology is untouched.
    pub fn set_position_bits(&mut self, i: usize, x_bits: u32, y_bits: u32)
        requires
            old(self).wf(),
            i < old(self).nodes_seq().len(),
        ensures
            final(self).wf(),
            final(self).edges_seq() == old(self).edges_seq(),
            final(self).nodes_seq() == old(self).nodes_seq().update(
                i as int,
                Node { x_bits, y_bits, ..old(self).nodes_seq()[i as int] },
            ),
    {
        let mut node = self.nodes.remove(i);
        node.x_bits = x_bits;
        node.y_bits = y_bits;
        self.nodes.insert(i, node);
        proof {
            assert(self.nodes@ =~= old(self).nodes@.update(
                i as int,
                Node { x_bits, y_bits, ..old(self).nodes@[i as int] },
            ));
        }
    }

    pub fn node_by_id(&self, id: u32) -> (r: Option<&Node>)
        requires
            self.wf(),
        ensures
            match r {
                Some(node) => exists|i: int|
                    self.spec_index_of(id, i) && *node == self.nodes_seq()[i],
                None => !self.spec_has_id(id),
            },
            self.spec_has_id(id) ==> r is Some,
    {
        match self.id_to_index.get(&id) {
            Some(ix) => {
                let i = *ix;
                proof {
                    assert(self.index_map().contains_key(id));
                    assert(self.index_map()[id] == i);
                    assert(self.spec_index_of(id, i as int));
                }
                Some(&self.nodes[i])
            },
            None => {
                proof {
                    self.lemma_absent(id);
                }
                None
            },
        }
    }

    /// An id with no index entry is carried by no node.
    proof fn lemma_absent(self, id: u32)
        requires
            self.wf(),
            !self.index_map().contains_key(id),
        ensures
            !self.spec_has_id(id),
    {
        if self.spec_has_id(id) {
            let i = choose|i: int|
                0 <= i < self.nodes_seq().len() && self.nodes_seq()[i].id == id;
            assert(self.index_map().contains_key(self.nodes_seq()[i].id));
        }
    }

    pub fn node_index(&self, id: u32) -> (r: Option<usize>)
        requires
            self.wf(),
        ensures
            match r {
                Some(i) => self.spec_index_of(id, i as int),
                None => !self.spec_has_id(id),
            },
            self.spec_has_id(id) ==> r is Some,
    {
        match self.id_to_index.get(&id) {
            Some(ix) => {
                proof {
                    assert(self.index_map().contains_key(id));
                    assert(self.index_map()[id] == *ix);
                }
                Some(*ix)
            },
            None => {
                proof {
                    self.lemma_absent(id);
                }
                None
            },
        }
    }

    /// All neighbor ids of `node_id`, in edge order; an absent id simply has
    /// no touching edges and yields the empty vector.
    pub fn neighbors(&self, node_id: u32) -> (r: Vec<u32>)
        ensures
            r@ == spec_neighbors(self.edges_seq(), node_id),
    {
        let mut result: Vec<u32> = Vec::new();
        let m = self.edges.len();
        let mut i: usize = 0;
        while i < m
            invariant
                m == self.edges@.len(),
                i <= m,
                result@ == spec_neighbors(self.edges@.take(i as int), node_id),
            decreases m - i,
        {
            proof {
                assert(self.edges@.take(i + 1).drop_last() =~= self.edges@.take(i as int));
                assert(self.edges@.take(i + 1).last() == self.edges@[i as int]);
            }
            let e = &self.edges[i];
            if e.source == node_id {
                result.push(e.target);
            } else if e.target == node_id {
                result.push(e.source);
            }
            i += 1;
        }
        proof {
            assert(self.edges@.take(m as int) =~= self.edges@);
        }
        result
    }
}

} // verus!
