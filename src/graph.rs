//! Location nodes, undirected weighted edges, and the graph that owns them.
//!
//! Each node gets a dense index (its position of insertion) next to its
//! external identifier; the adjacency lists and every per-query table are
//! arrays over that index.

use std::collections::HashMap;
use vstd::prelude::*;

verus! {

broadcast use vstd::std_specs::hash::group_hash_axioms;

/// A location: an externally assigned identifier and planar coordinates.
#[derive(Clone, Copy, Debug, PartialEq, Eq, Structural)]
pub struct Node {
    pub id: i32,
    pub x: i32,
    pub y: i32,
}

/// An undirected edge between two node identifiers with a travel weight.
#[derive(Clone, Copy, Debug, PartialEq, Eq, Structural)]
pub struct Edge {
    pub node_a_id: i32,
    pub node_b_id: i32,
    pub weight: i32,
}

/// Why a node or an edge was refused while the graph was being built.
#[derive(Clone, Copy, Debug, PartialEq, Eq, Structural)]
pub enum BuildError {
    /// A node with this identifier is already present.
    DuplicateNode,
    /// An edge names a node that has not been added.
    UnknownNode,
    /// An edge has a weight below zero.
    NegativeWeight,
}

/// One entry of an adjacency list: the dense index of the neighbour and
/// the weight of the edge that leads there.
#[derive(Clone, Copy, Debug, PartialEq, Eq, Structural)]
pub struct Link {
    pub to: usize,
    pub weight: i32,
}

/// `|a - b|` over the integers.
pub open spec fn abs_diff(a: i32, b: i32) -> int {
    if a >= b {
        a - b
    } else {
        b - a
    }
}

/// The Manhattan (L1) distance between two nodes' coordinates.
pub open spec fn manhattan(a: Node, b: Node) -> int {
    abs_diff(a.x, b.x) + abs_diff(a.y, b.y)
}

/// The Manhattan distance between two nodes, computed without overflow.
pub fn manhattan_distance(a: &Node, b: &Node) -> (r: u64)
    ensures
        r == manhattan(*a, *b),
{
    let dx: i64 = if a.x >= b.x {
        a.x as i64 - b.x as i64
    } else {
        b.x as i64 - a.x as i64
    };
    let dy: i64 = if a.y >= b.y {
        a.y as i64 - b.y as i64
    } else {
        b.y as i64 - a.y as i64
    };
    (dx + dy) as u64
}

/// A graph of location nodes and undirected weighted edges.
///
/// Nodes are numbered densely in insertion order; `index` maps each
/// external identifier to that number. Every edge is stored twice, once in
/// the adjacency list of each endpoint.
#[derive(Debug)]
pub struct Graph {
    nodes: Vec<Node>,
    index: HashMap<i32, usize>,
    adj: Vec<Vec<Link>>,
    heuristic_requested: bool,
    edges_cover_distance: bool,
}

impl Graph {
    /// The nodes, by dense index.
    pub closed spec fn node_seq(self) -> Seq<Node> {
        self.nodes@
    }

    /// The dense index of each known identifier.
    pub closed spec fn ids(self) -> Map<i32, usize> {
        self.index@
    }

    /// The adjacency list of the node with dense index `u`.
    pub closed spec fn links_of(self, u: int) -> Seq<Link> {
        self.adj@[u]@
    }

    /// Whether the caller asked for the distance heuristic.
    pub closed spec fn heuristic_requested(self) -> bool {
        self.heuristic_requested
    }

    /// How the private fields back the public model.
    pub closed spec fn storage_ok(self) -> bool {
        &&& self.adj@.len() == self.nodes@.len()
        &&& self.edges_cover_distance == self.edges_cover()
    }

    /// The number of nodes.
    pub open spec fn num_nodes(self) -> int {
        self.node_seq().len() as int
    }

    /// The node with dense index `u`.
    pub open spec fn node(self, u: int) -> Node {
        self.node_seq()[u]
    }

    /// The number of links of dense node `u`.
    pub open spec fn degree(self, u: int) -> int {
        self.links_of(u).len() as int
    }

    /// The `k`-th link of dense node `u`.
    pub open spec fn link(self, u: int, k: int) -> Link {
        self.links_of(u)[k]
    }

    /// Whether a node has identifier `id`.
    pub open spec fn has_id(self, id: i32) -> bool {
        self.ids().contains_key(id)
    }

    /// The dense index of the node with identifier `id`.
    pub open spec fn index_of(self, id: i32) -> int {
        self.ids()[id] as int
    }

    /// No edge is shorter than the Manhattan distance between its
    /// endpoints, so that distance never overestimates a remaining cost.
    pub open spec fn edges_cover(self) -> bool {
        forall|u: int, k: int| #![trigger self.link(u, k)]
            0 <= u < self.num_nodes() && 0 <= k < self.degree(u) ==> manhattan(
                self.node(u),
                self.node(self.link(u, k).to as int),
            ) <= self.link(u, k).weight
    }

    /// Whether the distance heuristic is in use: it was asked for, and the
    /// edges allow it.
    pub open spec fn heuristic_active(self) -> bool {
        self.heuristic_requested() && self.edges_cover()
    }

    /// Some edge leads from dense node `u` to dense node `v` with weight `w`.
    pub open spec fn has_link(self, u: int, v: int, w: int) -> bool {
        exists|k: int|
            0 <= k < self.degree(u) && #[trigger] self.link(u, k).to as int == v && self.link(
                u,
                k,
            ).weight as int == w
    }

    /// The graph's invariant: identifiers and dense indices correspond one
    /// to one, every edge joins known nodes with a non-negative weight, the
    /// adjacency is symmetric.
    pub open spec fn wf(self) -> bool {
        &&& self.storage_ok()
        &&& self.num_nodes() <= usize::MAX
        &&& forall|id: i32| #[trigger]
            self.has_id(id) ==> 0 <= self.index_of(id) < self.num_nodes() && self.node(
                self.index_of(id),
            ).id == id
        &&& forall|u: int| #![trigger self.node(u)]
            0 <= u < self.num_nodes() ==> self.has_id(self.node(u).id) && self.index_of(
                self.node(u).id,
            ) == u
        &&& forall|u: int, k: int| #![trigger self.link(u, k)]
            0 <= u < self.num_nodes() && 0 <= k < self.degree(u) ==> {
                &&& self.link(u, k).to < self.num_nodes()
                &&& self.link(u, k).weight >= 0
                &&& self.has_link(self.link(u, k).to as int, u, self.link(u, k).weight as int)
            }
    }

    /// The two graphs hold the same nodes and edges; they may differ in
    /// whether the heuristic is in use.
    pub open spec fn same_network(self, other: Graph) -> bool {
        &&& self.node_seq() == other.node_seq()
        &&& self.ids() == other.ids()
        &&& forall|u: int| 0 <= u < self.num_nodes() ==> #[trigger] self.links_of(u) == other.links_of(u)
    }

    /// An empty graph, with the heuristic off.
    pub fn new() -> (g: Graph)
        ensures
            g.wf(),
            g.num_nodes() == 0,
            g.ids() =~= Map::empty(),
            !g.heuristic_requested(),
    {
        Graph {
            nodes: Vec::new(),
            index: HashMap::new(),
            adj: Vec::new(),
            heuristic_requested: false,
            edges_cover_distance: true,
        }
    }

    /// Adds a node under the next dense index; refuses an identifier that
    /// is already present.
    pub fn add_node(&mut self, node: Node) -> (r: Result<(), BuildError>)
        requires
            old(self).wf(),
        ensures
            final(self).wf(),
            old(self).has_id(node.id) ==> r == Err::<(), BuildError>(BuildError::DuplicateNode)
                && *final(self) == *old(self),
            !old(self).has_id(node.id) ==> r is Ok && final(self).node_seq() == old(
                self,
            ).node_seq().push(node) && final(self).ids() == old(self).ids().insert(
                node.id,
                old(self).num_nodes() as usize,
            ) && final(self).links_of(old(self).num_nodes()) == Seq::<Link>::empty() && (forall|
                u: int,
            |
                0 <= u < old(self).num_nodes() ==> #[trigger] final(self).links_of(u) == old(
                    self,
                ).links_of(u)) && final(self).heuristic_requested() == old(
                self,
            ).heuristic_requested() && final(self).heuristic_active() == old(
                self,
            ).heuristic_active(),
    {
        if self.index.contains_key(&node.id) {
            return Err(BuildError::DuplicateNode);
        }
        let u = self.nodes.len();
        self.index.insert(node.id, u);
        self.nodes.push(node);
        self.adj.push(Vec::new());
        // Every dense index, the new one included, fits in a usize.
        let _count = self.nodes.len();
        proof {
            let g = *self;
            let o = *old(self);
            assert forall|v: int, k: int|
                0 <= v < g.num_nodes() && 0 <= k < g.degree(v) implies #[trigger] g.link(v, k)
                == o.link(v, k) by {}
            assert forall|v: int, k: int| #![trigger g.link(v, k)]
                0 <= v < g.num_nodes() && 0 <= k < g.degree(v) implies g.has_link(
                g.link(v, k).to as int,
                v,
                g.link(v, k).weight as int,
            ) by {
                assert(o.has_link(o.link(v, k).to as int, v, o.link(v, k).weight as int));
                let j = choose|j: int|
                    0 <= j < o.degree(o.link(v, k).to as int) && #[trigger] o.link(
                        o.link(v, k).to as int,
                        j,
                    ).to as int == v && o.link(o.link(v, k).to as int, j).weight as int == o.link(
                        v,
                        k,
                    ).weight as int;
                assert(g.link(g.link(v, k).to as int, j) == o.link(o.link(v, k).to as int, j));
            }
            assert(g.edges_cover() == o.edges_cover()) by {
                if o.edges_cover() {
                    assert forall|v: int, k: int| #![trigger g.link(v, k)]
                        0 <= v < g.num_nodes() && 0 <= k < g.degree(v) implies manhattan(
                        g.node(v),
                        g.node(g.link(v, k).to as int),
                    ) <= g.link(v, k).weight by {
                        assert(g.link(v, k) == o.link(v, k));
                        assert(g.node(v) == o.node(v));
                        assert(o.link(v, k).to < o.num_nodes());
                    }
                }
                if g.edges_cover() {
                    assert forall|v: int, k: int| #![trigger o.link(v, k)]
                        0 <= v < o.num_nodes() && 0 <= k < o.degree(v) implies manhattan(
                        o.node(v),
                        o.node(o.link(v, k).to as int),
                    ) <= o.link(v, k).weight by {
                        assert(g.link(v, k) == o.link(v, k));
                        assert(g.node(v) == o.node(v));
                        assert(o.link(v, k).to < o.num_nodes());
                    }
                }
            }
            assert forall|id: i32| #[trigger] g.has_id(id) implies 0 <= g.index_of(id)
                < g.num_nodes() && g.node(g.index_of(id)).id == id by {
                if id != node.id {
                    assert(o.has_id(id));
                }
            }
            assert forall|v: int| #![trigger g.node(v)]
                0 <= v < g.num_nodes() implies g.has_id(g.node(v).id) && g.index_of(g.node(v).id)
                == v by {
                if v < o.num_nodes() {
                    assert(o.node(v) == g.node(v));
                    assert(o.has_id(o.node(v).id));
                }
            }
        }
        Ok(())
    }

    /// Adds an undirected edge: one link at each endpoint, with the same
    /// weight. Refuses an edge with an unknown endpoint, then one with a
    /// negative weight. Parallel edges and loops are kept.
    pub fn add_edge(&mut self, edge: Edge) -> (r: Result<(), BuildError>)
        requires
            old(self).wf(),
        ensures
            final(self).wf(),
            !old(self).has_id(edge.node_a_id) || !old(self).has_id(edge.node_b_id) ==> r
                == Err::<(), BuildError>(BuildError::UnknownNode) && *final(self) == *old(self),
            old(self).has_id(edge.node_a_id) && old(self).has_id(edge.node_b_id) && edge.weight
                < 0 ==> r == Err::<(), BuildError>(BuildError::NegativeWeight) && *final(self)
                == *old(self),
            old(self).has_id(edge.node_a_id) && old(self).has_id(edge.node_b_id) && edge.weight
                >= 0 ==> r is Ok && old(self).edge_added(*final(self), edge),
    {
        let a = match self.index.get(&edge.node_a_id) {
            Some(a) => *a,
            None => {
                return Err(BuildError::UnknownNode);
            },
        };
        let b = match self.index.get(&edge.node_b_id) {
            Some(b) => *b,
            None => {
                return Err(BuildError::UnknownNode);
            },
        };
        if edge.weight < 0 {
            return Err(BuildError::NegativeWeight);
        }
        assert(self.has_id(edge.node_a_id) && self.has_id(edge.node_b_id));
        assert(a == self.index_of(edge.node_a_id) && b == self.index_of(edge.node_b_id));
        let ghost o = *self;
        let d = manhattan_distance(&self.nodes[a], &self.nodes[b]);
        if (edge.weight as u64) < d {
            self.edges_cover_distance = false;
        }
        self.adj[a].push(Link { to: b, weight: edge.weight });
        self.adj[b].push(Link { to: a, weight: edge.weight });
        proof {
            let g = *self;
            let la = Link { to: b, weight: edge.weight };
            let lb = Link { to: a, weight: edge.weight };
            assert forall|v: int| 0 <= v < g.num_nodes() implies #[trigger] g.links_of(v)
                == o.links_of(v) + (if v == a {
                seq![la]
            } else {
                Seq::<Link>::empty()
            }) + (if v == b {
                seq![lb]
            } else {
                Seq::<Link>::empty()
            }) by {
                assert(g.links_of(v) =~= o.links_of(v) + (if v == a {
                    seq![la]
                } else {
                    Seq::<Link>::empty()
                }) + (if v == b {
                    seq![lb]
                } else {
                    Seq::<Link>::empty()
                }));
            }
            assert forall|v: int, k: int|
                0 <= v < o.num_nodes() && 0 <= k < o.degree(v) implies #[trigger] g.link(v, k)
                == o.link(v, k) && k < g.degree(v) by {}
            assert(g.has_link(a as int, b as int, edge.weight as int)) by {
                let k = o.degree(a as int) as int;
                let sa = o.links_of(a as int) + seq![la] + (if a == b {
                    seq![lb]
                } else {
                    Seq::<Link>::empty()
                });
                assert(g.links_of(a as int) == sa);
                assert(sa[k] == la);
                assert(g.link(a as int, k) == la);
                assert(0 <= k < g.degree(a as int));
                assert(g.link(a as int, k).to as int == b as int);
            }
            assert(g.has_link(b as int, a as int, edge.weight as int)) by {
                let k = g.degree(b as int) - 1;
                let sb = o.links_of(b as int) + (if a == b {
                    seq![la]
                } else {
                    Seq::<Link>::empty()
                }) + seq![lb];
                assert(g.links_of(b as int) == sb);
                assert(sb[k] == lb);
                assert(g.link(b as int, k) == lb);
                assert(0 <= k < g.degree(b as int));
                assert(g.link(b as int, k).to as int == a as int);
            }
            assert forall|v: int, k: int| #![trigger g.link(v, k)]
                0 <= v < g.num_nodes() && 0 <= k < g.degree(v) implies {
                &&& g.link(v, k).to < g.num_nodes()
                &&& g.link(v, k).weight >= 0
                &&& g.has_link(g.link(v, k).to as int, v, g.link(v, k).weight as int)
            } by {
                if k < o.degree(v) {
                    let t = o.link(v, k).to as int;
                    assert(o.has_link(t, v, o.link(v, k).weight as int));
                    let j = choose|j: int|
                        0 <= j < o.degree(t) && #[trigger] o.link(t, j).to as int == v && o.link(
                            t,
                            j,
                        ).weight as int == o.link(v, k).weight as int;
                    assert(g.link(t, j) == o.link(t, j));
                } else {
                    assert(g.link(v, k) == la || g.link(v, k) == lb);
                }
            }
            assert(g.edges_cover() == (o.edges_cover() && d <= edge.weight)) by {
                if g.edges_cover() {
                    assert forall|v: int, k: int| #![trigger o.link(v, k)]
                        0 <= v < o.num_nodes() && 0 <= k < o.degree(v) implies manhattan(
                        o.node(v),
                        o.node(o.link(v, k).to as int),
                    ) <= o.link(v, k).weight by {
                        assert(g.link(v, k) == o.link(v, k));
                    }
                    assert(g.link(a as int, o.degree(a as int)) == la);
                }
                if o.edges_cover() && d <= edge.weight {
                    assert forall|v: int, k: int| #![trigger g.link(v, k)]
                        0 <= v < g.num_nodes() && 0 <= k < g.degree(v) implies manhattan(
                        g.node(v),
                        g.node(g.link(v, k).to as int),
                    ) <= g.link(v, k).weight by {
                        if k < o.degree(v) {
                            assert(g.link(v, k) == o.link(v, k));
                        } else {
                            assert(g.link(v, k) == la || g.link(v, k) == lb);
                        }
                    }
                }
            }
            assert(g.storage_ok());
            assert forall|id: i32| #[trigger] g.has_id(id) implies 0 <= g.index_of(id)
                < g.num_nodes() && g.node(g.index_of(id)).id == id by {
                assert(o.has_id(id));
            }
            assert forall|v: int| #![trigger g.node(v)]
                0 <= v < g.num_nodes() implies g.has_id(g.node(v).id) && g.index_of(g.node(v).id)
                == v by {
                assert(o.node(v) == g.node(v));
            }
        }
        Ok(())
    }

    /// `new` is `self` with the edge `e`, whose endpoints are known, added
    /// at both ends.
    pub open spec fn edge_added(self, new: Graph, e: Edge) -> bool {
        let a = self.index_of(e.node_a_id);
        let b = self.index_of(e.node_b_id);
        &&& new.node_seq() == self.node_seq()
        &&& new.ids() == self.ids()
        &&& forall|v: int|
            0 <= v < self.num_nodes() ==> #[trigger] new.links_of(v) == self.links_of(v) + (if v
                == a {
                seq![Link { to: b as usize, weight: e.weight }]
            } else {
                Seq::<Link>::empty()
            }) + (if v == b {
                seq![Link { to: a as usize, weight: e.weight }]
            } else {
                Seq::<Link>::empty()
            })
        &&& new.heuristic_requested() == self.heuristic_requested()
        &&& new.heuristic_active() == (self.heuristic_active() && manhattan(
            self.node(a),
            self.node(b),
        ) <= e.weight)
    }

    /// Asks for, or stops asking for, the Manhattan-distance heuristic.
    /// It is used only while every edge is at least as long as the
    /// Manhattan distance between its endpoints; otherwise queries fall
    /// back to plain cost ordering.
    pub fn set_heuristic(&mut self, enabled: bool)
        requires
            old(self).wf(),
        ensures
            final(self).wf(),
            final(self).same_network(*old(self)),
            final(self).heuristic_requested() == enabled,
    {
        self.heuristic_requested = enabled;
        proof {
            let o = *old(self);
            let g = *self;
            lemma_same_network_links(g, o);
            assert forall|u: int, k: int| #![trigger g.link(u, k)]
                0 <= u < g.num_nodes() && 0 <= k < g.degree(u) implies {
                &&& g.link(u, k).to < g.num_nodes()
                &&& g.link(u, k).weight >= 0
                &&& g.has_link(g.link(u, k).to as int, u, g.link(u, k).weight as int)
            } by {
                assert(g.links_of(u) == o.links_of(u));
                assert(g.link(u, k) == o.link(u, k));
            }
            assert(g.storage_ok());
            assert forall|id: i32| #[trigger] g.has_id(id) implies 0 <= g.index_of(id)
                < g.num_nodes() && g.node(g.index_of(id)).id == id by {
                assert(o.has_id(id));
            }
            assert forall|u: int| #![trigger g.node(u)]
                0 <= u < g.num_nodes() implies g.has_id(g.node(u).id) && g.index_of(g.node(u).id)
                == u by {
                assert(o.node(u) == g.node(u));
            }
        }
    }

    /// Whether queries on this graph use the distance heuristic.
    pub fn uses_heuristic(&self) -> (r: bool)
        requires
            self.wf(),
        ensures
            r == self.heuristic_active(),
    {
        self.heuristic_requested && self.edges_cover_distance
    }

    /// The number of nodes.
    pub fn node_count(&self) -> (r: usize)
        requires
            self.wf(),
        ensures
            r == self.num_nodes(),
    {
        self.nodes.len()
    }

    /// The dense index of the node with identifier `id`, if there is one.
    pub fn index_for(&self, id: i32) -> (r: Option<usize>)
        requires
            self.wf(),
        ensures
            r == (if self.has_id(id) {
                Some(self.index_of(id) as usize)
            } else {
                None::<usize>
            }),
    {
        match self.index.get(&id) {
            Some(u) => Some(*u),
            None => None,
        }
    }

    /// The node with dense index `u`.
    pub fn node_at(&self, u: usize) -> (r: &Node)
        requires
            self.wf(),
            u < self.num_nodes(),
        ensures
            *r == self.node(u as int),
    {
        &self.nodes[u]
    }

    /// The adjacency list of the node with dense index `u`.
    pub fn links_at(&self, u: usize) -> (r: &Vec<Link>)
        requires
            self.wf(),
            u < self.num_nodes(),
        ensures
            r@ == self.links_of(u as int),
    {
        &self.adj[u]
    }

    /// The node with identifier `id`, or `None` if there is none.
    pub fn get_node(&self, id: i32) -> (r: Option<Node>)
        requires
            self.wf(),
        ensures
            r == (if self.has_id(id) {
                Some(self.node(self.index_of(id)))
            } else {
                None::<Node>
            }),
    {
        match self.index_for(id) {
            Some(u) => Some(*self.node_at(u)),
            None => None,
        }
    }

    /// The edges leaving the node with identifier `id`, each written from
    /// that node's side, or `None` if there is no such node.
    pub fn get_edges(&self, id: i32) -> (r: Option<Vec<Edge>>)
        requires
            self.wf(),
        ensures
            !self.has_id(id) ==> r is None,
            self.has_id(id) ==> (r matches Some(es) && es@.len() == self.degree(self.index_of(id))
                && forall|k: int|
                0 <= k < es@.len() ==> #[trigger] es@[k] == self.edge_record(self.index_of(id), k)),
    {
        let u = match self.index_for(id) {
            Some(u) => u,
            None => {
                return None;
            },
        };
        let links = self.links_at(u);
        let mut out: Vec<Edge> = Vec::new();
        let mut k: usize = 0;
        while k < links.len()
            invariant
                self.wf(),
                self.has_id(id),
                u == self.index_of(id),
                links@ == self.links_of(u as int),
                k <= links@.len(),
                out@.len() == k,
                forall|j: int| 0 <= j < k ==> #[trigger] out@[j] == self.edge_record(u as int, j),
            decreases links@.len() - k,
        {
            let l = links[k];
            assert(self.link(u as int, k as int) == l);
            let to = self.node_at(l.to);
            out.push(Edge { node_a_id: id, node_b_id: to.id, weight: l.weight });
            k = k + 1;
        }
        Some(out)
    }

    /// The `k`-th link of dense node `u`, written as an edge record.
    pub open spec fn edge_record(self, u: int, k: int) -> Edge {
        Edge {
            node_a_id: self.node(u).id,
            node_b_id: self.node(self.link(u, k).to as int).id,
            weight: self.link(u, k).weight,
        }
    }
}

/// Some node of `nodes` has identifier `id`.
pub open spec fn lists_id(nodes: Seq<Node>, id: i32) -> bool {
    exists|i: int| 0 <= i < nodes.len() && #[trigger] nodes[i].id == id
}

/// No two nodes of `nodes` share an identifier.
pub open spec fn ids_distinct(nodes: Seq<Node>) -> bool {
    forall|i: int, j: int| 0 <= i < j < nodes.len() ==> nodes[i].id != nodes[j].id
}

/// Why the edge `e` cannot join a graph of `nodes`, if it cannot.
pub open spec fn edge_fault(nodes: Seq<Node>, e: Edge) -> Option<BuildError> {
    if !lists_id(nodes, e.node_a_id) || !lists_id(nodes, e.node_b_id) {
        Some(BuildError::UnknownNode)
    } else if e.weight < 0 {
        Some(BuildError::NegativeWeight)
    } else {
        None
    }
}

/// The fault of the first edge of `edges` that cannot join a graph of
/// `nodes`, if there is one.
pub open spec fn first_fault(nodes: Seq<Node>, edges: Seq<Edge>) -> Option<BuildError>
    decreases edges.len(),
{
    if edges.len() == 0 {
        None
    } else {
        match first_fault(nodes, edges.drop_last()) {
            Some(f) => Some(f),
            None => edge_fault(nodes, edges.last()),
        }
    }
}

/// The adjacency list of dense node `u` once `edges` have been added in
/// order, with `ids` giving each identifier's dense index.
pub open spec fn adjacency(ids: Map<i32, usize>, edges: Seq<Edge>, u: int) -> Seq<Link>
    decreases edges.len(),
{
    if edges.len() == 0 {
        Seq::empty()
    } else {
        let e = edges.last();
        let a = ids[e.node_a_id];
        let b = ids[e.node_b_id];
        adjacency(ids, edges.drop_last(), u) + (if u == a {
            seq![Link { to: b, weight: e.weight }]
        } else {
            Seq::<Link>::empty()
        }) + (if u == b {
            seq![Link { to: a, weight: e.weight }]
        } else {
            Seq::<Link>::empty()
        })
    }
}

/// Once an edge has a fault, so does every longer list that starts with it.
pub proof fn lemma_first_fault_prefix(nodes: Seq<Node>, edges: Seq<Edge>, j: int)
    requires
        0 <= j <= edges.len(),
        first_fault(nodes, edges.take(j)) is Some,
    ensures
        first_fault(nodes, edges) == first_fault(nodes, edges.take(j)),
    decreases edges.len(),
{
    if j == edges.len() {
        assert(edges.take(j) =~= edges);
    } else {
        assert(edges.drop_last().take(j) =~= edges.take(j));
        lemma_first_fault_prefix(nodes, edges.drop_last(), j);
    }
}

impl Graph {
    /// Builds a graph from node records and then edge records, in order,
    /// with the heuristic off. Fails with `DuplicateNode` if two nodes share
    /// an identifier, and otherwise with the fault of the first edge that
    /// names an unknown node or has a negative weight; no graph is returned
    /// then.
    pub fn build(nodes: &Vec<Node>, edges: &Vec<Edge>) -> (r: Result<Graph, BuildError>)
        ensures
            !ids_distinct(nodes@) ==> r == Err::<Graph, BuildError>(BuildError::DuplicateNode),
            ids_distinct(nodes@) ==> match first_fault(nodes@, edges@) {
                Some(f) => r == Err::<Graph, BuildError>(f),
                None => r matches Ok(g) && {
                    &&& g.wf()
                    &&& g.node_seq() == nodes@
                    &&& !g.heuristic_requested()
                    &&& forall|u: int|
                        0 <= u < g.num_nodes() ==> #[trigger] g.links_of(u) == adjacency(
                            g.ids(),
                            edges@,
                            u,
                        )
                },
            },
    {
        let mut g = Graph::new();
        let mut i: usize = 0;
        while i < nodes.len()
            invariant
                i <= nodes@.len(),
                g.wf(),
                g.node_seq() == nodes@.take(i as int),
                ids_distinct(nodes@.take(i as int)),
                !g.heuristic_requested(),
                forall|u: int| 0 <= u < i ==> #[trigger] g.links_of(u) == Seq::<Link>::empty(),
                forall|id: i32| #[trigger] g.has_id(id) <==> lists_id(nodes@.take(i as int), id),
            decreases nodes@.len() - i,
        {
            let node = nodes[i];
            let ghost o = g;
            match g.add_node(node) {
                Err(e) => {
                    proof {
                        assert(lists_id(nodes@.take(i as int), node.id));
                        let j = choose|j: int|
                            0 <= j < i && #[trigger] nodes@.take(i as int)[j].id == node.id;
                        assert(nodes@[j].id == nodes@[i as int].id);
                    }
                    return Err(e);
                },
                Ok(()) => {},
            }
            proof {
                let pre = nodes@.take(i as int);
                let post = nodes@.take(i as int + 1);
                assert(post =~= pre.push(node));
                assert forall|id: i32| #[trigger] g.has_id(id) <==> lists_id(post, id) by {
                    assert(o.has_id(id) == lists_id(pre, id));
                    if lists_id(post, id) && id != node.id {
                        let j = choose|j: int| 0 <= j < post.len() && #[trigger] post[j].id == id;
                        assert(pre[j].id == id);
                    }
                    if lists_id(pre, id) {
                        let j = choose|j: int| 0 <= j < pre.len() && #[trigger] pre[j].id == id;
                        assert(post[j].id == id);
                    }
                    if id == node.id {
                        assert(post[i as int].id == id);
                    }
                }
                assert forall|a: int, b: int| 0 <= a < b < post.len() implies post[a].id
                    != post[b].id by {
                    if b == i {
                        assert(pre[a].id == post[a].id);
                        assert(lists_id(pre, pre[a].id));
                    } else {
                        assert(pre[a] == post[a] && pre[b] == post[b]);
                    }
                }
            }
            i = i + 1;
        }
        assert(nodes@.take(nodes@.len() as int) =~= nodes@);
        let ghost ids0 = g.ids();
        let mut j: usize = 0;
        while j < edges.len()
            invariant
                j <= edges@.len(),
                g.wf(),
                g.node_seq() == nodes@,
                ids_distinct(nodes@),
                g.ids() == ids0,
                !g.heuristic_requested(),
                forall|id: i32| #[trigger] g.has_id(id) <==> lists_id(nodes@, id),
                first_fault(nodes@, edges@.take(j as int)) is None,
                forall|u: int|
                    0 <= u < g.num_nodes() ==> #[trigger] g.links_of(u) == adjacency(
                        ids0,
                        edges@.take(j as int),
                        u,
                    ),
            decreases edges@.len() - j,
        {
            let e = edges[j];
            let ghost o = g;
            let res = g.add_edge(e);
            proof {
                let pre = edges@.take(j as int);
                let post = edges@.take(j as int + 1);
                assert(post.drop_last() =~= pre);
                assert(post.last() == e);
                assert(o.has_id(e.node_a_id) == lists_id(nodes@, e.node_a_id));
                assert(o.has_id(e.node_b_id) == lists_id(nodes@, e.node_b_id));
                if res is Err {
                    lemma_first_fault_prefix(nodes@, edges@, j as int + 1);
                } else {
                    assert forall|id: i32| #[trigger] g.has_id(id) <==> lists_id(nodes@, id) by {
                        assert(o.has_id(id) == lists_id(nodes@, id));
                    }
                    assert forall|u: int| 0 <= u < g.num_nodes() implies #[trigger] g.links_of(u)
                        == adjacency(ids0, post, u) by {
                        assert(o.links_of(u) == adjacency(ids0, pre, u));
                    }
                }
            }
            match res {
                Err(f) => {
                    return Err(f);
                },
                Ok(()) => {},
            }
            j = j + 1;
        }
        assert(edges@.take(edges@.len() as int) =~= edges@);
        Ok(g)
    }
}

/// Graphs with the same nodes and adjacency lists have the same links.
pub proof fn lemma_same_network_links(g: Graph, o: Graph)
    requires
        g.same_network(o),
    ensures
        forall|u: int, v: int, w: int|
            0 <= u < g.num_nodes() ==> #[trigger] g.has_link(u, v, w) == o.has_link(u, v, w),
        g.edges_cover() == o.edges_cover(),
{
    assert forall|u: int, v: int, w: int|
        0 <= u < g.num_nodes() implies #[trigger] g.has_link(u, v, w) == o.has_link(u, v, w) by {
        assert(g.links_of(u) == o.links_of(u));
        if g.has_link(u, v, w) {
            let k = choose|k: int|
                0 <= k < g.degree(u) && #[trigger] g.link(u, k).to as int == v && g.link(
                    u,
                    k,
                ).weight as int == w;
            assert(o.link(u, k) == g.link(u, k));
        }
        if o.has_link(u, v, w) {
            let k = choose|k: int|
                0 <= k < o.degree(u) && #[trigger] o.link(u, k).to as int == v && o.link(
                    u,
                    k,
                ).weight as int == w;
            assert(o.link(u, k) == g.link(u, k));
        }
    }
    if g.edges_cover() {
        assert forall|u: int, k: int| #![trigger o.link(u, k)]
            0 <= u < o.num_nodes() && 0 <= k < o.degree(u) implies manhattan(
            o.node(u),
            o.node(o.link(u, k).to as int),
        ) <= o.link(u, k).weight by {
            assert(g.links_of(u) == o.links_of(u));
            assert(g.link(u, k) == o.link(u, k));
        }
    }
    if o.edges_cover() {
        assert forall|u: int, k: int| #![trigger g.link(u, k)]
            0 <= u < g.num_nodes() && 0 <= k < g.degree(u) implies manhattan(
            g.node(u),
            g.node(g.link(u, k).to as int),
        ) <= g.link(u, k).weight by {
            assert(g.links_of(u) == o.links_of(u));
            assert(g.link(u, k) == o.link(u, k));
        }
    }
}

} // verus!
