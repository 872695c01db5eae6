//! The mathematical model of a graph: vertex names in the order in which they
//! were registered, and for each vertex its outgoing edges in the order in
//! which they were added, each edge being the index of its target.

use vstd::prelude::*;

verus! {

/// What a graph holds, as plain sequences.
pub struct GraphModel {
    /// The name of each vertex, by index; registration order.
    pub names: Seq<Seq<char>>,
    /// The targets of each vertex's outgoing edges, by index; addition order.
    pub adj: Seq<Seq<usize>>,
    /// How many edges were added, duplicates counted.
    pub edge_count: nat,
}

/// The index at which `name` stands in `names` (meaningful when it is there).
pub open spec fn position(names: Seq<Seq<char>>, name: Seq<char>) -> int {
    choose|i: int| 0 <= i < names.len() && names[i] == name
}

/// The sum of the lengths of all edge lists.
pub open spec fn total_edges(adj: Seq<Seq<usize>>) -> nat
    decreases adj.len(),
{
    if adj.len() == 0 {
        0
    } else {
        total_edges(adj.drop_last()) + adj.last().len()
    }
}

impl GraphModel {
    /// Every vertex has one edge list, names are unique, no edge dangles, and
    /// the edge count is the number of stored edges.
    pub open spec fn wf(self) -> bool {
        &&& self.names.len() == self.adj.len()
        &&& self.names.no_duplicates()
        &&& forall|i: int, j: int|
            0 <= i < self.adj.len() && 0 <= j < self.adj[i].len() ==> (#[trigger] self.adj[i][j])
                < self.adj.len()
        &&& self.edge_count == total_edges(self.adj)
    }

    /// The graph with no vertex and no edge.
    pub open spec fn empty() -> GraphModel {
        GraphModel { names: Seq::empty(), adj: Seq::empty(), edge_count: 0 }
    }

    /// Whether a vertex of that name is registered.
    pub open spec fn has(self, name: Seq<char>) -> bool {
        self.names.contains(name)
    }

    /// The graph with `name` registered: unchanged if it already was, else with
    /// one more vertex, last, without edges.
    pub open spec fn register(self, name: Seq<char>) -> GraphModel {
        if self.has(name) {
            self
        } else {
            GraphModel {
                names: self.names.push(name),
                adj: self.adj.push(Seq::empty()),
                edge_count: self.edge_count,
            }
        }
    }

    /// The graph with `target` appended to the edge list of vertex `source`.
    pub open spec fn link(self, source: int, target: int) -> GraphModel {
        GraphModel {
            names: self.names,
            adj: self.adj.update(source, self.adj[source].push(target as usize)),
            edge_count: self.edge_count + 1,
        }
    }

    /// The graph after an edge from `start` to `end` is added: both names are
    /// registered, `start` first, and the edge is appended to `start`'s list.
    pub open spec fn add_edge(self, start: Seq<char>, end: Seq<char>) -> GraphModel {
        let g = self.register(start).register(end);
        g.link(position(g.names, start), position(g.names, end))
    }
}

/// The graph built from nothing by adding `edges` one after another.
pub open spec fn build(edges: Seq<(Seq<char>, Seq<char>)>) -> GraphModel
    decreases edges.len(),
{
    if edges.len() == 0 {
        GraphModel::empty()
    } else {
        build(edges.drop_last()).add_edge(edges.last().0, edges.last().1)
    }
}

/// The names that occur as an endpoint of some edge of `edges`.
pub open spec fn endpoints(edges: Seq<(Seq<char>, Seq<char>)>) -> Set<Seq<char>> {
    Set::new(
        |name: Seq<char>|
            exists|i: int| 0 <= i < edges.len() && (edges[i].0 == name || edges[i].1 == name),
    )
}

/// In a sequence without duplicates, the position of an element is its index.
pub proof fn lemma_position(names: Seq<Seq<char>>, i: int)
    requires
        names.no_duplicates(),
        0 <= i < names.len(),
    ensures
        position(names, names[i]) == i,
{
}

/// A name that is present has a position inside the sequence.
pub proof fn lemma_position_bounds(names: Seq<Seq<char>>, name: Seq<char>)
    requires
        names.contains(name),
    ensures
        0 <= position(names, name) < names.len(),
        names[position(names, name)] == name,
{
}

/// Appending to one edge list adds its length difference to the total.
pub proof fn lemma_total_edges_update(adj: Seq<Seq<usize>>, i: int, t: usize)
    requires
        0 <= i < adj.len(),
    ensures
        total_edges(adj.update(i, adj[i].push(t))) == total_edges(adj) + 1,
    decreases adj.len(),
{
    let next = adj.update(i, adj[i].push(t));
    if i == adj.len() - 1 {
        assert(next.drop_last() =~= adj.drop_last());
    } else {
        lemma_total_edges_update(adj.drop_last(), i, t);
        assert(next.drop_last() =~= adj.drop_last().update(i, adj[i].push(t)));
    }
}

/// A new vertex without edges leaves the total unchanged.
pub proof fn lemma_total_edges_push_empty(adj: Seq<Seq<usize>>)
    ensures
        total_edges(adj.push(Seq::empty())) == total_edges(adj),
{
    assert(adj.push(Seq::empty()).drop_last() =~= adj);
}

/// Registering a name keeps a graph well formed, makes the name present and
/// keeps every name that was present at its index.
pub proof fn lemma_register(g: GraphModel, name: Seq<char>)
    requires
        g.wf(),
    ensures
        g.register(name).wf(),
        g.register(name).has(name),
        g.register(name).edge_count == g.edge_count,
        g.register(name).names.len() == g.names.len() + (if g.has(name) { 0int } else { 1int }),
        forall|other: Seq<char>| g.has(other) ==> g.register(name).has(other),
        forall|other: Seq<char>|
            g.register(name).has(other) ==> g.has(other) || other == name,
{
    let r = g.register(name);
    if !g.has(name) {
        lemma_total_edges_push_empty(g.adj);
        assert(r.names[g.names.len() as int] == name);
        assert forall|other: Seq<char>| g.has(other) implies r.has(other) by {
            let k = choose|k: int| 0 <= k < g.names.len() && g.names[k] == other;
            assert(r.names[k] == other);
        }
    }
}

/// Adding an edge keeps a graph well formed, registers both endpoints and no
/// other name, and counts one more edge.
pub proof fn lemma_add_edge(g: GraphModel, start: Seq<char>, end: Seq<char>)
    requires
        g.wf(),
    ensures
        g.add_edge(start, end).wf(),
        g.add_edge(start, end).edge_count == g.edge_count + 1,
        g.add_edge(start, end).has(start),
        g.add_edge(start, end).has(end),
        forall|other: Seq<char>|
            g.add_edge(start, end).has(other) <==> g.has(other) || other == start || other == end,
        g.add_edge(start, end).names.len() == g.names.len() + (if g.has(start) {
            0int
        } else {
            1int
        }) + (if g.has(end) || end == start {
            0int
        } else {
            1int
        }),
{
    let a = g.register(start);
    lemma_register(g, start);
    let b = a.register(end);
    lemma_register(a, end);
    let s = position(b.names, start);
    let e = position(b.names, end);
    lemma_position_bounds(b.names, start);
    lemma_position_bounds(b.names, end);
    lemma_total_edges_update(b.adj, s, e as usize);
    let r = b.link(s, e);
    assert(r == g.add_edge(start, end));
    assert forall|i: int, j: int| 0 <= i < r.adj.len() && 0 <= j < r.adj[i].len() implies (
    #[trigger] r.adj[i][j]) < r.adj.len() by {
        if i == s && j == b.adj[s].len() {
        } else {
            assert(r.adj[i][j] == b.adj[i][j]);
        }
    }
}

/// After `e` edges are added to an empty graph, the graph is well formed, its
/// edge count is `e`, its vertices are exactly the names that the edges
/// mention, and its vertex count is the number of distinct such names.
pub proof fn lemma_build_accounting(edges: Seq<(Seq<char>, Seq<char>)>)
    ensures
        build(edges).wf(),
        build(edges).edge_count == edges.len(),
        build(edges).names.to_set() == endpoints(edges),
        endpoints(edges).finite(),
        build(edges).names.len() == endpoints(edges).len(),
    decreases edges.len(),
{
    let g = build(edges);
    if edges.len() == 0 {
        assert(g.names.to_set() =~= endpoints(edges));
    } else {
        let before = edges.drop_last();
        let p = build(before);
        lemma_build_accounting(before);
        lemma_add_edge(p, edges.last().0, edges.last().1);
        assert forall|name: Seq<char>| g.names.to_set().contains(name) <==> endpoints(
            edges,
        ).contains(name) by {
            assert(p.has(name) <==> p.names.to_set().contains(name));
            assert(g.has(name) <==> g.names.to_set().contains(name));
            if endpoints(before).contains(name) {
                let i = choose|i: int|
                    0 <= i < before.len() && (before[i].0 == name || before[i].1 == name);
                assert(edges[i] == before[i]);
            }
            if endpoints(edges).contains(name) {
                let i = choose|i: int|
                    0 <= i < edges.len() && (edges[i].0 == name || edges[i].1 == name);
                if i < before.len() {
                    assert(edges[i] == before[i]);
                    assert(endpoints(before).contains(name));
                }
            }
            if name == edges.last().0 || name == edges.last().1 {
                assert(edges[edges.len() - 1] == edges.last());
            }
        }
        assert(g.names.to_set() =~= endpoints(edges));
    }
    g.names.unique_seq_to_set();
}

} // verus!
