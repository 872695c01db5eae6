//! The graph itself: vertices owned by one collection, edges stored as
//! indices into it, construction by adding edges between names, and the two
//! traversals.

use std::collections::VecDeque;
use typed_arena::Arena;
use vstd::prelude::*;
use crate::model::{
    lemma_add_edge, lemma_position, lemma_position_bounds, lemma_register,
    lemma_total_edges_push_empty, position, GraphModel,
};
use crate::name::same_name;
use crate::preorder::{lemma_dfs_from_is_preorder, preorder};
use crate::reach::{lemma_bfs_level_order, lemma_bfs_reach, lemma_dfs_reach, reachable, within};
use crate::traversal::{
    bfs_from, bfs_order, bfs_run, bfs_sweep, dfs_from, dfs_order, dfs_run, dfs_sweep, extends,
    fresh, lemma_bfs_run, lemma_dfs_run,
    in_range, lemma_bfs_order_complete, lemma_dfs_order_complete, lemma_unvisited_push,
    lemma_traversal_names, lemma_visited_contains, lemma_visited_push, names_along, unvisited,
    visited, visits_each_once,
};

verus! {

/// A vertex: a name that never changes and the outgoing edges in the order in
/// which they were added, each the index of its target in the owning graph.
pub struct Node {
    name: &'static str,
    edges: Vec<usize>,
}

/// A directed graph of named vertices.
pub struct Graph {
    vertices: Vec<Node>,
    edge_num: usize,
}

/// The characters of each name of `names`.
pub open spec fn names_of(names: Seq<&'static str>) -> Seq<Seq<char>> {
    Seq::new(names.len(), |i: int| names[i]@)
}

/// Whether what `f` promises of a finished call holds for a name made of the
/// characters `label`.
pub open spec fn called_on<F: Fn(&'static str)>(f: &F, label: Seq<char>) -> bool {
    exists|name: &'static str| name@ == label && #[trigger] call_ensures(*f, (name,), ())
}

/// `seen` marks, among the `n` vertices, exactly those that occur in `order`.
pub open spec fn marks(n: nat, seen: Seq<bool>, order: Seq<usize>) -> bool {
    &&& seen.len() == n
    &&& forall|v: int| 0 <= v < n ==> (#[trigger] seen[v] <==> visited(order, v))
}

impl Node {
    /// The characters of the vertex's name.
    pub closed spec fn label(&self) -> Seq<char> {
        self.name@
    }

    /// The targets of the vertex's edges.
    pub closed spec fn targets(&self) -> Seq<usize> {
        self.edges@
    }

    /// A vertex of that name without edges.
    pub fn new(name: &'static str) -> (node: Node)
        ensures
            node.label() == name@,
            node.targets() == Seq::<usize>::empty(),
    {
        Node { name, edges: Vec::new() }
    }

    /// The vertex's name.
    pub fn name(&self) -> (name: &'static str)
        ensures
            name@ == self.label(),
    {
        self.name
    }

    /// How many edges leave the vertex.
    pub fn num_edges(&self) -> (n: usize)
        ensures
            n == self.targets().len(),
    {
        self.edges.len()
    }

    /// The target of the vertex's first edge.
    pub fn first(&self) -> (target: usize)
        requires
            self.targets().len() > 0,
        ensures
            target == self.targets()[0],
    {
        self.edges[0]
    }

    /// Appends an edge to `target`; a repeated target is appended again.
    pub fn add_edge(&mut self, target: usize)
        ensures
            final(self).targets() == old(self).targets().push(target),
            final(self).label() == old(self).label(),
    {
        self.edges.push(target);
    }
}

impl View for Graph {
    type V = GraphModel;

    closed spec fn view(&self) -> GraphModel {
        GraphModel {
            names: Seq::new(self.vertices@.len(), |i: int| self.vertices@[i].name@),
            adj: Seq::new(self.vertices@.len(), |i: int| self.vertices@[i].edges@),
            edge_count: self.edge_num as nat,
        }
    }
}

impl Graph {
    /// The graph's invariant: that of its model.
    pub open spec fn wf(&self) -> bool {
        self@.wf()
    }

    /// The empty graph, allocated in `arena` and living as long as its borrow.
    pub fn new<'b>(arena: &'b Arena<Graph>) -> (graph: &'b mut Graph)
        ensures
            graph.wf(),
            graph@ == GraphModel::empty(),
    {
        let graph = Graph { vertices: Vec::new(), edge_num: 0 };
        proof {
            assert(graph@.names =~= Seq::empty());
            assert(graph@.adj =~= Seq::empty());
        }
        arena.alloc(graph)
    }

    /// The number of registered vertices.
    pub fn num_vertices(&self) -> (n: usize)
        ensures
            n == self@.names.len(),
    {
        self.vertices.len()
    }

    /// The number of edges added so far, duplicates counted.
    pub fn num_edges(&self) -> (n: usize)
        ensures
            n == self@.edge_count,
    {
        self.edge_num
    }

    /// The vertex at `index`, with its name and its edges.
    pub fn node(&self, index: usize) -> (node: &Node)
        requires
            index < self@.names.len(),
        ensures
            node.label() == self@.names[index as int],
            node.targets() == self@.adj[index as int],
    {
        &self.vertices[index]
    }

    /// The index of the vertex of that name, if it is registered.
    pub fn find(&self, name: &str) -> (found: Option<usize>)
        requires
            self.wf(),
        ensures
            found.is_some() <==> self@.has(name@),
            found matches Some(i) ==> i < self@.names.len() && self@.names[i as int] == name@ && i
                == position(self@.names, name@),
    {
        let mut i: usize = 0;
        while i < self.vertices.len()
            invariant
                i <= self.vertices@.len(),
                self.wf(),
                forall|k: int| 0 <= k < i ==> self@.names[k] != name@,
            decreases self.vertices@.len() - i,
        {
            if same_name(self.vertices[i].name, name) {
                proof {
                    lemma_position(self@.names, i as int);
                }
                return Some(i);
            }
            i += 1;
        }
        None
    }

    /// Registers a vertex of a name that the graph does not yet hold, and
    /// gives its index.
    fn add_vertices(&mut self, name: &'static str) -> (index: usize)
        requires
            old(self).wf(),
            !old(self)@.has(name@),
        ensures
            final(self).wf(),
            final(self)@ == old(self)@.register(name@),
            index == old(self)@.names.len(),
            index == position(final(self)@.names, name@),
    {
        let index = self.vertices.len();
        self.vertices.push(Node::new(name));
        proof {
            lemma_total_edges_push_empty(old(self)@.adj);
            assert(self@.names =~= old(self)@.names.push(name@));
            assert(self@.adj =~= old(self)@.adj.push(Seq::empty()));
            lemma_register(old(self)@, name@);
            lemma_position(self@.names, index as int);
        }
        index
    }

    /// The index of the vertex of that name, which is registered first if the
    /// graph does not hold it.
    fn vertex(&mut self, name: &'static str) -> (index: usize)
        requires
            old(self).wf(),
        ensures
            final(self).wf(),
            final(self)@ == old(self)@.register(name@),
            index < final(self)@.names.len(),
            index == position(final(self)@.names, name@),
    {
        match self.find(name) {
            Some(index) => index,
            None => self.add_vertices(name),
        }
    }

    /// Adds a directed edge from the vertex named `start` to the vertex named
    /// `end`. A name that the graph does not hold yet is registered, `start`
    /// before `end`; the two may be equal. The same edge added again is stored
    /// and counted again.
    pub fn add_edge(&mut self, start: &'static str, end: &'static str)
        requires
            old(self).wf(),
            old(self)@.edge_count < usize::MAX,
        ensures
            final(self).wf(),
            final(self)@ == old(self)@.add_edge(start@, end@),
            final(self)@.edge_count == old(self)@.edge_count + 1,
            final(self)@.has(start@),
            final(self)@.has(end@),
            forall|other: Seq<char>|
                final(self)@.has(other) <==> old(self)@.has(other) || other == start@ || other
                    == end@,
            final(self)@.names.len() == old(self)@.names.len() + (if old(self)@.has(start@) {
                0int
            } else {
                1int
            }) + (if old(self)@.has(end@) || end@ == start@ {
                0int
            } else {
                1int
            }),
    {
        let s = self.vertex(start);
        let e = self.vertex(end);
        let ghost mid = self@;
        self.vertices[s].add_edge(e);
        self.edge_num += 1;
        proof {
            lemma_add_edge(old(self)@, start@, end@);
            assert(mid == old(self)@.register(start@).register(end@));
            assert(s == position(mid.names, start@)) by {
                lemma_register(old(self)@, start@);
                lemma_register(old(self)@.register(start@), end@);
                lemma_position_bounds(mid.names, start@);
            }
            assert(self@.names =~= mid.names);
            assert(self@.adj =~= mid.adj.update(s as int, mid.adj[s as int].push(e)));
            assert(self@ == mid.link(s as int, e as int));
        }
    }

    /// Depth-first traversal from the vertex `start`, continuing the visiting
    /// `order` with the vertices reached and not yet marked in `seen`. Pending
    /// vertices are kept on a stack of the function's own, so that a long chain
    /// of edges costs no call depth.
    pub fn dfs_visit(&self, start: usize, seen: &mut Vec<bool>, order: &mut Vec<usize>)
        requires
            self.wf(),
            start < self@.names.len(),
            marks(self@.names.len(), old(seen)@, old(order)@),
        ensures
            final(order)@ == dfs_from(self@.adj, start, old(order)@),
            final(order)@ == preorder(self@.adj, seq![start], old(order)@),
            marks(self@.names.len(), final(seen)@, final(order)@),
            old(order)@.no_duplicates() && in_range(self@.names.len(), old(order)@) ==> ({
                &&& final(order)@.no_duplicates()
                &&& in_range(self@.names.len(), final(order)@)
                &&& extends(final(order)@, old(order)@)
                &&& final(order)@.contains(start)
            }),
            old(order)@.len() == 0 ==> forall|v: usize|
                final(order)@.contains(v) <==> reachable(self@.adj, start, v),
    {
        let ghost adj = self@.adj;
        let ghost goal = dfs_from(adj, start, order@);
        proof {
            let before = order@;
            lemma_dfs_from_is_preorder(adj, start, before);
            if before.no_duplicates() && in_range(adj.len(), before) {
                lemma_dfs_run(adj, seq![start], before);
                assert(goal.contains(seq![start][0]));
            }
            if before.len() == 0 {
                assert(before =~= Seq::empty());
                assert forall|v: usize| goal.contains(v) <==> reachable(adj, start, v) by {
                    lemma_dfs_reach(adj, start, v);
                }
            }
        }
        let mut stack: Vec<usize> = Vec::new();
        stack.push(start);
        assert(stack@ =~= seq![start]);
        while stack.len() > 0
            invariant
                self.wf(),
                adj == self@.adj,
                adj.len() == self.vertices@.len(),
                in_range(adj.len(), stack@),
                marks(adj.len(), seen@, order@),
                dfs_run(adj, stack@, order@) == goal,
            decreases unvisited(adj.len(), order@), stack@.len(),
        {
            let ghost before = stack@;
            let ghost visited_before = order@;
            let v = stack.pop().unwrap();
            assert(v == before.last() && stack@ =~= before.drop_last());
            proof {
                lemma_visited_contains(order@, v);
            }
            if !seen[v] {
                seen[v] = true;
                order.push(v);
                proof {
                    lemma_unvisited_push(adj.len(), visited_before, v);
                    lemma_visited_push(visited_before, v);
                }
                let ghost rest = stack@;
                let edges = &self.vertices[v].edges;
                assert(edges@ == adj[v as int]);
                let mut k: usize = edges.len();
                while k > 0
                    invariant
                        k <= edges@.len(),
                        edges@ == adj[v as int],
                        v < adj.len(),
                        self.wf(),
                        adj == self@.adj,
                        in_range(adj.len(), stack@),
                        stack@ == rest + Seq::new(
                            (edges@.len() - k) as nat,
                            |i: int| edges@[edges@.len() - 1 - i],
                        ),
                    decreases k,
                {
                    k -= 1;
                    let ghost prior = stack@;
                    stack.push(edges[k]);
                    proof {
                        assert(adj[v as int][k as int] < adj.len());
                        assert(stack@ =~= rest + Seq::new(
                            (edges@.len() - k) as nat,
                            |i: int| edges@[edges@.len() - 1 - i],
                        ));
                    }
                }
                assert(stack@ =~= rest + edges@.reverse());
            }
        }
    }

    /// Breadth-first traversal from the vertex `start`, continuing the
    /// visiting `order` with the vertices reached and not yet marked in `seen`.
    /// A vertex is tested both before it joins the queue and when it leaves it.
    pub fn bfs_visit(&self, start: usize, seen: &mut Vec<bool>, order: &mut Vec<usize>)
        requires
            self.wf(),
            start < self@.names.len(),
            marks(self@.names.len(), old(seen)@, old(order)@),
        ensures
            final(order)@ == bfs_from(self@.adj, start, old(order)@),
            marks(self@.names.len(), final(seen)@, final(order)@),
            old(order)@.no_duplicates() && in_range(self@.names.len(), old(order)@) ==> ({
                &&& final(order)@.no_duplicates()
                &&& in_range(self@.names.len(), final(order)@)
                &&& extends(final(order)@, old(order)@)
                &&& final(order)@.contains(start)
            }),
            old(order)@.len() == 0 ==> forall|v: usize|
                final(order)@.contains(v) <==> reachable(self@.adj, start, v),
            old(order)@.len() == 0 ==> forall|i: int, j: int, k: nat|
                0 <= i <= j < final(order)@.len() && #[trigger] within(
                    self@.adj,
                    start,
                    final(order)@[j],
                    k,
                ) ==> #[trigger] within(self@.adj, start, final(order)@[i], k),
    {
        let ghost adj = self@.adj;
        let ghost goal = bfs_from(adj, start, order@);
        proof {
            let before = order@;
            if before.no_duplicates() && in_range(adj.len(), before) {
                lemma_bfs_run(adj, seq![start], before);
                assert(goal.contains(seq![start][0]));
            }
            if before.len() == 0 {
                assert(before =~= Seq::empty());
                assert forall|v: usize| goal.contains(v) <==> reachable(adj, start, v) by {
                    lemma_bfs_reach(adj, start, v);
                }
                assert forall|i: int, j: int, k: nat|
                    0 <= i <= j < goal.len() && #[trigger] within(
                        adj,
                        start,
                        goal[j],
                        k,
                    ) implies #[trigger] within(adj, start, goal[i], k) by {
                    lemma_bfs_level_order(adj, start, i, j, k);
                }
            }
        }
        let mut queue: VecDeque<usize> = VecDeque::new();
        queue.push_back(start);
        assert(queue@ =~= seq![start]);
        while queue.len() > 0
            invariant
                self.wf(),
                adj == self@.adj,
                adj.len() == self.vertices@.len(),
                in_range(adj.len(), queue@),
                marks(adj.len(), seen@, order@),
                bfs_run(adj, queue@, order@) == goal,
            decreases unvisited(adj.len(), order@), queue@.len(),
        {
            let ghost before = queue@;
            let ghost visited_before = order@;
            let v = queue.pop_front().unwrap();
            assert(v == before.first() && queue@ =~= before.drop_first());
            proof {
                lemma_visited_contains(order@, v);
            }
            if !seen[v] {
                seen[v] = true;
                order.push(v);
                proof {
                    lemma_unvisited_push(adj.len(), visited_before, v);
                    lemma_visited_push(visited_before, v);
                }
                let ghost rest = queue@;
                let edges = &self.vertices[v].edges;
                assert(edges@ == adj[v as int]);
                let mut j: usize = 0;
                while j < edges.len()
                    invariant
                        j <= edges@.len(),
                        edges@ == adj[v as int],
                        v < adj.len(),
                        self.wf(),
                        adj == self@.adj,
                        in_range(adj.len(), queue@),
                        marks(adj.len(), seen@, order@),
                        queue@ == rest + fresh(edges@.subrange(0, j as int), order@),
                    decreases edges@.len() - j,
                {
                    let t = edges[j];
                    proof {
                        assert(adj[v as int][j as int] < adj.len());
                        assert(edges@.subrange(0, j + 1).drop_last() =~= edges@.subrange(
                            0,
                            j as int,
                        ));
                        assert(edges@.subrange(0, j + 1).last() == t);
                        lemma_visited_contains(order@, t);
                    }
                    if !seen[t] {
                        queue.push_back(t);
                    }
                    j += 1;
                    assert(queue@ =~= rest + fresh(edges@.subrange(0, j as int), order@));
                }
                assert(edges@.subrange(0, j as int) =~= edges@);
            }
        }
    }

    /// A mark for each vertex, none of them set.
    fn unmarked(&self) -> (seen: Vec<bool>)
        ensures
            marks(self@.names.len(), seen@, Seq::empty()),
    {
        let n = self.vertices.len();
        let mut seen: Vec<bool> = Vec::new();
        while seen.len() < n
            invariant
                n == self.vertices@.len(),
                seen@.len() <= n,
                forall|v: int| 0 <= v < seen@.len() ==> !seen@[v],
            decreases n - seen@.len(),
        {
            seen.push(false);
        }
        seen
    }

    /// The names of the vertices of `order`, in that order.
    fn names_for(&self, order: &Vec<usize>) -> (names: Vec<&'static str>)
        requires
            in_range(self@.names.len(), order@),
        ensures
            names_of(names@) == names_along(self@.names, order@),
    {
        let mut names: Vec<&'static str> = Vec::new();
        let mut i: usize = 0;
        while i < order.len()
            invariant
                i <= order@.len(),
                in_range(self@.names.len(), order@),
                names@.len() == i,
                forall|k: int| 0 <= k < i ==> (#[trigger] names@[k])@ == self@.names[order@[k] as int],
            decreases order@.len() - i,
        {
            names.push(self.vertices[order[i]].name);
            i += 1;
        }
        assert(names_of(names@) =~= names_along(self@.names, order@));
        names
    }

    /// The depth-first visiting order of the whole graph, as vertex indices.
    /// The vertices are tried as roots in registration order; one that an
    /// earlier root reached is passed over, and the sweep stops once every
    /// vertex is visited. Each vertex occurs exactly once.
    pub fn dfs_indices(&self) -> (order: Vec<usize>)
        requires
            self.wf(),
        ensures
            order@ == dfs_order(self@.adj),
            visits_each_once(self@.names.len(), order@),
    {
        let n = self.vertices.len();
        let mut seen = self.unmarked();
        let mut order: Vec<usize> = Vec::new();
        let mut root: usize = 0;
        proof {
            lemma_dfs_order_complete(self@.adj);
        }
        while root < n
            invariant
                self.wf(),
                n == self@.names.len(),
                root <= n,
                marks(n as nat, seen@, order@),
                dfs_sweep(self@.adj, root as nat, order@) == dfs_order(self@.adj),
                visits_each_once(n as nat, dfs_order(self@.adj)),
            decreases n - root,
        {
            self.dfs_visit(root, &mut seen, &mut order);
            if order.len() >= n {
                return order;
            }
            root += 1;
        }
        order
    }

    /// The breadth-first visiting order of the whole graph, as vertex indices,
    /// with the same choice of roots. Each vertex occurs exactly once.
    pub fn bfs_indices(&self) -> (order: Vec<usize>)
        requires
            self.wf(),
        ensures
            order@ == bfs_order(self@.adj),
            visits_each_once(self@.names.len(), order@),
    {
        let n = self.vertices.len();
        let mut seen = self.unmarked();
        let mut order: Vec<usize> = Vec::new();
        let mut root: usize = 0;
        proof {
            lemma_bfs_order_complete(self@.adj);
        }
        while root < n
            invariant
                self.wf(),
                n == self@.names.len(),
                root <= n,
                marks(n as nat, seen@, order@),
                bfs_sweep(self@.adj, root as nat, order@) == bfs_order(self@.adj),
                visits_each_once(n as nat, bfs_order(self@.adj)),
            decreases n - root,
        {
            self.bfs_visit(root, &mut seen, &mut order);
            if order.len() >= n {
                return order;
            }
            root += 1;
        }
        order
    }

    /// The vertex names in depth-first visiting order over the whole graph:
    /// every registered name, exactly once.
    pub fn dfs_order(&self) -> (names: Vec<&'static str>)
        requires
            self.wf(),
        ensures
            names_of(names@) == self@.dfs_names(),
            names@.len() == self@.names.len(),
            names_of(names@).no_duplicates(),
            names_of(names@).to_set() == self@.names.to_set(),
    {
        let order = self.dfs_indices();
        let n = self.vertices.len();
        proof {
            assert(self@.names.len() == n);
            lemma_traversal_names(self@);
        }
        self.names_for(&order)
    }

    /// The vertex names in breadth-first visiting order over the whole graph:
    /// every registered name, exactly once.
    pub fn bfs_order(&self) -> (names: Vec<&'static str>)
        requires
            self.wf(),
        ensures
            names_of(names@) == self@.bfs_names(),
            names@.len() == self@.names.len(),
            names_of(names@).no_duplicates(),
            names_of(names@).to_set() == self@.names.to_set(),
    {
        let order = self.bfs_indices();
        let n = self.vertices.len();
        proof {
            assert(self@.names.len() == n);
            lemma_traversal_names(self@);
        }
        self.names_for(&order)
    }

    /// Hands each name of `names` to `f`, first to last.
    fn report<F>(&self, names: &Vec<&'static str>, f: &F) where F: Fn(&'static str)
        requires
            names_of(names@).to_set() == self@.names.to_set(),
            forall|name: &'static str| self@.has(name@) ==> call_requires(*f, (name,)),
        ensures
            forall|v: int| 0 <= v < self@.names.len() ==> called_on(f, #[trigger] self@.names[v]),
    {
        let mut i: usize = 0;
        while i < names.len()
            invariant
                i <= names@.len(),
                names_of(names@).to_set() == self@.names.to_set(),
                forall|name: &'static str| self@.has(name@) ==> call_requires(*f, (name,)),
                forall|k: int| 0 <= k < i ==> call_ensures(*f, (#[trigger] names@[k],), ()),
            decreases names@.len() - i,
        {
            proof {
                assert(names_of(names@)[i as int] == names@[i as int]@);
                assert(names_of(names@).to_set().contains(names@[i as int]@));
                assert(self@.has(names@[i as int]@));
            }
            f(names[i]);
            i += 1;
        }
        proof {
            assert forall|v: int| 0 <= v < self@.names.len() implies called_on(
                f,
                #[trigger] self@.names[v],
            ) by {
                assert(self@.names.to_set().contains(self@.names[v]));
                assert(names_of(names@).contains(self@.names[v]));
                let k = choose|k: int|
                    0 <= k < names@.len() && names_of(names@)[k] == self@.names[v];
                let name = names@[k];
                assert(name@ == self@.names[v] && call_ensures(*f, (name,), ()));
            }
        }
    }

    /// Calls `f` on the name of every vertex, in depth-first visiting order
    /// (that of `dfs_order`). The callback has to accept every registered
    /// name; what it promises of a call then holds for every vertex.
    pub fn dfs_traverse<F>(&self, f: &F) where F: Fn(&'static str)
        requires
            self.wf(),
            forall|name: &'static str| self@.has(name@) ==> call_requires(*f, (name,)),
        ensures
            forall|v: int| 0 <= v < self@.names.len() ==> called_on(f, #[trigger] self@.names[v]),
    {
        let names = self.dfs_order();
        self.report(&names, f);
    }

    /// Calls `f` on the name of every vertex, in breadth-first visiting order
    /// (that of `bfs_order`), under the same terms as `dfs_traverse`.
    pub fn bfs_traverse<F>(&self, f: &F) where F: Fn(&'static str)
        requires
            self.wf(),
            forall|name: &'static str| self@.has(name@) ==> call_requires(*f, (name,)),
        ensures
            forall|v: int| 0 <= v < self@.names.len() ==> called_on(f, #[trigger] self@.names[v]),
    {
        let names = self.bfs_order();
        self.report(&names, f);
    }
}

} // verus!
