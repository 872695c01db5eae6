//! What the two traversals compute, stated over edge lists of indices, and
//! what holds of every traversal: nothing is visited twice, everything is
//! visited, and the order is a function of the graph alone.
//!
//! A visiting order is the sequence of vertex indices in the order of their
//! first visit. It doubles as the visited set: a vertex is visited when it
//! occurs in the order.

use vstd::prelude::*;
use crate::model::GraphModel;

verus! {

/// Whether vertex `v` occurs in `order`.
pub open spec fn visited(order: Seq<usize>, v: int) -> bool {
    exists|i: int| 0 <= i < order.len() && order[i] == v
}

/// How many of the vertices `0 .. n` do not occur in `order`.
pub open spec fn unvisited(n: nat, order: Seq<usize>) -> nat
    decreases n,
{
    if n == 0 {
        0
    } else {
        unvisited((n - 1) as nat, order) + if visited(order, n - 1) {
            0nat
        } else {
            1nat
        }
    }
}

/// Every element of `s` is a vertex of a graph with `n` vertices.
pub open spec fn in_range(n: nat, s: Seq<usize>) -> bool {
    forall|i: int| 0 <= i < s.len() ==> (#[trigger] s[i]) < n
}

/// Every edge of `adj` leads to a vertex of `adj`.
pub open spec fn targets_ok(adj: Seq<Seq<usize>>) -> bool {
    forall|i: int, j: int|
        0 <= i < adj.len() && 0 <= j < adj[i].len() ==> (#[trigger] adj[i][j]) < adj.len()
}

/// `longer` starts with `order`.
pub open spec fn extends(longer: Seq<usize>, order: Seq<usize>) -> bool {
    &&& order.len() <= longer.len()
    &&& forall|i: int| 0 <= i < order.len() ==> longer[i] == order[i]
}

/// `order` visits each of the vertices `0 .. n` exactly once and nothing else.
pub open spec fn visits_each_once(n: nat, order: Seq<usize>) -> bool {
    &&& order.len() == n
    &&& order.no_duplicates()
    &&& in_range(n, order)
    &&& forall|v: int| 0 <= v < n ==> visited(order, v)
}

/// Those of `targets` that do not occur in `order`, in their own order.
pub open spec fn fresh(targets: Seq<usize>, order: Seq<usize>) -> Seq<usize>
    decreases targets.len(),
{
    if targets.len() == 0 {
        Seq::empty()
    } else if order.contains(targets.last()) {
        fresh(targets.drop_last(), order)
    } else {
        fresh(targets.drop_last(), order).push(targets.last())
    }
}

/// Depth-first, pre-order: the visiting order once the pending `stack` (top
/// last) is exhausted, starting from `order`. The top vertex is taken off; if
/// it was visited before, nothing happens; otherwise it is visited and its
/// targets are put on the stack so that the first edge is on top. Each target
/// is so explored in full before the next edge of its source is looked at:
/// the order is the recursive pre-order (`lemma_dfs_run_is_preorder`).
pub open spec fn dfs_run(adj: Seq<Seq<usize>>, stack: Seq<usize>, order: Seq<usize>) -> Seq<usize>
    decreases unvisited(adj.len(), order), stack.len(),
{
    if stack.len() == 0 {
        order
    } else {
        let v = stack.last();
        if order.contains(v) || v >= adj.len() {
            dfs_run(adj, stack.drop_last(), order)
        } else {
            proof {
                lemma_unvisited_push(adj.len(), order, v);
            }
            dfs_run(adj, stack.drop_last() + adj[v as int].reverse(), order.push(v))
        }
    }
}

/// Breadth-first: the visiting order once the pending `queue` (front first)
/// is exhausted, starting from `order`. The front vertex is taken off; if it
/// was visited before, nothing happens; otherwise it is visited and those of
/// its targets that are not yet visited join the back of the queue, in edge
/// order.
pub open spec fn bfs_run(adj: Seq<Seq<usize>>, queue: Seq<usize>, order: Seq<usize>) -> Seq<usize>
    decreases unvisited(adj.len(), order), queue.len(),
{
    if queue.len() == 0 {
        order
    } else {
        let v = queue.first();
        if order.contains(v) || v >= adj.len() {
            bfs_run(adj, queue.drop_first(), order)
        } else {
            proof {
                lemma_unvisited_push(adj.len(), order, v);
            }
            bfs_run(
                adj,
                queue.drop_first() + fresh(adj[v as int], order.push(v)),
                order.push(v),
            )
        }
    }
}

/// The depth-first visiting order from the single vertex `start`.
pub open spec fn dfs_from(adj: Seq<Seq<usize>>, start: usize, order: Seq<usize>) -> Seq<usize> {
    dfs_run(adj, seq![start], order)
}

/// The breadth-first visiting order from the single vertex `start`.
pub open spec fn bfs_from(adj: Seq<Seq<usize>>, start: usize, order: Seq<usize>) -> Seq<usize> {
    bfs_run(adj, seq![start], order)
}

/// Depth-first over the whole graph: the vertices from `root` on are tried as
/// roots in index order, each continuing the order that the roots before it
/// left; the sweep stops as soon as the order holds as many vertices as the
/// graph.
pub open spec fn dfs_sweep(adj: Seq<Seq<usize>>, root: nat, order: Seq<usize>) -> Seq<usize>
    decreases adj.len() - root,
{
    if root >= adj.len() {
        order
    } else {
        let next = dfs_from(adj, root as usize, order);
        if next.len() >= adj.len() {
            next
        } else {
            dfs_sweep(adj, root + 1, next)
        }
    }
}

/// Breadth-first over the whole graph, with the same choice of roots.
pub open spec fn bfs_sweep(adj: Seq<Seq<usize>>, root: nat, order: Seq<usize>) -> Seq<usize>
    decreases adj.len() - root,
{
    if root >= adj.len() {
        order
    } else {
        let next = bfs_from(adj, root as usize, order);
        if next.len() >= adj.len() {
            next
        } else {
            bfs_sweep(adj, root + 1, next)
        }
    }
}

/// The depth-first visiting order of a whole graph.
pub open spec fn dfs_order(adj: Seq<Seq<usize>>) -> Seq<usize> {
    dfs_sweep(adj, 0, Seq::empty())
}

/// The breadth-first visiting order of a whole graph.
pub open spec fn bfs_order(adj: Seq<Seq<usize>>) -> Seq<usize> {
    bfs_sweep(adj, 0, Seq::empty())
}

/// The names of the vertices of `order`, in that order.
pub open spec fn names_along(names: Seq<Seq<char>>, order: Seq<usize>) -> Seq<Seq<char>> {
    Seq::new(order.len(), |i: int| names[order[i] as int])
}

impl GraphModel {
    /// The vertex names in the order of a depth-first traversal of the whole
    /// graph.
    pub open spec fn dfs_names(self) -> Seq<Seq<char>> {
        names_along(self.names, dfs_order(self.adj))
    }

    /// The vertex names in the order of a breadth-first traversal of the whole
    /// graph.
    pub open spec fn bfs_names(self) -> Seq<Seq<char>> {
        names_along(self.names, bfs_order(self.adj))
    }
}

/// Occurring in an order, said of a machine index and of its integer.
pub proof fn lemma_visited_contains(order: Seq<usize>, v: usize)
    ensures
        visited(order, v as int) <==> order.contains(v),
{
    if visited(order, v as int) {
        let i = choose|i: int| 0 <= i < order.len() && order[i] == v as int;
        assert(order[i] == v);
    }
}

/// After one more visit, the visited vertices are those from before and the
/// new one.
pub proof fn lemma_visited_push(order: Seq<usize>, v: usize)
    ensures
        forall|w: int| #[trigger] visited(order.push(v), w) <==> visited(order, w) || w == v,
{
    let next = order.push(v);
    assert forall|w: int| #[trigger] visited(next, w) <==> visited(order, w) || w == v by {
        if visited(order, w) {
            let i = choose|i: int| 0 <= i < order.len() && order[i] == w;
            assert(next[i] == w);
        }
        if visited(next, w) {
            let i = choose|i: int| 0 <= i < next.len() && next[i] == w;
            if i < order.len() {
                assert(order[i] == w);
            }
        }
        if w == v {
            assert(next[order.len() as int] == w);
        }
    }
}

/// Visiting one more vertex never raises the number of unvisited ones, and
/// lowers it by one where the vertex is new and of the graph.
pub proof fn lemma_unvisited_push(n: nat, order: Seq<usize>, v: usize)
    ensures
        unvisited(n, order.push(v)) <= unvisited(n, order),
        v < n && !order.contains(v) ==> unvisited(n, order.push(v)) + 1 == unvisited(n, order),
        v >= n || order.contains(v) ==> unvisited(n, order.push(v)) == unvisited(n, order),
    decreases n,
{
    if n > 0 {
        lemma_unvisited_push((n - 1) as nat, order, v);
        lemma_visited_contains(order, v);
        lemma_visited_push(order, v);
    }
}

/// With nothing visited, all `n` vertices are unvisited.
pub proof fn lemma_unvisited_empty(n: nat)
    ensures
        unvisited(n, Seq::empty()) == n,
    decreases n,
{
    if n > 0 {
        lemma_unvisited_empty((n - 1) as nat);
    }
}

/// An order without repetition inside the graph and the unvisited vertices
/// make up the graph.
pub proof fn lemma_unvisited_count(n: nat, order: Seq<usize>)
    requires
        order.no_duplicates(),
        in_range(n, order),
    ensures
        unvisited(n, order) + order.len() == n,
    decreases order.len(),
{
    if order.len() == 0 {
        assert(order =~= Seq::empty());
        lemma_unvisited_empty(n);
    } else {
        let before = order.drop_last();
        lemma_unvisited_count(n, before);
        lemma_unvisited_push(n, before, order.last());
        assert(before.push(order.last()) =~= order);
        assert(!before.contains(order.last())) by {
            if before.contains(order.last()) {
                let i = choose|i: int| 0 <= i < before.len() && before[i] == order.last();
                assert(order[i] == order[order.len() - 1]);
            }
        }
    }
}

/// Where no vertex is unvisited, every vertex is visited.
pub proof fn lemma_unvisited_none(n: nat, order: Seq<usize>, v: int)
    requires
        unvisited(n, order) == 0,
        0 <= v < n,
    ensures
        visited(order, v),
    decreases n,
{
    if v < n - 1 {
        lemma_unvisited_none((n - 1) as nat, order, v);
    }
}

/// Where every vertex is visited, none is unvisited.
pub proof fn lemma_unvisited_all(n: nat, order: Seq<usize>)
    requires
        forall|v: int| 0 <= v < n ==> visited(order, v),
    ensures
        unvisited(n, order) == 0,
    decreases n,
{
    if n > 0 {
        lemma_unvisited_all((n - 1) as nat, order);
    }
}

/// An order without repetition inside the graph that is as long as the graph
/// has vertices visits each of them exactly once.
pub proof fn lemma_full_order(n: nat, order: Seq<usize>)
    requires
        order.no_duplicates(),
        in_range(n, order),
        order.len() >= n,
    ensures
        visits_each_once(n, order),
{
    lemma_unvisited_count(n, order);
    assert forall|v: int| 0 <= v < n implies visited(order, v) by {
        lemma_unvisited_none(n, order, v);
    }
}

/// The fresh ones among vertices of the graph are vertices of the graph.
pub proof fn lemma_fresh(n: nat, targets: Seq<usize>, order: Seq<usize>)
    requires
        in_range(n, targets),
    ensures
        in_range(n, fresh(targets, order)),
    decreases targets.len(),
{
    if targets.len() > 0 {
        lemma_fresh(n, targets.drop_last(), order);
    }
}

/// No double visit, and the start is reached, depth-first: from an order
/// without repetition the run gives an order without repetition that starts
/// with the given one, stays inside the graph and holds every vertex that was
/// pending.
pub proof fn lemma_dfs_run(adj: Seq<Seq<usize>>, stack: Seq<usize>, order: Seq<usize>)
    requires
        targets_ok(adj),
        in_range(adj.len(), stack),
        in_range(adj.len(), order),
        order.no_duplicates(),
    ensures
        dfs_run(adj, stack, order).no_duplicates(),
        in_range(adj.len(), dfs_run(adj, stack, order)),
        extends(dfs_run(adj, stack, order), order),
        forall|i: int| 0 <= i < stack.len() ==> dfs_run(adj, stack, order).contains(stack[i]),
    decreases unvisited(adj.len(), order), stack.len(),
{
    let r = dfs_run(adj, stack, order);
    if stack.len() > 0 {
        let v = stack.last();
        let rest = stack.drop_last();
        if order.contains(v) {
            lemma_dfs_run(adj, rest, order);
            let k = choose|k: int| 0 <= k < order.len() && order[k] == v;
            assert(r[k] == v);
            assert forall|i: int| 0 <= i < stack.len() implies r.contains(stack[i]) by {
                if i < rest.len() {
                    assert(rest[i] == stack[i]);
                }
            }
        } else {
            let next = order.push(v);
            let pending = rest + adj[v as int].reverse();
            lemma_unvisited_push(adj.len(), order, v);
            assert(in_range(adj.len(), pending)) by {
                assert forall|i: int| 0 <= i < pending.len() implies (#[trigger] pending[i])
                    < adj.len() by {
                    if i < rest.len() {
                        assert(pending[i] == stack[i]);
                    } else {
                        let j = adj[v as int].len() - 1 - (i - rest.len());
                        assert(pending[i] == adj[v as int][j]);
                    }
                }
            }
            lemma_dfs_run(adj, pending, next);
            assert(r[order.len() as int] == next[order.len() as int]);
            assert forall|i: int| 0 <= i < order.len() implies r[i] == order[i] by {
                assert(next[i] == order[i]);
            }
            assert forall|i: int| 0 <= i < stack.len() implies r.contains(stack[i]) by {
                if i < rest.len() {
                    assert(pending[i] == stack[i]);
                }
            }
        }
    }
}

/// No double visit, and the start is reached, breadth-first: as for the
/// depth-first run.
pub proof fn lemma_bfs_run(adj: Seq<Seq<usize>>, queue: Seq<usize>, order: Seq<usize>)
    requires
        targets_ok(adj),
        in_range(adj.len(), queue),
        in_range(adj.len(), order),
        order.no_duplicates(),
    ensures
        bfs_run(adj, queue, order).no_duplicates(),
        in_range(adj.len(), bfs_run(adj, queue, order)),
        extends(bfs_run(adj, queue, order), order),
        forall|i: int| 0 <= i < queue.len() ==> bfs_run(adj, queue, order).contains(queue[i]),
    decreases unvisited(adj.len(), order), queue.len(),
{
    let r = bfs_run(adj, queue, order);
    if queue.len() > 0 {
        let v = queue.first();
        let rest = queue.drop_first();
        if order.contains(v) {
            lemma_bfs_run(adj, rest, order);
            let k = choose|k: int| 0 <= k < order.len() && order[k] == v;
            assert(r[k] == v);
            assert forall|i: int| 0 <= i < queue.len() implies r.contains(queue[i]) by {
                if i > 0 {
                    assert(rest[i - 1] == queue[i]);
                }
            }
        } else {
            let next = order.push(v);
            let added = fresh(adj[v as int], next);
            let pending = rest + added;
            lemma_unvisited_push(adj.len(), order, v);
            assert(in_range(adj.len(), adj[v as int]));
            lemma_fresh(adj.len(), adj[v as int], next);
            assert(in_range(adj.len(), pending)) by {
                assert forall|i: int| 0 <= i < pending.len() implies (#[trigger] pending[i])
                    < adj.len() by {
                    if i < rest.len() {
                        assert(pending[i] == queue[i + 1]);
                    } else {
                        assert(pending[i] == added[i - rest.len()]);
                    }
                }
            }
            lemma_bfs_run(adj, pending, next);
            assert(r[order.len() as int] == next[order.len() as int]);
            assert forall|i: int| 0 <= i < order.len() implies r[i] == order[i] by {
                assert(next[i] == order[i]);
            }
            assert forall|i: int| 0 <= i < queue.len() implies r.contains(queue[i]) by {
                if i > 0 {
                    assert(pending[i - 1] == queue[i]);
                }
            }
        }
    }
}

/// Full coverage without double visit, depth-first: where the roots before
/// `root` are visited, the sweep visits each vertex of the graph exactly once.
pub proof fn lemma_dfs_sweep(adj: Seq<Seq<usize>>, root: nat, order: Seq<usize>)
    requires
        targets_ok(adj),
        adj.len() <= usize::MAX,
        in_range(adj.len(), order),
        order.no_duplicates(),
        root <= adj.len(),
        forall|v: int| 0 <= v < root ==> visited(order, v),
    ensures
        visits_each_once(adj.len(), dfs_sweep(adj, root, order)),
        extends(dfs_sweep(adj, root, order), order),
    decreases adj.len() - root,
{
    if root >= adj.len() {
        lemma_unvisited_all(adj.len(), order);
        lemma_unvisited_count(adj.len(), order);
    } else {
        let start = root as usize;
        let next = dfs_from(adj, start, order);
        lemma_dfs_run(adj, seq![start], order);
        if next.len() >= adj.len() {
            lemma_full_order(adj.len(), next);
        } else {
            assert forall|v: int| 0 <= v < root + 1 implies visited(next, v) by {
                if v < root {
                    assert(visited(order, v));
                    let i = choose|i: int| 0 <= i < order.len() && order[i] == v;
                    assert(next[i] == v);
                } else {
                    assert(next.contains(seq![start][0]));
                    lemma_visited_contains(next, start);
                }
            }
            lemma_dfs_sweep(adj, root + 1, next);
        }
    }
}

/// Full coverage without double visit, breadth-first.
pub proof fn lemma_bfs_sweep(adj: Seq<Seq<usize>>, root: nat, order: Seq<usize>)
    requires
        targets_ok(adj),
        adj.len() <= usize::MAX,
        in_range(adj.len(), order),
        order.no_duplicates(),
        root <= adj.len(),
        forall|v: int| 0 <= v < root ==> visited(order, v),
    ensures
        visits_each_once(adj.len(), bfs_sweep(adj, root, order)),
        extends(bfs_sweep(adj, root, order), order),
    decreases adj.len() - root,
{
    if root >= adj.len() {
        lemma_unvisited_all(adj.len(), order);
        lemma_unvisited_count(adj.len(), order);
    } else {
        let start = root as usize;
        let next = bfs_from(adj, start, order);
        lemma_bfs_run(adj, seq![start], order);
        if next.len() >= adj.len() {
            lemma_full_order(adj.len(), next);
        } else {
            assert forall|v: int| 0 <= v < root + 1 implies visited(next, v) by {
                if v < root {
                    assert(visited(order, v));
                    let i = choose|i: int| 0 <= i < order.len() && order[i] == v;
                    assert(next[i] == v);
                } else {
                    assert(next.contains(seq![start][0]));
                    lemma_visited_contains(next, start);
                }
            }
            lemma_bfs_sweep(adj, root + 1, next);
        }
    }
}

/// Every graph's depth-first order visits each vertex exactly once.
pub proof fn lemma_dfs_order_complete(adj: Seq<Seq<usize>>)
    requires
        targets_ok(adj),
        adj.len() <= usize::MAX,
    ensures
        visits_each_once(adj.len(), dfs_order(adj)),
{
    lemma_dfs_sweep(adj, 0, Seq::empty());
}

/// Every graph's breadth-first order visits each vertex exactly once.
pub proof fn lemma_bfs_order_complete(adj: Seq<Seq<usize>>)
    requires
        targets_ok(adj),
        adj.len() <= usize::MAX,
    ensures
        visits_each_once(adj.len(), bfs_order(adj)),
{
    lemma_bfs_sweep(adj, 0, Seq::empty());
}

/// Where an order visits each vertex exactly once, the names along it are the
/// graph's names, each exactly once.
pub proof fn lemma_names_along(names: Seq<Seq<char>>, order: Seq<usize>)
    requires
        names.no_duplicates(),
        visits_each_once(names.len(), order),
    ensures
        names_along(names, order).len() == names.len(),
        names_along(names, order).no_duplicates(),
        names_along(names, order).to_set() == names.to_set(),
{
    let along = names_along(names, order);
    assert forall|name: Seq<char>| along.to_set().contains(name) <==> names.to_set().contains(
        name,
    ) by {
        if names.contains(name) {
            let v = choose|v: int| 0 <= v < names.len() && names[v] == name;
            assert(visited(order, v));
            let i = choose|i: int| 0 <= i < order.len() && order[i] == v;
            assert(along[i] == name);
        }
        if along.contains(name) {
            let i = choose|i: int| 0 <= i < along.len() && along[i] == name;
            assert(names[order[i] as int] == name);
        }
    }
    assert(along.to_set() =~= names.to_set());
}

/// No double visit and full coverage, for both traversals of a whole graph:
/// the names in visiting order are the registered names, each exactly once.
pub proof fn lemma_traversal_names(g: GraphModel)
    requires
        g.wf(),
        g.names.len() <= usize::MAX,
    ensures
        g.dfs_names().len() == g.names.len(),
        g.dfs_names().no_duplicates(),
        g.dfs_names().to_set() == g.names.to_set(),
        g.bfs_names().len() == g.names.len(),
        g.bfs_names().no_duplicates(),
        g.bfs_names().to_set() == g.names.to_set(),
{
    lemma_dfs_order_complete(g.adj);
    lemma_bfs_order_complete(g.adj);
    lemma_names_along(g.names, dfs_order(g.adj));
    lemma_names_along(g.names, bfs_order(g.adj));
}

} // verus!
