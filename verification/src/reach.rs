//! What a traversal from one start vertex reaches: exactly the vertices to
//! which a chain of edges leads from the start. Breadth-first, it goes level
//! by level: a vertex is never visited before one that is nearer to the start.

use vstd::prelude::*;
use crate::traversal::{
    bfs_from, bfs_run, dfs_from, dfs_run, fresh, in_range, lemma_bfs_run, lemma_dfs_run,
    lemma_unvisited_push, targets_ok, unvisited,
};

verus! {

/// Whether `v` can be reached from `root` over at most `k` edges.
#[verifier::opaque]
pub open spec fn within(adj: Seq<Seq<usize>>, root: usize, v: usize, k: nat) -> bool
    decreases k,
{
    if k == 0 {
        v == root
    } else {
        within(adj, root, v, (k - 1) as nat) || exists|u: usize|
            u < adj.len() && within(adj, root, u, (k - 1) as nat)
                && #[trigger] adj[u as int].contains(v)
    }
}

/// Whether the least number of edges over which `v` can be reached from `root`
/// is `l`.
pub open spec fn at_distance(adj: Seq<Seq<usize>>, root: usize, v: usize, l: nat) -> bool {
    within(adj, root, v, l) && (l > 0 ==> !within(adj, root, v, (l - 1) as nat))
}

/// Whether some chain of edges leads from `root` to `v`.
pub open spec fn reachable(adj: Seq<Seq<usize>>, root: usize, v: usize) -> bool {
    exists|k: nat| within(adj, root, v, k)
}

/// What can be reached over `k` edges can be reached over more.
pub proof fn lemma_within_more(adj: Seq<Seq<usize>>, root: usize, v: usize, k: nat, m: nat)
    requires
        within(adj, root, v, k),
        k <= m,
    ensures
        within(adj, root, v, m),
    decreases m,
{
    reveal(within);
    if k < m {
        lemma_within_more(adj, root, v, k, (m - 1) as nat);
    }
}

/// Only the start can be reached over no edge.
pub proof fn lemma_within_none(adj: Seq<Seq<usize>>, root: usize, v: usize)
    ensures
        within(adj, root, v, 0) <==> v == root,
{
    reveal(within);
}

/// An edge from what can be reached over `k` edges leads to what can be
/// reached over one more.
pub proof fn lemma_within_edge(adj: Seq<Seq<usize>>, root: usize, u: usize, v: usize, k: nat)
    requires
        u < adj.len(),
        within(adj, root, u, k),
        adj[u as int].contains(v),
    ensures
        within(adj, root, v, k + 1),
{
    reveal(within);
    let m = (k + 1) as nat;
    assert((m - 1) as nat == k);
    assert(within(adj, root, u, (m - 1) as nat));
    assert(within(adj, root, v, m));
}

/// What can be reached over `k + 1` edges and not over `k` is the target of an
/// edge from a vertex that can be reached over `k`.
pub proof fn lemma_within_last_edge(adj: Seq<Seq<usize>>, root: usize, v: usize, k: nat) -> (u:
    usize)
    requires
        within(adj, root, v, k + 1),
        !within(adj, root, v, k),
    ensures
        u < adj.len(),
        within(adj, root, u, k),
        adj[u as int].contains(v),
{
    reveal(within);
    let m = (k + 1) as nat;
    assert((m - 1) as nat == k);
    assert(within(adj, root, v, m));
    choose|u: usize|
        u < adj.len() && within(adj, root, u, k) && #[trigger] adj[u as int].contains(v)
}

/// The labels never fall from one place to the next.
spec fn sorted(l: Seq<nat>) -> bool {
    forall|i: int, j: int| 0 <= i <= j < l.len() ==> l[i] <= l[j]
}

/// `ol` gives each vertex of `o` its distance, and the distances never fall.
spec fn levelled(adj: Seq<Seq<usize>>, root: usize, o: Seq<usize>, ol: Seq<nat>) -> bool {
    &&& ol.len() == o.len()
    &&& sorted(ol)
    &&& forall|i: int| #![trigger o[i]] 0 <= i < o.len() ==> at_distance(adj, root, o[i], ol[i])
}

/// Entry `j` of the queue holds `v` under its distance.
spec fn settles(
    adj: Seq<Seq<usize>>,
    root: usize,
    q: Seq<usize>,
    ql: Seq<nat>,
    j: int,
    v: usize,
) -> bool {
    q[j] == v && at_distance(adj, root, v, ql[j])
}

/// Each queue entry can be reached within its label, and is visited already
/// or stands, at that place or before, under its distance.
spec fn queue_ok(
    adj: Seq<Seq<usize>>,
    root: usize,
    q: Seq<usize>,
    ql: Seq<nat>,
    o: Seq<usize>,
) -> bool {
    forall|i: int|
        #![trigger q[i]]
        0 <= i < q.len() ==> within(adj, root, q[i], ql[i]) && (o.contains(q[i]) || exists|j: int|
            0 <= j <= i && #[trigger] settles(adj, root, q, ql, j, q[i]))
}

/// `u` is visited or queued.
spec fn known(o: Seq<usize>, q: Seq<usize>, u: usize) -> bool {
    o.contains(u) || q.contains(u)
}

/// What is nearer than the front of the queue is visited, and what is as near
/// is visited or queued.
spec fn frontier_ok(
    adj: Seq<Seq<usize>>,
    root: usize,
    q: Seq<usize>,
    ql: Seq<nat>,
    o: Seq<usize>,
) -> bool {
    q.len() > 0 ==> forall|u: usize, k: nat| #[trigger]
        within(adj, root, u, k) ==> (k <= ql[0] ==> known(o, q, u)) && (k < ql[0] ==> o.contains(
            u,
        ))
}

/// Every target of a visited vertex is visited or queued.
spec fn edges_known(adj: Seq<Seq<usize>>, q: Seq<usize>, o: Seq<usize>) -> bool {
    forall|i: int, t: usize|
        0 <= i < o.len() && #[trigger] adj[o[i] as int].contains(t) ==> known(o, q, t)
}

/// What holds between the steps of a breadth-first run from `root`.
spec fn level_inv(
    adj: Seq<Seq<usize>>,
    root: usize,
    q: Seq<usize>,
    ql: Seq<nat>,
    o: Seq<usize>,
    ol: Seq<nat>,
) -> bool {
    &&& ql.len() == q.len()
    &&& in_range(adj.len(), q)
    &&& in_range(adj.len(), o)
    &&& levelled(adj, root, o, ol)
    &&& sorted(ql)
    &&& q.len() > 0 ==> forall|i: int| 0 <= i < ol.len() ==> #[trigger] ol[i] <= ql[0]
    &&& q.len() > 0 ==> forall|i: int| 0 <= i < ql.len() ==> #[trigger] ql[i] <= ql[0] + 1
    &&& queue_ok(adj, root, q, ql, o)
    &&& frontier_ok(adj, root, q, ql, o)
    &&& edges_known(adj, q, o)
}

/// What a sequence holds after one more element.
proof fn lemma_contains_push(o: Seq<usize>, v: usize, x: usize)
    ensures
        o.push(v).contains(x) <==> o.contains(x) || x == v,
{
    let p = o.push(v);
    if o.contains(x) {
        let i = choose|i: int| 0 <= i < o.len() && o[i] == x;
        assert(p[i] == x);
    }
    if x == v {
        assert(p[o.len() as int] == x);
    }
    if p.contains(x) {
        let i = choose|i: int| 0 <= i < p.len() && p[i] == x;
        if i < o.len() {
            assert(o[i] == x);
        }
    }
}

/// What two sequences hold, one after the other.
proof fn lemma_contains_add(a: Seq<usize>, b: Seq<usize>, x: usize)
    ensures
        (a + b).contains(x) <==> a.contains(x) || b.contains(x),
{
    let c = a + b;
    if a.contains(x) {
        let i = choose|i: int| 0 <= i < a.len() && a[i] == x;
        assert(c[i] == x);
    }
    if b.contains(x) {
        let i = choose|i: int| 0 <= i < b.len() && b[i] == x;
        assert(c[a.len() + i] == x);
    }
    if c.contains(x) {
        let i = choose|i: int| 0 <= i < c.len() && c[i] == x;
        if i < a.len() {
            assert(a[i] == x);
        } else {
            assert(b[i - a.len()] == x);
        }
    }
}

/// What a sequence holds is its first element or in the rest.
proof fn lemma_contains_drop_first(q: Seq<usize>, x: usize)
    requires
        q.len() > 0,
    ensures
        q.contains(x) <==> x == q[0] || q.drop_first().contains(x),
{
    let r = q.drop_first();
    if q.contains(x) {
        let i = choose|i: int| 0 <= i < q.len() && q[i] == x;
        if i > 0 {
            assert(r[i - 1] == x);
        }
    }
    if r.contains(x) {
        let i = choose|i: int| 0 <= i < r.len() && r[i] == x;
        assert(q[i + 1] == x);
    }
}

/// The fresh targets are the targets that the order does not hold.
proof fn lemma_fresh_members(targets: Seq<usize>, order: Seq<usize>, t: usize)
    ensures
        fresh(targets, order).contains(t) <==> targets.contains(t) && !order.contains(t),
    decreases targets.len(),
{
    if targets.len() > 0 {
        let front = targets.drop_last();
        lemma_fresh_members(front, order, t);
        assert(front.push(targets.last()) =~= targets);
        lemma_contains_push(front, targets.last(), t);
        if !order.contains(targets.last()) {
            lemma_contains_push(fresh(front, order), targets.last(), t);
        }
    }
}

/// Where the front of the queue is the last entry of its level, every vertex
/// of that level but the front is visited.
proof fn lemma_level_done(
    adj: Seq<Seq<usize>>,
    root: usize,
    q: Seq<usize>,
    ql: Seq<nat>,
    o: Seq<usize>,
    ol: Seq<nat>,
    w: usize,
    k: nat,
)
    requires
        level_inv(adj, root, q, ql, o, ol),
        q.len() > 0,
        within(adj, root, w, k),
        k <= ql[0],
        q.len() > 1 ==> ql[1] == ql[0] + 1,
    ensures
        o.contains(w) || w == q[0],
{
    assert(known(o, q, w));
    if !o.contains(w) {
        let i = choose|i: int| 0 <= i < q.len() && q[i] == w;
        assert(q[i] == w);
        let j = choose|j: int| 0 <= j <= i && #[trigger] settles(adj, root, q, ql, j, q[i]);
        if j >= 1 {
            assert(ql[1] <= ql[j]);
            lemma_within_more(adj, root, w, k, (ql[j] - 1) as nat);
        }
    }
}

/// One step of the run keeps what holds between the steps.
#[verifier::rlimit(50)]
proof fn lemma_level_step(
    adj: Seq<Seq<usize>>,
    root: usize,
    q: Seq<usize>,
    ql: Seq<nat>,
    o: Seq<usize>,
    ol: Seq<nat>,
) -> (next: (Seq<usize>, Seq<nat>, Seq<usize>, Seq<nat>))
    requires
        targets_ok(adj),
        level_inv(adj, root, q, ql, o, ol),
        q.len() > 0,
    ensures
        level_inv(adj, root, next.0, next.1, next.2, next.3),
        o.contains(q[0]) ==> next.0 == q.drop_first() && next.2 == o,
        !o.contains(q[0]) ==> next.0 == q.drop_first() + fresh(
            adj[q[0] as int],
            o.push(q[0]),
        ) && next.2 == o.push(q[0]),
{
    let v = q[0];
    let l = ql[0];
    let rest = q.drop_first();
    let rl = ql.drop_first();
    let visit = !o.contains(v);
    let o2 = if visit {
        o.push(v)
    } else {
        o
    };
    let ol2 = if visit {
        ol.push(l)
    } else {
        ol
    };
    let added = if visit {
        fresh(adj[v as int], o2)
    } else {
        Seq::<usize>::empty()
    };
    let q2 = rest + added;
    let ql2 = rl + Seq::new(added.len(), |i: int| l + 1);
    if !visit {
        assert(q2 =~= rest);
        assert(ql2 =~= rl);
    }
    assert(q[0] == v);
    assert(at_distance(adj, root, v, l) || !visit) by {
        if visit {
            let j = choose|j: int| 0 <= j <= 0 && #[trigger] settles(adj, root, q, ql, j, q[0]);
        }
    }
    assert forall|x: usize| o.contains(x) implies o2.contains(x) by {
        lemma_contains_push(o, v, x);
    }
    assert(o2.contains(v)) by {
        lemma_contains_push(o, v, v);
    }
    assert forall|x: usize| known(o, q, x) implies known(o2, q2, x) by {
        lemma_contains_drop_first(q, x);
        lemma_contains_add(rest, added, x);
    }
    assert(in_range(adj.len(), q2)) by {
        assert forall|i: int| 0 <= i < q2.len() implies (#[trigger] q2[i]) < adj.len() by {
            if i < rest.len() {
                assert(q2[i] == q[i + 1]);
            } else {
                let t = added[i - rest.len()];
                assert(added.contains(t));
                lemma_fresh_members(adj[v as int], o2, t);
                let m = choose|m: int| 0 <= m < adj[v as int].len() && adj[v as int][m] == t;
                assert(adj[v as int][m] < adj.len());
            }
        }
    }
    assert(in_range(adj.len(), o2));
    assert(levelled(adj, root, o2, ol2)) by {
        assert forall|i: int| #![trigger o2[i]] 0 <= i < o2.len() implies at_distance(
            adj,
            root,
            o2[i],
            ol2[i],
        ) by {
            if i < o.len() {
                assert(o2[i] == o[i]);
            }
        }
    }
    assert forall|i: int| 0 <= i < ql2.len() implies l <= #[trigger] ql2[i] && ql2[i] <= l + 1 by {
        if i < rl.len() {
            assert(ql2[i] == ql[i + 1]);
        }
    }
    assert(sorted(ql2)) by {
        assert forall|i: int, j: int| 0 <= i <= j < ql2.len() implies ql2[i] <= ql2[j] by {
            if j < rl.len() {
                assert(ql2[i] == ql[i + 1] && ql2[j] == ql[j + 1]);
            } else {
                assert(ql2[j] == l + 1);
            }
        }
    }
    assert(queue_ok(adj, root, q2, ql2, o2)) by {
        assert forall|i: int| #![trigger q2[i]] 0 <= i < q2.len() implies within(
            adj,
            root,
            q2[i],
            ql2[i],
        ) && (o2.contains(q2[i]) || exists|j: int|
            0 <= j <= i && #[trigger] settles(adj, root, q2, ql2, j, q2[i])) by {
            let t = q2[i];
            if i < rest.len() {
                assert(q[i + 1] == t && ql[i + 1] == ql2[i]);
                if !o.contains(t) {
                    let j = choose|j: int|
                        0 <= j <= i + 1 && #[trigger] settles(adj, root, q, ql, j, q[i + 1]);
                    if j > 0 {
                        assert(q2[j - 1] == q[j] && ql2[j - 1] == ql[j]);
                        assert(settles(adj, root, q2, ql2, j - 1, t));
                    }
                }
            } else {
                assert(t == added[i - rest.len()]);
                assert(added.contains(t));
                assert(ql2[i] == l + 1);
                lemma_fresh_members(adj[v as int], o2, t);
                lemma_within_edge(adj, root, v, t, l);
                if within(adj, root, t, l) {
                    assert(known(o, q, t));
                    lemma_contains_push(o, v, t);
                    let m = choose|m: int| 0 <= m < q.len() && q[m] == t;
                    assert(q[m] == t);
                    let j = choose|j: int|
                        0 <= j <= m && #[trigger] settles(adj, root, q, ql, j, q[m]);
                    assert(j > 0);
                    assert(q2[j - 1] == q[j] && ql2[j - 1] == ql[j]);
                    assert(settles(adj, root, q2, ql2, j - 1, t));
                } else {
                    assert(settles(adj, root, q2, ql2, i, t));
                }
            }
        }
    }
    assert(edges_known(adj, q2, o2)) by {
        assert forall|i: int, t: usize|
            0 <= i < o2.len() && #[trigger] adj[o2[i] as int].contains(t) implies known(
            o2,
            q2,
            t,
        ) by {
            if i < o.len() {
                assert(o2[i] == o[i]);
                assert(adj[o[i] as int].contains(t));
                assert(known(o, q, t));
            } else {
                lemma_fresh_members(adj[v as int], o2, t);
                lemma_contains_add(rest, added, t);
            }
        }
    }
    if q2.len() > 0 {
        let l2 = ql2[0];
        assert(l <= l2 <= l + 1);
        assert(q.len() > 1 ==> ql[1] == ql2[0]) by {
            if q.len() > 1 {
                assert(ql2[0] == ql[1]);
            }
        }
        assert forall|u: usize, k: nat| #[trigger] within(adj, root, u, k) implies (k <= l2
            ==> known(o2, q2, u)) && (k < l2 ==> o2.contains(u)) by {
            if k <= l {
                assert(known(o, q, u));
                if k < l {
                    assert(o.contains(u));
                } else if l2 == l + 1 {
                    lemma_level_done(adj, root, q, ql, o, ol, u, k);
                }
            } else if k == l + 1 && l2 == l + 1 {
                if within(adj, root, u, l) {
                    assert(known(o, q, u));
                } else {
                    let w = lemma_within_last_edge(adj, root, u, l);
                    lemma_level_done(adj, root, q, ql, o, ol, w, l);
                    assert(o2.contains(w));
                    let i = choose|i: int| 0 <= i < o2.len() && o2[i] == w;
                    assert(adj[o2[i] as int].contains(u));
                }
            }
        }
    }
    (q2, ql2, o2, ol2)
}

/// The order that the run ends with, together with the distance of each of
/// its vertices; the distances never fall.
proof fn lemma_levels_run(
    adj: Seq<Seq<usize>>,
    root: usize,
    q: Seq<usize>,
    ql: Seq<nat>,
    o: Seq<usize>,
    ol: Seq<nat>,
) -> (levels: Seq<nat>)
    requires
        targets_ok(adj),
        level_inv(adj, root, q, ql, o, ol),
    ensures
        levelled(adj, root, bfs_run(adj, q, o), levels),
        edges_known(adj, Seq::empty(), bfs_run(adj, q, o)),
    decreases unvisited(adj.len(), o), q.len(),
{
    if q.len() == 0 {
        assert(q =~= Seq::empty());
        ol
    } else {
        let v = q[0];
        assert(v < adj.len());
        let next = lemma_level_step(adj, root, q, ql, o, ol);
        lemma_unvisited_push(adj.len(), o, v);
        lemma_levels_run(adj, root, next.0, next.1, next.2, next.3)
    }
}

/// The distances of the vertices of a breadth-first traversal from `root`,
/// which never fall along the order; the order holds, with each vertex, its
/// targets.
proof fn lemma_levels_start(adj: Seq<Seq<usize>>, root: usize) -> (levels: Seq<nat>)
    requires
        targets_ok(adj),
        root < adj.len(),
    ensures
        levelled(adj, root, bfs_from(adj, root, Seq::empty()), levels),
        edges_known(adj, Seq::empty(), bfs_from(adj, root, Seq::empty())),
{
    let q = seq![root];
    let ql = seq![0nat];
    let o = Seq::<usize>::empty();
    let ol = Seq::<nat>::empty();
    assert(queue_ok(adj, root, q, ql, o)) by {
        lemma_within_none(adj, root, root);
        assert(settles(adj, root, q, ql, 0, q[0]));
    }
    assert(frontier_ok(adj, root, q, ql, o)) by {
        assert forall|u: usize, m: nat| #[trigger] within(adj, root, u, m) implies (m <= ql[0]
            ==> known(o, q, u)) && (m < ql[0] ==> o.contains(u)) by {
            if m == 0 {
                lemma_within_none(adj, root, u);
                assert(q[0] == u);
            }
        }
    }
    lemma_levels_run(adj, root, q, ql, o, ol)
}

/// Breadth-first level order: in the order of a breadth-first traversal from
/// `root`, a vertex visited earlier is at most as far from `root` as one
/// visited later: whatever number of edges suffices to reach the later one
/// suffices to reach the earlier one. So the vertices at distance `k` all come
/// before any at distance `k + 1`.
pub proof fn lemma_bfs_level_order(adj: Seq<Seq<usize>>, root: usize, i: int, j: int, k: nat)
    requires
        targets_ok(adj),
        root < adj.len(),
        0 <= i <= j < bfs_from(adj, root, Seq::empty()).len(),
        within(adj, root, bfs_from(adj, root, Seq::empty())[j], k),
    ensures
        within(adj, root, bfs_from(adj, root, Seq::empty())[i], k),
{
    let levels = lemma_levels_start(adj, root);
    let order = bfs_from(adj, root, Seq::empty());
    assert(at_distance(adj, root, order[j], levels[j]));
    assert(at_distance(adj, root, order[i], levels[i]));
    assert(levels[i] <= levels[j]);
    if k < levels[j] {
        lemma_within_more(adj, root, order[j], k, (levels[j] - 1) as nat);
    }
    lemma_within_more(adj, root, order[i], levels[i], k);
}

/// What a sequence holds is its last element or among those before it.
proof fn lemma_contains_drop_last(q: Seq<usize>, x: usize)
    requires
        q.len() > 0,
    ensures
        q.contains(x) <==> x == q.last() || q.drop_last().contains(x),
{
    let r = q.drop_last();
    if q.contains(x) {
        let i = choose|i: int| 0 <= i < q.len() && q[i] == x;
        if i < r.len() {
            assert(r[i] == x);
        }
    }
    if r.contains(x) {
        let i = choose|i: int| 0 <= i < r.len() && r[i] == x;
        assert(q[i] == x);
    }
}

/// A sequence read backwards holds the same elements.
proof fn lemma_contains_reverse(s: Seq<usize>, x: usize)
    ensures
        s.reverse().contains(x) <==> s.contains(x),
{
    let r = s.reverse();
    if s.contains(x) {
        let i = choose|i: int| 0 <= i < s.len() && s[i] == x;
        assert(r[s.len() - 1 - i] == x);
    }
    if r.contains(x) {
        let i = choose|i: int| 0 <= i < r.len() && r[i] == x;
        assert(s[s.len() - 1 - i] == x);
    }
}

/// An order that holds the start and, with each vertex, its targets holds
/// whatever can be reached.
proof fn lemma_closed_order(adj: Seq<Seq<usize>>, root: usize, order: Seq<usize>, v: usize, k: nat)
    requires
        order.contains(root),
        edges_known(adj, Seq::empty(), order),
        within(adj, root, v, k),
    ensures
        order.contains(v),
    decreases k,
{
    if k == 0 {
        lemma_within_none(adj, root, v);
    } else if within(adj, root, v, (k - 1) as nat) {
        lemma_closed_order(adj, root, order, v, (k - 1) as nat);
    } else {
        let w = lemma_within_last_edge(adj, root, v, (k - 1) as nat);
        lemma_closed_order(adj, root, order, w, (k - 1) as nat);
        let i = choose|i: int| 0 <= i < order.len() && order[i] == w;
        assert(adj[order[i] as int].contains(v));
        assert(known(order, Seq::empty(), v));
    }
}

/// Every element of `s` can be reached from `root`.
spec fn all_reachable(adj: Seq<Seq<usize>>, root: usize, s: Seq<usize>) -> bool {
    forall|i: int| 0 <= i < s.len() ==> reachable(adj, root, #[trigger] s[i])
}

/// The depth-first run visits only what can be reached and ends with an
/// order that holds, with each vertex, its targets.
proof fn lemma_dfs_closed(adj: Seq<Seq<usize>>, root: usize, stack: Seq<usize>, o: Seq<usize>)
    requires
        targets_ok(adj),
        in_range(adj.len(), stack),
        all_reachable(adj, root, stack),
        all_reachable(adj, root, o),
        edges_known(adj, stack, o),
    ensures
        all_reachable(adj, root, dfs_run(adj, stack, o)),
        edges_known(adj, Seq::empty(), dfs_run(adj, stack, o)),
    decreases unvisited(adj.len(), o), stack.len(),
{
    if stack.len() == 0 {
        assert(stack =~= Seq::empty());
    } else {
        let v = stack.last();
        let rest = stack.drop_last();
        assert(stack[stack.len() - 1] == v);
        assert forall|i: int| 0 <= i < rest.len() implies #[trigger] rest[i] == stack[i] by {}
        if o.contains(v) {
            assert forall|i: int, t: usize|
                0 <= i < o.len() && #[trigger] adj[o[i] as int].contains(t) implies known(
                o,
                rest,
                t,
            ) by {
                assert(known(o, stack, t));
                lemma_contains_drop_last(stack, t);
            }
            lemma_dfs_closed(adj, root, rest, o);
        } else {
            let o2 = o.push(v);
            let pending = rest + adj[v as int].reverse();
            lemma_unvisited_push(adj.len(), o, v);
            let k = choose|k: nat| within(adj, root, v, k);
            assert forall|i: int| 0 <= i < pending.len() implies (#[trigger] pending[i])
                < adj.len() && reachable(adj, root, pending[i]) by {
                if i < rest.len() {
                    assert(pending[i] == rest[i]);
                } else {
                    let m = adj[v as int].len() - 1 - (i - rest.len());
                    assert(pending[i] == adj[v as int][m]);
                    assert(adj[v as int].contains(pending[i]));
                    lemma_within_edge(adj, root, v, pending[i], k);
                }
            }
            assert forall|i: int| 0 <= i < o2.len() implies reachable(
                adj,
                root,
                #[trigger] o2[i],
            ) by {
                if i < o.len() {
                    assert(o2[i] == o[i]);
                }
            }
            assert forall|i: int, t: usize|
                0 <= i < o2.len() && #[trigger] adj[o2[i] as int].contains(t) implies known(
                o2,
                pending,
                t,
            ) by {
                lemma_contains_push(o, v, t);
                lemma_contains_add(rest, adj[v as int].reverse(), t);
                if i < o.len() {
                    assert(o2[i] == o[i]);
                    assert(adj[o[i] as int].contains(t));
                    assert(known(o, stack, t));
                    lemma_contains_drop_last(stack, t);
                } else {
                    lemma_contains_reverse(adj[v as int], t);
                }
            }
            lemma_dfs_closed(adj, root, pending, o2);
        }
    }
}

/// A depth-first traversal from `root` visits exactly the vertices that can
/// be reached from `root`.
pub proof fn lemma_dfs_reach(adj: Seq<Seq<usize>>, root: usize, v: usize)
    requires
        targets_ok(adj),
        root < adj.len(),
    ensures
        dfs_from(adj, root, Seq::empty()).contains(v) <==> reachable(adj, root, v),
{
    let order = dfs_from(adj, root, Seq::empty());
    let stack = seq![root];
    lemma_within_none(adj, root, root);
    assert(reachable(adj, root, stack[0]));
    lemma_dfs_closed(adj, root, stack, Seq::empty());
    lemma_dfs_run(adj, stack, Seq::empty());
    assert(order.contains(stack[0]));
    if order.contains(v) {
        let i = choose|i: int| 0 <= i < order.len() && order[i] == v;
        assert(reachable(adj, root, order[i]));
    }
    if reachable(adj, root, v) {
        let k = choose|k: nat| within(adj, root, v, k);
        lemma_closed_order(adj, root, order, v, k);
    }
}

/// A breadth-first traversal from `root` visits exactly the vertices that
/// can be reached from `root`.
pub proof fn lemma_bfs_reach(adj: Seq<Seq<usize>>, root: usize, v: usize)
    requires
        targets_ok(adj),
        root < adj.len(),
    ensures
        bfs_from(adj, root, Seq::empty()).contains(v) <==> reachable(adj, root, v),
{
    let order = bfs_from(adj, root, Seq::empty());
    let q = seq![root];
    let levels = lemma_levels_start(adj, root);
    lemma_bfs_run(adj, q, Seq::empty());
    assert(order.contains(q[0]));
    if order.contains(v) {
        let i = choose|i: int| 0 <= i < order.len() && order[i] == v;
        assert(at_distance(adj, root, order[i], levels[i]));
    }
    if reachable(adj, root, v) {
        let k = choose|k: nat| within(adj, root, v, k);
        lemma_closed_order(adj, root, order, v, k);
    }
}

} // verus!
