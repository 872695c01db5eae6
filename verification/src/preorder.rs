//! Depth-first order said recursively, and that the run over a stack of
//! pending vertices gives the same order.

use vstd::prelude::*;
use crate::traversal::{dfs_from, dfs_run, lemma_unvisited_push, unvisited};

verus! {

/// Pre-order, depth first: the vertices of `targets` are taken first to last,
/// continuing `order`. A vertex that is visited already is passed over. Any
/// other is visited, then its own targets are explored in full in the same
/// way, and only then is the next of `targets` taken.
///
/// Exploring never makes a visited vertex unvisited (`lemma_preorder_grows`);
/// the definition tests this where it goes on to the next target, which makes
/// it well founded.
pub open spec fn preorder(adj: Seq<Seq<usize>>, targets: Seq<usize>, order: Seq<usize>) -> Seq<
    usize,
>
    decreases unvisited(adj.len(), order), targets.len(),
{
    if targets.len() == 0 {
        order
    } else {
        let v = targets.first();
        let explored = if order.contains(v) || v >= adj.len() {
            order
        } else {
            proof {
                lemma_unvisited_push(adj.len(), order, v);
            }
            preorder(adj, adj[v as int], order.push(v))
        };
        if unvisited(adj.len(), explored) <= unvisited(adj.len(), order) {
            preorder(adj, targets.drop_first(), explored)
        } else {
            explored
        }
    }
}

/// Exploring never raises the number of unvisited vertices.
pub proof fn lemma_preorder_grows(adj: Seq<Seq<usize>>, targets: Seq<usize>, order: Seq<usize>)
    ensures
        unvisited(adj.len(), preorder(adj, targets, order)) <= unvisited(adj.len(), order),
    decreases unvisited(adj.len(), order), targets.len(),
{
    if targets.len() > 0 {
        let v = targets.first();
        if order.contains(v) || v >= adj.len() {
            lemma_preorder_grows(adj, targets.drop_first(), order);
        } else {
            lemma_unvisited_push(adj.len(), order, v);
            let explored = preorder(adj, adj[v as int], order.push(v));
            lemma_preorder_grows(adj, adj[v as int], order.push(v));
            lemma_preorder_grows(adj, targets.drop_first(), explored);
        }
    }
}

/// Exploring one list after another is exploring the two as one.
pub proof fn lemma_preorder_chain(
    adj: Seq<Seq<usize>>,
    first: Seq<usize>,
    second: Seq<usize>,
    order: Seq<usize>,
)
    ensures
        preorder(adj, first + second, order) == preorder(
            adj,
            second,
            preorder(adj, first, order),
        ),
    decreases unvisited(adj.len(), order), first.len(),
{
    if first.len() == 0 {
        assert(first + second =~= second);
    } else {
        let v = first.first();
        let both = first + second;
        assert(both.first() == v);
        assert(both.drop_first() =~= first.drop_first() + second);
        if order.contains(v) || v >= adj.len() {
            lemma_preorder_chain(adj, first.drop_first(), second, order);
        } else {
            lemma_unvisited_push(adj.len(), order, v);
            let explored = preorder(adj, adj[v as int], order.push(v));
            lemma_preorder_grows(adj, adj[v as int], order.push(v));
            lemma_preorder_chain(adj, first.drop_first(), second, explored);
        }
    }
}

/// The run over a stack of pending vertices, top last, is the pre-order
/// exploration of those vertices, top first.
pub proof fn lemma_dfs_run_is_preorder(adj: Seq<Seq<usize>>, stack: Seq<usize>, order: Seq<usize>)
    ensures
        dfs_run(adj, stack, order) == preorder(adj, stack.reverse(), order),
    decreases unvisited(adj.len(), order), stack.len(),
{
    if stack.len() == 0 {
        assert(stack.reverse() =~= Seq::empty());
    } else {
        let v = stack.last();
        let rest = stack.drop_last();
        let targets = stack.reverse();
        assert(targets.first() == v);
        assert(targets.drop_first() =~= rest.reverse());
        if order.contains(v) || v >= adj.len() {
            lemma_dfs_run_is_preorder(adj, rest, order);
        } else {
            let next = order.push(v);
            let pending = rest + adj[v as int].reverse();
            lemma_unvisited_push(adj.len(), order, v);
            lemma_dfs_run_is_preorder(adj, pending, next);
            assert(pending.reverse() =~= adj[v as int] + rest.reverse());
            lemma_preorder_chain(adj, adj[v as int], rest.reverse(), next);
            lemma_preorder_grows(adj, adj[v as int], next);
        }
    }
}

/// Depth-first traversal from one vertex is the pre-order exploration of that
/// vertex.
pub proof fn lemma_dfs_from_is_preorder(adj: Seq<Seq<usize>>, start: usize, order: Seq<usize>)
    ensures
        dfs_from(adj, start, order) == preorder(adj, seq![start], order),
{
    lemma_dfs_run_is_preorder(adj, seq![start], order);
    assert(seq![start].reverse() =~= seq![start]);
}

} // verus!
