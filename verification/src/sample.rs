//! A small graph with a cycle, in two sizes: six vertices with six or seven
//! edges.

use typed_arena::Arena;
use vstd::prelude::*;
use crate::graph::Graph;
use crate::model::{build, endpoints, lemma_build_accounting};

verus! {

/// The edges of the sample graph, in the order in which they are added.
pub open spec fn sample_edges() -> Seq<(Seq<char>, Seq<char>)> {
    seq![
        ("A"@, "B"@),
        ("A"@, "C"@),
        ("A"@, "D"@),
        ("C"@, "E"@),
        ("C"@, "F"@),
        ("C"@, "A"@),
    ]
}

/// The six names of the sample graph differ from one another.
pub proof fn lemma_sample_names_differ()
    ensures
        "A"@ != "B"@ && "A"@ != "C"@ && "A"@ != "D"@ && "A"@ != "E"@ && "A"@ != "F"@,
        "B"@ != "C"@ && "B"@ != "D"@ && "B"@ != "E"@ && "B"@ != "F"@,
        "C"@ != "D"@ && "C"@ != "E"@ && "C"@ != "F"@,
        "D"@ != "E"@ && "D"@ != "F"@,
        "E"@ != "F"@,
{
    reveal_strlit("A");
    reveal_strlit("B");
    reveal_strlit("C");
    reveal_strlit("D");
    reveal_strlit("E");
    reveal_strlit("F");
    assert("A"@[0] == 'A' && "B"@[0] == 'B' && "C"@[0] == 'C');
    assert("D"@[0] == 'D' && "E"@[0] == 'E' && "F"@[0] == 'F');
}

/// Builds the sample graph in `arena`: A leads to B, C and D; C leads to E, F
/// and back to A.
pub fn init<'a>(arena: &'a Arena<Graph>) -> (graph: &'a mut Graph)
    ensures
        graph.wf(),
        graph@ == build(sample_edges()),
        graph@.names.len() == 6,
        graph@.edge_count == 6,
{
    let ghost edges = sample_edges();
    let graph = Graph::new(arena);
    proof {
        lemma_sample_names_differ();
        assert(graph@ == build(edges.subrange(0, 0)));
    }
    graph.add_edge("A", "B");
    proof {
        assert(edges.subrange(0, 1).drop_last() =~= edges.subrange(0, 0));
        assert(graph@ == build(edges.subrange(0, 1)));
    }
    graph.add_edge("A", "C");
    proof {
        assert(edges.subrange(0, 2).drop_last() =~= edges.subrange(0, 1));
        assert(graph@ == build(edges.subrange(0, 2)));
    }
    graph.add_edge("A", "D");
    proof {
        assert(edges.subrange(0, 3).drop_last() =~= edges.subrange(0, 2));
        assert(graph@ == build(edges.subrange(0, 3)));
    }
    graph.add_edge("C", "E");
    proof {
        assert(edges.subrange(0, 4).drop_last() =~= edges.subrange(0, 3));
        assert(graph@ == build(edges.subrange(0, 4)));
    }
    graph.add_edge("C", "F");
    proof {
        assert(edges.subrange(0, 5).drop_last() =~= edges.subrange(0, 4));
        assert(graph@ == build(edges.subrange(0, 5)));
    }
    graph.add_edge("C", "A");
    proof {
        assert(edges.subrange(0, 6).drop_last() =~= edges.subrange(0, 5));
        assert(edges.subrange(0, 6) =~= edges);
        assert(graph@ == build(edges));
    }
    graph
}

/// Builds the sample graph with one more edge, from D to E, which adds no
/// vertex.
pub fn init_graph<'a>(arena: &'a Arena<Graph>) -> (graph: &'a mut Graph)
    ensures
        graph.wf(),
        graph@ == build(sample_edges().push(("D"@, "E"@))),
        graph@.names.len() == 6,
        graph@.edge_count == 7,
{
    let graph = init(arena);
    proof {
        lemma_sample_names_differ();
        lemma_build_accounting(sample_edges());
        assert(endpoints(sample_edges()).contains("D"@)) by {
            assert(sample_edges()[2].1 == "D"@);
        }
        assert(endpoints(sample_edges()).contains("E"@)) by {
            assert(sample_edges()[3].1 == "E"@);
        }
        assert(graph@.names.to_set().contains("D"@));
        assert(graph@.names.to_set().contains("E"@));
    }
    graph.add_edge("D", "E");
    proof {
        let edges = sample_edges().push(("D"@, "E"@));
        assert(edges.drop_last() =~= sample_edges());
    }
    graph
}

} // verus!
