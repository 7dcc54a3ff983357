use vstd::prelude::*;
use crate::dag::{Dag, VertexId, root_id, id_in};

verus! {

/// A statement of the drawing of a DAG: a node for a vertex, or an edge from a vertex
/// to one of its children.
#[derive(Clone, Copy, Debug, PartialEq, Eq, Structural)]
pub enum GraphStatement {
    Node(VertexId),
    Edge(VertexId, VertexId),
}

/// The depth-first walk of the drawing: pop the top of `stack` and draw its node; the
/// first time a vertex is met, draw an edge to each of its children, in vertex order,
/// and push them. The result is everything drawn, in order.
pub open spec fn graph_walk<T>(
    dag: Dag<T>,
    stack: Seq<VertexId>,
    explored: Set<VertexId>,
    out: Seq<GraphStatement>,
) -> Seq<GraphStatement>
    decreases dag.id_set().difference(explored).len(), stack.len(),
    when dag.wf() && dag.all_contained(stack)
{
    if stack.len() == 0 {
        out
    } else {
        let head = stack.last();
        let rest = stack.drop_last();
        let out1 = out.push(GraphStatement::Node(head));
        if explored.contains(head) {
            graph_walk(dag, rest, explored, out1)
        } else {
            let cs = dag.children(head);
            proof {
                dag.lemma_walk_measure(explored, head);
                dag.lemma_children_contained(head);
            }
            graph_walk(
                dag,
                rest + cs,
                explored.insert(head),
                out1 + cs.map_values(|c: VertexId| GraphStatement::Edge(head, c)),
            )
        }
    }
}

/// The statements drawing the DAG from its root (`graph_walk`).
pub fn graph_statements<T>(dag: &Dag<T>) -> (r: Vec<GraphStatement>)
    requires
        dag.wf(),
    ensures
        r@ == graph_walk(*dag, seq![root_id()], Set::empty(), Seq::empty()),
{
    let ghost goal = graph_walk(*dag, seq![root_id()], Set::empty(), Seq::empty());
    let mut stack: Vec<VertexId> = Vec::new();
    stack.push(dag.get_root().id);
    let mut explored: Vec<VertexId> = Vec::new();
    let mut out: Vec<GraphStatement> = Vec::new();
    proof {
        assert(stack@ =~= seq![root_id()]);
        assert(explored@.to_set() =~= Set::<VertexId>::empty());
    }
    while stack.len() > 0
        invariant
            dag.wf(),
            dag.all_contained(stack@),
            graph_walk(*dag, stack@, explored@.to_set(), out@) == goal,
        decreases dag.id_set().difference(explored@.to_set()).len(), stack@.len(),
    {
        let ghost before = stack@;
        let ghost out0 = out@;
        let head = stack.pop().unwrap();
        proof {
            assert(head == before.last());
            assert(stack@ == before.drop_last());
            assert(dag.contains_id(before[before.len() - 1]));
        }
        out.push(GraphStatement::Node(head));
        if !id_in(&explored, &head) {
            let ghost ex0 = explored@;
            let ghost rest = stack@;
            let ghost out1 = out@;
            proof {
                assert(!explored@.to_set().contains(head));
                dag.lemma_walk_measure(explored@.to_set(), head);
                dag.lemma_children_contained(head);
            }
            let cs = dag.get_edges_to_vertex(&head);
            let mut i: usize = 0;
            while i < cs.len()
                invariant
                    0 <= i <= cs@.len(),
                    cs@ == dag.children(head),
                    stack@ == rest + cs@.take(i as int),
                    out@ == out1 + cs@.take(i as int).map_values(|c: VertexId| GraphStatement::Edge(head, c)),
                decreases cs@.len() - i,
            {
                out.push(GraphStatement::Edge(head, cs[i]));
                stack.push(cs[i]);
                i = i + 1;
                assert(stack@ =~= rest + cs@.take(i as int));
                assert(out@ =~= out1 + cs@.take(i as int).map_values(|c: VertexId| GraphStatement::Edge(head, c)));
            }
            explored.push(head);
            proof {
                assert(cs@.take(i as int) =~= cs@);
                assert(explored@ =~= ex0 + seq![head]);
                Seq::lemma_to_set_insert_commutes(ex0, head);
                assert forall|k: int| 0 <= k < stack@.len() implies dag.contains_id(#[trigger] stack@[k]) by {
                    if k < rest.len() {
                        assert(stack@[k] == before[k]);
                    } else {
                        assert(stack@[k] == cs@[k - rest.len()]);
                    }
                }
            }
        } else {
            proof {
                assert(explored@.to_set().contains(head));
                assert forall|k: int| 0 <= k < stack@.len() implies dag.contains_id(#[trigger] stack@[k]) by {
                    assert(stack@[k] == before[k]);
                }
            }
        }
    }
    out
}

} // verus!
