use crdt::dag::{Dag, Vertex, VertexId};
use crdt::text::decimal_text;

#[test]
fn root() {
    let dag = Dag::new(0);
    let root = dag.get_root();
    assert!(root.id == VertexId::new(0, 0));
}

fn diamond() -> Dag<u8> {
    // root <- a <- {b, c} <- d
    let mut dag = Dag::new(0u8);
    assert!(dag.add_vertex(vec![], Vertex::new(VertexId::new(1, 1), 1)));
    assert!(dag.add_vertex(vec![VertexId::new(1, 1)], Vertex::new(VertexId::new(2, 2), 2)));
    assert!(dag.add_vertex(vec![VertexId::new(1, 1)], Vertex::new(VertexId::new(2, 1), 3)));
    assert!(dag.add_vertex(vec![VertexId::new(2, 2), VertexId::new(2, 1)], Vertex::new(VertexId::new(3, 3), 4)));
    dag
}

#[test]
fn add_vertex_computes_distances_and_length() {
    let dag = diamond();
    assert_eq!(dag.get_vertex(&VertexId::new(1, 1)).unwrap().distance, 1);
    assert_eq!(dag.get_vertex(&VertexId::new(2, 1)).unwrap().distance, 2);
    assert_eq!(dag.get_vertex(&VertexId::new(3, 3)).unwrap().distance, 3);
    assert_eq!(dag.length(), 3);
    assert_eq!(dag.get_edges_from_vertex(&VertexId::new(1, 1)), vec![VertexId::new(0, 0)]);
    assert_eq!(dag.get_edges_from_vertex(&VertexId::new(3, 3)), vec![VertexId::new(2, 2), VertexId::new(2, 1)]);
}

#[test]
fn add_vertex_keeps_a_given_distance() {
    let mut dag = Dag::new(0u8);
    let mut v = Vertex::new(VertexId::new(1, 4), 9);
    v.distance = 7;
    assert!(dag.add_vertex(vec![], v));
    assert_eq!(dag.get_vertex(&VertexId::new(1, 4)).unwrap().distance, 7);
    assert_eq!(dag.length(), 7);
}

#[test]
fn add_vertex_refuses_unknown_parents() {
    let mut dag = diamond();
    assert!(!dag.add_vertex(vec![VertexId::new(1, 1), VertexId::new(8, 8)], Vertex::new(VertexId::new(4, 4), 5)));
    assert_eq!(dag.get_all_ids().len(), 5);
    assert!(!dag.contains_vertex(&VertexId::new(4, 4)));
}

#[test]
fn children_heads_and_root() {
    let dag = diamond();
    assert_eq!(dag.get_edges_to_vertex(&VertexId::new(1, 1)), vec![VertexId::new(2, 2), VertexId::new(2, 1)]);
    assert_eq!(dag.get_edges_to_vertex(&VertexId::new(0, 0)), vec![VertexId::new(1, 1)]);
    assert_eq!(dag.get_heads(), vec![VertexId::new(3, 3)]);
    let only_root = Dag::new(0u8);
    assert_eq!(only_root.get_heads(), vec![]);
    assert!(only_root.contains_vertex(&VertexId::new(0, 0)));
    assert_eq!(only_root.get_all_ids(), vec![VertexId::new(0, 0)]);
}

#[test]
fn sorted_past_is_a_reversed_depth_first_walk() {
    let dag = diamond();
    let past = dag.sorted_past(vec![VertexId::new(3, 3)], &vec![]);
    // walk: d, then parents sorted (2,1) < (2,2), the last pushed popped first:
    // d, (2,2), a, root, (2,1)
    assert_eq!(past, vec![VertexId::new(2, 1), VertexId::new(0, 0), VertexId::new(1, 1), VertexId::new(2, 2), VertexId::new(3, 3)]);
    let past2 = dag.sorted_past(vec![VertexId::new(3, 3)], &vec![VertexId::new(1, 1)]);
    assert_eq!(past2, vec![VertexId::new(2, 1), VertexId::new(2, 2), VertexId::new(3, 3)]);
}

#[test]
fn future_and_processes() {
    let dag = diamond();
    assert_eq!(dag.future(&VertexId::new(1, 1)), vec![VertexId::new(2, 1), VertexId::new(2, 2), VertexId::new(3, 3)]);
    assert_eq!(dag.future(&VertexId::new(3, 3)), vec![]);
    assert_eq!(dag.processes_in_future(&VertexId::new(1, 1), 2), vec![1, 2]);
    assert_eq!(dag.processes_in_future(&VertexId::new(1, 1), 5), vec![1, 2, 3]);
    assert_eq!(dag.processes_in_future_no_n(&VertexId::new(0, 0)), vec![1, 2, 3]);
}

#[test]
fn first_from_processes_walks_breadth_first() {
    let dag = diamond();
    assert_eq!(dag.first_from_processes(&VertexId::new(0, 0), &vec![2]), VertexId::new(2, 2));
    assert_eq!(dag.first_from_processes(&VertexId::new(0, 0), &vec![3, 1]), VertexId::new(1, 1));
    assert_eq!(dag.first_from_processes(&VertexId::new(1, 1), &vec![9]), VertexId::new(0, 0));
}

#[test]
fn next_level_gathers_children() {
    let dag = diamond();
    assert_eq!(dag.next_level(&vec![VertexId::new(0, 0)]), vec![VertexId::new(1, 1)]);
    assert_eq!(dag.next_level(&vec![VertexId::new(2, 2), VertexId::new(2, 1)]), vec![VertexId::new(3, 3)]);
}

#[test]
fn identifiers_and_vertices_as_text() {
    assert_eq!(VertexId::new(12, 3).to_string(), "312");
    let mut v = Vertex::new(VertexId::new(5, 0), 1u8);
    v.distance = 40;
    assert_eq!(v.to_string(), "Vertex: (id: 05, distance: 40)");
    assert_eq!(decimal_text(0), "0");
    assert_eq!(decimal_text(1234567890), "1234567890");
}

#[test]
fn parents_precede_unless_an_identifier_is_reused() {
    let mut dag = diamond();
    assert!(dag.parents_precede());
    // adding again under the identifier of `a`, below `d`, records `d` as a parent of `a`
    assert!(dag.add_vertex(vec![VertexId::new(3, 3)], Vertex::new(VertexId::new(1, 1), 9)));
    assert_eq!(dag.get_edges_from_vertex(&VertexId::new(1, 1)), vec![VertexId::new(0, 0), VertexId::new(3, 3)]);
    assert!(!dag.parents_precede());
}

#[test]
fn additions_keep_the_root_first_and_the_length_at_the_largest_distance() {
    let mut dag = diamond();
    assert!(!dag.add_vertex(vec![VertexId::new(9, 9)], Vertex::new(VertexId::new(4, 4), 5)));
    assert_eq!(
        dag.get_all_ids(),
        vec![VertexId::new(0, 0), VertexId::new(1, 1), VertexId::new(2, 2), VertexId::new(2, 1), VertexId::new(3, 3)]
    );
    assert!(dag.get_root().id == VertexId::new(0, 0));
    assert_eq!(dag.get_root().distance, 0);
    let largest = dag.get_all_ids().iter().map(|id| dag.get_vertex(id).unwrap().distance).max().unwrap();
    assert_eq!(dag.length(), largest);
    for id in dag.get_all_ids() {
        let d = dag.get_vertex(&id).unwrap().distance;
        for p in dag.get_edges_from_vertex(&id) {
            assert!(dag.get_vertex(&p).unwrap().distance < d);
        }
    }
}
