use crdt::crdt::Operation;
use crdt::dag::{Dag, Vertex, VertexId};
use crdt::metrics::StabilityMetrics;
use crdt::rendering::{graph_statements, GraphStatement};
use crdt::{CommandsParameter, OperationParameterWithInitialContext};

fn command(id: usize, time: u128, process: u32) -> Operation<CommandsParameter> {
    let mut p = CommandsParameter::default();
    p.set_initial_context(time, 0, process);
    Operation::new(id, p)
}

#[test]
fn metrics_count_reorderings() {
    let a = command(1, 10, 1);
    let b = command(2, 20, 2);
    let mut m = StabilityMetrics::new();
    assert!(m.can_record(1));
    m.record(&vec![a.clone()], 100, 5);
    assert_eq!(m.len(), 1);
    assert_eq!(m.entry(0).moved, 10);
    assert_eq!(m.entry(0).reorderings, 0);
    assert!(m.entry(0).context.is_empty());

    m.record(&vec![b.clone(), a.clone()], 200, 7);
    assert_eq!(m.len(), 2);
    assert_eq!(m.entry(0).moved, 200);
    assert_eq!(m.entry(0).reorderings, 1);
    assert_eq!(m.entry(0).context.len(), 1);
    assert_eq!(m.entry(0).context[0].id, 2);
    assert_eq!(m.entry(1).op.id, 2);
    assert_eq!(m.entry(1).moved, 20);
    assert_eq!(m.entry(1).reorderings, 0);

    m.record(&vec![b.clone(), a.clone()], 300, 9);
    assert_eq!(m.entry(0).moved, 200);
    assert_eq!(m.entry(0).reorderings, 1);
    assert_eq!(m.computation_time(1), Some(5));
    assert_eq!(m.computation_time(2), Some(9));
    assert_eq!(m.computation_time(3), None);
    assert_eq!(m.computation_times(), vec![(1, 5), (2, 9)]);
    assert!(!m.can_record(4294967295));
}

#[test]
fn drawing_walks_from_the_root() {
    let mut dag = Dag::new(0u8);
    let (a, b, c, d) = (VertexId::new(1, 1), VertexId::new(2, 2), VertexId::new(2, 1), VertexId::new(3, 3));
    assert!(dag.add_vertex(vec![], Vertex::new(a, 1)));
    assert!(dag.add_vertex(vec![a], Vertex::new(b, 2)));
    assert!(dag.add_vertex(vec![a], Vertex::new(c, 3)));
    assert!(dag.add_vertex(vec![b, c], Vertex::new(d, 4)));
    let root = VertexId::new(0, 0);
    assert_eq!(
        graph_statements(&dag),
        vec![
            GraphStatement::Node(root),
            GraphStatement::Edge(root, a),
            GraphStatement::Node(a),
            GraphStatement::Edge(a, b),
            GraphStatement::Edge(a, c),
            GraphStatement::Node(c),
            GraphStatement::Edge(c, d),
            GraphStatement::Node(d),
            GraphStatement::Node(b),
            GraphStatement::Edge(b, d),
            GraphStatement::Node(d),
        ]
    );
}
