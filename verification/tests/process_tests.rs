use std::cmp::Ordering;

use crdt::commands::{commands_order, mutate_commands};
use crdt::crdt::legal_functions::total;
use crdt::crdt::reconciliation_functions::basic_exploration;
use crdt::crdt::{Operation, VertexLabel, CRDT};
use crdt::dag::{Vertex, VertexId};
use crdt::process::{issue_operation, CRDTOperationMessage, PendingMessages};
use crdt::{CommandsParameter, OperationParameterWithInitialContext};

fn log_mutate(x: &Vec<usize>, op: &Operation<()>) -> Vec<usize> {
    let mut x = x.clone();
    x.push(op.id);
    x
}

#[test]
fn message_as_text() {
    let mut v = Vertex::new(VertexId::new(2, 1), VertexLabel::new(0, (), 1));
    v.distance = 3;
    let m = CRDTOperationMessage::new(v, vec![VertexId::new(1, 1), VertexId::new(1, 2)]);
    assert_eq!(m.to_string(), "CRDTOperationMessage: (vertex: Vertex: (id: 12, distance: 3), causal_context: 11, 21)");
    let m2 = CRDTOperationMessage::new(Vertex::new(VertexId::new(7, 0), VertexLabel::new(0, (), 0)), vec![]);
    assert_eq!(m2.to_string(), "CRDTOperationMessage: (vertex: Vertex: (id: 07, distance: 0), causal_context: )");
}

#[test]
fn issued_message_carries_the_new_vertex_and_the_heads() {
    let mut a = CRDT::new(vec![], log_mutate, basic_exploration::<()>, total::<(), Vec<usize>>);
    let m1 = issue_operation(&mut a, Operation::new(5, ()), 1).unwrap();
    assert_eq!(m1.vertex.id, VertexId::new(1, 1));
    assert_eq!(m1.vertex.distance, 1);
    assert_eq!(m1.vertex.label.op.id, 5);
    assert_eq!(m1.causal_context, vec![]);
    let m2 = issue_operation(&mut a, Operation::new(6, ()), 1).unwrap();
    assert_eq!(m2.vertex.id, VertexId::new(2, 1));
    assert_eq!(m2.vertex.distance, 2);
    assert_eq!(m2.causal_context, vec![VertexId::new(1, 1)]);

    let refuse = |_s: &Vec<usize>, _op: &Operation<()>| false;
    let mut b = CRDT::new(vec![], log_mutate, basic_exploration::<()>, refuse);
    assert!(issue_operation(&mut b, Operation::new(5, ()), 2).is_err());
    assert_eq!(b.dag.get_all_ids(), vec![VertexId::new(0, 0)]);
}

#[test]
fn messages_out_of_order_are_kept_then_delivered() {
    let mut a = CRDT::new(vec![], log_mutate, basic_exploration::<()>, total::<(), Vec<usize>>);
    let m1 = issue_operation(&mut a, Operation::new(1, ()), 1).unwrap();
    let m2 = issue_operation(&mut a, Operation::new(2, ()), 1).unwrap();
    let m3 = issue_operation(&mut a, Operation::new(3, ()), 1).unwrap();

    let mut b = CRDT::new(vec![], log_mutate, basic_exploration::<()>, total::<(), Vec<usize>>);
    let mut pending = PendingMessages::new();
    assert!(!pending.receive(&mut b, m3.clone()));
    assert!(!pending.receive(&mut b, m2.clone()));
    assert_eq!(pending.len(), 2);
    assert!(!pending.retry_next(&mut b));
    assert!(pending.receive(&mut b, m1.clone()));
    let mut delivered = 0;
    while pending.retry_next(&mut b) {
        delivered += 1;
    }
    assert_eq!(delivered, 2);
    assert_eq!(pending.len(), 0);
    assert_eq!(b.read(), a.read());
    assert_eq!(b.read(), vec![1, 2, 3]);
    assert_eq!(b.dag.get_all_ids(), vec![VertexId::new(0, 0), VertexId::new(1, 1), VertexId::new(2, 1), VertexId::new(3, 1)]);
}

#[test]
fn commands_parameter_context() {
    let mut p = CommandsParameter::default();
    let (_, hash, process) = p.get_initial_context();
    assert_eq!(hash, 0);
    assert_eq!(process, 0);
    p.set_initial_context(42, 7, 3);
    assert_eq!(p.get_initial_context(), (42, 7, 3));
    let q = p.clone();
    assert!(p == q);
}

#[test]
fn retries_end_with_only_undeliverable_messages_kept() {
    let mut a = CRDT::new(vec![], log_mutate, basic_exploration::<()>, total::<(), Vec<usize>>);
    let m1 = issue_operation(&mut a, Operation::new(1, ()), 1).unwrap();
    let m2 = issue_operation(&mut a, Operation::new(2, ()), 1).unwrap();
    let orphan = CRDTOperationMessage::new(
        Vertex::new(VertexId::new(5, 9), VertexLabel::new(9, (), 9)),
        vec![VertexId::new(4, 9)],
    );

    let mut b = CRDT::new(vec![], log_mutate, basic_exploration::<()>, total::<(), Vec<usize>>);
    let mut pending = PendingMessages::new();
    assert!(!pending.receive(&mut b, orphan));
    assert!(!pending.receive(&mut b, m2));
    assert!(pending.receive(&mut b, m1));
    assert!(pending.retry_next(&mut b));
    assert!(!pending.retry_next(&mut b));
    assert_eq!(pending.len(), 1);
    assert_eq!(b.read(), vec![1, 2]);
}

#[test]
fn commands_are_appended_and_ordered_by_operation_then_process() {
    let mut p = CommandsParameter::default();
    p.set_initial_context(5, 6, 7);
    let a = Operation::new(1, p);
    let b = Operation::new(2, p);
    let state = mutate_commands(&mutate_commands(&vec![], &a), &b);
    assert_eq!(state.iter().map(|o| o.id).collect::<Vec<usize>>(), vec![1, 2]);
    assert_eq!(state[1].params.get_initial_context(), (5, 6, 7));
    let v1 = Vertex::new(VertexId::new(1, 1), VertexLabel::new(1, p, 1));
    let v2 = Vertex::new(VertexId::new(1, 2), VertexLabel::new(1, p, 2));
    let v3 = Vertex::new(VertexId::new(2, 1), VertexLabel::new(0, p, 1));
    assert_eq!(commands_order(&v1, &v2), Ordering::Less);
    assert_eq!(commands_order(&v2, &v1), Ordering::Greater);
    assert_eq!(commands_order(&v3, &v1), Ordering::Less);
    assert_eq!(commands_order(&v1, &v1), Ordering::Equal);
}
