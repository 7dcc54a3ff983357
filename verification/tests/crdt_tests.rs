use std::cmp::Ordering;

use crdt::crdt::legal_functions::{mutate_if_legal, total};
use crdt::crdt::reconciliation_functions::{
    basic_exploration, crdt_exploration, crdt_reconciliation, fair_exploration_no_n, stable_exploration, fair_reconciliation, fair_reconciliation_no_n,
    handling_conflict, level_exploration, stable_reconciliation,
};
use crdt::crdt::{apply_order, Operation, OperationParameter, VertexLabel, CRDT};
use crdt::dag::{Dag, Vertex, VertexId};

fn add_remove_order(v1: &Vertex<VertexLabel<()>>, v2: &Vertex<VertexLabel<()>>) -> Ordering {
    match (v1.label.op.id, v2.label.op.id) {
        (0, 1) => Ordering::Less,
        (1, 0) => Ordering::Greater,
        _ => Ordering::Equal,
    }
}

fn mutate_debug(state: &Vec<usize>, op: &Operation<()>) -> Vec<usize> {
    let mut state = state.clone();
    state.push(op.id);
    state
}

fn concurrent_set_dag() -> Dag<VertexLabel<()>> {
    let mut dag = Dag::new(VertexLabel::<()>::new(0, (), 0));
    dag.add_vertex(vec![], Vertex::new(VertexId::new(1, 0), VertexLabel::new(0, (), 0)));
    dag.add_vertex(vec![VertexId::new(1, 0)], Vertex::new(VertexId::new(2, 0), VertexLabel::new(1, (), 0)));
    dag.add_vertex(vec![VertexId::new(1, 0)], Vertex::new(VertexId::new(3, 0), VertexLabel::new(0, (), 0)));
    dag.add_vertex(vec![VertexId::new(2, 0), VertexId::new(3, 0)], Vertex::new(VertexId::new(4, 0), VertexLabel::new(0, (), 0)));
    dag.add_vertex(vec![VertexId::new(2, 0), VertexId::new(3, 0)], Vertex::new(VertexId::new(5, 0), VertexLabel::new(1, (), 0)));
    dag.add_vertex(vec![VertexId::new(2, 0), VertexId::new(3, 0)], Vertex::new(VertexId::new(6, 0), VertexLabel::new(0, (), 0)));
    dag.add_vertex(vec![VertexId::new(2, 0), VertexId::new(3, 0)], Vertex::new(VertexId::new(7, 0), VertexLabel::new(1, (), 0)));
    dag
}

fn fair_concurrent_set_dag() -> Dag<VertexLabel<()>> {
    let mut dag = Dag::new(VertexLabel::<()>::new(0, (), 0));
    dag.add_vertex(vec![], Vertex::new(VertexId::new(1, 0), VertexLabel::new(0, (), 1)));
    dag.add_vertex(vec![VertexId::new(1, 0)], Vertex::new(VertexId::new(2, 0), VertexLabel::new(1, (), 2)));
    dag.add_vertex(vec![VertexId::new(1, 0)], Vertex::new(VertexId::new(3, 0), VertexLabel::new(0, (), 1)));
    dag.add_vertex(vec![VertexId::new(2, 0), VertexId::new(3, 0)], Vertex::new(VertexId::new(4, 0), VertexLabel::new(1, (), 2)));
    dag.add_vertex(vec![VertexId::new(2, 0), VertexId::new(3, 0)], Vertex::new(VertexId::new(5, 0), VertexLabel::new(0, (), 1)));
    dag.add_vertex(vec![VertexId::new(4, 0), VertexId::new(5, 0)], Vertex::new(VertexId::new(6, 0), VertexLabel::new(1, (), 2)));
    dag.add_vertex(vec![VertexId::new(4, 0), VertexId::new(5, 0)], Vertex::new(VertexId::new(7, 0), VertexLabel::new(0, (), 1)));
    dag.add_vertex(vec![VertexId::new(4, 0), VertexId::new(5, 0)], Vertex::new(VertexId::new(8, 0), VertexLabel::new(0, (), 3)));
    dag.add_vertex(vec![VertexId::new(6, 0), VertexId::new(7, 0), VertexId::new(8, 0)], Vertex::new(VertexId::new(9, 0), VertexLabel::new(0, (), 2)));
    dag.add_vertex(vec![VertexId::new(6, 0), VertexId::new(7, 0), VertexId::new(8, 0)], Vertex::new(VertexId::new(10, 0), VertexLabel::new(0, (), 1)));
    dag.add_vertex(vec![VertexId::new(6, 0), VertexId::new(7, 0), VertexId::new(8, 0)], Vertex::new(VertexId::new(11, 0), VertexLabel::new(1, (), 3)));
    dag.add_vertex(vec![VertexId::new(9, 0), VertexId::new(10, 0), VertexId::new(11, 0)], Vertex::new(VertexId::new(12, 0), VertexLabel::new(0, (), 2)));
    dag.add_vertex(vec![VertexId::new(9, 0), VertexId::new(10, 0), VertexId::new(11, 0)], Vertex::new(VertexId::new(13, 0), VertexLabel::new(1, (), 1)));
    dag.add_vertex(vec![VertexId::new(9, 0), VertexId::new(10, 0), VertexId::new(11, 0)], Vertex::new(VertexId::new(14, 0), VertexLabel::new(0, (), 3)));
    dag.add_vertex(vec![VertexId::new(12, 0), VertexId::new(13, 0), VertexId::new(14, 0)], Vertex::new(VertexId::new(15, 0), VertexLabel::new(1, (), 2)));
    dag.add_vertex(vec![VertexId::new(12, 0), VertexId::new(13, 0), VertexId::new(14, 0)], Vertex::new(VertexId::new(16, 0), VertexLabel::new(0, (), 1)));
    dag.add_vertex(vec![VertexId::new(12, 0), VertexId::new(13, 0), VertexId::new(14, 0)], Vertex::new(VertexId::new(17, 0), VertexLabel::new(0, (), 3)));
    dag
}

#[test]
fn concurrent_set() {
    let dag = concurrent_set_dag();
    let seq = stable_reconciliation(&dag, &vec![], mutate_debug, add_remove_order);
    assert_eq!(seq, vec![0, 1, 0, 1, 1, 0, 0]);
}

#[test]
fn concurrent_bounded_set() {
    fn leg(state: &Vec<usize>, _op: &Operation<()>) -> bool {
        state.len() < 4
    }
    let mutate_bounded = |state: &Vec<usize>, op: &Operation<()>| mutate_if_legal(state, op, &mutate_debug, &leg);
    let dag = concurrent_set_dag();
    let seq = stable_reconciliation(&dag, &vec![], mutate_bounded, add_remove_order);
    assert_eq!(seq, vec![0, 1, 0, 1]);
}

#[test]
fn fair_set() {
    let onlyconflict = vec![vec![true, true], vec![true, true]];
    let dag = fair_concurrent_set_dag();
    let order = fair_reconciliation(&onlyconflict, &dag);
    let seq = apply_order(&order, &vec![], &mutate_debug);
    assert_eq!(seq, vec![1, 0, 1, 1, 1, 1]);
}

#[test]
fn fair_bounded_set() {
    let onlyconflict = vec![vec![true, true], vec![true, true]];
    let dag = fair_concurrent_set_dag();
    fn mutate_bounded(state: &Vec<usize>, op: &Operation<()>) -> Vec<usize> {
        let mut state = state.clone();
        if state.len() >= 3 {
            return state;
        }
        state.push(op.id);
        state
    }
    let order = fair_reconciliation(&onlyconflict, &dag);
    let seq = apply_order(&order, &vec![], &mutate_bounded);
    assert_eq!(seq, vec![1, 0, 1]);
}

#[test]
fn basic_counter() {
    let mutate = |x: &i32, op: &Operation<()>| if op.id == 0 { *x + 1 } else { *x };
    let mut counter = CRDT::new(0, mutate, basic_exploration::<()>, total::<(), i32>);

    assert!(counter.append(Operation::<()>::new(0, ()), 0).is_ok());
    assert!(counter.append(Operation::<()>::new(0, ()), 0).is_ok());
    assert!(counter.append(Operation::<()>::new(0, ()), 0).is_ok());

    let result = counter.read();
    let seq = basic_exploration(&counter.dag).into_iter().map(|x| x.op.id).collect::<Vec<usize>>();
    assert_eq!(result, 3);
    assert_eq!(seq, vec![0, 0, 0, 0]);
}

#[test]
fn basic_set() {
    let mutate = |x: &Vec<i32>, op: &Operation<()>| {
        let mut x = x.clone();
        if op.id == 0 {
            x.push(4);
        } else {
            x.pop();
        }
        x
    };

    let mut set = CRDT::new(vec![1, 2, 3], mutate, basic_exploration::<()>, total::<(), Vec<i32>>);
    assert!(set.append(Operation::new(1, ()), 0).is_ok());
    assert!(set.append(Operation::new(1, ()), 0).is_ok());
    assert!(set.append(Operation::new(0, ()), 0).is_ok());

    let result = set.read();
    let seq = basic_exploration(&set.dag).into_iter().map(|x| x.op.id).collect::<Vec<usize>>();
    assert_eq!(result, vec![1, 4]);
    assert_eq!(seq, vec![0, 1, 1, 0]);
}

#[derive(Clone, PartialEq, Eq)]
enum ParametersEnum {
    Add(i32),
    Remove(usize),
}

impl Default for ParametersEnum {
    fn default() -> Self {
        ParametersEnum::Add(0)
    }
}

impl OperationParameter for ParametersEnum {}

#[test]
fn basic_set_parameters() {
    let mutate = |x: &Vec<i32>, op: &Operation<ParametersEnum>| {
        let mut x = x.clone();
        if op.id == 0 {
            let to_add = match op.params {
                ParametersEnum::Add(v) => v,
                ParametersEnum::Remove(_) => 0,
            };
            x.push(to_add);
        } else {
            let nb_to_remove = match op.params {
                ParametersEnum::Add(_) => 0,
                ParametersEnum::Remove(v) => v,
            };
            for _ in 0..nb_to_remove {
                x.pop();
            }
        }
        x
    };

    let mut set = CRDT::new(vec![], mutate, basic_exploration::<ParametersEnum>, total::<ParametersEnum, Vec<i32>>);
    assert!(set.append(Operation::new(0, ParametersEnum::Add(3)), 0).is_ok());
    assert!(set.append(Operation::new(0, ParametersEnum::Add(4)), 0).is_ok());
    assert!(set.append(Operation::new(0, ParametersEnum::Add(5)), 0).is_ok());
    assert!(set.append(Operation::new(1, ParametersEnum::Remove(2)), 0).is_ok());

    let res = set.read();
    let seq = basic_exploration(&set.dag).into_iter().map(|x| x.op.id).collect::<Vec<usize>>();
    assert_eq!(seq, vec![0, 0, 0, 0, 1]);
    assert_eq!(res, vec![3]);
}

#[derive(Clone, Debug)]
struct Element {
    counter1: i32,
    counter2: String,
}

impl Element {
    fn new() -> Element {
        Element { counter1: 0, counter2: String::from("") }
    }
}

#[derive(Clone, PartialEq, Eq)]
enum ParametersElement {
    Add(i32),
    Concat(String),
}

impl Default for ParametersElement {
    fn default() -> Self {
        ParametersElement::Add(0)
    }
}

impl OperationParameter for ParametersElement {}

#[test]
fn basic_different_parameters_types() {
    let mutate = |x: &Element, op: &Operation<ParametersElement>| {
        let mut x = x.clone();
        if op.id == 0 {
            match &op.params {
                ParametersElement::Add(v) => {
                    x.counter1 += v;
                }
                ParametersElement::Concat(_) => {}
            };
        } else {
            match &op.params {
                ParametersElement::Add(_) => {}
                ParametersElement::Concat(s) => {
                    x.counter2 = x.counter2 + s;
                }
            };
        }
        x
    };

    let mut on_element = CRDT::new(Element::new(), mutate, basic_exploration::<ParametersElement>, total::<ParametersElement, Element>);
    assert!(on_element.append(Operation::new(0, ParametersElement::Add(3)), 0).is_ok());
    assert!(on_element.append(Operation::new(0, ParametersElement::Add(2)), 0).is_ok());
    assert!(on_element.append(Operation::new(1, ParametersElement::Concat(String::from("hello"))), 0).is_ok());
    assert!(on_element.append(Operation::new(1, ParametersElement::Concat(String::from(" world"))), 0).is_ok());

    let result = on_element.read();
    assert_eq!(result.counter1, 5);
    assert_eq!(result.counter2, String::from("hello world"));
}

#[test]
fn append_refused_leaves_replica_unchanged() {
    let mutate = |x: &Vec<usize>, op: &Operation<()>| {
        let mut x = x.clone();
        x.push(op.id);
        x
    };
    let bounded = |x: &Vec<usize>, _op: &Operation<()>| x.len() < 2;
    let mut set = CRDT::new(vec![], mutate, basic_exploration::<()>, bounded);
    assert_eq!(set.append(Operation::new(7, ()), 3).unwrap(), vec![VertexId::new(1, 3)]);
    assert_eq!(set.append(Operation::new(8, ()), 3).unwrap(), vec![VertexId::new(1, 3), VertexId::new(2, 3)]);
    let err = set.append(Operation::new(9, ()), 3);
    assert!(err.is_err());
    assert_eq!(err.unwrap_err().to_string(), "illegal operation");
    assert_eq!(set.dag.get_all_ids(), vec![VertexId::new(0, 0), VertexId::new(1, 3), VertexId::new(2, 3)]);
    assert_eq!(set.read(), vec![7, 8]);
}

#[test]
fn append_makes_the_new_vertex_the_only_head() {
    let mutate = |x: &u32, _op: &Operation<()>| *x + 1;
    let mut c = CRDT::new(0u32, mutate, basic_exploration::<()>, total::<(), u32>);
    let ctx = c.append(Operation::new(0, ()), 1).unwrap();
    assert_eq!(ctx, vec![VertexId::new(1, 1)]);
    assert_eq!(c.dag.get_heads(), vec![VertexId::new(1, 1)]);
    assert!(c.dag.get_vertex(&VertexId::new(4, 2)).is_none());
    assert!(c.append_with_causal_context(Vertex::new(VertexId::new(4, 2), VertexLabel::new(0, (), 2)), vec![VertexId::new(1, 1)]));
    assert_eq!(c.dag.get_heads(), vec![VertexId::new(4, 2)]);
    let ctx = c.append(Operation::new(0, ()), 1).unwrap();
    assert_eq!(ctx, vec![VertexId::new(4, 2), VertexId::new(2, 1)]);
    assert_eq!(c.dag.get_heads(), vec![VertexId::new(2, 1)]);
    assert_eq!(c.read(), 3);
}

#[test]
fn append_with_unknown_context_is_refused() {
    let mutate = |x: &u32, _op: &Operation<()>| *x + 1;
    let mut c = CRDT::new(0u32, mutate, basic_exploration::<()>, total::<(), u32>);
    let ok = c.append_with_causal_context(Vertex::new(VertexId::new(1, 5), VertexLabel::new(0, (), 5)), vec![VertexId::new(9, 9)]);
    assert!(!ok);
    assert_eq!(c.dag.get_all_ids(), vec![VertexId::new(0, 0)]);
    assert_eq!(c.read(), 0);
}

#[test]
fn replicas_with_the_same_dag_read_the_same_state() {
    let mutate = |x: &Vec<usize>, op: &Operation<()>| {
        let mut x = x.clone();
        x.push(op.id);
        x
    };
    let mut a = CRDT::new(vec![], mutate, basic_exploration::<()>, total::<(), Vec<usize>>);
    let mut b = CRDT::new(vec![], mutate, basic_exploration::<()>, total::<(), Vec<usize>>);
    for k in 0..4 {
        let ctx_a = a.append(Operation::new(k, ()), 1).unwrap();
        let ctx_b = b.append(Operation::new(k, ()), 1).unwrap();
        assert_eq!(ctx_a, ctx_b);
    }
    assert_eq!(a.read(), b.read());
    assert_eq!(a.read(), vec![0, 1, 2, 3]);
}

#[test]
fn total_accepts_everything() {
    assert!(total(&5u8, &Operation::new(3, ())));
}

#[test]
fn mutate_if_legal_keeps_the_state_when_refused() {
    let leg = |s: &Vec<usize>, _op: &Operation<()>| s.len() < 1;
    let s = mutate_if_legal(&vec![], &Operation::new(4, ()), &mutate_debug, &leg);
    assert_eq!(s, vec![4]);
    let s2 = mutate_if_legal(&s, &Operation::new(5, ()), &mutate_debug, &leg);
    assert_eq!(s2, vec![4]);
}

#[test]
fn basic_exploration_orders_by_distance() {
    let dag = concurrent_set_dag();
    let order = basic_exploration(&dag);
    let ops = order.iter().map(|l| l.op.id).collect::<Vec<usize>>();
    assert_eq!(ops, vec![0, 0, 1, 0, 0, 1, 0, 1]);
}

#[test]
fn handling_conflict_resolves_levels() {
    let add_remove_order = vec![vec![None, Some(1)], vec![Some(1), None]];
    let dag = concurrent_set_dag();
    let order = handling_conflict(&add_remove_order, &dag);
    let ops = order.iter().map(|l| l.op.id).collect::<Vec<usize>>();
    assert_eq!(ops, vec![0, 1, 1, 1]);
}

#[test]
fn fair_reconciliation_orders_levels_by_scores() {
    let onlyconflict = vec![vec![true, true], vec![true, true]];
    let dag = fair_concurrent_set_dag();
    let order = fair_reconciliation(&onlyconflict, &dag);
    let ops = order.iter().map(|l| (l.op.id, l.process_id)).collect::<Vec<(usize, u32)>>();
    assert_eq!(ops, vec![(0, 1), (1, 2), (0, 1), (1, 2), (1, 3), (1, 1), (1, 2)]);
}

#[test]
fn fair_reconciliation_no_n_walks_by_rounds() {
    // root <- a(p1) <- c(p1); root <- b(p2) <- d(p2)
    let mut dag = Dag::new(VertexLabel::<()>::new(0, (), 0));
    assert!(dag.add_vertex(vec![], Vertex::new(VertexId::new(1, 1), VertexLabel::new(1, (), 1))));
    assert!(dag.add_vertex(vec![], Vertex::new(VertexId::new(1, 2), VertexLabel::new(2, (), 2))));
    assert!(dag.add_vertex(vec![VertexId::new(1, 1), VertexId::new(1, 2)], Vertex::new(VertexId::new(2, 1), VertexLabel::new(3, (), 1))));
    assert!(dag.add_vertex(vec![VertexId::new(1, 1), VertexId::new(1, 2)], Vertex::new(VertexId::new(2, 2), VertexLabel::new(4, (), 2))));
    let seq = fair_reconciliation_no_n(&dag, &vec![], mutate_debug);
    assert_eq!(seq, vec![1, 2, 4, 3]);
    let labels = fair_exploration_no_n(&dag);
    let ids = labels.iter().map(|l| l.op.id).collect::<Vec<usize>>();
    assert_eq!(ids, vec![0, 1, 2, 4, 3]);
}

#[test]
fn level_exploration_walks_levels_backwards() {
    let dag = concurrent_set_dag();
    let ops = level_exploration(&dag).iter().map(|l| l.op.id).collect::<Vec<usize>>();
    assert_eq!(ops, vec![0, 0, 0, 1, 1, 0, 1, 0]);
}

#[test]
fn level_exploration_repeats_a_vertex_met_on_two_levels() {
    let mut dag = Dag::new(VertexLabel::<()>::new(0, (), 0));
    let a = VertexId::new(1, 1);
    let b = VertexId::new(2, 1);
    assert!(dag.add_vertex(vec![], Vertex::new(a, VertexLabel::new(1, (), 1))));
    assert!(dag.add_vertex(vec![a, VertexId::new(0, 0)], Vertex::new(b, VertexLabel::new(2, (), 1))));
    let ops = level_exploration(&dag).iter().map(|l| l.op.id).collect::<Vec<usize>>();
    assert_eq!(ops, vec![0, 2, 1, 2]);
}

#[test]
fn stable_and_operation_orders_as_label_sequences() {
    let dag = concurrent_set_dag();
    let stable = stable_exploration(&dag, add_remove_order).iter().map(|l| l.op.id).collect::<Vec<usize>>();
    assert_eq!(stable, vec![0, 0, 1, 0, 1, 1, 0, 0]);
    let by_op = crdt_exploration(&dag, add_remove_order).iter().map(|l| l.op.id).collect::<Vec<usize>>();
    assert_eq!(by_op, vec![0, 1, 1, 1, 0, 0, 0, 0, 0]);
    let applied = crdt_reconciliation(&dag, &vec![], mutate_debug, add_remove_order);
    assert_eq!(applied, vec![1, 1, 1, 0, 0, 0, 0, 0]);
}

#[test]
fn stable_reconciliation_converges_whatever_the_arrival_order() {
    fn by_op_then_process(v1: &Vertex<VertexLabel<()>>, v2: &Vertex<VertexLabel<()>>) -> Ordering {
        match v1.label.op.id.cmp(&v2.label.op.id) {
            Ordering::Equal => v1.id.process_id.cmp(&v2.id.process_id),
            ord => ord,
        }
    }
    let a = Vertex::new(VertexId::new(1, 1), VertexLabel::new(5, (), 1));
    let b = Vertex::new(VertexId::new(1, 2), VertexLabel::new(3, (), 2));
    let c = Vertex::new(VertexId::new(2, 1), VertexLabel::new(7, (), 1));
    let (ida, idb) = (a.id, b.id);
    let mut d1 = Dag::new(VertexLabel::<()>::new(0, (), 0));
    assert!(d1.add_vertex(vec![], a.clone()));
    assert!(d1.add_vertex(vec![], b.clone()));
    assert!(d1.add_vertex(vec![ida, idb], c.clone()));
    let mut d2 = Dag::new(VertexLabel::<()>::new(0, (), 0));
    assert!(d2.add_vertex(vec![], b));
    assert!(d2.add_vertex(vec![], a));
    assert!(d2.add_vertex(vec![idb, ida], c));
    let s1 = stable_reconciliation(&d1, &vec![], mutate_debug, by_op_then_process);
    let s2 = stable_reconciliation(&d2, &vec![], mutate_debug, by_op_then_process);
    assert_eq!(s1, s2);
    assert_eq!(s1, vec![5, 3, 7]);
    // the distance order keeps the arrival order of concurrent vertices
    let b1 = basic_exploration(&d1).iter().map(|l| l.op.id).collect::<Vec<usize>>();
    let b2 = basic_exploration(&d2).iter().map(|l| l.op.id).collect::<Vec<usize>>();
    assert_eq!(b1, vec![0, 5, 3, 7]);
    assert_eq!(b2, vec![0, 3, 5, 7]);
}

#[test]
fn fair_reconciliation_converges_whatever_the_arrival_order() {
    let a = Vertex::new(VertexId::new(1, 1), VertexLabel::new(1, (), 1));
    let b = Vertex::new(VertexId::new(1, 2), VertexLabel::new(2, (), 2));
    let c = Vertex::new(VertexId::new(2, 2), VertexLabel::new(3, (), 2));
    let (ida, idb) = (a.id, b.id);
    let mut d1 = Dag::new(VertexLabel::<()>::new(0, (), 0));
    assert!(d1.add_vertex(vec![], a.clone()));
    assert!(d1.add_vertex(vec![], b.clone()));
    assert!(d1.add_vertex(vec![ida, idb], c.clone()));
    let mut d2 = Dag::new(VertexLabel::<()>::new(0, (), 0));
    assert!(d2.add_vertex(vec![], b));
    assert!(d2.add_vertex(vec![], a));
    assert!(d2.add_vertex(vec![ida, idb], c));
    let s1 = fair_reconciliation_no_n(&d1, &vec![], mutate_debug);
    let s2 = fair_reconciliation_no_n(&d2, &vec![], mutate_debug);
    assert_eq!(s1, s2);
    assert_eq!(s1, vec![1, 2, 3]);
    let l1 = fair_exploration_no_n(&d1).iter().map(|l| l.op.id).collect::<Vec<usize>>();
    let l2 = fair_exploration_no_n(&d2).iter().map(|l| l.op.id).collect::<Vec<usize>>();
    assert_eq!(l1, l2);
    assert_eq!(l1, vec![0, 1, 2, 3]);
}

#[test]
fn crdt_reconciliation_converges_whatever_the_arrival_order() {
    fn by_op(v1: &Vertex<VertexLabel<()>>, v2: &Vertex<VertexLabel<()>>) -> Ordering {
        v1.label.op.id.cmp(&v2.label.op.id)
    }
    let a = Vertex::new(VertexId::new(1, 1), VertexLabel::new(5, (), 1));
    let b = Vertex::new(VertexId::new(1, 2), VertexLabel::new(3, (), 2));
    let mut d1 = Dag::new(VertexLabel::<()>::new(0, (), 0));
    assert!(d1.add_vertex(vec![], a.clone()));
    assert!(d1.add_vertex(vec![], b.clone()));
    let mut d2 = Dag::new(VertexLabel::<()>::new(0, (), 0));
    assert!(d2.add_vertex(vec![], b));
    assert!(d2.add_vertex(vec![], a));
    let s1 = crdt_reconciliation(&d1, &vec![], mutate_debug, by_op);
    let s2 = crdt_reconciliation(&d2, &vec![], mutate_debug, by_op);
    assert_eq!(s1, s2);
    assert_eq!(s1, vec![5, 3, 0]);
    let o1 = crdt_exploration(&d1, by_op).iter().map(|l| l.op.id).collect::<Vec<usize>>();
    let o2 = crdt_exploration(&d2, by_op).iter().map(|l| l.op.id).collect::<Vec<usize>>();
    assert_eq!(o1, o2);
    assert_eq!(o1, vec![0, 5, 3, 0]);
}

#[test]
fn basic_exploration_converges_with_commuting_operations() {
    fn add_op(state: &usize, op: &Operation<()>) -> usize {
        state + op.id
    }
    let a = Vertex::new(VertexId::new(1, 1), VertexLabel::new(5, (), 1));
    let b = Vertex::new(VertexId::new(1, 2), VertexLabel::new(3, (), 2));
    let mut d1 = Dag::new(VertexLabel::<()>::new(0, (), 0));
    assert!(d1.add_vertex(vec![], a.clone()));
    assert!(d1.add_vertex(vec![], b.clone()));
    let mut d2 = Dag::new(VertexLabel::<()>::new(0, (), 0));
    assert!(d2.add_vertex(vec![], b));
    assert!(d2.add_vertex(vec![], a));
    let o1 = basic_exploration(&d1);
    let o2 = basic_exploration(&d2);
    let s1 = apply_order(&o1, &10, &add_op);
    let s2 = apply_order(&o2, &10, &add_op);
    assert_eq!(s1, s2);
    assert_eq!(s1, 18);
}
