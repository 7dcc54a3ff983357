use vstd::prelude::*;
use crate::dag::{Dag, VertexId, root_id, sort_ids};
use crate::sorting::{TotalKey, key_leq, DistancePosition};
use crate::crdt::fair_walk::{
    fair_walk, fair_order, round_past, alive_after, next_leader, unexplored, bump, starving,
    lemma_next_leader,
};
use crate::crdt::reconciliation_functions::{lemma_filter_same_multiset, fair_ops};
use crate::crdt::{Operation, OperationParameter, VertexLabel, CRDT, applied, mutation_chain, deterministic_mutate, lemma_applied_unique, ops_of, after_first};

verus! {

/// `d1` and `d2` hold the same identifiers, each as often, and list the same parents
/// for every identifier: the same graph, whatever order its vertices came in.
pub open spec fn same_graph<T>(d1: Dag<T>, d2: Dag<T>) -> bool {
    &&& d1.ids().to_multiset() == d2.ids().to_multiset()
    &&& forall|x: VertexId| #[trigger] d1.parents_of(x) == d2.parents_of(x)
}

/// Two sequences with the same elements, each as often, sort to the same sequence.
pub proof fn lemma_sort_ids_same(a: Seq<VertexId>, b: Seq<VertexId>)
    requires
        a.to_multiset() == b.to_multiset(),
    ensures
        sort_ids(a) == sort_ids(b),
{
    VertexId::lemma_key_total();
    let leq = key_leq::<VertexId>();
    assert(leq == (|x: VertexId, y: VertexId| VertexId::key_le(x, y)));
    a.lemma_sort_by_ensures(leq);
    b.lemma_sort_by_ensures(leq);
    vstd::seq_lib::lemma_sorted_unique(sort_ids(a), sort_ids(b), leq);
}

proof fn lemma_contains_id<T>(d: Dag<T>, x: VertexId)
    ensures
        d.contains_id(x) <==> d.ids().contains(x),
{
    if d.contains_id(x) {
        let i = choose|i: int| 0 <= i < d.vertex_seq().len() && #[trigger] d.vertex_seq()[i].id == x;
        assert(d.ids()[i] == x);
    }
    if d.ids().contains(x) {
        let i = choose|i: int| 0 <= i < d.ids().len() && d.ids()[i] == x;
        assert(d.vertex_seq()[i].id == x);
    }
}

proof fn lemma_has_child<T>(d: Dag<T>, x: VertexId)
    ensures
        d.has_child(x) <==> d.children(x).len() > 0,
{
    let pred = |w: VertexId| d.has_edge(w, x);
    if d.has_child(x) {
        let i = choose|i: int| 0 <= i < d.vertex_seq().len() && d.has_edge(#[trigger] d.vertex_seq()[i].id, x);
        assert(pred(d.ids()[i]));
        d.ids().lemma_filter_contains(pred, i);
    }
    if d.children(x).len() > 0 {
        let c = d.children(x)[0];
        assert(d.children(x).contains(c));
        d.ids().lemma_filter_contains_rev(pred, c);
        let i = choose|i: int| 0 <= i < d.ids().len() && d.ids()[i] == c;
        assert(d.vertex_seq()[i].id == c);
        assert(d.has_edge(d.vertex_seq()[i].id, x));
    }
}

/// In the same graph, an identifier is there in both or in neither, has a child in
/// both or in neither, and has the same children in identifier order.
pub proof fn lemma_same_graph_parts<T>(d1: Dag<T>, d2: Dag<T>, x: VertexId)
    requires
        same_graph(d1, d2),
    ensures
        d1.contains_id(x) == d2.contains_id(x),
        sort_ids(d1.children(x)) == sort_ids(d2.children(x)),
        d1.has_child(x) == d2.has_child(x),
{
    broadcast use vstd::seq_lib::group_to_multiset_ensures;
    lemma_contains_id(d1, x);
    lemma_contains_id(d2, x);
    assert(d1.ids().to_multiset().count(x) == d2.ids().to_multiset().count(x));
    let p1 = |w: VertexId| d1.has_edge(w, x);
    let p2 = |w: VertexId| d2.has_edge(w, x);
    assert(p1 =~= p2) by {
        assert forall|w: VertexId| #[trigger] p1(w) == p2(w) by {
            assert(d1.parents_of(w) == d2.parents_of(w));
        }
    }
    lemma_filter_same_multiset(d1.ids(), d2.ids(), p1);
    assert(d1.children(x) == d1.ids().filter(p1));
    assert(d2.children(x) == d2.ids().filter(p1));
    lemma_sort_ids_same(d1.children(x), d2.children(x));
    lemma_has_child(d1, x);
    lemma_has_child(d2, x);
    vstd::seq_lib::to_multiset_len(d1.children(x));
    vstd::seq_lib::to_multiset_len(d2.children(x));
}

/// In the same graph, the heads in identifier order are the same.
pub proof fn lemma_same_heads<T>(d1: Dag<T>, d2: Dag<T>)
    requires
        same_graph(d1, d2),
    ensures
        sort_ids(d1.heads()) == sort_ids(d2.heads()),
{
    let p1 = |x: VertexId| !d1.has_child(x) && x != root_id();
    let p2 = |x: VertexId| !d2.has_child(x) && x != root_id();
    assert(p1 =~= p2) by {
        assert forall|x: VertexId| #[trigger] p1(x) == p2(x) by {
            lemma_same_graph_parts(d1, d2, x);
        }
    }
    lemma_filter_same_multiset(d1.ids(), d2.ids(), p1);
    assert(d1.heads() == d1.ids().filter(p1));
    assert(d2.heads() == d2.ids().filter(p1));
    lemma_sort_ids_same(d1.heads(), d2.heads());
}

/// In the same graph, the walk through parents finds the same.
pub proof fn lemma_past_walk_same<T>(d1: Dag<T>, d2: Dag<T>, stack: Seq<VertexId>, seen: Set<VertexId>, past: Seq<VertexId>)
    requires
        d1.wf(),
        d2.wf(),
        same_graph(d1, d2),
    ensures
        d1.past_walk(stack, seen, past) == d2.past_walk(stack, seen, past),
    decreases d1.id_set().difference(seen).len(), stack.len(),
{
    if stack.len() > 0 {
        let head = stack.last();
        let rest = stack.drop_last();
        if seen.contains(head) {
            lemma_past_walk_same(d1, d2, rest, seen, past);
        } else {
            let seen2 = seen.insert(head);
            d1.lemma_walk_measure(seen, head);
            assert(d1.parents_of(head) == d2.parents_of(head));
            lemma_past_walk_same(
                d1,
                d2,
                rest + sort_ids(d1.parents_of(head)).filter(|p: VertexId| !seen2.contains(p)),
                seen2,
                past.push(head),
            );
        }
    }
}

/// In the same graph, the walk through children records the same processes.
pub proof fn lemma_processes_walk_same<T>(
    d1: Dag<T>,
    d2: Dag<T>,
    queue: Seq<VertexId>,
    seen: Set<VertexId>,
    procs: Seq<u32>,
    limit: Option<nat>,
)
    requires
        d1.wf(),
        d2.wf(),
        same_graph(d1, d2),
    ensures
        d1.processes_walk(queue, seen, procs, limit) == d2.processes_walk(queue, seen, procs, limit),
    decreases d1.id_set().difference(seen).len(), queue.len(),
{
    if !(queue.len() == 0 || (limit is Some && procs.len() >= limit->0)) {
        let head = queue[0];
        let rest = queue.drop_first();
        if seen.contains(head) {
            lemma_processes_walk_same(d1, d2, rest, seen, procs, limit);
        } else {
            let seen2 = seen.insert(head);
            d1.lemma_walk_measure(seen, head);
            crate::dag::lemma_sort_ids(d1.children(head));
            sort_ids(d1.children(head)).lemma_filter_len(|c: VertexId| !seen2.contains(c));
            lemma_same_graph_parts(d1, d2, head);
            lemma_processes_walk_same(
                d1,
                d2,
                rest + sort_ids(d1.children(head)).filter(|c: VertexId| !seen2.contains(c)),
                seen2,
                if procs.contains(head.process_id) { procs } else { procs.push(head.process_id) },
                limit,
            );
        }
    }
}

/// In the same graph, the search for the first vertex of some processes finds the same.
pub proof fn lemma_first_walk_same<T>(d1: Dag<T>, d2: Dag<T>, queue: Seq<VertexId>, seen: Set<VertexId>, procs: Seq<u32>)
    requires
        d1.wf(),
        d2.wf(),
        same_graph(d1, d2),
        d1.all_contained(queue),
    ensures
        d1.first_walk(queue, seen, procs) == d2.first_walk(queue, seen, procs),
    decreases d1.id_set().difference(seen).len(), queue.filter(|x: VertexId| seen.contains(x)).len(),
{
    assert(d2.all_contained(queue)) by {
        assert forall|i: int| 0 <= i < queue.len() implies d2.contains_id(#[trigger] queue[i]) by {
            lemma_same_graph_parts(d1, d2, queue[i]);
        }
    }
    if queue.len() > 0 {
        let head = queue[0];
        let seen2 = seen.insert(head);
        if !procs.contains(head.process_id) {
            d1.lemma_first_walk_measure(queue, seen);
            lemma_same_graph_parts(d1, d2, head);
            let next = queue.drop_first() + sort_ids(d1.children(head)).filter(|c: VertexId| !seen2.contains(c));
            lemma_first_walk_same(d1, d2, next, seen2, procs);
            assert(d1.first_walk(queue, seen, procs) == d1.first_walk(next, seen2, procs));
            assert(next == queue.drop_first() + sort_ids(d2.children(head)).filter(|c: VertexId| !seen2.contains(c)));
            d2.lemma_first_walk_measure(queue, seen);
            assert(!procs.contains(queue[0].process_id));
            assert(d2.first_walk(queue, seen, procs) == d2.first_walk(next, seen2, procs));
        }
    }
}

/// In the same graph, the rounds of the fair walk are the same.
pub proof fn lemma_fair_walk_same<T>(
    d1: Dag<T>,
    d2: Dag<T>,
    current: VertexId,
    explored: Set<VertexId>,
    counter: Map<u32, nat>,
    out: Seq<VertexId>,
)
    requires
        d1.wf(),
        d2.wf(),
        d1.acyclic(),
        d2.acyclic(),
        same_graph(d1, d2),
        d1.contains_id(current),
    ensures
        fair_walk(d1, current, explored, counter, out) == fair_walk(d2, current, explored, counter, out),
    decreases d1.vertex_seq().len() - d1.some_rank()(current),
{
    lemma_same_graph_parts(d1, d2, current);
    lemma_past_walk_same(d1, d2, unexplored(d1.parents_of(current), explored), explored, Seq::empty());
    assert(d1.parents_of(current) == d2.parents_of(current));
    assert(round_past(d1, current, explored) == round_past(d2, current, explored));
    lemma_processes_walk_same(d1, d2, sort_ids(d1.children(current)), set![current], Seq::empty(), None);
    assert(alive_after(d1, current) == alive_after(d2, current));
    let past = round_past(d1, current, explored);
    let explored2 = explored.union(past.to_set()).insert(current);
    let out2 = out + past.push(current);
    let counter2 = bump(counter, current.process_id);
    if alive_after(d1, current).len() > 0 {
        lemma_next_leader(d1, current, counter2);
        lemma_next_leader(d2, current, counter2);
        d1.lemma_children_contained(current);
        lemma_first_walk_same(
            d1,
            d2,
            sort_ids(d1.children(current)),
            set![current],
            starving(counter2, alive_after(d1, current)),
        );
        let next = next_leader(d1, current, counter2);
        assert(next == next_leader(d2, current, counter2));
        lemma_fair_walk_same(d1, d2, next, explored2, counter2, out2);
        assert(fair_walk(d1, current, explored, counter, out) == fair_walk(d1, next, explored2, counter2, out2));
        assert(fair_walk(d2, current, explored, counter, out) == fair_walk(d2, next, explored2, counter2, out2));
    }
}

/// In the same graph, the fair walk gives the same order.
pub proof fn lemma_fair_order_same<T>(d1: Dag<T>, d2: Dag<T>)
    requires
        d1.wf(),
        d2.wf(),
        d1.acyclic(),
        d2.acyclic(),
        same_graph(d1, d2),
    ensures
        fair_order(d1) == fair_order(d2),
        d1.all_contained(fair_order(d1)),
{
    lemma_same_graph_parts(d1, d2, root_id());
    let first = sort_ids(d1.children(root_id()));
    let walked = if first.len() == 0 {
        (set![root_id()], Seq::<VertexId>::empty())
    } else {
        fair_walk(d1, first[0], set![root_id()], Map::empty(), Seq::empty())
    };
    if first.len() > 0 {
        d1.lemma_children_contained(root_id());
        assert(d1.contains_id(first[0]));
        lemma_fair_walk_same(d1, d2, first[0], set![root_id()], Map::empty(), Seq::empty());
    }
    lemma_same_heads(d1, d2);
    lemma_past_walk_same(d1, d2, unexplored(sort_ids(d1.heads()), walked.0), walked.0, Seq::empty());
    lemma_fair_order_contained(d1);
}

proof fn lemma_filter_contained<T>(d: Dag<T>, s: Seq<VertexId>, p: spec_fn(VertexId) -> bool)
    requires
        d.all_contained(s),
    ensures
        d.all_contained(s.filter(p)),
{
    assert forall|i: int| 0 <= i < s.filter(p).len() implies d.contains_id(#[trigger] s.filter(p)[i]) by {
        let x = s.filter(p)[i];
        assert(s.filter(p).contains(x));
        s.lemma_filter_contains_rev(p, x);
        let j = choose|j: int| 0 <= j < s.len() && s[j] == x;
        assert(d.contains_id(s[j]));
    }
}

proof fn lemma_reverse_contained<T>(d: Dag<T>, s: Seq<VertexId>)
    requires
        d.all_contained(s),
    ensures
        d.all_contained(s.reverse()),
{
    assert forall|i: int| 0 <= i < s.reverse().len() implies d.contains_id(#[trigger] s.reverse()[i]) by {
        assert(s.reverse()[i] == s[s.len() - 1 - i]);
    }
}

proof fn lemma_concat_contained<T>(d: Dag<T>, a: Seq<VertexId>, b: Seq<VertexId>)
    requires
        d.all_contained(a),
        d.all_contained(b),
    ensures
        d.all_contained(a + b),
{
    assert forall|i: int| 0 <= i < (a + b).len() implies d.contains_id(#[trigger] (a + b)[i]) by {
        if i < a.len() {
            assert((a + b)[i] == a[i]);
        } else {
            assert((a + b)[i] == b[i - a.len()]);
        }
    }
}

/// The rounds of the fair walk apply vertices of the DAG only.
proof fn lemma_fair_walk_contained<T>(
    d: Dag<T>,
    current: VertexId,
    explored: Set<VertexId>,
    counter: Map<u32, nat>,
    out: Seq<VertexId>,
)
    requires
        d.wf(),
        d.acyclic(),
        d.contains_id(current),
        d.all_contained(out),
    ensures
        d.all_contained(fair_walk(d, current, explored, counter, out).1),
    decreases d.vertex_seq().len() - d.some_rank()(current),
{
    let stack = unexplored(d.parents_of(current), explored);
    d.lemma_parents_contained(current);
    lemma_filter_contained(d, d.parents_of(current), |p: VertexId| !explored.contains(p));
    d.lemma_past_walk_contained(stack, explored, Seq::empty());
    let past = round_past(d, current, explored);
    lemma_reverse_contained(d, d.past_walk(stack, explored, Seq::empty()));
    assert(d.all_contained(seq![current]));
    lemma_concat_contained(d, past, seq![current]);
    assert(past.push(current) =~= past + seq![current]);
    lemma_concat_contained(d, out, past.push(current));
    let explored2 = explored.union(past.to_set()).insert(current);
    let out2 = out + past.push(current);
    let counter2 = bump(counter, current.process_id);
    if alive_after(d, current).len() > 0 {
        lemma_next_leader(d, current, counter2);
        lemma_fair_walk_contained(d, next_leader(d, current, counter2), explored2, counter2, out2);
    }
}

/// The fair walk applies vertices of the DAG only.
proof fn lemma_fair_order_contained<T>(d: Dag<T>)
    requires
        d.wf(),
        d.acyclic(),
    ensures
        d.all_contained(fair_order(d)),
{
    let first = sort_ids(d.children(root_id()));
    let walked = if first.len() == 0 {
        (set![root_id()], Seq::<VertexId>::empty())
    } else {
        fair_walk(d, first[0], set![root_id()], Map::empty(), Seq::empty())
    };
    if first.len() > 0 {
        d.lemma_children_contained(root_id());
        assert(d.contains_id(first[0]));
        lemma_fair_walk_contained(d, first[0], set![root_id()], Map::empty(), Seq::empty());
    }
    let sh = sort_ids(d.heads());
    crate::dag::lemma_sort_ids(d.heads());
    assert(d.all_contained(sh)) by {
        assert forall|i: int| 0 <= i < sh.len() implies d.contains_id(#[trigger] sh[i]) by {
            assert(sh.contains(sh[i]));
            assert(d.heads().contains(sh[i]));
            let j = choose|j: int| 0 <= j < d.heads().len() && d.heads()[j] == sh[i];
            d.lemma_heads_contained(j);
        }
    }
    lemma_filter_contained(d, sh, |p: VertexId| !walked.0.contains(p));
    d.lemma_past_walk_contained(unexplored(sh, walked.0), walked.0, Seq::empty());
    lemma_reverse_contained(d, d.past_walk(unexplored(sh, walked.0), walked.0, Seq::empty()));
    lemma_concat_contained(d, walked.1, d.past_walk(unexplored(sh, walked.0), walked.0, Seq::empty()).reverse());
}

/// In the same graph, with each identifier standing for the same vertex, the fair walk
/// gives the same order, the same operations and the same labels, and the roots carry
/// the same label.
pub proof fn lemma_fair_labels_same<P: OperationParameter>(d1: Dag<VertexLabel<P>>, d2: Dag<VertexLabel<P>>)
    requires
        d1.wf(),
        d2.wf(),
        d1.acyclic(),
        d2.acyclic(),
        same_graph(d1, d2),
        forall|x: VertexId| d1.contains_id(x) ==> #[trigger] d1.vertex_of(x) == d2.vertex_of(x),
    ensures
        fair_order(d1) == fair_order(d2),
        fair_ops(d1) == fair_ops(d2),
        forall|k: int| 0 <= k < fair_order(d1).len()
            ==> #[trigger] d1.vertex_of(fair_order(d1)[k]).label == d2.vertex_of(fair_order(d2)[k]).label,
        d1.vertex_seq()[0].label == d2.vertex_seq()[0].label,
{
    lemma_fair_order_same(d1, d2);
    let o = fair_order(d1);
    assert forall|k: int| 0 <= k < o.len() implies #[trigger] d1.vertex_of(o[k]) == d2.vertex_of(o[k]) by {
        assert(d1.contains_id(o[k]));
    }
    assert(fair_ops(d1) =~= fair_ops(d2));
    d1.lemma_root_first();
    d2.lemma_root_first();
    assert(d1.is_first_index(0, root_id()));
    assert(d2.is_first_index(0, root_id()));
    d1.lemma_first_index(0, root_id());
    d2.lemma_first_index(0, root_id());
    assert(d1.contains_id(root_id()));
    assert(d1.vertex_of(root_id()) == d2.vertex_of(root_id()));
}

/// Replicas whose DAGs are the same graph, with each identifier standing for the same
/// vertex, whatever order the vertices arrived in, read the same state through
/// `fair_reconciliation_no_n`, when `mutate` and the cloning of states each give one
/// result.
pub proof fn lemma_fair_converges<P, S, M>(
    d1: Dag<VertexLabel<P>>,
    d2: Dag<VertexLabel<P>>,
    initial_state: S,
    mutate: M,
    s1: S,
    s2: S,
    r1: S,
    r2: S,
)
    where
        P: OperationParameter,
        S: Clone,
        M: Fn(&S, &Operation<P>) -> S,
    requires
        d1.wf(),
        d2.wf(),
        d1.acyclic(),
        d2.acyclic(),
        same_graph(d1, d2),
        forall|x: VertexId| d1.contains_id(x) ==> #[trigger] d1.vertex_of(x) == d2.vertex_of(x),
        deterministic_mutate(mutate),
        forall|a: S, b1: S, b2: S| #[trigger] cloned(a, b1) && #[trigger] cloned(a, b2) ==> b1 == b2,
        cloned(initial_state, s1),
        cloned(initial_state, s2),
        applied(mutate, s1, fair_ops(d1), r1),
        applied(mutate, s2, fair_ops(d2), r2),
    ensures
        r1 == r2,
{
    lemma_fair_labels_same(d1, d2);
    assert(s1 == s2);
    lemma_applied_unique(mutate, s1, fair_ops(d1), r1, r2);
}

/// `mutate` gives a result for state `s` and operation `op`.
pub open spec fn has_result<S, P: OperationParameter, M: Fn(&S, &Operation<P>) -> S>(mutate: M, s: S, op: Operation<P>) -> bool {
    exists|t: S| call_ensures(mutate, (&s, &op), t)
}

/// `mutate` gives a result for every state and operation, and two operations applied
/// one after the other give the same state in either order.
pub open spec fn commuting_mutate<S, P: OperationParameter, M: Fn(&S, &Operation<P>) -> S>(mutate: M) -> bool {
    &&& forall|s: S, op: Operation<P>| #[trigger] has_result(mutate, s, op)
    &&& forall|s: S, a: Operation<P>, b: Operation<P>, sa: S, sab: S, sb: S, sba: S|
        #![trigger call_ensures(mutate, (&s, &a), sa), call_ensures(mutate, (&sa, &b), sab), call_ensures(mutate, (&s, &b), sb), call_ensures(mutate, (&sb, &a), sba)]
        call_ensures(mutate, (&s, &a), sa) && call_ensures(mutate, (&sa, &b), sab) && call_ensures(mutate, (&s, &b), sb)
            && call_ensures(mutate, (&sb, &a), sba) ==> sab == sba
}

/// Applying the operation at position `j` first, and then the others in order, gives
/// what applying them all in order gives.
proof fn lemma_applied_move_front<S, P: OperationParameter, M: Fn(&S, &Operation<P>) -> S>(
    mutate: M,
    s: S,
    ops: Seq<Operation<P>>,
    r: S,
    j: int,
    t: S,
)
    requires
        deterministic_mutate(mutate),
        commuting_mutate(mutate),
        applied(mutate, s, ops, r),
        0 <= j < ops.len(),
        call_ensures(mutate, (&s, &ops[j]), t),
    ensures
        applied(mutate, t, ops.remove(j), r),
    decreases j,
{
    let chain = choose|c: Seq<S>| #[trigger] mutation_chain(mutate, s, ops, c) && c.last() == r;
    let rest = ops.drop_first();
    let tail = chain.drop_first();
    let z: int = 0;
    assert(call_ensures(mutate, (&chain[z], &ops[z]), chain[z + 1]));
    assert(mutation_chain(mutate, chain[1], rest, tail)) by {
        assert forall|i: int| 0 <= i < rest.len() implies call_ensures(mutate, (&tail[i], &rest[i]), #[trigger] tail[i + 1]) by {
            assert(call_ensures(mutate, (&chain[i + 1], &ops[i + 1]), chain[i + 1 + 1]));
        }
    }
    if j == 0 {
        assert(t == chain[1]);
        assert(ops.remove(0) =~= rest);
        assert(tail.last() == r);
    } else {
        let y = ops[0];
        let x = ops[j];
        let sy = chain[1];
        assert(rest[j - 1] == x);
        assert(has_result(mutate, sy, x));
        let t2 = choose|t2: S| call_ensures(mutate, (&sy, &x), t2);
        assert(applied(mutate, sy, rest, r)) by {
            assert(mutation_chain(mutate, sy, rest, tail) && tail.last() == r);
        }
        lemma_applied_move_front(mutate, sy, rest, r, j - 1, t2);
        assert(has_result(mutate, t, y));
        let u = choose|u: S| call_ensures(mutate, (&t, &y), u);
        assert(call_ensures(mutate, (&s, &y), sy));
        assert(t2 == u);
        let rest2 = rest.remove(j - 1);
        let c2 = choose|c: Seq<S>| #[trigger] mutation_chain(mutate, t2, rest2, c) && c.last() == r;
        let ops2 = seq![y] + rest2;
        let c = seq![t] + c2;
        assert forall|i: int| 0 <= i < ops2.len() implies call_ensures(mutate, (&c[i], &ops2[i]), #[trigger] c[i + 1]) by {
            if i == 0 {
                assert(c[0] == t && c[1] == c2[0] && ops2[0] == y);
            } else {
                let k = i - 1;
                assert(call_ensures(mutate, (&c2[k], &rest2[k]), c2[k + 1]));
                assert(c[i] == c2[k] && c[i + 1] == c2[k + 1] && ops2[i] == rest2[k]);
            }
        }
        assert(mutation_chain(mutate, t, ops2, c));
        assert(c.last() == c2.last());
        assert(ops.remove(j) =~= ops2);
    }
}

/// Applying two sequences holding the same operations, each as often, gives the same
/// state when `mutate` gives one result and its operations commute.
pub proof fn lemma_applied_permutation<S, P: OperationParameter, M: Fn(&S, &Operation<P>) -> S>(
    mutate: M,
    s: S,
    ops1: Seq<Operation<P>>,
    ops2: Seq<Operation<P>>,
    r1: S,
    r2: S,
)
    requires
        deterministic_mutate(mutate),
        commuting_mutate(mutate),
        ops1.to_multiset() == ops2.to_multiset(),
        applied(mutate, s, ops1, r1),
        applied(mutate, s, ops2, r2),
    ensures
        r1 == r2,
    decreases ops1.len(),
{
    broadcast use vstd::seq_lib::group_to_multiset_ensures;
    let c1 = choose|c: Seq<S>| #[trigger] mutation_chain(mutate, s, ops1, c) && c.last() == r1;
    let c2 = choose|c: Seq<S>| #[trigger] mutation_chain(mutate, s, ops2, c) && c.last() == r2;
    vstd::seq_lib::to_multiset_len(ops1);
    vstd::seq_lib::to_multiset_len(ops2);
    if ops1.len() == 0 {
        assert(c1.len() == 1 && c2.len() == 1);
    } else {
        let x = ops1[0];
        assert(ops1.to_multiset().count(x) > 0);
        assert(ops2.contains(x));
        let j = choose|j: int| 0 <= j < ops2.len() && ops2[j] == x;
        let t = c1[1];
        let z: int = 0;
        assert(call_ensures(mutate, (&c1[z], &ops1[z]), c1[z + 1]));
        let rest = ops1.drop_first();
        let tail = c1.drop_first();
        assert(mutation_chain(mutate, t, rest, tail)) by {
            assert forall|i: int| 0 <= i < rest.len() implies call_ensures(mutate, (&tail[i], &rest[i]), #[trigger] tail[i + 1]) by {
                assert(call_ensures(mutate, (&c1[i + 1], &ops1[i + 1]), c1[i + 1 + 1]));
            }
        }
        assert(tail.last() == r1);
        lemma_applied_move_front(mutate, s, ops2, r2, j, t);
        vstd::seq_lib::to_multiset_remove(ops1, 0);
        vstd::seq_lib::to_multiset_remove(ops2, j);
        assert(ops1.remove(0) =~= rest);
        lemma_applied_permutation(mutate, t, rest, ops2.remove(j), r1, r2);
    }
}

/// The same function over two sequences with the same elements, each as often, gives
/// sequences with the same elements, each as often.
pub(crate) proof fn lemma_map_same_multiset<A, B>(a: Seq<A>, b: Seq<A>, f: spec_fn(A) -> B)
    requires
        a.to_multiset() == b.to_multiset(),
    ensures
        a.map_values(f).to_multiset() == b.map_values(f).to_multiset(),
    decreases a.len(),
{
    broadcast use vstd::seq_lib::group_to_multiset_ensures;
    vstd::seq_lib::to_multiset_len(a);
    vstd::seq_lib::to_multiset_len(b);
    if a.len() > 0 {
        let n = a.len() - 1;
        let x = a[n];
        assert(a.to_multiset().count(x) > 0);
        assert(b.contains(x));
        let i = choose|i: int| 0 <= i < b.len() && b[i] == x;
        vstd::seq_lib::to_multiset_remove(a, n);
        vstd::seq_lib::to_multiset_remove(b, i);
        lemma_map_same_multiset(a.remove(n), b.remove(i), f);
        let fa = a.map_values(f);
        let fb = b.map_values(f);
        assert(fa.remove(n) =~= a.remove(n).map_values(f));
        assert(fb.remove(i) =~= b.remove(i).map_values(f));
        vstd::seq_lib::to_multiset_remove(fa, n);
        vstd::seq_lib::to_multiset_remove(fb, i);
        assert(fa[n] == f(x) && fb[i] == f(x));
        assert(fa.to_multiset().count(f(x)) > 0);
        assert(fb.to_multiset().count(f(x)) > 0);
        assert(fa.to_multiset() =~= fb.to_multiset()) by {
            assert forall|y: B| fa.to_multiset().count(y) == fb.to_multiset().count(y) by {
                assert(fa.remove(n).to_multiset().count(y) == fb.remove(i).to_multiset().count(y));
            }
        }
    }
}

/// The vertices of `all_vertices` in distance order.
pub open spec fn distance_ordered<T>(dag: Dag<T>) -> Seq<crate::dag::Vertex<T>> {
    Seq::new(dag.distance_order().len(), |k: int| dag.all_vertices()[dag.distance_order()[k]])
}

/// The distance order holds the vertices of `all_vertices`, each as often, and starts
/// with the root.
proof fn lemma_distance_ordered<T>(dag: Dag<T>)
    requires
        dag.wf(),
        dag.distances_fit(),
    ensures
        distance_ordered(dag).to_multiset() == dag.all_vertices().to_multiset(),
        distance_ordered(dag).len() >= 1,
        distance_ordered(dag)[0] == dag.vertex_seq()[0],
{
    broadcast use vstd::seq_lib::group_to_multiset_ensures;
    let keys = dag.distance_keys();
    let leq = key_leq::<DistancePosition>();
    DistancePosition::lemma_key_total();
    assert(leq == (|x: DistancePosition, y: DistancePosition| DistancePosition::key_le(x, y)));
    let sorted = keys.sort_by(leq);
    keys.lemma_sort_by_ensures(leq);
    vstd::seq_lib::to_multiset_len(keys);
    vstd::seq_lib::to_multiset_len(sorted);
    let all = dag.all_vertices();
    dag.lemma_len_fits();
    let g = |key: DistancePosition| all[key.position as int];
    assert(distance_ordered(dag) =~= sorted.map_values(g));
    assert(all =~= keys.map_values(g)) by {
        assert forall|i: int| 0 <= i < all.len() implies #[trigger] all[i] == keys.map_values(g)[i] by {
            assert(keys[i].position == i);
        }
    }
    lemma_map_same_multiset(sorted, keys, g);
    dag.lemma_root_first();
    assert(dag.is_first_index(0, root_id()));
    dag.lemma_first_index(0, root_id());
    assert(all[0] == dag.vertex_seq()[0]);
    assert(keys[0] == DistancePosition { distance: 0, position: 0 });
    assert(keys.to_multiset().count(keys[0]) > 0);
    assert(sorted.contains(keys[0]));
    let t = choose|t: int| 0 <= t < sorted.len() && sorted[t] == keys[0];
    if t > 0 {
        assert(leq(sorted[0], sorted[t]));
    }
    assert(sorted[0].distance == 0 && sorted[0].position == 0);
}

/// The operations `basic_exploration` has a replica apply: those of the vertices in
/// distance order, leaving out the first, the root.
pub open spec fn basic_ops<P: OperationParameter>(dag: Dag<VertexLabel<P>>) -> Seq<Operation<P>> {
    distance_ordered(dag).drop_first().map_values(|v: crate::dag::Vertex<VertexLabel<P>>| v.label.op)
}

/// Replicas whose DAGs hold the same vertices, whatever the order they arrived in, and
/// the same root, read the same state through `basic_exploration` when `mutate` gives
/// one result for each state and operation and its operations commute, and the cloning
/// of states gives one result.
pub proof fn lemma_basic_converges<P, S, M>(
    d1: Dag<VertexLabel<P>>,
    d2: Dag<VertexLabel<P>>,
    initial_state: S,
    mutate: M,
    s1: S,
    s2: S,
    r1: S,
    r2: S,
)
    where
        P: OperationParameter,
        S: Clone,
        M: Fn(&S, &Operation<P>) -> S,
    requires
        d1.wf(),
        d2.wf(),
        d1.distances_fit(),
        d2.distances_fit(),
        d1.all_vertices().to_multiset() == d2.all_vertices().to_multiset(),
        d1.vertex_seq()[0] == d2.vertex_seq()[0],
        deterministic_mutate(mutate),
        commuting_mutate(mutate),
        forall|a: S, b1: S, b2: S| #[trigger] cloned(a, b1) && #[trigger] cloned(a, b2) ==> b1 == b2,
        cloned(initial_state, s1),
        cloned(initial_state, s2),
        applied(mutate, s1, basic_ops(d1), r1),
        applied(mutate, s2, basic_ops(d2), r2),
    ensures
        r1 == r2,
{
    lemma_distance_ordered(d1);
    lemma_distance_ordered(d2);
    let o1 = distance_ordered(d1);
    let o2 = distance_ordered(d2);
    vstd::seq_lib::to_multiset_remove(o1, 0);
    vstd::seq_lib::to_multiset_remove(o2, 0);
    assert(o1.remove(0) =~= o1.drop_first());
    assert(o2.remove(0) =~= o2.drop_first());
    lemma_map_same_multiset(o1.drop_first(), o2.drop_first(), |v: crate::dag::Vertex<VertexLabel<P>>| v.label.op);
    assert(s1 == s2);
    lemma_applied_permutation(mutate, s1, basic_ops(d1), basic_ops(d2), r1, r2);
}

/// `order` is what `fair_exploration_no_n` gives for `dag`: a first label (the root's),
/// then the labels of the vertices of `fair_order`.
pub open spec fn fair_labels<P: OperationParameter>(dag: Dag<VertexLabel<P>>, order: Seq<&VertexLabel<P>>) -> bool {
    &&& order.len() == fair_order(dag).len() + 1
    &&& forall|k: int| 0 <= k < fair_order(dag).len() ==> *order[k + 1] == dag.vertex_of(fair_order(dag)[k]).label
}

/// Two replicas with the same initial state, `mutate` and reconciliation, where the
/// reconciliation gives the labels of the fair walk (as `fair_exploration_no_n` does),
/// read the same state when their DAGs are the same graph with each identifier standing
/// for the same vertex, whatever order the vertices arrived in, and `mutate` and the
/// cloning of states each give one result.
pub proof fn lemma_fair_read_converges<S, P, M, R, L>(c1: &CRDT<S, P, M, R, L>, c2: &CRDT<S, P, M, R, L>, r1: S, r2: S)
    where
        P: OperationParameter,
        S: Clone,
        M: Fn(&S, &Operation<P>) -> S,
        R: Fn(&Dag<VertexLabel<P>>) -> Vec<&VertexLabel<P>>,
        L: Fn(&S, &Operation<P>) -> bool,
    requires
        c1.initial_state_of() == c2.initial_state_of(),
        c1.mutate_of() == c2.mutate_of(),
        c1.reconciliation_of() == c2.reconciliation_of(),
        forall|d: &Dag<VertexLabel<P>>, o: Vec<&VertexLabel<P>>|
            #[trigger] call_ensures(c1.reconciliation_of(), (d,), o) ==> fair_labels(*d, o@),
        c1.dag_of().wf(),
        c2.dag_of().wf(),
        c1.dag_of().acyclic(),
        c2.dag_of().acyclic(),
        same_graph(c1.dag_of(), c2.dag_of()),
        forall|x: VertexId| c1.dag_of().contains_id(x) ==> #[trigger] c1.dag_of().vertex_of(x) == c2.dag_of().vertex_of(x),
        deterministic_mutate(c1.mutate_of()),
        forall|a: S, b1: S, b2: S| #[trigger] cloned(a, b1) && #[trigger] cloned(a, b2) ==> b1 == b2,
        c1.reads_as(r1),
        c2.reads_as(r2),
    ensures
        r1 == r2,
{
    let d1 = c1.dag_of();
    let d2 = c2.dag_of();
    let o1 = choose|order: Vec<&VertexLabel<P>>|
        #[trigger] call_ensures(c1.reconciliation_of(), (&d1,), order)
            && exists|s0: S| cloned(c1.initial_state_of(), s0) && applied(c1.mutate_of(), s0, after_first(ops_of(order@)), r1);
    let o2 = choose|order: Vec<&VertexLabel<P>>|
        #[trigger] call_ensures(c2.reconciliation_of(), (&d2,), order)
            && exists|s0: S| cloned(c2.initial_state_of(), s0) && applied(c2.mutate_of(), s0, after_first(ops_of(order@)), r2);
    assert(fair_labels(d1, o1@));
    assert(fair_labels(d2, o2@));
    lemma_fair_labels_same(d1, d2);
    assert(after_first(ops_of(o1@)) =~= fair_ops(d1));
    assert(after_first(ops_of(o2@)) =~= fair_ops(d2));
    let s1 = choose|s0: S| cloned(c1.initial_state_of(), s0) && applied(c1.mutate_of(), s0, after_first(ops_of(o1@)), r1);
    let s2 = choose|s0: S| cloned(c2.initial_state_of(), s0) && applied(c2.mutate_of(), s0, after_first(ops_of(o2@)), r2);
    assert(s1 == s2);
    lemma_applied_unique(c1.mutate_of(), s1, fair_ops(d1), r1, r2);
}

/// `fair_exploration_no_n`, as a replica's reconciliation, gives the labels of the fair
/// walk, so `lemma_fair_read_converges` applies to the replicas that use it.
pub proof fn lemma_fair_exploration_gives_fair_labels<P: OperationParameter>()
    ensures
        forall|d: &Dag<VertexLabel<P>>, o: Vec<&VertexLabel<P>>|
            #[trigger] call_ensures(crate::crdt::reconciliation_functions::fair_exploration_no_n::<P>, (d,), o)
                ==> fair_labels(*d, o@),
{
}

} // verus!
