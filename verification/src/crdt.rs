pub mod legal_functions;
pub mod reconciliation_functions;
pub mod process_scores;
pub mod fair_walk;
pub mod convergence;
pub mod resolution;

use vstd::prelude::*;
use crate::dag::{Dag, Vertex, VertexId, root_id, copy_ids};
use crate::crdt::legal_functions::IllegalOperationError;

verus! {

/// The parameters an operation carries; implemented by users for their own types.
/// The functions that need a copy or a default value of them ask for `Clone` or
/// `Default` where they need it.
pub trait OperationParameter: Sized {

}

impl OperationParameter for () {

}

/// An operation: an identifier that selects what it does, and its parameters.
#[derive(Clone, Debug, Hash)]
pub struct Operation<P> where P: OperationParameter {
    pub id: usize,
    pub params: P,
}

impl<P> Operation<P> where P: OperationParameter {
    pub fn new(id: usize, params: P) -> (r: Operation<P>)
        ensures
            r.id == id,
            r.params == params,
    {
        Operation { id: id, params: params }
    }
}

/// The label of a DAG vertex: the operation and the process that issued it.
#[derive(Clone, Debug)]
pub struct VertexLabel<P> where P: OperationParameter {
    pub op: Operation<P>,
    pub process_id: u32,
}

impl<P> VertexLabel<P> where P: OperationParameter {
    pub fn new(op_id: usize, params: P, process: u32) -> (r: VertexLabel<P>)
        ensures
            r.op.id == op_id,
            r.op.params == params,
            r.process_id == process,
    {
        VertexLabel { op: Operation::new(op_id, params), process_id: process }
    }

    pub fn new_from_op(op: Operation<P>, process: u32) -> (r: VertexLabel<P>)
        ensures
            r.op == op,
            r.process_id == process,
    {
        VertexLabel { op: op, process_id: process }
    }
}

/// `states` are the successive states of applying `mutate` from `s0` to each
/// operation of `ops` in turn: `states[0]` is `s0` and each next one is what `mutate`
/// returned for the previous state and the next operation.
pub open spec fn mutation_chain<S, P: OperationParameter, M: Fn(&S, &Operation<P>) -> S>(
    mutate: M,
    s0: S,
    ops: Seq<Operation<P>>,
    states: Seq<S>,
) -> bool {
    &&& states.len() == ops.len() + 1
    &&& states[0] == s0
    &&& forall|i: int| 0 <= i < ops.len() ==> call_ensures(mutate, (&states[i], &ops[i]), #[trigger] states[i + 1])
}

/// `r` is what applying `mutate` to `s0` and then to each operation of `ops`, one
/// after the other, gives.
pub open spec fn applied<S, P: OperationParameter, M: Fn(&S, &Operation<P>) -> S>(
    mutate: M,
    s0: S,
    ops: Seq<Operation<P>>,
    r: S,
) -> bool {
    exists|states: Seq<S>| #[trigger] mutation_chain(mutate, s0, ops, states) && states.last() == r
}

/// Applying `mutate` over `a` and then over `b` is applying it over `a + b`.
pub proof fn lemma_applied_concat<S, P: OperationParameter, M: Fn(&S, &Operation<P>) -> S>(
    mutate: M,
    s0: S,
    a: Seq<Operation<P>>,
    m: S,
    b: Seq<Operation<P>>,
    r: S,
)
    requires
        applied(mutate, s0, a, m),
        applied(mutate, m, b, r),
    ensures
        applied(mutate, s0, a + b, r),
{
    let sa = choose|sa: Seq<S>| #[trigger] mutation_chain(mutate, s0, a, sa) && sa.last() == m;
    let sb = choose|sb: Seq<S>| #[trigger] mutation_chain(mutate, m, b, sb) && sb.last() == r;
    let all = sa + sb.drop_first();
    let ops = a + b;
    assert forall|i: int| 0 <= i < ops.len() implies call_ensures(mutate, (&all[i], &ops[i]), #[trigger] all[i + 1]) by {
        if i < a.len() {
            assert(all[i] == sa[i]);
            assert(all[i + 1] == sa[i + 1]);
        } else {
            let j = i - a.len();
            assert(all[i] == sb[j]);
            assert(all[i + 1] == sb[j + 1]);
            assert(ops[i] == b[j]);
            assert(call_ensures(mutate, (&sb[j], &b[j]), sb[j + 1]));
        }
    }
    assert(mutation_chain(mutate, s0, ops, all));
    assert(all.last() == r);
}

/// `mutate` gives one state for each state and operation.
pub open spec fn deterministic_mutate<S, P: OperationParameter, M: Fn(&S, &Operation<P>) -> S>(mutate: M) -> bool {
    forall|s: &S, op: &Operation<P>, a: S, b: S|
        #[trigger] call_ensures(mutate, (s, op), a) && #[trigger] call_ensures(mutate, (s, op), b) ==> a == b
}

proof fn lemma_chains_agree<S, P: OperationParameter, M: Fn(&S, &Operation<P>) -> S>(
    mutate: M,
    s0: S,
    ops: Seq<Operation<P>>,
    a: Seq<S>,
    b: Seq<S>,
    i: int,
)
    requires
        deterministic_mutate(mutate),
        mutation_chain(mutate, s0, ops, a),
        mutation_chain(mutate, s0, ops, b),
        0 <= i <= ops.len(),
    ensures
        a[i] == b[i],
    decreases i,
{
    if i > 0 {
        lemma_chains_agree(mutate, s0, ops, a, b, i - 1);
        let j = i - 1;
        assert(call_ensures(mutate, (&a[j], &ops[j]), a[j + 1]));
        assert(call_ensures(mutate, (&b[j], &ops[j]), b[j + 1]));
    }
}

/// With a `mutate` that gives one state for each state and operation, applying the
/// same operations to the same state gives one result.
pub proof fn lemma_applied_unique<S, P: OperationParameter, M: Fn(&S, &Operation<P>) -> S>(
    mutate: M,
    s0: S,
    ops: Seq<Operation<P>>,
    r1: S,
    r2: S,
)
    requires
        deterministic_mutate(mutate),
        applied(mutate, s0, ops, r1),
        applied(mutate, s0, ops, r2),
    ensures
        r1 == r2,
{
    let a = choose|a: Seq<S>| #[trigger] mutation_chain(mutate, s0, ops, a) && a.last() == r1;
    let b = choose|b: Seq<S>| #[trigger] mutation_chain(mutate, s0, ops, b) && b.last() == r2;
    lemma_chains_agree(mutate, s0, ops, a, b, ops.len() as int);
}

/// The operations of a sequence of labels.
pub open spec fn ops_of<P: OperationParameter>(labels: Seq<&VertexLabel<P>>) -> Seq<Operation<P>> {
    labels.map_values(|l: &VertexLabel<P>| l.op)
}

/// All but the first element (nothing when there is none).
pub open spec fn after_first<A>(s: Seq<A>) -> Seq<A> {
    if s.len() == 0 {
        s
    } else {
        s.subrange(1, s.len() as int)
    }
}

/// Applies `mutate` to a copy of `initial_state` and then to the operation of every
/// label of `order` after the first (the first is where the order starts, the root).
pub fn apply_order<P: OperationParameter, S: Clone, M: Fn(&S, &Operation<P>) -> S>(
    order: &Vec<&VertexLabel<P>>,
    initial_state: &S,
    mutate: &M,
) -> (r: S)
    requires
        forall|s: &S, op: &Operation<P>| call_requires(*mutate, (s, op)),
    ensures
        exists|s0: S| cloned(*initial_state, s0) && applied(*mutate, s0, after_first(ops_of(order@)), r),
{
    let mut state = initial_state.clone();
    let ghost s0 = state;
    let ghost rest = after_first(ops_of(order@));
    let ghost mut states: Seq<S> = seq![s0];
    let mut i: usize = 1;
    while i < order.len()
        invariant
            1 <= i,
            order@.len() > 0 ==> i <= order@.len(),
            order@.len() == 0 ==> i == 1,
            rest == after_first(ops_of(order@)),
            rest.len() == (if order@.len() == 0 { 0 } else { order@.len() - 1 }),
            cloned(*initial_state, s0),
            forall|s: &S, op: &Operation<P>| call_requires(*mutate, (s, op)),
            mutation_chain(*mutate, s0, rest.take(i - 1), states),
            states.last() == state,
        decreases order@.len() - i,
    {
        let ghost prev = state;
        state = mutate(&state, &order[i].op);
        proof {
            assert(rest.take(i as int)[i - 1] == order@[i as int].op);
            states = states.push(state);
            assert forall|k: int| 0 <= k < rest.take(i as int).len() implies call_ensures(*mutate, (&states[k], &rest.take(i as int)[k]), #[trigger] states[k + 1]) by {
                if k < i - 1 {
                    assert(rest.take(i as int)[k] == rest.take(i - 1)[k]);
                }
            }
        }
        i = i + 1;
    }
    proof {
        let full = rest.take(i - 1);
        assert(i - 1 == rest.len());
        assert(full =~= rest);
        assert(mutation_chain(*mutate, s0, full, states));
        assert(mutation_chain(*mutate, s0, rest, states));
        assert(applied(*mutate, s0, rest, state));
    }
    state
}

/// A replicated data type: the DAG of the operations a replica knows, the initial
/// state, how an operation changes a state (`mutate`), the order in which the
/// operations of the DAG are applied (`reconciliation`) and which operations may be
/// issued on a state (`legality`).
#[derive(Clone)]
pub struct CRDT<S, P, M, R, L> where P: OperationParameter {
    mutate: M,
    reconciliation: R,
    pub dag: Dag<VertexLabel<P>>,
    initial_state: S,
    local_id: usize,
    legality: L,
}

impl<S: Clone, P: OperationParameter, M, R, L> CRDT<S, P, M, R, L> where
    M: Fn(&S, &Operation<P>) -> S,
    R: Fn(&Dag<VertexLabel<P>>) -> Vec<&VertexLabel<P>>,
    L: Fn(&S, &Operation<P>) -> bool,
 {
    pub closed spec fn dag_of(&self) -> Dag<VertexLabel<P>> {
        self.dag
    }

    /// The local counter the next operation issued here gets.
    pub fn local_id(&self) -> (r: usize)
        ensures
            r == self.local_id_of(),
    {
        self.local_id
    }

    /// The replica's DAG.
    pub fn get_dag(&self) -> (r: &Dag<VertexLabel<P>>)
        ensures
            *r == self.dag_of(),
    {
        &self.dag
    }

    pub closed spec fn mutate_of(&self) -> M {
        self.mutate
    }

    pub closed spec fn reconciliation_of(&self) -> R {
        self.reconciliation
    }

    pub closed spec fn legality_of(&self) -> L {
        self.legality
    }

    pub closed spec fn initial_state_of(&self) -> S {
        self.initial_state
    }

    /// The local counter the next operation issued here gets.
    pub closed spec fn local_id_of(&self) -> usize {
        self.local_id
    }

    proof fn lemma_fields(&self)
        requires
            self.wf(),
        ensures
            self.dag.wf(),
            self.dag.distances_fit(),
            forall|s: &S, op: &Operation<P>| call_requires(self.mutate, (s, op)),
            forall|s: &S, op: &Operation<P>| call_requires(self.legality, (s, op)),
            call_requires(self.reconciliation, (&self.dag,)),
    {
        assert forall|s: &S, op: &Operation<P>| call_requires(self.mutate, (s, op)) by {
            assert(call_requires(self.mutate_of(), (s, op)));
        }
        assert forall|s: &S, op: &Operation<P>| call_requires(self.legality, (s, op)) by {
            assert(call_requires(self.legality_of(), (s, op)));
        }
        assert(call_requires(self.reconciliation_of(), (&self.dag_of(),)));
    }

    proof fn lemma_wf_from(&self, other: &Self)
        requires
            other.wf(),
            self.dag.wf(),
            self.dag.distances_fit(),
            self.mutate == other.mutate,
            self.legality == other.legality,
            self.reconciliation == other.reconciliation,
        ensures
            self.wf(),
    {
        assert forall|s: &S, op: &Operation<P>| call_requires(self.mutate_of(), (s, op)) by {
            assert(call_requires(other.mutate_of(), (s, op)));
        }
        assert forall|s: &S, op: &Operation<P>| call_requires(self.legality_of(), (s, op)) by {
            assert(call_requires(other.legality_of(), (s, op)));
        }
        assert forall|d: &Dag<VertexLabel<P>>| call_requires(self.reconciliation_of(), (d,)) by {
            assert(call_requires(other.reconciliation_of(), (d,)));
        }
    }

    pub open spec fn wf(&self) -> bool {
        &&& self.dag_of().wf()
        &&& self.dag_of().distances_fit()
        &&& forall|s: &S, op: &Operation<P>| call_requires(self.mutate_of(), (s, op))
        &&& forall|s: &S, op: &Operation<P>| call_requires(self.legality_of(), (s, op))
        &&& forall|d: &Dag<VertexLabel<P>>| call_requires(self.reconciliation_of(), (d,))
    }

    /// `r` is a state `read` can return: the reconciliation gave an order of the DAG's
    /// labels, and `r` is what applying the operations after the first to a copy of the
    /// initial state gives.
    pub open spec fn reads_as(&self, r: S) -> bool {
        exists|order: Vec<&VertexLabel<P>>|
            #[trigger] call_ensures(self.reconciliation_of(), (&self.dag_of(),), order)
                && exists|s0: S|
                cloned(self.initial_state_of(), s0) && applied(self.mutate_of(), s0, after_first(ops_of(order@)), r)
    }

    /// Two replicas with the same DAG, initial state, `mutate` and reconciliation read
    /// the same state, when `mutate`, the reconciliation and the cloning of states each
    /// give one result for given arguments: what a replica reads depends only on the
    /// operations its DAG holds and how they are arranged.
    pub proof fn lemma_read_determined(c1: &Self, c2: &Self, r1: S, r2: S)
        requires
            c1.dag_of() == c2.dag_of(),
            c1.initial_state_of() == c2.initial_state_of(),
            c1.mutate_of() == c2.mutate_of(),
            c1.reconciliation_of() == c2.reconciliation_of(),
            deterministic_mutate(c1.mutate_of()),
            forall|d: &Dag<VertexLabel<P>>, o1: Vec<&VertexLabel<P>>, o2: Vec<&VertexLabel<P>>|
                #[trigger] call_ensures(c1.reconciliation_of(), (d,), o1) && #[trigger] call_ensures(
                    c1.reconciliation_of(),
                    (d,),
                    o2,
                ) ==> o1 == o2,
            forall|a: S, b1: S, b2: S| #[trigger] cloned(a, b1) && #[trigger] cloned(a, b2) ==> b1 == b2,
            c1.reads_as(r1),
            c2.reads_as(r2),
        ensures
            r1 == r2,
    {
        let o1 = choose|order: Vec<&VertexLabel<P>>|
            #[trigger] call_ensures(c1.reconciliation_of(), (&c1.dag_of(),), order)
                && exists|s0: S|
                cloned(c1.initial_state_of(), s0) && applied(c1.mutate_of(), s0, after_first(ops_of(order@)), r1);
        let o2 = choose|order: Vec<&VertexLabel<P>>|
            #[trigger] call_ensures(c2.reconciliation_of(), (&c2.dag_of(),), order)
                && exists|s0: S|
                cloned(c2.initial_state_of(), s0) && applied(c2.mutate_of(), s0, after_first(ops_of(order@)), r2);
        assert(o1 == o2);
        let s1 = choose|s0: S| cloned(c1.initial_state_of(), s0) && applied(c1.mutate_of(), s0, after_first(ops_of(o1@)), r1);
        let s2 = choose|s0: S| cloned(c2.initial_state_of(), s0) && applied(c2.mutate_of(), s0, after_first(ops_of(o2@)), r2);
        assert(s1 == s2);
        lemma_applied_unique(c1.mutate_of(), s1, after_first(ops_of(o1@)), r1, r2);
    }

    /// `next` is this replica after issuing `op` from process `from` with `ctx` returned:
    /// a vertex with the next local counter added under the heads, `ctx` the heads
    /// followed by its identifier; when that identifier is new, it is the only head.
    pub open spec fn issued(self, next: Self, op: Operation<P>, from: u32, ctx: Seq<VertexId>) -> bool {
        let id = VertexId { local_id: self.local_id_of(), process_id: from };
        let heads = self.dag_of().heads();
        let label = VertexLabel { op: op, process_id: from };
        let v = Vertex { id: id, label: label, distance: 0 };
        &&& ctx == heads.push(id)
        &&& next.dag_of().vertex_seq() == self.dag_of().vertex_seq().push(
            Vertex { id: id, label: label, distance: self.dag_of().new_distance(heads, v) as u32 },
        )
        &&& next.dag_of().edge_map() == self.dag_of().edge_map().insert(
            id,
            self.dag_of().merged_parents(id, heads),
        )
        &&& next.dag_of().length_of() == (if self.dag_of().length_of()
            < self.dag_of().new_distance(heads, v) {
            self.dag_of().new_distance(heads, v) as u32
        } else {
            self.dag_of().length_of()
        })
        &&& !self.dag_of().contains_id(id) ==> next.dag_of().heads() == seq![id]
        &&& next.local_id_of() == self.local_id_of() + 1
        &&& next.initial_state_of() == self.initial_state_of()
        &&& next.mutate_of() == self.mutate_of()
        &&& next.reconciliation_of() == self.reconciliation_of()
        &&& next.legality_of() == self.legality_of()
    }

    /// `next` is this replica with `vertex` added under `causal_context`, all else kept.
    pub open spec fn received(self, next: Self, vertex: Vertex<VertexLabel<P>>, causal_context: Seq<VertexId>) -> bool {
        &&& next.dag_of().vertex_seq() == self.dag_of().vertex_seq().push(
            Vertex {
                id: vertex.id,
                label: vertex.label,
                distance: self.dag_of().new_distance(causal_context, vertex) as u32,
            },
        )
        &&& next.dag_of().edge_map() == self.dag_of().edge_map().insert(
            vertex.id,
            self.dag_of().merged_parents(vertex.id, causal_context),
        )
        &&& next.dag_of().length_of() == (if self.dag_of().length_of() < self.dag_of().new_distance(
            causal_context,
            vertex,
        ) {
            self.dag_of().new_distance(causal_context, vertex) as u32
        } else {
            self.dag_of().length_of()
        })
        &&& next.local_id_of() == self.local_id_of()
        &&& next.initial_state_of() == self.initial_state_of()
        &&& next.mutate_of() == self.mutate_of()
        &&& next.reconciliation_of() == self.reconciliation_of()
        &&& next.legality_of() == self.legality_of()
    }

    /// A replica with a DAG that holds only the root (labelled with operation 0 of
    /// process 0 and default parameters), and local counter 1.
    pub fn new(init: S, mutate: M, rec: R, leg: L) -> (r: CRDT<S, P, M, R, L>)
        where P: Default,
        requires
            forall|s: &S, op: &Operation<P>| call_requires(mutate, (s, op)),
            forall|s: &S, op: &Operation<P>| call_requires(leg, (s, op)),
            forall|d: &Dag<VertexLabel<P>>| call_requires(rec, (d,)),
        ensures
            r.wf(),
            r.dag_of().vertex_seq().len() == 1,
            r.dag_of().vertex_seq()[0].id == root_id(),
            r.dag_of().vertex_seq()[0].distance == 0,
            r.dag_of().vertex_seq()[0].label.op.id == 0,
            r.dag_of().vertex_seq()[0].label.process_id == 0,
            call_ensures(P::default, (), r.dag_of().vertex_seq()[0].label.op.params),
            r.dag_of().edge_map() == Map::<VertexId, Seq<VertexId>>::empty(),
            r.dag_of().length_of() == 1,
            r.initial_state_of() == init,
            r.mutate_of() == mutate,
            r.reconciliation_of() == rec,
            r.legality_of() == leg,
            r.local_id_of() == 1,
    {
        let params = P::default();
        CRDT {
            mutate: mutate,
            dag: Dag::new(VertexLabel::new(0, params, 0)),
            reconciliation: rec,
            initial_state: init,
            local_id: 1,
            legality: leg,
        }
    }

    /// The current state: the operations of the DAG applied to the initial state in
    /// the order the reconciliation gives, leaving out its first entry (the root).
    pub fn read(&self) -> (r: S)
        requires
            self.wf(),
        ensures
            self.reads_as(r),
    {
        proof {
            self.lemma_fields();
        }
        let order = (self.reconciliation)(&self.dag);
        let r = apply_order(&order, &self.initial_state, &self.mutate);
        proof {
            let s0 = choose|s0: S| cloned(self.initial_state, s0) && applied(self.mutate, s0, after_first(ops_of(order@)), r);
            assert(cloned(self.initial_state_of(), s0) && applied(self.mutate_of(), s0, after_first(ops_of(order@)), r));
            assert(call_ensures(self.reconciliation_of(), (&self.dag_of(),), order));
        }
        r
    }

    /// Issues `op` from process `from`: refused with `IllegalOperationError`, nothing
    /// changing, when `legality` rejects it on the current state; else a vertex with
    /// the next local counter is added under the current heads, and the heads followed
    /// by the new identifier are returned (the causal context to send).
    pub fn append(&mut self, op: Operation<P>, from: u32) -> (r: Result<Vec<VertexId>, IllegalOperationError>)
        requires
            old(self).wf(),
            old(self).local_id_of() < usize::MAX,
            old(self).dag_of().max_parent_distance(old(self).dag_of().heads()) < u32::MAX,
        ensures
            final(self).wf(),
            exists|s: S| old(self).reads_as(s) && call_ensures(old(self).legality_of(), (&s, &op), r is Ok),
            r is Err ==> *final(self) == *old(self),
            r is Ok && old(self).dag_of().acyclic() && !old(self).dag_of().contains_id(
                VertexId { local_id: old(self).local_id_of(), process_id: from },
            ) ==> final(self).dag_of().acyclic(),
            r matches Ok(ctx) ==> old(self).issued(*final(self), op, from, ctx@),
    {
        proof {
            self.lemma_fields();
        }
        let state = self.read();
        let legal = (self.legality)(&state, &op);
        if !legal {
            return Err(IllegalOperationError);
        }
        let mut heads = self.dag.get_heads();
        let id = VertexId::new(self.local_id, from);
        self.local_id = self.local_id + 1;
        let v = Vertex::new(id, VertexLabel::new_from_op(op, from));
        proof {
            let hs = heads@;
            assert forall|i: int| 0 <= i < hs.len() implies self.dag.contains_id(#[trigger] hs[i]) by {
                self.dag.lemma_heads_contained(i);
            }
        }
        let ghost before = self.dag;
        let added = self.dag.add_vertex(copy_ids(&heads), v);
        proof {
            if !before.contains_id(id) {
                before.lemma_single_head_after(
                    &self.dag,
                    id,
                    before.new_distance(heads@, v) as u32,
                    v.label,
                );
            }
        }
        heads.push(id);
        proof {
            self.lemma_wf_from(&*old(self));
        }
        Ok(heads)
    }

    /// Adds a vertex received from another replica under its causal context; refused
    /// (`false`, nothing changes) unless the whole context is already known.
    pub fn append_with_causal_context(&mut self, vertex: Vertex<VertexLabel<P>>, causal_context: Vec<VertexId>) -> (r: bool)
        requires
            old(self).wf(),
            vertex.distance == 0 && old(self).dag_of().all_contained(causal_context@)
                ==> old(self).dag_of().max_parent_distance(causal_context@) < u32::MAX,
        ensures
            final(self).wf(),
            r == old(self).dag_of().all_contained(causal_context@),
            !r ==> *final(self) == *old(self),
            r ==> old(self).received(*final(self), vertex, causal_context@),
            r && old(self).dag_of().acyclic() && !old(self).dag_of().contains_id(vertex.id) ==> final(self).dag_of().acyclic(),
    {
        let r = self.dag.add_vertex(causal_context, vertex);
        proof {
            self.lemma_wf_from(&*old(self));
        }
        r
    }
}

} // verus!
