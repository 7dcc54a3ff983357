use vstd::prelude::*;
use crate::dag::{Dag, Vertex, VertexId, id_text, vertex_text};
use crate::crdt::{CRDT, Operation, OperationParameter, VertexLabel};
use crate::crdt::legal_functions::IllegalOperationError;

verus! {

/// A vertex sent to the other replicas, with the identifiers of its causal context.
#[derive(Clone, Debug)]
pub struct CRDTOperationMessage<P> where P: OperationParameter {
    pub vertex: Vertex<VertexLabel<P>>,
    pub causal_context: Vec<VertexId>,
}

/// The identifiers written one after the other, separated by a comma and a space.
pub open spec fn ids_text(ids: Seq<VertexId>) -> Seq<char>
    decreases ids.len(),
{
    if ids.len() == 0 {
        Seq::empty()
    } else if ids.len() == 1 {
        id_text(ids[0])
    } else {
        ids_text(ids.drop_last()) + ", "@ + id_text(ids.last())
    }
}

/// How a message is written: its vertex and its causal context.
pub open spec fn message_text<P: OperationParameter>(m: CRDTOperationMessage<P>) -> Seq<char> {
    "CRDTOperationMessage: (vertex: "@ + vertex_text(m.vertex) + ", causal_context: "@ + ids_text(
        m.causal_context@,
    ) + ")"@
}

impl<P> CRDTOperationMessage<P> where P: OperationParameter {
    pub fn new(vertex: Vertex<VertexLabel<P>>, causal_context: Vec<VertexId>) -> (r: CRDTOperationMessage<P>)
        ensures
            r.vertex == vertex,
            r.causal_context == causal_context,
    {
        CRDTOperationMessage { vertex: vertex, causal_context: causal_context }
    }

    /// The message as text (`message_text`).
    pub fn to_string(&self) -> (r: String)
        ensures
            r@ == message_text(*self),
    {
        let mut joined = String::new();
        let mut i: usize = 0;
        while i < self.causal_context.len()
            invariant
                0 <= i <= self.causal_context@.len(),
                joined@ == ids_text(self.causal_context@.take(i as int)),
            decreases self.causal_context@.len() - i,
        {
            let ghost before = joined@;
            if i > 0 {
                joined.append(", ");
            }
            let t = self.causal_context[i].to_string();
            joined.append(t.as_str());
            proof {
                let next = self.causal_context@.take(i + 1);
                assert(next.drop_last() =~= self.causal_context@.take(i as int));
                assert(next.last() == self.causal_context@[i as int]);
                if i == 0 {
                    assert(joined@ =~= id_text(next[0]));
                }
            }
            i = i + 1;
        }
        assert(self.causal_context@.take(i as int) =~= self.causal_context@);
        let mut s = String::from_str("CRDTOperationMessage: (vertex: ");
        let v = self.vertex.to_string();
        s.append(v.as_str());
        s.append(", causal_context: ");
        s.append(joined.as_str());
        s.append(")");
        s
    }
}

/// A copy of a vertex, its parameters cloned.
pub fn copy_vertex<P: OperationParameter + Clone>(v: &Vertex<VertexLabel<P>>) -> (r: Vertex<VertexLabel<P>>)
    ensures
        r.id == v.id,
        r.distance == v.distance,
        r.label.op.id == v.label.op.id,
        r.label.process_id == v.label.process_id,
        cloned(v.label.op.params, r.label.op.params),
{
    Vertex {
        id: v.id,
        label: VertexLabel {
            op: Operation { id: v.label.op.id, params: v.label.op.params.clone() },
            process_id: v.label.process_id,
        },
        distance: v.distance,
    }
}

/// `m` carries a copy of `v`, its parameters cloned.
pub open spec fn carries<P: OperationParameter + Clone>(m: CRDTOperationMessage<P>, v: Vertex<VertexLabel<P>>) -> bool {
    &&& m.vertex.id == v.id
    &&& m.vertex.distance == v.distance
    &&& m.vertex.label.op.id == v.label.op.id
    &&& m.vertex.label.process_id == v.label.process_id
    &&& cloned(v.label.op.params, m.vertex.label.op.params)
}

/// Issues `op` on the replica from process `id`. Refused as `append` refuses it;
/// else the message for the other replicas: the vertex recorded under the new
/// identifier and, as causal context, the heads it was added under.
pub fn issue_operation<S, P, M, R, L>(crdt: &mut CRDT<S, P, M, R, L>, op: Operation<P>, id: u32) -> (r: Result<
    CRDTOperationMessage<P>,
    IllegalOperationError,
>) where
    S: Clone,
    P: OperationParameter + Clone,
    M: Fn(&S, &Operation<P>) -> S,
    R: Fn(&Dag<VertexLabel<P>>) -> Vec<&VertexLabel<P>>,
    L: Fn(&S, &Operation<P>) -> bool,

    requires
        old(crdt).wf(),
        old(crdt).local_id_of() < usize::MAX,
        old(crdt).dag_of().max_parent_distance(old(crdt).dag_of().heads()) < u32::MAX,
    ensures
        final(crdt).wf(),
        exists|s: S| old(crdt).reads_as(s) && call_ensures(old(crdt).legality_of(), (&s, &op), r is Ok),
        r is Err ==> *final(crdt) == *old(crdt),
        r matches Ok(m) ==> {
            let new_id = VertexId { local_id: old(crdt).local_id_of(), process_id: id };
            &&& m.causal_context@ == old(crdt).dag_of().heads()
            &&& old(crdt).issued(*final(crdt), op, id, m.causal_context@.push(new_id))
            &&& carries(m, final(crdt).dag_of().vertex_of(new_id))
        },
{
    match crdt.append(op, id) {
        Ok(ctx) => {
            let mut ctx = ctx;
            let ghost full = ctx@;
            let local = ctx.pop().unwrap();
            let dag = crdt.get_dag();
            proof {
                assert(ctx@.push(local) =~= full);
                let n = dag.vertex_seq().len() - 1;
                assert(dag.vertex_seq()[n].id == local);
            }
            let v = dag.get_vertex(&local).unwrap();
            let copy = copy_vertex(v);
            Ok(CRDTOperationMessage::new(copy, ctx))
        },
        Err(e) => Err(e),
    }
}

/// A message can be added to the DAG: its whole causal context is known, and, when the
/// vertex comes without a distance, the one it gets stays below `u32::MAX`.
pub open spec fn deliverable<P: OperationParameter>(dag: Dag<VertexLabel<P>>, m: CRDTOperationMessage<P>) -> bool {
    &&& dag.all_contained(m.causal_context@)
    &&& m.vertex.distance == 0 ==> dag.max_parent_distance(m.causal_context@) < u32::MAX
}

fn is_deliverable<P: OperationParameter>(dag: &Dag<VertexLabel<P>>, m: &CRDTOperationMessage<P>) -> (r: bool)
    requires
        dag.wf(),
    ensures
        r == deliverable(*dag, *m),
{
    if !dag.contains_all(&m.causal_context) {
        return false;
    }
    m.vertex.distance != 0 || dag.parent_distance(&m.causal_context) < u32::MAX
}

/// The first position from `from` on of a deliverable message, if any.
pub open spec fn first_deliverable<P: OperationParameter>(
    dag: Dag<VertexLabel<P>>,
    ms: Seq<CRDTOperationMessage<P>>,
    from: int,
) -> Option<int>
    decreases ms.len() - from,
{
    if from < 0 || from >= ms.len() {
        None
    } else if deliverable(dag, ms[from]) {
        Some(from)
    } else {
        first_deliverable(dag, ms, from + 1)
    }
}

/// `s` without its element at `j`, the last element taking its place.
pub open spec fn swap_removed<A>(s: Seq<A>, j: int) -> Seq<A> {
    s.update(j, s.last()).drop_last()
}

/// The messages received before their causal context, kept to be retried, and where
/// the current round of retries stands: the position it has reached in the current
/// pass over the messages, and whether that pass has delivered one.
pub struct PendingMessages<P> where P: OperationParameter {
    messages: Vec<CRDTOperationMessage<P>>,
    index: usize,
    pass_added: bool,
}

impl<P> PendingMessages<P> where P: OperationParameter {
    pub closed spec fn messages_of(&self) -> Seq<CRDTOperationMessage<P>> {
        self.messages@
    }

    pub closed spec fn index_of(&self) -> int {
        self.index as int
    }

    pub closed spec fn pass_added_of(&self) -> bool {
        self.pass_added
    }

    pub open spec fn wf(&self) -> bool {
        0 <= self.index_of() <= self.messages_of().len()
    }

    /// Unless the current pass has delivered a message, none of the messages it has
    /// passed over can be delivered on `dag`.
    pub open spec fn retries_sound(&self, dag: Dag<VertexLabel<P>>) -> bool {
        !self.pass_added_of() ==> forall|j: int| 0 <= j < self.index_of() ==> !#[trigger] deliverable(dag, self.messages_of()[j])
    }

    /// The position of the message the round of retries delivers next on `dag`: the
    /// first deliverable one from where the pass stands, else, when the pass has
    /// delivered one, the first deliverable one of a new pass; none when there is none.
    pub open spec fn next_delivery(&self, dag: Dag<VertexLabel<P>>) -> Option<int> {
        match first_deliverable(dag, self.messages_of(), self.index_of()) {
            Some(j) => Some(j),
            None => if self.pass_added_of() {
                first_deliverable(dag, self.messages_of(), 0)
            } else {
                None
            },
        }
    }

    /// No message kept.
    pub fn new() -> (r: PendingMessages<P>)
        ensures
            r.wf(),
            r.messages_of() == Seq::<CRDTOperationMessage<P>>::empty(),
            r.index_of() == 0,
            !r.pass_added_of(),
            forall|dag: Dag<VertexLabel<P>>| r.retries_sound(dag),
    {
        PendingMessages { messages: Vec::new(), index: 0, pass_added: false }
    }

    /// The number of messages kept.
    pub fn len(&self) -> (r: usize)
        ensures
            r == self.messages_of().len(),
    {
        self.messages.len()
    }

    /// Starts a round of retries: a pass from the first message.
    pub fn start_retries(&mut self)
        ensures
            final(self).wf(),
            final(self).messages_of() == old(self).messages_of(),
            final(self).index_of() == 0,
            !final(self).pass_added_of(),
            forall|dag: Dag<VertexLabel<P>>| final(self).retries_sound(dag),
    {
        self.index = 0;
        self.pass_added = false;
    }

    /// A message from another replica: added to the replica's DAG when deliverable
    /// (and a round of retries of the kept messages starts), else kept for later.
    pub fn receive<S, M, R, L>(&mut self, crdt: &mut CRDT<S, P, M, R, L>, m: CRDTOperationMessage<P>) -> (r: bool) where
        S: Clone,
        M: Fn(&S, &Operation<P>) -> S,
        R: Fn(&Dag<VertexLabel<P>>) -> Vec<&VertexLabel<P>>,
        L: Fn(&S, &Operation<P>) -> bool,

        requires
            old(self).wf(),
            old(crdt).wf(),
        ensures
            final(self).wf(),
            final(crdt).wf(),
            r == deliverable(old(crdt).dag_of(), m),
            r ==> old(crdt).received(*final(crdt), m.vertex, m.causal_context@),
            r ==> final(self).messages_of() == old(self).messages_of(),
            r ==> final(self).index_of() == 0 && !final(self).pass_added_of(),
            !r ==> *final(crdt) == *old(crdt),
            !r ==> final(self).messages_of() == old(self).messages_of().push(m),
            !r ==> final(self).index_of() == old(self).index_of(),
            !r ==> final(self).pass_added_of() == old(self).pass_added_of(),
            r ==> final(self).retries_sound(final(crdt).dag_of()),
            !r && old(self).retries_sound(old(crdt).dag_of()) ==> final(self).retries_sound(final(crdt).dag_of()),
    {
        if is_deliverable(crdt.get_dag(), &m) {
            let added = crdt.append_with_causal_context(m.vertex, m.causal_context);
            self.index = 0;
            self.pass_added = false;
            true
        } else {
            self.messages.push(m);
            false
        }
    }

    /// The next step of the round of retries: delivers the message at
    /// `next_delivery` (it leaves the kept messages, the last one taking its place, and
    /// the pass goes on from its position), or tells that the round is over.
    pub fn retry_next<S, M, R, L>(&mut self, crdt: &mut CRDT<S, P, M, R, L>) -> (r: bool) where
        S: Clone,
        M: Fn(&S, &Operation<P>) -> S,
        R: Fn(&Dag<VertexLabel<P>>) -> Vec<&VertexLabel<P>>,
        L: Fn(&S, &Operation<P>) -> bool,

        requires
            old(self).wf(),
            old(crdt).wf(),
        ensures
            final(self).wf(),
            final(crdt).wf(),
            r == old(self).next_delivery(old(crdt).dag_of()) is Some,
            old(self).next_delivery(old(crdt).dag_of()) matches Some(j) ==> {
                let m = old(self).messages_of()[j];
                &&& old(crdt).received(*final(crdt), m.vertex, m.causal_context@)
                &&& final(self).messages_of() == swap_removed(old(self).messages_of(), j)
                &&& final(self).index_of() == j
                &&& final(self).pass_added_of()
            },
            old(self).next_delivery(old(crdt).dag_of()) is None ==> {
                &&& *final(crdt) == *old(crdt)
                &&& final(self).messages_of() == old(self).messages_of()
                &&& final(self).index_of() == old(self).messages_of().len()
                &&& !final(self).pass_added_of()
            },
            r ==> final(self).retries_sound(final(crdt).dag_of()),
            !r && old(self).retries_sound(old(crdt).dag_of()) ==> forall|j: int|
                0 <= j < final(self).messages_of().len() ==> !#[trigger] deliverable(
                    final(crdt).dag_of(),
                    final(self).messages_of()[j],
                ),
    {
        let ghost goal = old(self).next_delivery(old(crdt).dag_of());
        loop
            invariant
                self.wf(),
                crdt.wf(),
                *crdt == *old(crdt),
                self.messages_of() == old(self).messages_of(),
                self.next_delivery(crdt.dag_of()) == goal,
                goal == old(self).next_delivery(old(crdt).dag_of()),
                old(self).retries_sound(old(crdt).dag_of()) ==> self.retries_sound(crdt.dag_of()),
            decreases self.messages@.len(), (if self.pass_added { 1int } else { 0int }), self.messages@.len() - self.index,
        {
            if self.index < self.messages.len() {
                let ok = is_deliverable(crdt.get_dag(), &self.messages[self.index]);
                if ok {
                    let ghost j = self.index as int;
                    let ghost before = self.messages@;
                    let m = self.messages.swap_remove(self.index);
                    self.pass_added = true;
                    let added = crdt.append_with_causal_context(m.vertex, m.causal_context);
                    proof {
                        assert(before[j] == m);
                    }
                    return true;
                } else {
                    self.index = self.index + 1;
                }
            } else if self.pass_added {
                self.pass_added = false;
                self.index = 0;
            } else {
                return false;
            }
        }
    }
}

} // verus!
