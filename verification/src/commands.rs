use vstd::prelude::*;
use std::cmp::Ordering;
use crate::CommandsParameter;
use crate::crdt::{Operation, VertexLabel};
use crate::dag::Vertex;
use crate::metrics::copy_operation;
use crate::crdt::reconciliation_functions::ranks_by;

verus! {

/// The state of the experiment's commands: `op` added after those of `state`.
pub fn mutate_commands(state: &Vec<Operation<CommandsParameter>>, op: &Operation<CommandsParameter>) -> (r: Vec<Operation<CommandsParameter>>)
    ensures
        r@ == state@.push(*op),
{
    let mut r: Vec<Operation<CommandsParameter>> = Vec::new();
    let mut i: usize = 0;
    while i < state.len()
        invariant
            0 <= i <= state@.len(),
            r@ == state@.take(i as int),
        decreases state@.len() - i,
    {
        r.push(copy_operation(&state[i]));
        i = i + 1;
        assert(r@ =~= state@.take(i as int));
    }
    assert(state@.take(state@.len() as int) =~= state@);
    r.push(copy_operation(op));
    r
}

/// The key `commands_order` ranks vertices by: the operation identifier, then the
/// process of the vertex.
pub open spec fn command_key(v: Vertex<VertexLabel<CommandsParameter>>) -> int {
    v.label.op.id * 0x1_0000_0000 + v.id.process_id
}

/// Orders the experiment's vertices by operation identifier, then by process.
pub fn commands_order(v1: &Vertex<VertexLabel<CommandsParameter>>, v2: &Vertex<VertexLabel<CommandsParameter>>) -> (r: Ordering)
    ensures
        r == Ordering::Less <==> command_key(*v1) < command_key(*v2),
        r == Ordering::Greater <==> command_key(*v1) > command_key(*v2),
{
    if v1.label.op.id < v2.label.op.id {
        Ordering::Less
    } else if v1.label.op.id > v2.label.op.id {
        Ordering::Greater
    } else if v1.id.process_id < v2.id.process_id {
        Ordering::Less
    } else if v1.id.process_id > v2.id.process_id {
        Ordering::Greater
    } else {
        Ordering::Equal
    }
}

/// `commands_order` ranks vertices by `command_key`, so the convergence laws of the
/// reconciliations that sort by an order apply to it.
pub proof fn lemma_commands_order_ranks()
    ensures
        ranks_by(commands_order, |v: Vertex<VertexLabel<CommandsParameter>>| command_key(v)),
{
}

} // verus!
