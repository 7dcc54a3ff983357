use vstd::prelude::*;
use crate::crdt::{Operation, OperationParameter};

verus! {

/// The legality that accepts every operation on every state.
pub fn total<P, S>(state: &S, op: &Operation<P>) -> (r: bool) where P: OperationParameter
    ensures
        r,
{
    true
}

/// Applies `mutate` when `leg` accepts the operation on the state, else returns a copy
/// of the state.
pub fn mutate_if_legal<P, S, M, L>(state: &S, op: &Operation<P>, mutate: &M, leg: &L) -> (r: S) where
    P: OperationParameter,
    S: Clone,
    M: Fn(&S, &Operation<P>) -> S,
    L: Fn(&S, &Operation<P>) -> bool,

    requires
        call_requires(*leg, (state, op)),
        call_requires(*mutate, (state, op)),
    ensures
        exists|b: bool|
            #[trigger] call_ensures(*leg, (state, op), b) && (b ==> call_ensures(*mutate, (state, op), r)) && (
            !b ==> cloned(*state, r)),
{
    let b = leg(state, op);
    if b {
        mutate(state, op)
    } else {
        state.clone()
    }
}

/// The error of an operation refused by the legality of a replica.
#[derive(Debug, Clone)]
pub struct IllegalOperationError;

impl IllegalOperationError {
    /// The message of the error.
    pub fn to_string(&self) -> (r: String)
        ensures
            r@ == "illegal operation"@,
    {
        String::from_str("illegal operation")
    }
}

} // verus!
