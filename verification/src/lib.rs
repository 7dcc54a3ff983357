pub mod dag;
pub mod sorting;
pub mod crdt;
pub mod text;
pub mod process;
pub mod config;
pub mod metrics;
pub mod rendering;
pub mod commands;
pub mod reachability;

use vstd::prelude::*;
use crate::crdt::OperationParameter;

verus! {

/// The time elapsed since the Unix epoch as the system clock reads it
/// (`SystemTime::elapsed` on `UNIX_EPOCH`), or `None` when the clock reads a time
/// before the epoch. Nothing is stated of the duration: it is whatever the clock reads.
#[verifier::external_body]
fn elapsed_since_epoch() -> (r: Option<std::time::Duration>) {
    match std::time::UNIX_EPOCH.elapsed() {
        Ok(d) => Some(d),
        Err(_) => None,
    }
}

/// The whole number of microseconds in `d` (`Duration::as_micros`). Nothing is stated
/// of the number: a duration is opaque here.
#[verifier::external_body]
fn micros(d: std::time::Duration) -> (r: u128) {
    d.as_micros()
}

/// Parameters that record the context an operation was issued in: when, a hash of
/// the state it was issued on, and by which process.
pub trait OperationParameterWithInitialContext: OperationParameter {
    fn get_initial_context(&self) -> (u128, u64, u32);

    fn set_initial_context(&mut self, time: u128, context_hash: u64, process_id: u32);
}

/// The parameters of the commands of the experiment: the context they were issued in.
#[derive(Clone, Copy, Debug, PartialEq, Eq, Structural, Hash)]
pub struct CommandsParameter {
    time: u128,
    initial_context_hash: u64,
    process_id: u32,
}

impl CommandsParameter {
    pub closed spec fn time_of(&self) -> u128 {
        self.time
    }

    pub closed spec fn initial_context_hash_of(&self) -> u64 {
        self.initial_context_hash
    }

    pub closed spec fn process_id_of(&self) -> u32 {
        self.process_id
    }
}

impl Default for CommandsParameter {
    /// Parameters issued now (time 0 when the clock reads before the Unix epoch), with
    /// hash 0 and process 0.
    fn default() -> (r: CommandsParameter)
        ensures
            r.initial_context_hash_of() == 0,
            r.process_id_of() == 0,
    {
        let time = match elapsed_since_epoch() {
            Some(d) => micros(d),
            None => 0,
        };
        CommandsParameter { time: time, initial_context_hash: 0, process_id: 0 }
    }
}

impl OperationParameter for CommandsParameter {

}

impl OperationParameterWithInitialContext for CommandsParameter {
    fn get_initial_context(&self) -> (r: (u128, u64, u32))
        ensures
            r == (self.time_of(), self.initial_context_hash_of(), self.process_id_of()),
    {
        (self.time, self.initial_context_hash, self.process_id)
    }

    fn set_initial_context(&mut self, time: u128, context_hash: u64, process_id: u32)
        ensures
            final(self).time_of() == time,
            final(self).initial_context_hash_of() == context_hash,
            final(self).process_id_of() == process_id,
    {
        self.time = time;
        self.initial_context_hash = context_hash;
        self.process_id = process_id;
    }
}

} // verus!
