use vstd::prelude::*;

verus! {

/// The settings of a replica: its identifier, where it listens, its peers, which
/// reconciliation it uses and how long the experiment lasts, in seconds.
#[derive(Clone, Debug)]
pub struct Config {
    pub id: u32,
    pub ip: String,
    pub port: String,
    pub peers: Vec<Peer>,
    pub reconciliation_function: u8,
    pub duration: u64,
}

/// Where a peer listens.
#[derive(Clone, Debug)]
pub struct Peer {
    pub ip: String,
    pub port: String,
}

} // verus!
