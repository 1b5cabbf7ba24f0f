use vstd::prelude::*;

verus! {

/// An IPv4 address as its four octets, most significant first.
#[derive(Clone, Copy, Debug, PartialEq, Eq, Structural)]
pub struct Ipv4 {
    pub a: u8,
    pub b: u8,
    pub c: u8,
    pub d: u8,
}

/// A worker node of the cluster: its unique name and its internal address.
#[derive(Clone, Debug)]
pub struct WorkerNode {
    pub name: String,
    pub ip: Ipv4,
}

/// The smoothed scores known for one node; each field is absent until the
/// first EWMA of that kind arrives.
#[derive(Clone, Copy, Debug, PartialEq, Eq, Structural)]
pub struct ScorePair {
    pub latency: Option<u32>,
    pub cpu: Option<u32>,
}

impl ScorePair {
    /// Both scores have arrived.
    pub open spec fn both_present_spec(&self) -> bool {
        self.latency is Some && self.cpu is Some
    }

    /// Whether both scores have arrived.
    pub fn both_present(&self) -> (r: bool)
        ensures
            r == self.both_present_spec(),
    {
        self.latency.is_some() && self.cpu.is_some()
    }
}

/// One smoothed measurement of a node.
#[derive(Clone, Copy, Debug, PartialEq, Eq, Structural)]
pub enum EwmaDatapoint {
    Latency(u32),
    Cpu(u32),
}

/// The backends of a service that run on one node.
#[derive(Clone, Debug)]
pub struct NodeEndpoints {
    pub node: String,
    pub endpoints: Vec<Ipv4>,
}

/// A NodePort service and its backends grouped by node.
#[derive(Clone, Debug)]
pub struct Service {
    pub name: String,
    pub nodeport: i32,
    pub targetport: i32,
    pub endpoints_by_nodename: Vec<NodeEndpoints>,
}

/// What the producers publish to the reducer.
#[derive(Clone, Debug)]
pub enum Event {
    ServiceChanged(Service),
    EwmaCalculated(String, EwmaDatapoint),
    NodeJoined(WorkerNode),
}

/// One row of the score table.
#[derive(Clone, Debug)]
pub struct NodeScore {
    pub node: WorkerNode,
    pub score: ScorePair,
}

} // verus!
