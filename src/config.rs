use vstd::prelude::*;

use crate::score::SCALE;

verus! {

/// Where the CPU collector queries Prometheus.
#[derive(Clone, Debug)]
pub struct PrometheusConfig {
    pub url: String,
}

/// Names of the packet-filter objects that the agent owns, and the largest
/// modulus of a per-service random key.
#[derive(Clone, Debug)]
pub struct NftablesConfig {
    pub table: String,
    pub chain_prerouting: String,
    pub chain_services: String,
    pub set_allowed_node_ips: String,
    pub map_service_chain_by_nodeport: String,
    pub prefix_service_endpoint: String,
    pub probability_cap: u32,
}

/// EWMA weights of new samples, as fractions of `SCALE`.
#[derive(Clone, Copy, Debug)]
pub struct AlphaConfig {
    pub ewma_latency: u32,
    pub ewma_cpu: u32,
}

/// Cadences of the producers and of the periodic reconciliation, in seconds.
#[derive(Clone, Copy, Debug)]
pub struct ProbeConfig {
    pub latency_interval: u64,
    pub cpu_interval: u64,
    pub nft_update_interval: u64,
}

/// The namespace watched for endpoints, the service probed for latency and its port.
#[derive(Clone, Debug)]
pub struct KubernetesConfig {
    pub namespace: String,
    pub service: String,
    pub target_port: i32,
}

/// Configuration of the agent; `service_level_agreement` is the latency in
/// milliseconds at which a node's latency score reaches 0.
#[derive(Clone, Debug)]
pub struct Config {
    pub service_level_agreement: u64,
    pub alpha: AlphaConfig,
    pub probe: ProbeConfig,
    pub kubernetes: KubernetesConfig,
    pub prometheus: PrometheusConfig,
    pub nftables: NftablesConfig,
    pub node_name: String,
    pub shutdown_timeout: u64,
}

impl Config {
    /// The SLA is positive, both alphas lie in `(0, 1]` and the cap is positive.
    pub open spec fn valid(&self) -> bool {
        &&& self.service_level_agreement > 0
        &&& 0 < self.alpha.ewma_latency <= SCALE
        &&& 0 < self.alpha.ewma_cpu <= SCALE
        &&& self.nftables.probability_cap > 0
    }

    /// Whether the configuration can drive the agent.
    pub fn is_valid(&self) -> (r: bool)
        ensures
            r == self.valid(),
    {
        self.service_level_agreement > 0 && 0 < self.alpha.ewma_latency && self.alpha.ewma_latency
            <= SCALE && 0 < self.alpha.ewma_cpu && self.alpha.ewma_cpu <= SCALE
            && self.nftables.probability_cap > 0
    }
}

} // verus!
