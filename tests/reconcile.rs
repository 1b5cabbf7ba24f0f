use proberv2::actor::Actor;
use proberv2::config::{AlphaConfig, Config, KubernetesConfig, NftablesConfig, ProbeConfig, PrometheusConfig};
use proberv2::model::{EwmaDatapoint, Event, Ipv4, NodeEndpoints, NodeScore, ScorePair, Service, WorkerNode};
use proberv2::plan::{plan_service, ServicePlan, VerdictRange};

fn ip(a: u8, b: u8, c: u8, d: u8) -> Ipv4 {
    Ipv4 { a, b, c, d }
}

fn row(name: &str, lat: Option<u32>, cpu: Option<u32>) -> NodeScore {
    NodeScore {
        node: WorkerNode { name: name.to_string(), ip: ip(192, 168, 0, 1) },
        score: ScorePair { latency: lat, cpu },
    }
}

fn service(name: &str, groups: Vec<(&str, Vec<Ipv4>)>) -> Service {
    Service {
        name: name.to_string(),
        nodeport: 30080,
        targetport: 8080,
        endpoints_by_nodename: groups
            .into_iter()
            .map(|(n, e)| NodeEndpoints { node: n.to_string(), endpoints: e })
            .collect(),
    }
}

fn config(cap: u32) -> Config {
    Config {
        service_level_agreement: 500,
        alpha: AlphaConfig { ewma_latency: 400_000, ewma_cpu: 500_000 },
        probe: ProbeConfig { latency_interval: 15, cpu_interval: 15, nft_update_interval: 15 },
        kubernetes: KubernetesConfig { namespace: "default".to_string(), service: "web".to_string(), target_port: 8080 },
        prometheus: PrometheusConfig { url: "http://prom:9090".to_string() },
        nftables: NftablesConfig {
            table: "lb".to_string(),
            chain_prerouting: "prerouting".to_string(),
            chain_services: "services".to_string(),
            set_allowed_node_ips: "allowed_node_ips".to_string(),
            map_service_chain_by_nodeport: "service_chain_by_nodeport".to_string(),
            prefix_service_endpoint: "svc".to_string(),
            probability_cap: cap,
        },
        node_name: "n1".to_string(),
        shutdown_timeout: 5,
    }
}

fn assert_partition(p: &ServicePlan) {
    let mut next = 0u32;
    let mut total = 0u32;
    for r in &p.ranges {
        assert_eq!(r.low, next);
        assert!(r.low <= r.high);
        total += r.high - r.low + 1;
        next = r.high + 1;
    }
    assert_eq!(next, p.modulus);
    assert_eq!(total, p.modulus);
}

#[test]
fn two_nodes_weighted_by_scores() {
    let table = vec![row("n1", Some(900_000), Some(800_000)), row("n2", Some(300_000), Some(400_000))];
    let svc = service("web", vec![("n1", vec![ip(10, 0, 0, 1)]), ("n2", vec![ip(10, 0, 0, 2)])]);
    let p = plan_service(&table, &svc, "svc", 100).expect("rule emitted");
    assert_eq!(p.chain, "svc-web");
    assert_eq!(p.nodeport, 30080);
    assert_eq!(p.targetport, 8080);
    assert_eq!(p.modulus, 100);
    assert_eq!(
        p.ranges,
        vec![
            VerdictRange { low: 0, high: 72, backend: ip(10, 0, 0, 1) },
            VerdictRange { low: 73, high: 99, backend: ip(10, 0, 0, 2) },
        ]
    );
    assert_partition(&p);
}

#[test]
fn unusable_cpu_node_leaves_one_endpoint() {
    let table = vec![row("n1", Some(900_000), Some(20_000)), row("n2", Some(300_000), Some(400_000))];
    let svc = service("web", vec![("n1", vec![ip(10, 0, 0, 1)]), ("n2", vec![ip(10, 0, 0, 2)])]);
    assert!(plan_service(&table, &svc, "svc", 100).is_none());
}

#[test]
fn single_node_service_emits_nothing() {
    let table = vec![row("n1", Some(900_000), Some(800_000))];
    let svc = service("web", vec![("n1", vec![ip(10, 0, 0, 1), ip(10, 0, 0, 2)])]);
    assert!(plan_service(&table, &svc, "svc", 100).is_none());
}

#[test]
fn node_without_scores_is_skipped() {
    let table = vec![row("n1", Some(900_000), None), row("n2", Some(300_000), Some(400_000))];
    let svc = service("web", vec![("n1", vec![ip(10, 0, 0, 1)]), ("n2", vec![ip(10, 0, 0, 2)])]);
    assert!(plan_service(&table, &svc, "svc", 100).is_none());
}

#[test]
fn two_single_endpoint_nodes_fill_the_cap() {
    for (l1, c1, l2, c2, cap) in [
        (900_000, 800_000, 300_000, 400_000, 100),
        (500_000, 500_000, 500_000, 500_000, 100),
        (100_000, 60_000, 1_000_000, 940_000, 100),
        (700_000, 300_000, 200_000, 900_000, 7),
        (400_000, 400_000, 600_000, 600_000, 1000),
    ] {
        let table = vec![row("a", Some(l1), Some(c1)), row("b", Some(l2), Some(c2))];
        let svc = service("s", vec![("a", vec![ip(10, 0, 0, 1)]), ("b", vec![ip(10, 0, 0, 2)])]);
        let p = plan_service(&table, &svc, "svc", cap).expect("rule emitted");
        assert_eq!(p.modulus, cap);
        assert_partition(&p);
    }
}

#[test]
fn node_portion_split_evenly_among_endpoints() {
    let table = vec![row("n1", Some(500_000), Some(500_000)), row("n2", Some(500_000), Some(500_000))];
    let svc = service(
        "web",
        vec![("n1", vec![ip(10, 0, 0, 1), ip(10, 0, 0, 2), ip(10, 0, 0, 3)]), ("n2", vec![ip(10, 0, 0, 4)])],
    );
    let p = plan_service(&table, &svc, "svc", 100).expect("rule emitted");
    assert_eq!(
        p.ranges,
        vec![
            VerdictRange { low: 0, high: 16, backend: ip(10, 0, 0, 1) },
            VerdictRange { low: 17, high: 33, backend: ip(10, 0, 0, 2) },
            VerdictRange { low: 34, high: 49, backend: ip(10, 0, 0, 3) },
            VerdictRange { low: 50, high: 99, backend: ip(10, 0, 0, 4) },
        ]
    );
    assert_eq!(p.modulus, 100);
    assert_partition(&p);
}

#[test]
fn weight_floor_keeps_a_poor_node_in() {
    let table = vec![row("n1", Some(0), Some(60_000)), row("n2", Some(1_000_000), Some(900_000))];
    let svc = service("web", vec![("n1", vec![ip(10, 0, 0, 1)]), ("n2", vec![ip(10, 0, 0, 2)])]);
    let p = plan_service(&table, &svc, "svc", 100).expect("rule emitted");
    // weights 1_000_000 and 9_700_000 of 10_700_000: portions 9 and 91
    assert_eq!(
        p.ranges,
        vec![
            VerdictRange { low: 0, high: 8, backend: ip(10, 0, 0, 1) },
            VerdictRange { low: 9, high: 99, backend: ip(10, 0, 0, 2) },
        ]
    );
}

#[test]
fn ranges_are_cut_at_the_cap() {
    let table = vec![
        row("a", Some(500_000), Some(500_000)),
        row("b", Some(500_000), Some(500_000)),
        row("c", Some(500_000), Some(500_000)),
    ];
    let svc = service(
        "web",
        vec![("a", vec![ip(10, 0, 0, 1)]), ("b", vec![ip(10, 0, 0, 2)]), ("c", vec![ip(10, 0, 0, 3)])],
    );
    // each third of 2 rounds to 1, and the third share no longer fits
    let p = plan_service(&table, &svc, "svc", 2).expect("rule emitted");
    assert_eq!(p.modulus, 2);
    assert_eq!(p.ranges.len(), 2);
    assert_partition(&p);
}

#[test]
fn identical_inputs_give_identical_plans() {
    let table = vec![row("n1", Some(900_000), Some(800_000)), row("n2", Some(300_000), Some(400_000))];
    let svc = service("web", vec![("n1", vec![ip(10, 0, 0, 1)]), ("n2", vec![ip(10, 0, 0, 2), ip(10, 0, 0, 3)])]);
    let a = plan_service(&table, &svc, "svc", 100).unwrap();
    let b = plan_service(&table, &svc, "svc", 100).unwrap();
    assert_eq!(a.chain, b.chain);
    assert_eq!(a.modulus, b.modulus);
    assert_eq!(a.ranges, b.ranges);
}

fn joined(name: &str, last: u8) -> Event {
    Event::NodeJoined(WorkerNode { name: name.to_string(), ip: ip(192, 168, 0, last) })
}

fn names(actor: &Actor) -> Vec<String> {
    actor.datapoint_by_nodename.iter().map(|r| r.node.name.clone()).collect()
}

#[test]
fn score_table_holds_announced_nodes_only() {
    let mut actor = Actor::new(config(100));
    assert!(actor.handle(joined("n1", 1)).is_empty());
    assert!(actor.handle(joined("n2", 2)).is_empty());
    let r = actor.handle(Event::EwmaCalculated("ghost".to_string(), EwmaDatapoint::Cpu(500_000)));
    assert!(r.is_empty());
    assert_eq!(names(&actor), vec!["n1".to_string(), "n2".to_string()]);
}

#[test]
fn second_join_changes_nothing() {
    let mut actor = Actor::new(config(100));
    actor.handle(joined("n1", 1));
    actor.handle(Event::EwmaCalculated("n1".to_string(), EwmaDatapoint::Latency(700_000)));
    actor.handle(joined("n1", 9));
    assert_eq!(actor.datapoint_by_nodename.len(), 1);
    assert_eq!(actor.datapoint_by_nodename[0].node.ip, ip(192, 168, 0, 1));
    assert_eq!(actor.datapoint_by_nodename[0].score, ScorePair { latency: Some(700_000), cpu: None });
}

#[test]
fn out_of_range_ewma_is_dropped() {
    let mut actor = Actor::new(config(100));
    actor.handle(joined("n1", 1));
    actor.handle(Event::EwmaCalculated("n1".to_string(), EwmaDatapoint::Cpu(1_000_001)));
    assert_eq!(actor.datapoint_by_nodename[0].score, ScorePair { latency: None, cpu: None });
    actor.handle(Event::EwmaCalculated("n1".to_string(), EwmaDatapoint::Cpu(1_000_000)));
    assert_eq!(actor.datapoint_by_nodename[0].score, ScorePair { latency: None, cpu: Some(1_000_000) });
}

#[test]
fn cpu_recovery_readmits_node() {
    let mut actor = Actor::new(config(100));
    actor.handle(joined("n1", 1));
    actor.handle(joined("n2", 2));
    let svc = service("web", vec![("n1", vec![ip(10, 0, 0, 1)]), ("n2", vec![ip(10, 0, 0, 2)])]);
    assert_eq!(actor.handle(Event::ServiceChanged(svc)), vec![30080]);
    actor.handle(Event::EwmaCalculated("n1".to_string(), EwmaDatapoint::Latency(900_000)));
    actor.handle(Event::EwmaCalculated("n1".to_string(), EwmaDatapoint::Cpu(960_000)));
    actor.handle(Event::EwmaCalculated("n2".to_string(), EwmaDatapoint::Latency(300_000)));
    actor.handle(Event::EwmaCalculated("n2".to_string(), EwmaDatapoint::Cpu(400_000)));
    assert!(actor.plan_for(30080).is_none());
    let r = actor.handle(Event::EwmaCalculated("n1".to_string(), EwmaDatapoint::Cpu(900_000)));
    assert_eq!(r, vec![30080]);
    let p = actor.plan_for(30080).expect("rule emitted");
    assert_eq!(p.ranges.len(), 2);
    assert_eq!(p.ranges[0].backend, ip(10, 0, 0, 1));
}

#[test]
fn service_change_replaces_by_nodeport() {
    let mut actor = Actor::new(config(100));
    actor.handle(Event::ServiceChanged(service("web", vec![("n1", vec![ip(10, 0, 0, 1)])])));
    actor.handle(Event::ServiceChanged(service("web2", vec![("n2", vec![ip(10, 0, 0, 2)])])));
    assert_eq!(actor.service_by_nodeport.len(), 1);
    assert_eq!(actor.service_by_nodeport[0].name, "web2");
    assert_eq!(actor.nodeports(), vec![30080]);
    assert!(actor.plan_for(1).is_none());
}

#[test]
fn ewma_without_endpoints_triggers_nothing() {
    let mut actor = Actor::new(config(100));
    actor.handle(joined("n1", 1));
    actor.handle(Event::ServiceChanged(service("web", vec![("n2", vec![ip(10, 0, 0, 2)])])));
    actor.handle(Event::EwmaCalculated("n1".to_string(), EwmaDatapoint::Latency(500_000)));
    let r = actor.handle(Event::EwmaCalculated("n1".to_string(), EwmaDatapoint::Cpu(500_000)));
    assert!(r.is_empty());
}

#[test]
fn published_scores_need_both_fields() {
    let mut actor = Actor::new(config(100));
    actor.handle(joined("n1", 1));
    actor.handle(joined("n2", 2));
    actor.handle(Event::EwmaCalculated("n1".to_string(), EwmaDatapoint::Latency(500_000)));
    actor.handle(Event::EwmaCalculated("n2".to_string(), EwmaDatapoint::Latency(600_000)));
    actor.handle(Event::EwmaCalculated("n2".to_string(), EwmaDatapoint::Cpu(700_000)));
    let s = actor.scores();
    assert_eq!(s.len(), 1);
    assert_eq!(s[0].hostname, "n2");
    assert_eq!(s[0].cpu_ewma_score, 700_000);
    assert_eq!(s[0].latency_ewma_score, 600_000);
}

#[test]
fn config_validity() {
    assert!(config(100).is_valid());
    assert!(!config(0).is_valid());
    let mut c = config(100);
    c.service_level_agreement = 0;
    assert!(!c.is_valid());
    let mut c = config(100);
    c.alpha.ewma_cpu = 1_000_001;
    assert!(!c.is_valid());
}

#[test]
fn ewma_reconciles_once_some_holding_node_is_complete() {
    let mut actor = Actor::new(config(100));
    actor.handle(joined("a", 1));
    actor.handle(joined("b", 2));
    let svc = service("web", vec![("a", vec![ip(10, 0, 0, 1)]), ("b", vec![ip(10, 0, 0, 2)])]);
    actor.handle(Event::ServiceChanged(svc));
    actor.handle(Event::EwmaCalculated("b".to_string(), EwmaDatapoint::Latency(500_000)));
    let r = actor.handle(Event::EwmaCalculated("b".to_string(), EwmaDatapoint::Cpu(500_000)));
    assert_eq!(r, vec![30080]);
    // a still lacks its CPU score, yet b is complete and holds endpoints
    let r = actor.handle(Event::EwmaCalculated("a".to_string(), EwmaDatapoint::Latency(600_000)));
    assert_eq!(r, vec![30080]);
    // an unknown node or an out-of-range value triggers nothing
    assert!(actor.handle(Event::EwmaCalculated("ghost".to_string(), EwmaDatapoint::Latency(1))).is_empty());
    assert!(actor.handle(Event::EwmaCalculated("a".to_string(), EwmaDatapoint::Cpu(2_000_000))).is_empty());
}
