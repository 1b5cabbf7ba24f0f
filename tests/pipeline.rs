use proberv2::model::Ipv4;
use proberv2::net::parse_ipv4;
use proberv2::producer::EwmaTracker;
use proberv2::query::{
    busiest_node, contains_text, cpu_query, get_excluded_namespaces, get_prober_mapping, probe_url,
    prober_host, scores_url, ProberPod,
};
use proberv2::score::{cpu_headroom, cpu_headroom_from_usage, ewma, headroom, latency_headroom};
use proberv2::text::{decimal_string, ipv4_string, push_fixed3};
use proberv2::watch::{find_internal_ip, group_endpoints, service_from_endpoints, worker_node, EndpointAddress, NodeAddress};

fn ip(a: u8, b: u8, c: u8, d: u8) -> Ipv4 {
    Ipv4 { a, b, c, d }
}

#[test]
fn ewma_formula() {
    assert_eq!(ewma(400_000, 500_000, None), 500_000);
    // 0.4·0.5 + 0.6·1.0 = 0.8
    assert_eq!(ewma(400_000, 500_000, Some(1_000_000)), 800_000);
    assert_eq!(ewma(1_000_000, 123_456, Some(999_999)), 123_456);
    // 0.3·0.1 + 0.7·0.2 = 0.17
    assert_eq!(ewma(300_000, 100_000, Some(200_000)), 170_000);
    assert_eq!(ewma(1, 1_000_000, Some(1_000_000)), 1_000_000);
}

#[test]
fn latency_normalisation() {
    assert_eq!(latency_headroom(0, 200), 1_000_000);
    assert_eq!(latency_headroom(50, 200), 750_000);
    assert_eq!(latency_headroom(200, 200), 0);
    assert_eq!(latency_headroom(10_000, 200), 0);
    assert_eq!(latency_headroom(1, 3), 666_666);
    assert_eq!(headroom(u64::MAX - 1, u64::MAX), 0);
}

#[test]
fn cpu_normalisation() {
    assert_eq!(cpu_headroom(250_000), 750_000);
    assert_eq!(cpu_headroom(0), 1_000_000);
    assert_eq!(cpu_headroom(1_500_000), 0);
    // 500 millicores of 2 cores: 75% head-room
    assert_eq!(cpu_headroom_from_usage(500_000_000, 2), 750_000);
    assert_eq!(cpu_headroom_from_usage(999_999, 1), 1_000_000);
    assert_eq!(cpu_headroom_from_usage(3_000_000_000, 2), 0);
}

#[test]
fn empty_cpu_result_keeps_average() {
    let mut t = EwmaTracker::new();
    let n1 = "n1".to_string();
    assert_eq!(t.observe_cpu(&n1, Some(200_000), 500_000), Some(800_000));
    assert_eq!(t.observe_cpu(&n1, None, 500_000), None);
    assert_eq!(t.previous(&n1), Some(800_000));
    // 0.5·0.4 + 0.5·0.8 = 0.6
    assert_eq!(t.observe_cpu(&n1, Some(600_000), 500_000), Some(600_000));
    assert_eq!(t.previous(&n1), Some(600_000));
}

#[test]
fn latency_tracker_per_node() {
    let mut t = EwmaTracker::new();
    let a = "a".to_string();
    let b = "b".to_string();
    assert_eq!(t.observe_latency(&a, Some(100), 200, 400_000), Some(500_000));
    assert_eq!(t.observe_latency(&b, Some(0), 200, 400_000), Some(1_000_000));
    assert_eq!(t.observe_latency(&a, None, 200, 400_000), None);
    // 0.4·0 + 0.6·0.5 = 0.3
    assert_eq!(t.observe_latency(&a, Some(400), 200, 400_000), Some(300_000));
    assert_eq!(t.previous(&b), Some(1_000_000));
    assert_eq!(t.previous(&"c".to_string()), None);
}

#[test]
fn ipv4_text_round_trip() {
    assert_eq!(parse_ipv4("10.0.0.1"), Some(ip(10, 0, 0, 1)));
    assert_eq!(parse_ipv4("255.255.255.255"), Some(ip(255, 255, 255, 255)));
    assert_eq!(parse_ipv4("0.0.0.0"), Some(ip(0, 0, 0, 0)));
    assert_eq!(ipv4_string(ip(192, 168, 10, 254)), "192.168.10.254");
    assert_eq!(parse_ipv4(&ipv4_string(ip(1, 20, 100, 7))), Some(ip(1, 20, 100, 7)));
}

#[test]
fn ipv4_rejects_malformed_text() {
    for bad in ["", "1.2.3", "1.2.3.4.5", "256.0.0.1", "01.2.3.4", "1.2.3.", ".1.2.3", "1..2.3", "1.2.3.4 ", "a.b.c.d", "1000.1.1.1", "fe80::1"] {
        assert_eq!(parse_ipv4(bad), None, "{bad}");
    }
}

#[test]
fn decimal_and_fixed_point_text() {
    assert_eq!(decimal_string(0), "0");
    assert_eq!(decimal_string(9), "9");
    assert_eq!(decimal_string(10), "10");
    assert_eq!(decimal_string(18_446_744_073_709_551_615), "18446744073709551615");
    let mut s = String::new();
    push_fixed3(&mut s, 365_000);
    assert_eq!(s, "0.365");
    let mut s = String::new();
    push_fixed3(&mut s, 1_234_567);
    assert_eq!(s, "1.235");
    let mut s = String::new();
    push_fixed3(&mut s, 999_500);
    assert_eq!(s, "1.000");
    let mut s = String::new();
    push_fixed3(&mut s, 7_000);
    assert_eq!(s, "0.007");
}

#[test]
fn internal_ip_selection() {
    let addrs = vec![
        NodeAddress { type_: "Hostname".to_string(), address: "worker-1".to_string() },
        NodeAddress { type_: "InternalIP".to_string(), address: "10.1.2.3".to_string() },
        NodeAddress { type_: "InternalIP".to_string(), address: "10.9.9.9".to_string() },
    ];
    assert_eq!(find_internal_ip(&addrs), Some(ip(10, 1, 2, 3)));
    let w = worker_node("worker-1".to_string(), &addrs).unwrap();
    assert_eq!(w.name, "worker-1");
    assert_eq!(w.ip, ip(10, 1, 2, 3));
    let bad = vec![NodeAddress { type_: "InternalIP".to_string(), address: "fd00::1".to_string() }];
    assert_eq!(find_internal_ip(&bad), None);
    assert!(worker_node("x".to_string(), &vec![]).is_none());
}

fn addr(ip: &str, node: Option<&str>) -> EndpointAddress {
    EndpointAddress { ip: ip.to_string(), node_name: node.map(|n| n.to_string()) }
}

#[test]
fn endpoints_grouped_by_node() {
    let g = group_endpoints(&vec![
        addr("10.0.0.1", Some("n1")),
        addr("10.0.0.2", Some("n2")),
        addr("10.0.0.3", None),
        addr("10.0.0.4", Some("n1")),
        addr("bogus", Some("n3")),
    ]);
    assert_eq!(g.len(), 2);
    assert_eq!(g[0].node, "n1");
    assert_eq!(g[0].endpoints, vec![ip(10, 0, 0, 1), ip(10, 0, 0, 4)]);
    assert_eq!(g[1].node, "n2");
    assert_eq!(g[1].endpoints, vec![ip(10, 0, 0, 2)]);
}

#[test]
fn same_node_endpoints_make_one_group() {
    let s = service_from_endpoints(
        "web".to_string(),
        30080,
        8080,
        &vec![addr("10.0.0.1", Some("n1")), addr("10.0.0.2", Some("n1"))],
    )
    .unwrap();
    assert_eq!(s.endpoints_by_nodename.len(), 1);
    let table = vec![proberv2::model::NodeScore {
        node: proberv2::model::WorkerNode { name: "n1".to_string(), ip: ip(10, 0, 1, 1) },
        score: proberv2::model::ScorePair { latency: Some(500_000), cpu: Some(500_000) },
    }];
    assert!(proberv2::plan::plan_service(&table, &s, "svc", 100).is_none());
}

#[test]
fn api_service_is_ignored() {
    assert!(service_from_endpoints("kubernetes".to_string(), 443, 6443, &vec![addr("10.0.0.1", Some("n1"))]).is_none());
    let s = service_from_endpoints("kubernetes-dashboard".to_string(), 30001, 8443, &vec![]).unwrap();
    assert_eq!((s.nodeport, s.targetport), (30001, 8443));
}

#[test]
fn query_texts() {
    assert_eq!(
        cpu_query(ip(10, 0, 0, 7)),
        r#"(1 - avg(irate(node_cpu_seconds_total{mode="idle",instance="10.0.0.7:9100"}[5m])) by (instance))"#
    );
    assert_eq!(probe_url(ip(10, 0, 0, 7), 8080), "http://10.0.0.7:8080");
    assert_eq!(
        prober_host(&"prober-0".to_string(), &"prober.riset.svc.cluster.local".to_string(), &"3000".to_string()),
        "prober-0.prober.riset.svc.cluster.local:3000"
    );
    assert_eq!(scores_url(&"prober-0.p:3000".to_string()), "http://prober-0.p:3000/scores");
    assert_eq!(
        get_excluded_namespaces(),
        "metadata.namespace!=cert-manager,metadata.namespace!=flux2,metadata.namespace!=linkerd,metadata.namespace!=linkerd-jaeger,metadata.namespace!=linkerd-smi,metadata.namespace!=linkerd-viz,metadata.namespace!=gatekeeper-system,metadata.namespace!=kube-node-lease,metadata.namespace!=kube-public,metadata.namespace!=kube-system"
    );
}

#[test]
fn substring_search() {
    assert!(contains_text("k8s-control-plane-1", "control-plane"));
    assert!(contains_text("master", "master"));
    assert!(contains_text("abc", ""));
    assert!(!contains_text("worker-1", "master"));
    assert!(!contains_text("mas", "master"));
}

#[test]
fn busiest_worker_skips_control_plane() {
    let labels = vec![None, Some("cp-control-plane".to_string()), Some("k-master-0".to_string()), Some("worker-2".to_string()), Some("worker-3".to_string())];
    assert_eq!(busiest_node(&labels).as_deref(), Some("worker-2"));
    assert_eq!(busiest_node(&vec![Some("master".to_string())]), None);
    assert_eq!(busiest_node(&vec![]), None);
}

#[test]
fn prober_mapping_last_pod_wins() {
    let pods = vec![
        ProberPod { name: Some("prober-0".to_string()), node_name: Some("n1".to_string()) },
        ProberPod { name: None, node_name: Some("n2".to_string()) },
        ProberPod { name: Some("prober-1".to_string()), node_name: Some("n2".to_string()) },
        ProberPod { name: Some("prober-2".to_string()), node_name: Some("n1".to_string()) },
        ProberPod { name: Some("prober-3".to_string()), node_name: None },
    ];
    let m = get_prober_mapping(&pods, &"p".to_string(), &"3000".to_string());
    assert_eq!(m.len(), 2);
    assert_eq!((m[0].node.as_str(), m[0].host.as_str()), ("n1", "prober-2.p:3000"));
    assert_eq!((m[1].node.as_str(), m[1].host.as_str()), ("n2", "prober-1.p:3000"));
}
