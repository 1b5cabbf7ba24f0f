use proberv2::extender::{
    candidate_names, filter_handler, prioritize_handler, ExtenderArgs, Metadata, Node, NodeList,
};
use proberv2::state::{AppState, Probe, ProberHost};

fn probe(host: &str, cpu: u32, lat: u32) -> Probe {
    Probe { hostname: host.to_string(), cpu_ewma_score: cpu, latency_ewma_score: lat }
}

fn node(name: Option<&str>) -> Node {
    Node { metadata: Metadata { name: name.map(|n| n.to_string()) } }
}

fn state_with(probes: Vec<Probe>) -> AppState {
    let mut s = AppState::new("riset".to_string(), "http://prom:9090".to_string());
    assert!(s.replace_probes(probes));
    s
}

fn names(v: &[&str]) -> Vec<String> {
    v.iter().map(|s| s.to_string()).collect()
}

fn failed(r: &[(String, String)], n: &str) -> Option<String> {
    r.iter().find(|(k, _)| k == n).map(|(_, v)| v.clone())
}

#[test]
fn filter_rejects_overloaded_and_unknown() {
    let mut st = state_with(vec![probe("n1", 400_000, 300_000), probe("n2", 900_000, 200_000)]);
    let args = ExtenderArgs { nodes: NodeList { items: vec![] }, node_names: Some(names(&["n1", "n2", "n3"])) };
    let r = filter_handler(&mut st, &args);
    let kept: Vec<String> = r.nodes.items.iter().map(|n| n.metadata.name.clone().unwrap()).collect();
    assert_eq!(kept, names(&["n1"]));
    assert_eq!(r.failed_nodes.len(), 2);
    let over = failed(&r.failed_nodes, "n2").unwrap();
    assert!(over.starts_with("Over threshold"));
    assert_eq!(over, "Over threshold: CPU=0.900 (limit 0.85), Latency=0.200 (limit 0.50)");
    assert_eq!(failed(&r.failed_nodes, "n3").unwrap(), "No probe data available");
    assert_eq!(st.get_last_filtered_nodes(), names(&["n1"]));
}

#[test]
fn filter_latency_limit_and_edges() {
    let mut st = state_with(vec![
        probe("a", 850_000, 500_000),
        probe("b", 850_001, 0),
        probe("c", 0, 500_001),
    ]);
    let args = ExtenderArgs { nodes: NodeList { items: vec![] }, node_names: Some(names(&["a", "b", "c", "", "a"])) };
    let r = filter_handler(&mut st, &args);
    let kept: Vec<String> = r.nodes.items.iter().map(|n| n.metadata.name.clone().unwrap()).collect();
    assert_eq!(kept, names(&["a", "a"]));
    assert!(failed(&r.failed_nodes, "b").is_some());
    assert!(failed(&r.failed_nodes, "c").is_some());
    assert!(failed(&r.failed_nodes, "").is_none());
    assert_eq!(r.failed_nodes.len(), 2);
}

#[test]
fn filter_defaults_to_monitored_nodes() {
    let mut st = state_with(vec![probe("n1", 100_000, 100_000), probe("n2", 950_000, 100_000)]);
    let args = ExtenderArgs { nodes: NodeList { items: vec![] }, node_names: None };
    let r = filter_handler(&mut st, &args);
    assert_eq!(r.nodes.items.len(), 1);
    assert_eq!(r.nodes.items[0].metadata.name.as_deref(), Some("n1"));
    assert!(failed(&r.failed_nodes, "n2").is_some());
}

#[test]
fn inline_nodes_take_precedence() {
    let args = ExtenderArgs {
        nodes: NodeList { items: vec![node(Some("x")), node(None), node(Some("y"))] },
        node_names: Some(names(&["z"])),
    };
    assert_eq!(candidate_names(&args, names(&["w"])), names(&["x", "y"]));
    let args = ExtenderArgs { nodes: NodeList { items: vec![] }, node_names: None };
    assert_eq!(candidate_names(&args, names(&["w"])), names(&["w"]));
}

#[test]
fn prioritize_applies_warning_penalty() {
    let mut st = state_with(vec![probe("n1", 750_000, 200_000), probe("n2", 200_000, 100_000)]);
    let args = ExtenderArgs { nodes: NodeList { items: vec![node(Some("n1")), node(Some("n2"))] }, node_names: None };
    let r = prioritize_handler(&mut st, &args);
    assert_eq!(r.len(), 2);
    assert_eq!(r[0].host, "n1");
    // round((0.3·0.75 + 0.7·0.2)·100) = round(36.5) = 37, less the penalty of 15
    assert_eq!(r[0].score, 22);
    assert_eq!(r[1].host, "n2");
    // round((0.3·0.2 + 0.7·0.1)·100) = 13, outside the warning zone
    assert_eq!(r[1].score, 13);
    assert_eq!(st.get_pod_count_on_node(&"n1".to_string()), 1);
    assert_eq!(st.get_pod_count_on_node(&"n2".to_string()), 0);
}

#[test]
fn prioritize_scores_stay_in_range() {
    let mut st = state_with(vec![
        probe("hi", 1_000_000, 1_000_000),
        probe("big", 4_000_000_000, 4_000_000_000),
        probe("zone_low", 700_000, 0),
        probe("zone_high", 850_000, 0),
        probe("above_zone", 850_001, 0),
        probe("zero", 0, 0),
    ]);
    let args = ExtenderArgs {
        nodes: NodeList { items: vec![] },
        node_names: Some(names(&["hi", "big", "zone_low", "zone_high", "above_zone", "zero", "none"])),
    };
    let r = prioritize_handler(&mut st, &args);
    let scores: Vec<i64> = r.iter().map(|h| h.score).collect();
    // zone_low: round(21) − 15 = 6; zone_high: round(25.5) = 26 − 15 = 11; above_zone: 26
    assert_eq!(scores, vec![100, 100, 6, 11, 26, 0, 10]);
    for s in scores {
        assert!((0..=100).contains(&s));
    }
    // the first of the highest scores is the best one
    assert_eq!(st.get_pod_count_on_node(&"hi".to_string()), 1);
    assert_eq!(st.get_pod_count_on_node(&"big".to_string()), 0);
}

#[test]
fn prioritize_defaults_to_last_filtered() {
    let mut st = state_with(vec![probe("n1", 100_000, 100_000)]);
    st.update_last_filtered(names(&["n1", "n9"]));
    let args = ExtenderArgs { nodes: NodeList { items: vec![] }, node_names: None };
    let r = prioritize_handler(&mut st, &args);
    assert_eq!(r.len(), 2);
    assert_eq!(r[1].score, 10);
    let empty = prioritize_handler(&mut st, &ExtenderArgs { nodes: NodeList { items: vec![] }, node_names: Some(vec![]) });
    assert!(empty.is_empty());
}

#[test]
fn probe_scoring_methods() {
    let p = probe("n", 750_000, 200_000);
    assert!(p.meets_thresholds(850_000, 500_000));
    assert!(!p.meets_thresholds(700_000, 500_000));
    assert_eq!(p.calculate_combined_score(300_000, 700_000), 365_000_000_000);
    assert_eq!(p.to_scheduler_score(300_000, 700_000), 37);
    assert_eq!(probe("n", 4_000_000_000, 0).to_scheduler_score(1_000_000, 0), 100);
}

#[test]
fn state_cache_and_counters() {
    let mut st = AppState::new("riset".to_string(), "http://prom:9090".to_string());
    assert!(st.get_probe(&"n1".to_string()).is_none());
    assert!(st.replace_probes(vec![probe("n1", 100, 200), probe("n2", 300, 400)]));
    assert!(!st.replace_probes(vec![]));
    let mut monitored = st.get_monitored_nodes();
    monitored.sort();
    assert_eq!(monitored, names(&["n1", "n2"]));
    let p = st.get_probe(&"n2".to_string()).unwrap();
    assert_eq!((p.cpu_ewma_score, p.latency_ewma_score), (300, 400));
    assert!(st.apply_cpu_penalty(&"n1".to_string(), 50));
    assert_eq!(st.get_probe(&"n1".to_string()).unwrap().cpu_ewma_score, 150);
    assert!(!st.apply_cpu_penalty(&"zz".to_string(), 50));
    assert!(st.apply_cpu_penalty(&"n2".to_string(), u32::MAX));
    assert_eq!(st.get_probe(&"n2".to_string()).unwrap().cpu_ewma_score, u32::MAX);
    st.increment_pod_count(&"n1".to_string());
    st.increment_pod_count(&"n1".to_string());
    st.increment_pod_count(&"n2".to_string());
    assert_eq!(st.get_pod_count_on_node(&"n1".to_string()), 2);
    assert_eq!(st.get_pod_count_on_node(&"n2".to_string()), 1);
    st.set_local_node("n2".to_string());
    assert_eq!(st.local_node, "n2");
    st.refresh_prober_mapping(vec![ProberHost { node: "n2".to_string(), host: "prober-1.p:3000".to_string() }]);
    assert_eq!(st.lookup_prober_host_for(&"n2".to_string()).as_deref(), Some("prober-1.p:3000"));
    assert!(st.lookup_prober_host_for(&"n1".to_string()).is_none());
}

#[test]
fn query_url_is_percent_encoded() {
    let st = AppState::new("riset".to_string(), "http://prom:9090".to_string());
    assert_eq!(
        st.scores_query_url("topk(1, sum by (node) (rate(x{e=\"web\"}[1m])))"),
        "http://prom:9090/api/v1/query?query=topk%281%2C%20sum%20by%20%28node%29%20%28rate%28x%7Be%3D%22web%22%7D%5B1m%5D%29%29%29"
    );
    assert_eq!(st.scores_query_url("a-b_c.d~"), "http://prom:9090/api/v1/query?query=a-b_c.d~");
}

#[test]
fn fetched_duplicates_keep_the_last_probe() {
    let mut st = AppState::new("riset".to_string(), "http://prom:9090".to_string());
    assert!(st.replace_probes(vec![probe("n1", 100, 200), probe("n2", 300, 400), probe("n1", 500, 600)]));
    assert_eq!(st.probes.len(), 2);
    let p = st.get_probe(&"n1".to_string()).unwrap();
    assert_eq!((p.cpu_ewma_score, p.latency_ewma_score), (500, 600));
    let p = st.get_probe(&"n2".to_string()).unwrap();
    assert_eq!((p.cpu_ewma_score, p.latency_ewma_score), (300, 400));
    let mut monitored = st.get_monitored_nodes();
    monitored.sort();
    assert_eq!(monitored, names(&["n1", "n2"]));
}
