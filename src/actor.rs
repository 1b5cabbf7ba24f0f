use vstd::prelude::*;

use crate::config::Config;
use crate::model::{EwmaDatapoint, Event, NodeScore, ScorePair, Service};
use crate::plan::{plan_matches, plan_service, ServicePlan};
use crate::score::SCALE;
use crate::state::Probe;

verus! {

/// The reducer's state: the score table and the service table. It is their
/// only writer; every change comes through `handle`.
pub struct Actor {
    pub config: Config,
    pub datapoint_by_nodename: Vec<NodeScore>,
    pub service_by_nodeport: Vec<Service>,
}

/// Index of the first row of `t` for node `name`, or −1.
pub open spec fn find_node(t: Seq<NodeScore>, name: Seq<char>) -> int
    decreases t.len(),
{
    if t.len() == 0 {
        -1
    } else {
        let k = find_node(t.drop_last(), name);
        if k >= 0 {
            k
        } else if t.last().node.name@ == name {
            t.len() - 1
        } else {
            -1
        }
    }
}

/// Index of the first service of `s` on `port`, or −1.
pub open spec fn find_port(s: Seq<Service>, port: i32) -> int
    decreases s.len(),
{
    if s.len() == 0 {
        -1
    } else {
        let k = find_port(s.drop_last(), port);
        if k >= 0 {
            k
        } else if s.last().nodeport == port {
            s.len() - 1
        } else {
            -1
        }
    }
}

/// The names of the nodes in the score table.
pub open spec fn node_names(t: Seq<NodeScore>) -> Set<Seq<char>> {
    Set::new(|n: Seq<char>| exists|i: int| 0 <= i < t.len() && #[trigger] t[i].node.name@ == n)
}

/// A datapoint is a head-room score in `[0, 1]`; any other is malformed.
pub open spec fn datapoint_valid(dp: EwmaDatapoint) -> bool {
    match dp {
        EwmaDatapoint::Latency(v) => v <= SCALE,
        EwmaDatapoint::Cpu(v) => v <= SCALE,
    }
}

/// `p` with the field of `dp` replaced.
pub open spec fn with_datapoint(p: ScorePair, dp: EwmaDatapoint) -> ScorePair {
    match dp {
        EwmaDatapoint::Latency(v) => ScorePair { latency: Some(v), ..p },
        EwmaDatapoint::Cpu(v) => ScorePair { cpu: Some(v), ..p },
    }
}

/// The score table after event `e`: a new node enters with both scores absent, a
/// known node is left as it is, an EWMA updates one field of a known node, and an
/// EWMA for an unknown node or out of range is dropped.
pub open spec fn scores_after(t: Seq<NodeScore>, e: Event) -> Seq<NodeScore> {
    match e {
        Event::NodeJoined(w) => if find_node(t, w.name@) >= 0 {
            t
        } else {
            t.push(NodeScore { node: w, score: ScorePair { latency: None, cpu: None } })
        },
        Event::EwmaCalculated(name, dp) => {
            let k = find_node(t, name@);
            if k >= 0 && datapoint_valid(dp) {
                t.update(k, NodeScore { node: t[k].node, score: with_datapoint(t[k].score, dp) })
            } else {
                t
            }
        },
        Event::ServiceChanged(_) => t,
    }
}

/// The score table after the events `es`, in order, from `t`.
pub open spec fn scores_after_all(t: Seq<NodeScore>, es: Seq<Event>) -> Seq<NodeScore>
    decreases es.len(),
{
    if es.len() == 0 {
        t
    } else {
        scores_after(scores_after_all(t, es.drop_last()), es.last())
    }
}

/// The names announced by the `NodeJoined` events of `es`.
pub open spec fn announced(es: Seq<Event>) -> Set<Seq<char>> {
    Set::new(
        |n: Seq<char>|
            exists|i: int|
                0 <= i < es.len() && (#[trigger] es[i] matches Event::NodeJoined(w) && w.name@ == n),
    )
}

/// The service table after event `e`: a changed service replaces the one on its
/// node port, or is added.
pub open spec fn services_after(s: Seq<Service>, e: Event) -> Seq<Service> {
    match e {
        Event::ServiceChanged(svc) => {
            let k = find_port(s, svc.nodeport);
            if k >= 0 {
                s.update(k, svc)
            } else {
                s.push(svc)
            }
        },
        _ => s,
    }
}

/// Some service of `s` has endpoints on node `name`.
pub open spec fn holds_endpoints(s: Seq<Service>, name: Seq<char>) -> bool {
    exists|i: int, j: int|
        0 <= i < s.len() && 0 <= j < s[i].endpoints_by_nodename@.len() && #[trigger] s[i].endpoints_by_nodename@[j].node@
            == name && s[i].endpoints_by_nodename@[j].endpoints@.len() > 0
}

/// The node ports of all services of `s`, in order.
pub open spec fn nodeports(s: Seq<Service>) -> Seq<i32> {
    s.map_values(|x: Service| x.nodeport)
}

/// Some node of `t` has both scores and holds endpoints of a service of `s`.
pub open spec fn some_routable_node(t: Seq<NodeScore>, s: Seq<Service>) -> bool {
    exists|i: int|
        0 <= i < t.len() && (#[trigger] t[i]).score.both_present_spec() && holds_endpoints(
            s,
            t[i].node.name@,
        )
}

/// The services to reconcile after event `e`: the changed service; or, after an
/// EWMA accepted for a known node, every service once some node holding
/// endpoints has both scores.
pub open spec fn reconcile_targets(t: Seq<NodeScore>, s: Seq<Service>, e: Event) -> Seq<i32> {
    match e {
        Event::ServiceChanged(svc) => seq![svc.nodeport],
        Event::EwmaCalculated(name, dp) => {
            let k = find_node(t, name@);
            if k >= 0 && datapoint_valid(dp) && some_routable_node(scores_after(t, e), s) {
                nodeports(s)
            } else {
                seq![]
            }
        },
        Event::NodeJoined(_) => seq![],
    }
}

/// Every score stored in `t` lies in `[0, 1]`.
pub open spec fn scores_in_unit(t: Seq<NodeScore>) -> bool {
    forall|i: int|
        0 <= i < t.len() ==> (#[trigger] t[i].score.latency matches Some(v) ==> v <= SCALE) && (
        t[i].score.cpu matches Some(v) ==> v <= SCALE)
}

/// No two rows of `t` are for the same node.
pub open spec fn names_unique(t: Seq<NodeScore>) -> bool {
    forall|i: int, j: int|
        0 <= i < t.len() && 0 <= j < t.len() && i != j ==> #[trigger] t[i].node.name@
            != #[trigger] t[j].node.name@
}

/// No two services of `s` share a node port.
pub open spec fn ports_unique(s: Seq<Service>) -> bool {
    forall|i: int, j: int|
        0 <= i < s.len() && 0 <= j < s.len() && i != j ==> #[trigger] s[i].nodeport
            != #[trigger] s[j].nodeport
}

proof fn lemma_find_node(t: Seq<NodeScore>, name: Seq<char>)
    ensures
        -1 <= find_node(t, name) < t.len(),
        find_node(t, name) >= 0 ==> t[find_node(t, name)].node.name@ == name,
        find_node(t, name) < 0 ==> forall|i: int| 0 <= i < t.len() ==> #[trigger] t[i].node.name@ != name,
    decreases t.len(),
{
    if t.len() > 0 {
        lemma_find_node(t.drop_last(), name);
        if find_node(t, name) < 0 {
            assert forall|i: int| 0 <= i < t.len() implies #[trigger] t[i].node.name@ != name by {
                if i < t.len() - 1 {
                    assert(t.drop_last()[i].node.name@ != name);
                }
            }
        }
    }
}

proof fn lemma_find_port(s: Seq<Service>, port: i32)
    ensures
        -1 <= find_port(s, port) < s.len(),
        find_port(s, port) >= 0 ==> s[find_port(s, port)].nodeport == port,
        find_port(s, port) < 0 ==> forall|i: int| 0 <= i < s.len() ==> #[trigger] s[i].nodeport != port,
    decreases s.len(),
{
    if s.len() > 0 {
        lemma_find_port(s.drop_last(), port);
        if find_port(s, port) < 0 {
            assert forall|i: int| 0 <= i < s.len() implies #[trigger] s[i].nodeport != port by {
                if i < s.len() - 1 {
                    assert(s.drop_last()[i].nodeport != port);
                }
            }
        }
    }
}

proof fn lemma_find_node_prefix(t: Seq<NodeScore>, name: Seq<char>, k: int)
    requires
        0 <= k <= t.len(),
        find_node(t.subrange(0, k), name) >= 0,
    ensures
        find_node(t, name) == find_node(t.subrange(0, k), name),
    decreases t.len(),
{
    if k == t.len() {
        assert(t.subrange(0, k) =~= t);
    } else {
        assert(t.drop_last().subrange(0, k) =~= t.subrange(0, k));
        lemma_find_node_prefix(t.drop_last(), name, k);
    }
}

proof fn lemma_find_port_prefix(s: Seq<Service>, port: i32, k: int)
    requires
        0 <= k <= s.len(),
        find_port(s.subrange(0, k), port) >= 0,
    ensures
        find_port(s, port) == find_port(s.subrange(0, k), port),
    decreases s.len(),
{
    if k == s.len() {
        assert(s.subrange(0, k) =~= s);
    } else {
        assert(s.drop_last().subrange(0, k) =~= s.subrange(0, k));
        lemma_find_port_prefix(s.drop_last(), port, k);
    }
}

/// Row of node `name` in the score table.
fn find_node_exec(t: &Vec<NodeScore>, name: &String) -> (r: Option<usize>)
    ensures
        match r {
            Some(k) => find_node(t@, name@) == k as int,
            None => find_node(t@, name@) == -1,
        },
{
    let mut k: usize = 0;
    while k < t.len()
        invariant
            k <= t@.len(),
            find_node(t@.subrange(0, k as int), name@) == -1,
        decreases t@.len() - k,
    {
        assert(t@.subrange(0, k + 1).drop_last() =~= t@.subrange(0, k as int));
        if t[k].node.name.eq(name) {
            proof {
                lemma_find_node_prefix(t@, name@, k + 1);
            }
            return Some(k);
        }
        k += 1;
    }
    assert(t@.subrange(0, t@.len() as int) =~= t@);
    None
}

/// Position of the service on `port` in the service table.
fn find_port_exec(s: &Vec<Service>, port: i32) -> (r: Option<usize>)
    ensures
        match r {
            Some(k) => find_port(s@, port) == k as int,
            None => find_port(s@, port) == -1,
        },
{
    let mut k: usize = 0;
    while k < s.len()
        invariant
            k <= s@.len(),
            find_port(s@.subrange(0, k as int), port) == -1,
        decreases s@.len() - k,
    {
        assert(s@.subrange(0, k + 1).drop_last() =~= s@.subrange(0, k as int));
        if s[k].nodeport == port {
            proof {
                lemma_find_port_prefix(s@, port, k + 1);
            }
            return Some(k);
        }
        k += 1;
    }
    assert(s@.subrange(0, s@.len() as int) =~= s@);
    None
}

/// Whether some service has endpoints on node `name`.
fn holds_endpoints_exec(s: &Vec<Service>, name: &String) -> (r: bool)
    ensures
        r == holds_endpoints(s@, name@),
{
    let mut i: usize = 0;
    while i < s.len()
        invariant
            i <= s@.len(),
            forall|a: int, b: int|
                0 <= a < i && 0 <= b < s@[a].endpoints_by_nodename@.len() ==> !(
                #[trigger] s@[a].endpoints_by_nodename@[b].node@ == name@
                    && s@[a].endpoints_by_nodename@[b].endpoints@.len() > 0),
        decreases s@.len() - i,
    {
        let eps = &s[i].endpoints_by_nodename;
        let mut j: usize = 0;
        while j < eps.len()
            invariant
                i < s@.len(),
                *eps == s@[i as int].endpoints_by_nodename,
                j <= eps@.len(),
                forall|a: int, b: int|
                    0 <= a < i && 0 <= b < s@[a].endpoints_by_nodename@.len() ==> !(
                    #[trigger] s@[a].endpoints_by_nodename@[b].node@ == name@
                        && s@[a].endpoints_by_nodename@[b].endpoints@.len() > 0),
                forall|b: int|
                    0 <= b < j ==> !(#[trigger] eps@[b].node@ == name@ && eps@[b].endpoints@.len()
                        > 0),
            decreases eps@.len() - j,
        {
            if eps[j].node.eq(name) && eps[j].endpoints.len() > 0 {
                return true;
            }
            j += 1;
        }
        proof {
            assert forall|a: int, b: int|
                0 <= a < i + 1 && 0 <= b < s@[a].endpoints_by_nodename@.len() implies !(
                #[trigger] s@[a].endpoints_by_nodename@[b].node@ == name@
                    && s@[a].endpoints_by_nodename@[b].endpoints@.len() > 0) by {
                if a == i {
                    assert(eps@[b] == s@[a].endpoints_by_nodename@[b]);
                }
            }
        }
        i += 1;
    }
    false
}

/// Whether some node of `t` has both scores and holds endpoints of a service of `s`.
fn routable_node_exists(t: &Vec<NodeScore>, s: &Vec<Service>) -> (r: bool)
    ensures
        r == some_routable_node(t@, s@),
{
    let mut i: usize = 0;
    while i < t.len()
        invariant
            i <= t@.len(),
            forall|k: int|
                0 <= k < i ==> !((#[trigger] t@[k]).score.both_present_spec() && holds_endpoints(
                    s@,
                    t@[k].node.name@,
                )),
        decreases t@.len() - i,
    {
        if t[i].score.both_present() && holds_endpoints_exec(s, &t[i].node.name) {
            return true;
        }
        i += 1;
    }
    false
}

/// The node ports of all services, in table order.
fn nodeports_exec(s: &Vec<Service>) -> (r: Vec<i32>)
    ensures
        r@ == nodeports(s@),
{
    let mut r: Vec<i32> = Vec::new();
    let mut i: usize = 0;
    while i < s.len()
        invariant
            i <= s@.len(),
            r@.len() == i,
            forall|k: int| 0 <= k < i ==> #[trigger] r@[k] == s@[k].nodeport,
        decreases s@.len() - i,
    {
        r.push(s[i].nodeport);
        i += 1;
    }
    assert(r@ =~= nodeports(s@));
    r
}

impl Actor {
    /// The tables are consistent: one row per node, one service per node port, and
    /// every stored score in `[0, 1]`.
    pub open spec fn wf(&self) -> bool {
        &&& names_unique(self.datapoint_by_nodename@)
        &&& scores_in_unit(self.datapoint_by_nodename@)
        &&& ports_unique(self.service_by_nodeport@)
    }

    /// A reducer with empty tables.
    pub fn new(config: Config) -> (r: Actor)
        ensures
            r.wf(),
            r.config == config,
            r.datapoint_by_nodename@ == Seq::<NodeScore>::empty(),
            r.service_by_nodeport@ == Seq::<Service>::empty(),
    {
        Actor { config, datapoint_by_nodename: Vec::new(), service_by_nodeport: Vec::new() }
    }

    /// Applies one event to the tables and returns the node ports of the services
    /// to reconcile now.
    pub fn handle(&mut self, event: Event) -> (r: Vec<i32>)
        requires
            old(self).wf(),
        ensures
            final(self).wf(),
            final(self).config == old(self).config,
            final(self).datapoint_by_nodename@ == scores_after(old(self).datapoint_by_nodename@, event),
            final(self).service_by_nodeport@ == services_after(old(self).service_by_nodeport@, event),
            r@ == reconcile_targets(
                old(self).datapoint_by_nodename@,
                old(self).service_by_nodeport@,
                event,
            ),
    {
        let ghost t0 = self.datapoint_by_nodename@;
        let ghost s0 = self.service_by_nodeport@;
        match event {
            Event::ServiceChanged(svc) => {
                let port = svc.nodeport;
                proof {
                    lemma_find_port(s0, port);
                }
                match find_port_exec(&self.service_by_nodeport, port) {
                    Some(k) => {
                        self.service_by_nodeport.remove(k);
                        self.service_by_nodeport.insert(k, svc);
                        assert(self.service_by_nodeport@ =~= s0.update(k as int, svc));
                    },
                    None => {
                        self.service_by_nodeport.push(svc);
                    },
                }
                let mut r: Vec<i32> = Vec::new();
                r.push(port);
                assert(r@ =~= seq![port]);
                r
            },
            Event::EwmaCalculated(name, dp) => {
                let valid = match dp {
                    EwmaDatapoint::Latency(v) => v <= SCALE,
                    EwmaDatapoint::Cpu(v) => v <= SCALE,
                };
                proof {
                    lemma_find_node(t0, name@);
                }
                match find_node_exec(&self.datapoint_by_nodename, &name) {
                    Some(k) => {
                        if !valid {
                            return Vec::new();
                        }
                        let mut row = self.datapoint_by_nodename.remove(k);
                        match dp {
                            EwmaDatapoint::Latency(v) => {
                                row.score.latency = Some(v);
                            },
                            EwmaDatapoint::Cpu(v) => {
                                row.score.cpu = Some(v);
                            },
                        }
                        self.datapoint_by_nodename.insert(k, row);
                        assert(self.datapoint_by_nodename@ =~= t0.update(
                            k as int,
                            NodeScore { node: t0[k as int].node, score: with_datapoint(t0[k as int].score, dp) },
                        ));
                        if routable_node_exists(&self.datapoint_by_nodename, &self.service_by_nodeport) {
                            nodeports_exec(&self.service_by_nodeport)
                        } else {
                            Vec::new()
                        }
                    },
                    None => Vec::new(),
                }
            },
            Event::NodeJoined(w) => {
                proof {
                    lemma_find_node(t0, w.name@);
                }
                match find_node_exec(&self.datapoint_by_nodename, &w.name) {
                    Some(_) => {},
                    None => {
                        self.datapoint_by_nodename.push(
                            NodeScore { node: w, score: ScorePair { latency: None, cpu: None } },
                        );
                    },
                }
                Vec::new()
            },
        }
    }

    /// The scores to publish: every node with both scores, in table order.
    pub fn scores(&self) -> (r: Vec<Probe>)
        ensures
            probes_view(r@) == published(self.datapoint_by_nodename@),
    {
        let t = &self.datapoint_by_nodename;
        let mut r: Vec<Probe> = Vec::new();
        let mut i: usize = 0;
        while i < t.len()
            invariant
                i <= t@.len(),
                probes_view(r@) == published(t@.subrange(0, i as int)),
            decreases t@.len() - i,
        {
            assert(t@.subrange(0, i + 1).drop_last() =~= t@.subrange(0, i as int));
            let row = &t[i];
            match (row.score.latency, row.score.cpu) {
                (Some(lat), Some(cpu)) => {
                    r.push(
                        Probe {
                            hostname: row.node.name.clone(),
                            cpu_ewma_score: cpu,
                            latency_ewma_score: lat,
                        },
                    );
                    assert(probes_view(r@) =~= published(t@.subrange(0, i + 1)));
                },
                _ => {},
            }
            i += 1;
        }
        assert(t@.subrange(0, t@.len() as int) =~= t@);
        r
    }

    /// The node ports of all known services, in table order.
    pub fn nodeports(&self) -> (r: Vec<i32>)
        ensures
            r@ == nodeports(self.service_by_nodeport@),
    {
        nodeports_exec(&self.service_by_nodeport)
    }

    /// The rule for the service on `nodeport` from the current score table; none
    /// when no such service is known.
    pub fn plan_for(&self, nodeport: i32) -> (r: Option<ServicePlan>)
        ensures
            find_port(self.service_by_nodeport@, nodeport) < 0 ==> r is None,
            find_port(self.service_by_nodeport@, nodeport) >= 0 ==> plan_matches(
                r,
                self.datapoint_by_nodename@,
                self.service_by_nodeport@[find_port(self.service_by_nodeport@, nodeport)],
                self.config.nftables.prefix_service_endpoint@,
                self.config.nftables.probability_cap,
            ),
    {
        proof {
            lemma_find_port(self.service_by_nodeport@, nodeport);
        }
        match find_port_exec(&self.service_by_nodeport, nodeport) {
            Some(k) => plan_service(
                &self.datapoint_by_nodename,
                &self.service_by_nodeport[k],
                self.config.nftables.prefix_service_endpoint.as_str(),
                self.config.nftables.probability_cap,
            ),
            None => None,
        }
    }
}

/// The published scores: host name, CPU and latency of each node of `t` with
/// both scores, in table order.
pub open spec fn published(t: Seq<NodeScore>) -> Seq<(Seq<char>, u32, u32)>
    decreases t.len(),
{
    if t.len() == 0 {
        seq![]
    } else {
        let r = published(t.drop_last());
        let p = t.last().score;
        if p.both_present_spec() {
            r.push((t.last().node.name@, p.cpu->0, p.latency->0))
        } else {
            r
        }
    }
}

/// The rows of a list of probes.
pub open spec fn probes_view(v: Seq<Probe>) -> Seq<(Seq<char>, u32, u32)> {
    v.map_values(|p: Probe| (p.hostname@, p.cpu_ewma_score, p.latency_ewma_score))
}

/// After any sequence of events from an empty table, the score table holds
/// exactly the nodes announced by `NodeJoined`.
pub proof fn lemma_scores_track_joins(es: Seq<Event>)
    ensures
        node_names(scores_after_all(Seq::empty(), es)) == announced(es),
    decreases es.len(),
{
    if es.len() == 0 {
        assert(node_names(Seq::<NodeScore>::empty()) =~= announced(es));
    } else {
        let init = es.drop_last();
        lemma_scores_track_joins(init);
        let t = scores_after_all(Seq::empty(), init);
        let e = es.last();
        let t2 = scores_after(t, e);
        assert(t2 == scores_after_all(Seq::empty(), es));
        assert forall|n: Seq<char>| #[trigger] announced(es).contains(n) == (announced(
            init,
        ).contains(n) || (e matches Event::NodeJoined(w) && w.name@ == n)) by {
            if announced(es).contains(n) {
                let i = choose|i: int|
                    0 <= i < es.len() && (#[trigger] es[i] matches Event::NodeJoined(w) && w.name@
                        == n);
                if i < es.len() - 1 {
                    assert(init[i] == es[i]);
                }
            }
            if announced(init).contains(n) {
                let i = choose|i: int|
                    0 <= i < init.len() && (#[trigger] init[i] matches Event::NodeJoined(w)
                        && w.name@ == n);
                assert(es[i] == init[i]);
            }
            if e matches Event::NodeJoined(w) && w.name@ == n {
                assert(es[es.len() - 1] == e);
            }
        }
        match e {
            Event::NodeJoined(w) => {
                lemma_find_node(t, w.name@);
                let k = find_node(t, w.name@);
                assert forall|n: Seq<char>| #[trigger] node_names(t2).contains(n) == (node_names(
                    t,
                ).contains(n) || w.name@ == n) by {
                    if k >= 0 {
                        if w.name@ == n {
                            assert(t[k].node.name@ == n);
                        }
                    } else {
                        if node_names(t2).contains(n) {
                            let i = choose|i: int| 0 <= i < t2.len() && #[trigger] t2[i].node.name@ == n;
                            if i < t.len() {
                                assert(t[i] == t2[i]);
                            }
                        }
                        if node_names(t).contains(n) {
                            let i = choose|i: int| 0 <= i < t.len() && #[trigger] t[i].node.name@ == n;
                            assert(t2[i] == t[i]);
                        }
                        if w.name@ == n {
                            assert(t2[t.len() as int].node.name@ == n);
                        }
                    }
                }
            },
            Event::EwmaCalculated(name, dp) => {
                lemma_find_node(t, name@);
                assert forall|n: Seq<char>| #[trigger] node_names(t2).contains(n) == node_names(
                    t,
                ).contains(n) by {
                    if node_names(t2).contains(n) {
                        let i = choose|i: int| 0 <= i < t2.len() && #[trigger] t2[i].node.name@ == n;
                        assert(t[i].node == t2[i].node);
                    }
                    if node_names(t).contains(n) {
                        let i = choose|i: int| 0 <= i < t.len() && #[trigger] t[i].node.name@ == n;
                        assert(t[i].node == t2[i].node);
                    }
                }
            },
            Event::ServiceChanged(_) => {},
        }
        assert(node_names(t2) =~= announced(es));
    }
}

/// Every score stored in the table stays in `[0, 1]` whatever events arrive.
pub proof fn lemma_scores_stay_in_unit(t: Seq<NodeScore>, es: Seq<Event>)
    requires
        scores_in_unit(t),
    ensures
        scores_in_unit(scores_after_all(t, es)),
    decreases es.len(),
{
    if es.len() > 0 {
        lemma_scores_stay_in_unit(t, es.drop_last());
        let t1 = scores_after_all(t, es.drop_last());
        match es.last() {
            Event::EwmaCalculated(name, dp) => {
                lemma_find_node(t1, name@);
            },
            _ => {},
        }
        let t2 = scores_after_all(t, es);
        assert forall|i: int| 0 <= i < t2.len() implies (#[trigger] t2[i].score.latency matches Some(
            v,
        ) ==> v <= SCALE) && (t2[i].score.cpu matches Some(v) ==> v <= SCALE) by {
            if i < t1.len() {
                assert(t1[i].score.latency matches Some(v) ==> v <= SCALE);
            }
        }
    }
}

/// A second `NodeJoined` for the same node leaves the score table as the first
/// one left it.
pub proof fn lemma_second_join_changes_nothing(t: Seq<NodeScore>, w: crate::model::WorkerNode)
    ensures
        scores_after(scores_after(t, Event::NodeJoined(w)), Event::NodeJoined(w)) == scores_after(
            t,
            Event::NodeJoined(w),
        ),
{
    let t1 = scores_after(t, Event::NodeJoined(w));
    if find_node(t, w.name@) < 0 {
        assert(t1.drop_last() =~= t);
        lemma_find_node(t1, w.name@);
    }
}

} // verus!
