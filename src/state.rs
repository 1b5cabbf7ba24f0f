use vstd::prelude::*;

use crate::score::SCALE;
use crate::text::{percent_encoded, url_encode};
use vstd::string::StringSliceAdditionalSpecFns;

verus! {

/// The latest scores of one node as the prober publishes them, as fractions of `SCALE`.
#[derive(Clone, Debug)]
pub struct Probe {
    pub hostname: String,
    pub cpu_ewma_score: u32,
    pub latency_ewma_score: u32,
}

/// How many pods the extender has placed on a node.
#[derive(Clone, Debug)]
pub struct PodCount {
    pub node: String,
    pub count: u64,
}

/// Address of the prober pod that runs on a node.
#[derive(Clone, Debug)]
pub struct ProberHost {
    pub node: String,
    pub host: String,
}

/// What the scheduler extender keeps between calls.
#[derive(Clone, Debug)]
pub struct AppState {
    pub probes: Vec<Probe>,
    pub pod_counts: Vec<PodCount>,
    pub last_filtered: Vec<String>,
    pub local_node: String,
    pub namespace: String,
    pub prober_mapping: Vec<ProberHost>,
    pub prometheus_url: String,
}

/// The views of a list of strings.
pub open spec fn names_view(v: Seq<String>) -> Seq<Seq<char>> {
    v.map_values(|s: String| s@)
}

/// The first probe of `ps` for host `name`.
pub open spec fn probe_of(ps: Seq<Probe>, name: Seq<char>) -> Option<Probe>
    decreases ps.len(),
{
    if ps.len() == 0 {
        None
    } else {
        match probe_of(ps.drop_last(), name) {
            Some(p) => Some(p),
            None => if ps.last().hostname@ == name {
                Some(ps.last())
            } else {
                None
            },
        }
    }
}

/// The last probe of `ps` for host `name`: a later probe of a host replaces an
/// earlier one.
pub open spec fn last_probe_of(ps: Seq<Probe>, name: Seq<char>) -> Option<Probe>
    decreases ps.len(),
{
    if ps.len() == 0 {
        None
    } else {
        match last_probe_of(ps.drop_first(), name) {
            Some(p) => Some(p),
            None => if ps[0].hostname@ == name {
                Some(ps[0])
            } else {
                None
            },
        }
    }
}

/// No two probes of `ps` are for the same host.
pub open spec fn hostnames_unique(ps: Seq<Probe>) -> bool {
    forall|i: int, j: int|
        0 <= i < ps.len() && 0 <= j < ps.len() && i != j ==> #[trigger] ps[i].hostname@
            != #[trigger] ps[j].hostname@
}

/// Pods placed on node `name` so far.
pub open spec fn pod_count(pc: Seq<PodCount>, name: Seq<char>) -> nat
    decreases pc.len(),
{
    if pc.len() == 0 {
        0
    } else if pc[0].node@ == name {
        pc[0].count as nat
    } else {
        pod_count(pc.drop_first(), name)
    }
}

/// The prober address recorded for node `name`.
pub open spec fn prober_host_of(m: Seq<ProberHost>, name: Seq<char>) -> Option<Seq<char>>
    decreases m.len(),
{
    if m.len() == 0 {
        None
    } else if m[0].node@ == name {
        Some(m[0].host@)
    } else {
        prober_host_of(m.drop_first(), name)
    }
}

/// Copy of a probe, field for field.
pub fn copy_probe(p: &Probe) -> (r: Probe)
    ensures
        r.hostname@ == p.hostname@,
        r.cpu_ewma_score == p.cpu_ewma_score,
        r.latency_ewma_score == p.latency_ewma_score,
{
    Probe {
        hostname: p.hostname.clone(),
        cpu_ewma_score: p.cpu_ewma_score,
        latency_ewma_score: p.latency_ewma_score,
    }
}

/// Copies of the strings of `v`.
pub fn copy_names(v: &Vec<String>) -> (r: Vec<String>)
    ensures
        names_view(r@) == names_view(v@),
{
    let mut r: Vec<String> = Vec::new();
    let mut i: usize = 0;
    while i < v.len()
        invariant
            i <= v@.len(),
            r@.len() == i,
            forall|k: int| 0 <= k < i ==> #[trigger] r@[k]@ == v@[k]@,
        decreases v@.len() - i,
    {
        r.push(v[i].clone());
        i += 1;
    }
    assert(names_view(r@) =~= names_view(v@));
    r
}

proof fn lemma_probe_of_prefix(ps: Seq<Probe>, name: Seq<char>, k: int)
    requires
        0 <= k < ps.len(),
        probe_of(ps.subrange(0, k), name) is None,
        ps[k].hostname@ == name,
    ensures
        probe_of(ps, name) == Some(ps[k]),
    decreases ps.len(),
{
    if k == ps.len() - 1 {
        assert(ps.drop_last() =~= ps.subrange(0, k));
    } else {
        assert(ps.drop_last().subrange(0, k) =~= ps.subrange(0, k));
        lemma_probe_of_prefix(ps.drop_last(), name, k);
    }
}

/// Position of the first probe of `ps` for host `name`.
pub fn find_probe(ps: &Vec<Probe>, name: &String) -> (r: Option<usize>)
    ensures
        match r {
            Some(k) => k < ps@.len() && probe_of(ps@, name@) == Some(ps@[k as int])
                && ps@[k as int].hostname@ == name@ && forall|j: int|
                0 <= j < k ==> #[trigger] ps@[j].hostname@ != name@,
            None => probe_of(ps@, name@) is None,
        },
{
    let mut k: usize = 0;
    while k < ps.len()
        invariant
            k <= ps@.len(),
            forall|j: int| 0 <= j < k ==> #[trigger] ps@[j].hostname@ != name@,
        decreases ps@.len() - k,
    {
        if ps[k].hostname.eq(name) {
            proof {
                let pre = ps@.subrange(0, k as int);
                assert forall|j: int| 0 <= j < pre.len() implies #[trigger] pre[j].hostname@ != name@ by {
                    assert(pre[j] == ps@[j]);
                }
                lemma_probe_of_absent(pre, name@);
                lemma_probe_of_prefix(ps@, name@, k as int);
            }
            return Some(k);
        }
        k += 1;
    }
    proof {
        lemma_probe_of_absent(ps@, name@);
    }
    None
}

/// The query URL of Prometheus's instant-query endpoint for `query`.
pub open spec fn query_url(base: Seq<char>, query: &str) -> Seq<char> {
    base + "/api/v1/query?query="@ + percent_encoded(query.spec_bytes())
}

impl AppState {
    /// An extender with nothing cached yet.
    pub fn new(namespace: String, prometheus_url: String) -> (r: AppState)
        ensures
            r.probes@.len() == 0,
            r.pod_counts@.len() == 0,
            r.last_filtered@.len() == 0,
            r.local_node@.len() == 0,
            r.prober_mapping@.len() == 0,
            r.namespace == namespace,
            r.prometheus_url == prometheus_url,
    {
        AppState {
            probes: Vec::new(),
            pod_counts: Vec::new(),
            last_filtered: Vec::new(),
            local_node: String::new(),
            namespace,
            prober_mapping: Vec::new(),
            prometheus_url,
        }
    }

    /// The cached probe of host `hostname`.
    pub fn get_probe(&self, hostname: &String) -> (r: Option<Probe>)
        ensures
            match (r, probe_of(self.probes@, hostname@)) {
                (Some(a), Some(b)) => a.hostname@ == b.hostname@ && a.cpu_ewma_score
                    == b.cpu_ewma_score && a.latency_ewma_score == b.latency_ewma_score,
                (None, None) => true,
                _ => false,
            },
    {
        match find_probe(&self.probes, hostname) {
            Some(k) => Some(copy_probe(&self.probes[k])),
            None => None,
        }
    }

    /// Host names of all cached probes, in cache order.
    pub fn get_monitored_nodes(&self) -> (r: Vec<String>)
        ensures
            names_view(r@) == self.probes@.map_values(|p: Probe| p.hostname@),
    {
        let mut r: Vec<String> = Vec::new();
        let mut i: usize = 0;
        while i < self.probes.len()
            invariant
                i <= self.probes@.len(),
                r@.len() == i,
                forall|k: int| 0 <= k < i ==> #[trigger] r@[k]@ == self.probes@[k].hostname@,
            decreases self.probes@.len() - i,
        {
            r.push(self.probes[i].hostname.clone());
            i += 1;
        }
        assert(names_view(r@) =~= self.probes@.map_values(|p: Probe| p.hostname@));
        r
    }

    /// Replaces the probe cache with a freshly fetched list, one probe per host:
    /// the last one the list holds for it. An empty list keeps the old cache.
    /// Returns whether the cache was replaced.
    pub fn replace_probes(&mut self, fresh: Vec<Probe>) -> (r: bool)
        ensures
            r == (fresh@.len() > 0),
            !r ==> final(self).probes@ == old(self).probes@,
            r ==> forall|n: Seq<char>| #[trigger] probe_of(final(self).probes@, n) == last_probe_of(fresh@, n),
            r ==> hostnames_unique(final(self).probes@),
            final(self).pod_counts == old(self).pod_counts,
            final(self).last_filtered == old(self).last_filtered,
            final(self).local_node == old(self).local_node,
            final(self).prober_mapping == old(self).prober_mapping,
    {
        if fresh.len() == 0 {
            return false;
        }
        let ghost all = fresh@;
        let mut rest = fresh;
        let mut cache: Vec<Probe> = Vec::new();
        while rest.len() > 0
            invariant
                rest@.len() <= all.len(),
                rest@ == all.subrange(0, rest@.len() as int),
                forall|n: Seq<char>|
                    #[trigger] probe_of(cache@, n) == last_probe_of(
                        all.subrange(rest@.len() as int, all.len() as int),
                        n,
                    ),
                hostnames_unique(cache@),
            decreases rest@.len(),
        {
            let ghost k = rest@.len() - 1;
            let ghost r0 = rest@;
            let p = rest.pop().unwrap();
            assert(p == r0[k] && r0[k] == all[k]);
            let ghost suffix = all.subrange(k, all.len() as int);
            assert(suffix.drop_first() =~= all.subrange(k + 1, all.len() as int));
            assert(suffix[0] == p);
            match find_probe(&cache, &p.hostname) {
                Some(_) => {},
                None => {
                    let ghost c0 = cache@;
                    proof {
                        lemma_probe_of_none(c0, p.hostname@);
                    }
                    cache.push(p);
                    assert(cache@.drop_last() =~= c0);
                    assert forall|n: Seq<char>| #[trigger] probe_of(cache@, n) == last_probe_of(suffix, n) by {
                        assert(probe_of(cache@, n) == probe_of(cache@.drop_last(), n) || cache@.last().hostname@ == n);
                    }
                    assert forall|i: int, j: int|
                        0 <= i < cache@.len() && 0 <= j < cache@.len() && i != j implies #[trigger] cache@[i].hostname@
                            != #[trigger] cache@[j].hostname@ by {
                        if i < c0.len() && j < c0.len() {
                            assert(cache@[i] == c0[i] && cache@[j] == c0[j]);
                        } else if i < c0.len() {
                            assert(cache@[i] == c0[i]);
                        } else {
                            assert(cache@[j] == c0[j]);
                        }
                    }
                },
            }
        }
        assert(all.subrange(0, all.len() as int) =~= all);
        self.probes = cache;
        true
    }

    /// Records the node whose prober is polled.
    pub fn set_local_node(&mut self, node: String)
        ensures
            final(self).local_node == node,
            final(self).probes == old(self).probes,
            final(self).pod_counts == old(self).pod_counts,
            final(self).last_filtered == old(self).last_filtered,
            final(self).prober_mapping == old(self).prober_mapping,
    {
        self.local_node = node;
    }

    /// Replaces the node → prober address table.
    pub fn refresh_prober_mapping(&mut self, mapping: Vec<ProberHost>)
        ensures
            final(self).prober_mapping == mapping,
            final(self).probes == old(self).probes,
            final(self).pod_counts == old(self).pod_counts,
            final(self).last_filtered == old(self).last_filtered,
            final(self).local_node == old(self).local_node,
    {
        self.prober_mapping = mapping;
    }

    /// The prober address of node `node`, if the table has one.
    pub fn lookup_prober_host_for(&self, node: &String) -> (r: Option<String>)
        ensures
            match r {
                Some(h) => prober_host_of(self.prober_mapping@, node@) == Some(h@),
                None => prober_host_of(self.prober_mapping@, node@) is None,
            },
    {
        let m = &self.prober_mapping;
        let mut i: usize = 0;
        while i < m.len()
            invariant
                m@ == self.prober_mapping@,
                i <= m@.len(),
                forall|k: int| 0 <= k < i ==> #[trigger] m@[k].node@ != node@,
            decreases m@.len() - i,
        {
            if m[i].node.eq(node) {
                proof {
                    lemma_prober_host_first(m@, node@, i as int);
                }
                return Some(m[i].host.clone());
            }
            i += 1;
        }
        proof {
            lemma_prober_host_first(m@, node@, m@.len() as int);
        }
        None
    }

    /// Pods placed on `node_name` so far.
    pub fn get_pod_count_on_node(&self, node_name: &String) -> (r: u64)
        ensures
            r == pod_count(self.pod_counts@, node_name@),
    {
        match find_pod_count(&self.pod_counts, node_name) {
            Some(i) => {
                proof {
                    lemma_pod_count_first(self.pod_counts@, node_name@, i as int);
                }
                self.pod_counts[i].count
            },
            None => {
                proof {
                    lemma_pod_count_first(self.pod_counts@, node_name@, self.pod_counts@.len() as int);
                }
                0
            },
        }
    }

    /// Counts one more pod placed on `node_name` (saturating); other nodes keep
    /// their counts.
    pub fn increment_pod_count(&mut self, node_name: &String)
        ensures
            pod_count(final(self).pod_counts@, node_name@) == if pod_count(old(self).pod_counts@, node_name@)
                < u64::MAX {
                pod_count(old(self).pod_counts@, node_name@) + 1
            } else {
                pod_count(old(self).pod_counts@, node_name@)
            },
            forall|n: Seq<char>|
                n != node_name@ ==> #[trigger] pod_count(final(self).pod_counts@, n) == pod_count(
                    old(self).pod_counts@,
                    n,
                ),
            final(self).probes == old(self).probes,
            final(self).last_filtered == old(self).last_filtered,
            final(self).local_node == old(self).local_node,
            final(self).prober_mapping == old(self).prober_mapping,
    {
        let ghost pc0 = self.pod_counts@;
        match find_pod_count(&self.pod_counts, node_name) {
            Some(i) => {
                let mut row = self.pod_counts.remove(i);
                if row.count < u64::MAX {
                    row.count = row.count + 1;
                }
                self.pod_counts.insert(i, row);
                proof {
                    let pc1 = self.pod_counts@;
                    lemma_pod_count_first(pc0, node_name@, i as int);
                    assert forall|k: int| 0 <= k < i implies #[trigger] pc1[k].node@ != node_name@ by {
                        assert(pc1[k] == pc0[k]);
                    }
                    lemma_pod_count_first(pc1, node_name@, i as int);
                    assert forall|n: Seq<char>| n != node_name@ implies #[trigger] pod_count(pc1, n)
                        == pod_count(pc0, n) by {
                        lemma_pod_count_other(pc0, pc1, i as int, n);
                    }
                }
            },
            None => {
                let row = PodCount { node: node_name.clone(), count: 1 };
                self.pod_counts.push(row);
                proof {
                    let pc1 = self.pod_counts@;
                    lemma_pod_count_first(pc0, node_name@, pc0.len() as int);
                    assert forall|k: int| 0 <= k < pc0.len() implies #[trigger] pc1[k].node@ != node_name@ by {
                        assert(pc1[k] == pc0[k]);
                    }
                    lemma_pod_count_first(pc1, node_name@, pc0.len() as int);
                    assert forall|n: Seq<char>| n != node_name@ implies #[trigger] pod_count(pc1, n)
                        == pod_count(pc0, n) by {
                        lemma_pod_count_other(pc0, pc1, pc0.len() as int, n);
                    }
                }
            },
        }
    }

    /// Records the names that passed the last filter call.
    pub fn update_last_filtered(&mut self, nodes: Vec<String>)
        ensures
            final(self).last_filtered == nodes,
            final(self).probes == old(self).probes,
            final(self).pod_counts == old(self).pod_counts,
            final(self).local_node == old(self).local_node,
            final(self).prober_mapping == old(self).prober_mapping,
    {
        self.last_filtered = nodes;
    }

    /// The names that passed the last filter call.
    pub fn get_last_filtered_nodes(&self) -> (r: Vec<String>)
        ensures
            names_view(r@) == names_view(self.last_filtered@),
    {
        copy_names(&self.last_filtered)
    }

    /// Adds `penalty` to the CPU score of `node_name`'s cached probe, saturating;
    /// returns whether there was such a probe.
    pub fn apply_cpu_penalty(&mut self, node_name: &String, penalty: u32) -> (r: bool)
        ensures
            r == (probe_of(old(self).probes@, node_name@) is Some),
            !r ==> final(self).probes@ == old(self).probes@,
            final(self).probes@.len() == old(self).probes@.len(),
            forall|i: int|
                0 <= i < old(self).probes@.len() ==> (#[trigger] final(self).probes@[i]).hostname@
                    == old(self).probes@[i].hostname@ && final(self).probes@[i].latency_ewma_score
                    == old(self).probes@[i].latency_ewma_score,
            forall|i: int|
                0 <= i < old(self).probes@.len() && old(self).probes@[i].hostname@ != node_name@
                    ==> #[trigger] final(self).probes@[i] == old(self).probes@[i],
            r ==> probe_of(final(self).probes@, node_name@)->0.cpu_ewma_score == if probe_of(
                old(self).probes@,
                node_name@,
            )->0.cpu_ewma_score as int + penalty as int > u32::MAX as int {
                u32::MAX as int
            } else {
                probe_of(old(self).probes@, node_name@)->0.cpu_ewma_score as int + penalty as int
            },
            final(self).pod_counts == old(self).pod_counts,
            final(self).last_filtered == old(self).last_filtered,
    {
        let ghost ps0 = self.probes@;
        match find_probe(&self.probes, node_name) {
            Some(k) => {
                let mut p = self.probes.remove(k);
                p.cpu_ewma_score = p.cpu_ewma_score.saturating_add(penalty);
                self.probes.insert(k, p);
                proof {
                    let ps1 = self.probes@;
                    assert(ps1 =~= ps0.update(k as int, p));
                    assert(ps1[k as int] == p);
                    assert forall|j: int| 0 <= j < k implies #[trigger] ps1[j].hostname@ != node_name@ by {
                        assert(ps1[j] == ps0[j]);
                    }
                    assert(probe_of(ps1.subrange(0, k as int), node_name@) is None) by {
                        lemma_probe_of_absent(ps1.subrange(0, k as int), node_name@);
                    }
                    lemma_probe_of_prefix(ps1, node_name@, k as int);
                }
                true
            },
            None => false,
        }
    }

    /// The URL of the instant query `query` on this extender's Prometheus.
    pub fn scores_query_url(&self, query: &str) -> (r: String)
        ensures
            r@ == query_url(self.prometheus_url@, query),
    {
        let mut url = self.prometheus_url.clone();
        url.append("/api/v1/query?query=");
        let enc = url_encode(query);
        url.append(enc.as_str());
        url
    }
}

/// A list that gives no probe for `name` holds none.
proof fn lemma_probe_of_none(ps: Seq<Probe>, name: Seq<char>)
    requires
        probe_of(ps, name) is None,
    ensures
        forall|j: int| 0 <= j < ps.len() ==> #[trigger] ps[j].hostname@ != name,
    decreases ps.len(),
{
    if ps.len() > 0 {
        lemma_probe_of_none(ps.drop_last(), name);
        assert forall|j: int| 0 <= j < ps.len() implies #[trigger] ps[j].hostname@ != name by {
            if j < ps.len() - 1 {
                assert(ps.drop_last()[j] == ps[j]);
            }
        }
    }
}

/// A list with no probe for `name` gives none.
proof fn lemma_probe_of_absent(ps: Seq<Probe>, name: Seq<char>)
    requires
        forall|j: int| 0 <= j < ps.len() ==> #[trigger] ps[j].hostname@ != name,
    ensures
        probe_of(ps, name) is None,
    decreases ps.len(),
{
    if ps.len() > 0 {
        assert forall|j: int| 0 <= j < ps.len() - 1 implies #[trigger] ps.drop_last()[j].hostname@ != name by {
            assert(ps.drop_last()[j] == ps[j]);
        }
        lemma_probe_of_absent(ps.drop_last(), name);
        assert(ps[ps.len() - 1].hostname@ != name);
    }
}

/// Position of the first count kept for node `name`.
fn find_pod_count(pc: &Vec<PodCount>, name: &String) -> (r: Option<usize>)
    ensures
        match r {
            Some(i) => i < pc@.len() && pc@[i as int].node@ == name@ && forall|k: int|
                0 <= k < i ==> #[trigger] pc@[k].node@ != name@,
            None => forall|k: int| 0 <= k < pc@.len() ==> #[trigger] pc@[k].node@ != name@,
        },
{
    let mut i: usize = 0;
    while i < pc.len()
        invariant
            i <= pc@.len(),
            forall|k: int| 0 <= k < i ==> #[trigger] pc@[k].node@ != name@,
        decreases pc@.len() - i,
    {
        if pc[i].node.eq(name) {
            return Some(i);
        }
        i += 1;
    }
    None
}

/// The count of a node is that of its first row, or 0 without one (`i` = length).
proof fn lemma_pod_count_first(pc: Seq<PodCount>, name: Seq<char>, i: int)
    requires
        0 <= i <= pc.len(),
        i < pc.len() ==> pc[i].node@ == name,
        forall|k: int| 0 <= k < i ==> #[trigger] pc[k].node@ != name,
    ensures
        pod_count(pc, name) == if i < pc.len() {
            pc[i].count as nat
        } else {
            0
        },
    decreases pc.len(),
{
    if pc.len() > 0 && i > 0 {
        assert forall|k: int| 0 <= k < i - 1 implies #[trigger] pc.drop_first()[k].node@ != name by {
            assert(pc.drop_first()[k] == pc[k + 1]);
        }
        assert(pc[0].node@ != name);
        lemma_pod_count_first(pc.drop_first(), name, i - 1);
    }
}

/// Changing or adding the row at `i` leaves the counts of other nodes.
proof fn lemma_pod_count_other(pc0: Seq<PodCount>, pc1: Seq<PodCount>, i: int, n: Seq<char>)
    requires
        0 <= i <= pc0.len(),
        i < pc0.len() ==> pc1.len() == pc0.len(),
        i == pc0.len() ==> pc1.len() == pc0.len() + 1,
        forall|k: int| 0 <= k < pc0.len() && k != i ==> #[trigger] pc1[k] == pc0[k],
        i < pc1.len() && pc1[i].node@ != n,
        i < pc0.len() ==> pc0[i].node@ == pc1[i].node@,
    ensures
        pod_count(pc1, n) == pod_count(pc0, n),
    decreases pc0.len(),
{
    if i == 0 {
        if pc0.len() > 0 {
            assert forall|k: int| 0 <= k < pc0.drop_first().len() implies #[trigger] pc1.drop_first()[k]
                == pc0.drop_first()[k] by {
                assert(pc1[k + 1] == pc0[k + 1]);
            }
            assert(pc1.drop_first() =~= pc0.drop_first());
            assert(pc0[0].node@ != n);
            assert(pod_count(pc1, n) == pod_count(pc1.drop_first(), n));
            assert(pod_count(pc0, n) == pod_count(pc0.drop_first(), n));
        } else {
            assert(pc1.drop_first().len() == 0);
            assert(pod_count(pc1.drop_first(), n) == 0);
        }
    } else {
        assert(pc1[0] == pc0[0]);
        assert forall|k: int| 0 <= k < pc0.drop_first().len() && k != i - 1 implies #[trigger] pc1.drop_first()[k]
            == pc0.drop_first()[k] by {
            assert(pc1[k + 1] == pc0[k + 1]);
        }
        lemma_pod_count_other(pc0.drop_first(), pc1.drop_first(), i - 1, n);
        assert(pod_count(pc1, n) == pod_count(pc0, n));
    }
}

/// The address of a node is that of its first row, or none without one (`i` = length).
proof fn lemma_prober_host_first(m: Seq<ProberHost>, name: Seq<char>, i: int)
    requires
        0 <= i <= m.len(),
        i < m.len() ==> m[i].node@ == name,
        forall|k: int| 0 <= k < i ==> #[trigger] m[k].node@ != name,
    ensures
        prober_host_of(m, name) == if i < m.len() {
            Some(m[i].host@)
        } else {
            None::<Seq<char>>
        },
    decreases m.len(),
{
    if m.len() > 0 && i > 0 {
        assert forall|k: int| 0 <= k < i - 1 implies #[trigger] m.drop_first()[k].node@ != name by {
            assert(m.drop_first()[k] == m[k + 1]);
        }
        assert(m[0].node@ != name);
        lemma_prober_host_first(m.drop_first(), name, i - 1);
    }
}

} // verus!
