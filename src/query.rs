use vstd::prelude::*;

use crate::model::Ipv4;
use crate::state::ProberHost;
use crate::text::{decimal, ipv4_text, push_decimal, push_ipv4};

verus! {

/// A pod of the prober, with its name and the node it runs on when known.
#[derive(Clone, Debug)]
pub struct ProberPod {
    pub name: Option<String>,
    pub node_name: Option<String>,
}

/// `needle` occurs in `hay`.
pub open spec fn has_infix(hay: Seq<char>, needle: Seq<char>) -> bool {
    exists|i: int|
        0 <= i && i + needle.len() <= hay.len() && #[trigger] hay.subrange(i, i + needle.len()) == needle
}

/// The PromQL query for the busy fraction of the node at `ip`.
pub open spec fn cpu_query_text(ip: Ipv4) -> Seq<char> {
    "(1 - avg(irate(node_cpu_seconds_total{mode=\"idle\",instance=\""@ + ipv4_text(ip)
        + ":9100\"}[5m])) by (instance))"@
}

/// The PromQL query for the busy fraction of the node at `ip`.
pub fn cpu_query(ip: Ipv4) -> (r: String)
    ensures
        r@ == cpu_query_text(ip),
{
    let mut s = String::from_str("(1 - avg(irate(node_cpu_seconds_total{mode=\"idle\",instance=\"");
    push_ipv4(&mut s, ip);
    s.append(":9100\"}[5m])) by (instance))");
    s
}

/// The URL that the latency prober requests on a backend.
pub fn probe_url(ip: Ipv4, port: u16) -> (r: String)
    ensures
        r@ == "http://"@ + ipv4_text(ip) + ":"@ + decimal(port as nat),
{
    let mut s = String::from_str("http://");
    push_ipv4(&mut s, ip);
    s.append(":");
    push_decimal(&mut s, port as u64);
    s
}

/// Address of the prober pod `pod` behind the service domain `base`.
pub open spec fn prober_host_text(pod: Seq<char>, base: Seq<char>, port: Seq<char>) -> Seq<char> {
    pod + "."@ + base + ":"@ + port
}

/// Address of the prober pod `pod` behind the service domain `base`: `pod.base:port`.
pub fn prober_host(pod: &String, base: &String, port: &String) -> (r: String)
    ensures
        r@ == prober_host_text(pod@, base@, port@),
{
    let mut s = pod.clone();
    s.append(".");
    s.append(base.as_str());
    s.append(":");
    s.append(port.as_str());
    s
}

/// The URL of a prober's score list.
pub fn scores_url(host: &String) -> (r: String)
    ensures
        r@ == "http://"@ + host@ + "/scores"@,
{
    let mut s = String::from_str("http://");
    s.append(host.as_str());
    s.append("/scores");
    s
}

/// The namespaces whose endpoints the agent never routes.
pub open spec fn excluded_namespace_list() -> Seq<Seq<char>> {
    seq![
        "cert-manager"@,
        "flux2"@,
        "linkerd"@,
        "linkerd-jaeger"@,
        "linkerd-smi"@,
        "linkerd-viz"@,
        "gatekeeper-system"@,
        "kube-node-lease"@,
        "kube-public"@,
        "kube-system"@,
    ]
}

/// The field selector `metadata.namespace!=<ns>` for each of `nss`, comma-separated.
pub open spec fn selector_text(nss: Seq<Seq<char>>) -> Seq<char>
    decreases nss.len(),
{
    if nss.len() == 0 {
        seq![]
    } else if nss.len() == 1 {
        "metadata.namespace!="@ + nss[0]
    } else {
        selector_text(nss.drop_last()) + ","@ + "metadata.namespace!="@ + nss.last()
    }
}

/// The field selector that leaves out the system namespaces.
pub fn get_excluded_namespaces() -> (r: String)
    ensures
        r@ == selector_text(excluded_namespace_list()),
{
    let mut nss: Vec<&str> = Vec::new();
    nss.push("cert-manager");
    nss.push("flux2");
    nss.push("linkerd");
    nss.push("linkerd-jaeger");
    nss.push("linkerd-smi");
    nss.push("linkerd-viz");
    nss.push("gatekeeper-system");
    nss.push("kube-node-lease");
    nss.push("kube-public");
    nss.push("kube-system");
    let ghost list = excluded_namespace_list();
    assert(nss@.map_values(|x: &str| x@) =~= list);
    let mut s = String::new();
    let mut i: usize = 0;
    while i < nss.len()
        invariant
            nss@.map_values(|x: &str| x@) == list,
            list == excluded_namespace_list(),
            i <= nss@.len(),
            s@ == selector_text(list.subrange(0, i as int)),
        decreases nss@.len() - i,
    {
        assert(list.subrange(0, i + 1).drop_last() =~= list.subrange(0, i as int));
        assert(nss@[i as int]@ == list[i as int]);
        if i > 0 {
            s.append(",");
        }
        s.append("metadata.namespace!=");
        s.append(nss[i]);
        proof {
            if i == 0 {
                assert(s@ =~= "metadata.namespace!="@ + list[0]);
            }
        }
        i += 1;
    }
    assert(list.subrange(0, 10) =~= list);
    s
}

/// Whether `needle` occurs in `hay`.
pub fn contains_text(hay: &str, needle: &str) -> (r: bool)
    ensures
        r == has_infix(hay@, needle@),
{
    let n = hay.unicode_len();
    let m = needle.unicode_len();
    if m > n {
        return false;
    }
    let mut i: usize = 0;
    while i <= n - m
        invariant
            n == hay@.len(),
            m == needle@.len(),
            m <= n,
            i <= n - m,
            forall|k: int| 0 <= k < i ==> #[trigger] hay@.subrange(k, k + m) != needle@,
        decreases n - m - i,
    {
        let mut j: usize = 0;
        let mut same = true;
        while j < m && same
            invariant
                n == hay@.len(),
                m == needle@.len(),
                i + m <= n,
                j <= m,
                same ==> forall|t: int| 0 <= t < j ==> #[trigger] hay@[i + t] == needle@[t],
                !same ==> hay@.subrange(i as int, i + m) != needle@,
            decreases m - j,
        {
            if hay.get_char(i + j) != needle.get_char(j) {
                same = false;
                assert(hay@.subrange(i as int, i + m)[j as int] != needle@[j as int]);
            }
            j += 1;
        }
        if same {
            assert forall|t: int| 0 <= t < m implies #[trigger] hay@.subrange(i as int, i + m)[t]
                == needle@[t] by {
                assert(hay@[i + t] == needle@[t]);
            }
            assert(hay@.subrange(i as int, i + m) =~= needle@);
            return true;
        }
        if i == n - m {
            return false;
        }
        i += 1;
    }
    false
}

/// The busiest worker: the first result's `node` label that names neither a
/// control-plane nor a master node.
pub open spec fn busiest_spec(labels: Seq<Option<String>>) -> Option<Seq<char>>
    decreases labels.len(),
{
    if labels.len() == 0 {
        None
    } else {
        match labels[0] {
            Some(n) => if !has_infix(n@, "control-plane"@) && !has_infix(n@, "master"@) {
                Some(n@)
            } else {
                busiest_spec(labels.drop_first())
            },
            None => busiest_spec(labels.drop_first()),
        }
    }
}

/// Picks the busiest worker from the `node` labels of a top-k query's results.
pub fn busiest_node(labels: &Vec<Option<String>>) -> (r: Option<String>)
    ensures
        match r {
            Some(n) => busiest_spec(labels@) == Some(n@),
            None => busiest_spec(labels@) is None,
        },
{
    let mut i: usize = 0;
    assert(labels@.subrange(0, labels@.len() as int) =~= labels@);
    while i < labels.len()
        invariant
            i <= labels@.len(),
            busiest_spec(labels@) == busiest_spec(labels@.subrange(i as int, labels@.len() as int)),
        decreases labels@.len() - i,
    {
        let ghost rest = labels@.subrange(i as int, labels@.len() as int);
        assert(rest.drop_first() =~= labels@.subrange(i + 1, labels@.len() as int));
        match &labels[i] {
            Some(n) => {
                if !contains_text(n.as_str(), "control-plane") && !contains_text(n.as_str(), "master") {
                    return Some(n.clone());
                }
            },
            None => {},
        }
        i += 1;
    }
    None
}

/// The node → prober table after recording `host` for `node`: it replaces the
/// node's row, or is added at the end.
pub open spec fn mapping_put(m: Seq<(Seq<char>, Seq<char>)>, node: Seq<char>, host: Seq<char>) -> Seq<
    (Seq<char>, Seq<char>),
>
    decreases m.len(),
{
    if m.len() == 0 {
        seq![(node, host)]
    } else if m[0].0 == node {
        m.update(0, (node, host))
    } else {
        seq![m[0]] + mapping_put(m.drop_first(), node, host)
    }
}

/// The node → prober table of the pods `pods`: each pod with a name and a node
/// records `pod.base:port`, a later pod on the same node replacing an earlier one.
pub open spec fn mapping_spec(pods: Seq<ProberPod>, base: Seq<char>, port: Seq<char>) -> Seq<
    (Seq<char>, Seq<char>),
>
    decreases pods.len(),
{
    if pods.len() == 0 {
        seq![]
    } else {
        let m = mapping_spec(pods.drop_last(), base, port);
        match (pods.last().name, pods.last().node_name) {
            (Some(p), Some(n)) => mapping_put(m, n@, prober_host_text(p@, base, port)),
            _ => m,
        }
    }
}

/// The rows of a node → prober table.
pub open spec fn mapping_view(m: Seq<ProberHost>) -> Seq<(Seq<char>, Seq<char>)> {
    m.map_values(|h: ProberHost| (h.node@, h.host@))
}

proof fn lemma_mapping_put_at(m: Seq<(Seq<char>, Seq<char>)>, node: Seq<char>, host: Seq<char>, k: int)
    requires
        0 <= k <= m.len(),
        forall|j: int| 0 <= j < k ==> #[trigger] m[j].0 != node,
        k < m.len() ==> m[k].0 == node,
    ensures
        mapping_put(m, node, host) == if k < m.len() {
            m.update(k, (node, host))
        } else {
            m.push((node, host))
        },
    decreases m.len(),
{
    if m.len() > 0 && k > 0 {
        assert forall|j: int| 0 <= j < k - 1 implies #[trigger] m.drop_first()[j].0 != node by {
            assert(m.drop_first()[j] == m[j + 1]);
        }
        assert(m[0].0 != node);
        lemma_mapping_put_at(m.drop_first(), node, host, k - 1);
        if k < m.len() {
            assert(seq![m[0]] + m.drop_first().update(k - 1, (node, host)) =~= m.update(k, (node, host)));
        } else {
            assert(seq![m[0]] + m.drop_first().push((node, host)) =~= m.push((node, host)));
        }
    } else if m.len() == 0 {
        assert(seq![(node, host)] =~= m.push((node, host)));
    }
}

/// Position of the row of node `n`, or the table's length when there is none.
fn find_host_row(m: &Vec<ProberHost>, n: &String) -> (k: usize)
    ensures
        k <= m@.len(),
        k < m@.len() ==> m@[k as int].node@ == n@,
        forall|j: int| 0 <= j < k ==> #[trigger] m@[j].node@ != n@,
{
    let mut k: usize = 0;
    while k < m.len()
        invariant
            k <= m@.len(),
            forall|j: int| 0 <= j < k ==> #[trigger] m@[j].node@ != n@,
        decreases m@.len() - k,
    {
        if m[k].node.eq(n) {
            return k;
        }
        k += 1;
    }
    k
}

/// The node → prober table of the prober pods.
pub fn get_prober_mapping(pods: &Vec<ProberPod>, base: &String, port: &String) -> (r: Vec<
    ProberHost,
>)
    ensures
        mapping_view(r@) == mapping_spec(pods@, base@, port@),
{
    let mut m: Vec<ProberHost> = Vec::new();
    let mut i: usize = 0;
    while i < pods.len()
        invariant
            i <= pods@.len(),
            mapping_view(m@) == mapping_spec(pods@.subrange(0, i as int), base@, port@),
        decreases pods@.len() - i,
    {
        assert(pods@.subrange(0, i + 1).drop_last() =~= pods@.subrange(0, i as int));
        match (&pods[i].name, &pods[i].node_name) {
            (Some(p), Some(n)) => {
                let host = prober_host(p, base, port);
                let ghost m0 = mapping_view(m@);
                let k = find_host_row(&m, n);
                proof {
                    assert forall|j: int| 0 <= j < k implies #[trigger] m0[j].0 != n@ by {
                        assert(m0[j].0 == m@[j].node@);
                    }
                    lemma_mapping_put_at(m0, n@, host@, k as int);
                }
                if k < m.len() {
                    m.remove(k);
                    m.insert(k, ProberHost { node: n.clone(), host });
                } else {
                    m.push(ProberHost { node: n.clone(), host });
                }
                assert(mapping_view(m@) =~= mapping_put(m0, n@, prober_host_text(p@, base@, port@)));
            },
            _ => {},
        }
        i += 1;
    }
    assert(pods@.subrange(0, pods@.len() as int) =~= pods@);
    m
}

} // verus!
