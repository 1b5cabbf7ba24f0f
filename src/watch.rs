use vstd::prelude::*;

use crate::model::{Ipv4, NodeEndpoints, Service, WorkerNode};
use crate::net::{parse_ipv4, parse_ipv4_spec};

verus! {

/// One address of a Kubernetes node: its kind (`InternalIP`, ...) and its text.
#[derive(Clone, Debug)]
pub struct NodeAddress {
    pub type_: String,
    pub address: String,
}

/// One address of an endpoints object: the backend's IP text and the node its
/// pod runs on, when known.
#[derive(Clone, Debug)]
pub struct EndpointAddress {
    pub ip: String,
    pub node_name: Option<String>,
}

/// The text of the first address of kind `InternalIP`.
pub open spec fn first_internal(addrs: Seq<NodeAddress>) -> Option<Seq<char>>
    decreases addrs.len(),
{
    if addrs.len() == 0 {
        None
    } else if addrs[0].type_@ == "InternalIP"@ {
        Some(addrs[0].address@)
    } else {
        first_internal(addrs.drop_first())
    }
}

/// The node's address: its first `InternalIP`, if that is IPv4 text.
pub open spec fn internal_ip_spec(addrs: Seq<NodeAddress>) -> Option<Ipv4> {
    match first_internal(addrs) {
        Some(t) => parse_ipv4_spec(t),
        None => None,
    }
}

/// The address a node is reached at: its first `InternalIP`, read as IPv4.
pub fn find_internal_ip(addresses: &Vec<NodeAddress>) -> (r: Option<Ipv4>)
    ensures
        r == internal_ip_spec(addresses@),
{
    let kind = String::from_str("InternalIP");
    let mut i: usize = 0;
    assert(addresses@.subrange(0, addresses@.len() as int) =~= addresses@);
    while i < addresses.len()
        invariant
            kind@ == "InternalIP"@,
            i <= addresses@.len(),
            first_internal(addresses@) == first_internal(addresses@.subrange(i as int, addresses@.len() as int)),
        decreases addresses@.len() - i,
    {
        let ghost rest = addresses@.subrange(i as int, addresses@.len() as int);
        assert(rest.drop_first() =~= addresses@.subrange(i + 1, addresses@.len() as int));
        if addresses[i].type_.eq(&kind) {
            return parse_ipv4(addresses[i].address.as_str());
        }
        i += 1;
    }
    None
}

/// The worker node announced for a Kubernetes node named `name`; none without a
/// usable internal address.
pub fn worker_node(name: String, addresses: &Vec<NodeAddress>) -> (r: Option<WorkerNode>)
    ensures
        match r {
            Some(w) => w.name == name && internal_ip_spec(addresses@) == Some(w.ip),
            None => internal_ip_spec(addresses@) is None,
        },
{
    match find_internal_ip(addresses) {
        Some(ip) => Some(WorkerNode { name, ip }),
        None => None,
    }
}

/// Backends grouped by node, as node name and addresses.
pub open spec fn groups_view(g: Seq<NodeEndpoints>) -> Seq<(Seq<char>, Seq<Ipv4>)> {
    g.map_values(|e: NodeEndpoints| (e.node@, e.endpoints@))
}

/// Position of the group of node `name`, or −1.
pub open spec fn group_index(g: Seq<(Seq<char>, Seq<Ipv4>)>, name: Seq<char>) -> int
    decreases g.len(),
{
    if g.len() == 0 {
        -1
    } else {
        let k = group_index(g.drop_last(), name);
        if k >= 0 {
            k
        } else if g.last().0 == name {
            g.len() - 1
        } else {
            -1
        }
    }
}

/// Adds backend `ip` to the group of node `name`, opening the group at the end
/// when the node has none yet.
pub open spec fn add_backend(g: Seq<(Seq<char>, Seq<Ipv4>)>, name: Seq<char>, ip: Ipv4) -> Seq<
    (Seq<char>, Seq<Ipv4>),
> {
    let k = group_index(g, name);
    if k >= 0 {
        g.update(k, (name, g[k].1.push(ip)))
    } else {
        g.push((name, seq![ip]))
    }
}

/// Backends of `addrs` grouped by node in order of first appearance; an address
/// without a node, or whose IP is not IPv4 text, is left out.
pub open spec fn grouped(addrs: Seq<EndpointAddress>) -> Seq<(Seq<char>, Seq<Ipv4>)>
    decreases addrs.len(),
{
    if addrs.len() == 0 {
        seq![]
    } else {
        let g = grouped(addrs.drop_last());
        let a = addrs.last();
        match (a.node_name, parse_ipv4_spec(a.ip@)) {
            (Some(n), Some(ip)) => add_backend(g, n@, ip),
            _ => g,
        }
    }
}

proof fn lemma_group_index(g: Seq<(Seq<char>, Seq<Ipv4>)>, name: Seq<char>)
    ensures
        -1 <= group_index(g, name) < g.len(),
        group_index(g, name) >= 0 ==> g[group_index(g, name)].0 == name,
    decreases g.len(),
{
    if g.len() > 0 {
        lemma_group_index(g.drop_last(), name);
    }
}

proof fn lemma_group_index_prefix(g: Seq<(Seq<char>, Seq<Ipv4>)>, name: Seq<char>, k: int)
    requires
        0 <= k <= g.len(),
        group_index(g.subrange(0, k), name) >= 0,
    ensures
        group_index(g, name) == group_index(g.subrange(0, k), name),
    decreases g.len(),
{
    if k == g.len() {
        assert(g.subrange(0, k) =~= g);
    } else {
        assert(g.drop_last().subrange(0, k) =~= g.subrange(0, k));
        lemma_group_index_prefix(g.drop_last(), name, k);
    }
}

/// Adds backend `ip` of node `name` to the groups.
fn add_backend_exec(groups: &mut Vec<NodeEndpoints>, name: &String, ip: Ipv4)
    ensures
        groups_view(final(groups)@) == add_backend(groups_view(old(groups)@), name@, ip),
{
    let ghost g0 = groups_view(groups@);
    let mut k: usize = 0;
    while k < groups.len()
        invariant
            g0 == groups_view(groups@),
            g0 == groups_view(old(groups)@),
            k <= groups@.len(),
            group_index(g0.subrange(0, k as int), name@) == -1,
        decreases groups@.len() - k,
    {
        assert(g0.subrange(0, k + 1).drop_last() =~= g0.subrange(0, k as int));
        if groups[k].node.eq(name) {
            proof {
                lemma_group_index_prefix(g0, name@, k + 1);
            }
            let mut e = groups.remove(k);
            e.endpoints.push(ip);
            groups.insert(k, e);
            assert(groups_view(groups@) =~= add_backend(g0, name@, ip));
            return;
        }
        k += 1;
    }
    assert(g0.subrange(0, g0.len() as int) =~= g0);
    let mut eps: Vec<Ipv4> = Vec::new();
    eps.push(ip);
    groups.push(NodeEndpoints { node: name.clone(), endpoints: eps });
    assert(eps@ =~= seq![ip]);
    assert(groups_view(groups@) =~= add_backend(g0, name@, ip));
}

/// Groups the backends of an endpoints object by the node their pods run on.
pub fn group_endpoints(addresses: &Vec<EndpointAddress>) -> (r: Vec<NodeEndpoints>)
    ensures
        groups_view(r@) == grouped(addresses@),
{
    let mut groups: Vec<NodeEndpoints> = Vec::new();
    let mut i: usize = 0;
    while i < addresses.len()
        invariant
            i <= addresses@.len(),
            groups_view(groups@) == grouped(addresses@.subrange(0, i as int)),
        decreases addresses@.len() - i,
    {
        assert(addresses@.subrange(0, i + 1).drop_last() =~= addresses@.subrange(0, i as int));
        let a = &addresses[i];
        match &a.node_name {
            Some(n) => {
                match parse_ipv4(a.ip.as_str()) {
                    Some(ip) => add_backend_exec(&mut groups, n, ip),
                    None => {},
                }
            },
            None => {},
        }
        i += 1;
    }
    assert(addresses@.subrange(0, addresses@.len() as int) =~= addresses@);
    groups
}

/// The API server's own service, whose endpoints are never routed.
pub open spec fn is_api_service(name: Seq<char>) -> bool {
    name == "kubernetes"@
}

/// The service announced for an endpoints object named `name` whose parent
/// service exposes `nodeport` → `targetport`; none for the API server's service.
pub fn service_from_endpoints(
    name: String,
    nodeport: i32,
    targetport: i32,
    addresses: &Vec<EndpointAddress>,
) -> (r: Option<Service>)
    ensures
        match r {
            Some(s) => !is_api_service(name@) && s.name == name && s.nodeport == nodeport
                && s.targetport == targetport && groups_view(s.endpoints_by_nodename@) == grouped(
                addresses@,
            ),
            None => is_api_service(name@),
        },
{
    let api = String::from_str("kubernetes");
    if name.eq(&api) {
        return None;
    }
    Some(
        Service {
            name,
            nodeport,
            targetport,
            endpoints_by_nodename: group_endpoints(addresses),
        },
    )
}

} // verus!
