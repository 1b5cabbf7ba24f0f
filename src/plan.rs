use vstd::arithmetic::div_mod::lemma_fundamental_div_mod;
use vstd::prelude::*;

use crate::model::{Ipv4, NodeEndpoints, NodeScore, ScorePair, Service};

verus! {

/// A node whose CPU head-room is at or below this (0.05) is unusable. "No
/// head-room" is taken to reach up to this floor rather than to stop at exactly 0:
/// a node with 0.02 head-room (98% busy) is already dropped.
pub const CPU_UNUSABLE_AT_MOST: u32 = 50_000;

/// A node whose CPU head-room is at or above this (0.95) is unsafe.
pub const CPU_UNSAFE_AT_LEAST: u32 = 950_000;

/// Floor of a node's routing weight: 0.1 at the weight's scale of ten times `SCALE`.
pub const WEIGHT_FLOOR: u64 = 1_000_000;

/// Largest routing weight any score pair can give.
pub const WEIGHT_MAX: u64 = 42_949_672_950;

/// One arm of the DNAT verdict map: random keys `low..=high` go to `backend`.
#[derive(Clone, Copy, Debug, PartialEq, Eq, Structural)]
pub struct VerdictRange {
    pub low: u32,
    pub high: u32,
    pub backend: Ipv4,
}

/// The per-service rule: TCP packets to `nodeport` are DNAT'd to a backend picked
/// by `numgen random mod modulus` through `ranges`, on port `targetport`.
#[derive(Clone, Debug)]
pub struct ServicePlan {
    pub chain: String,
    pub nodeport: i32,
    pub targetport: i32,
    pub modulus: u32,
    pub ranges: Vec<VerdictRange>,
}

/// The score pair of the first row of `t` named `name`.
pub open spec fn lookup(t: Seq<NodeScore>, name: Seq<char>) -> Option<ScorePair>
    decreases t.len(),
{
    if t.len() == 0 {
        None
    } else {
        match lookup(t.drop_last(), name) {
            Some(p) => Some(p),
            None => if t.last().node.name@ == name {
                Some(t.last().score)
            } else {
                None
            },
        }
    }
}

/// A node takes traffic only with both scores known and its CPU head-room
/// strictly between the unusable and the unsafe bounds.
pub open spec fn admitted(p: ScorePair) -> bool {
    &&& p.latency is Some
    &&& p.cpu is Some
    &&& CPU_UNUSABLE_AT_MOST < p.cpu->0 < CPU_UNSAFE_AT_LEAST
}

/// Routing weight `0.7·latency + 0.3·cpu` (here `7·latency + 3·cpu`, at ten times
/// `SCALE`), floored at `WEIGHT_FLOOR`; higher head-room gives more traffic.
pub open spec fn weight_of(p: ScorePair) -> nat {
    let w = 7 * p.latency->0 + 3 * p.cpu->0;
    if w < WEIGHT_FLOOR {
        WEIGHT_FLOOR as nat
    } else {
        w as nat
    }
}

/// Weight of the node that holds `ne`, absent when that node is not admitted.
pub open spec fn node_weight(t: Seq<NodeScore>, ne: NodeEndpoints) -> Option<nat> {
    match lookup(t, ne.node@) {
        Some(p) => if admitted(p) {
            Some(weight_of(p))
        } else {
            None
        },
        None => None,
    }
}

/// Sum of the weights of the admitted nodes of `eps`.
pub open spec fn total_weight(t: Seq<NodeScore>, eps: Seq<NodeEndpoints>) -> nat
    decreases eps.len(),
{
    if eps.len() == 0 {
        0
    } else {
        total_weight(t, eps.drop_last()) + match node_weight(t, eps.last()) {
            Some(w) => w,
            None => 0,
        }
    }
}

/// Number of endpoints on the admitted nodes of `eps`.
pub open spec fn total_endpoints(t: Seq<NodeScore>, eps: Seq<NodeEndpoints>) -> nat
    decreases eps.len(),
{
    if eps.len() == 0 {
        0
    } else {
        total_endpoints(t, eps.drop_last()) + match node_weight(t, eps.last()) {
            Some(w) => eps.last().endpoints@.len(),
            None => 0,
        }
    }
}

/// `round(w / total · cap)`, halves rounded up.
pub open spec fn portion(w: nat, total: nat, cap: nat) -> nat {
    if total == 0 {
        0
    } else {
        (2 * w * cap + total) / (2 * total)
    }
}

/// Share of endpoint `j` when a portion `p` is divided among `k` endpoints:
/// `⌊p / k⌋`, plus one for each of the first `p mod k`.
pub open spec fn share(p: nat, k: nat, j: nat) -> nat {
    p / k + if j < p % k {
        1nat
    } else {
        0nat
    }
}

/// The endpoints of `ne` with their shares; empty when the node is not admitted
/// or its portion rounds to zero.
pub open spec fn node_items(t: Seq<NodeScore>, ne: NodeEndpoints, total: nat, cap: nat) -> Seq<
    (Ipv4, u32),
> {
    match node_weight(t, ne) {
        Some(w) => {
            let p = portion(w, total, cap);
            if p == 0 {
                seq![]
            } else {
                Seq::new(
                    ne.endpoints@.len(),
                    |j: int| (ne.endpoints@[j], share(p, ne.endpoints@.len(), j as nat) as u32),
                )
            }
        },
        None => seq![],
    }
}

/// The endpoints of all nodes of `eps`, in order, with their shares.
pub open spec fn all_items(t: Seq<NodeScore>, eps: Seq<NodeEndpoints>, total: nat, cap: nat) -> Seq<
    (Ipv4, u32),
>
    decreases eps.len(),
{
    if eps.len() == 0 {
        seq![]
    } else {
        all_items(t, eps.drop_last(), total, cap) + node_items(t, eps.last(), total, cap)
    }
}

/// Lays the shares out as contiguous ranges from 0 with a running cursor; a share
/// that would pass `cap` is cut at `cap − 1`, and nothing is laid out once the cursor
/// reaches `cap`. Gives the ranges and the final cursor.
pub open spec fn layout(items: Seq<(Ipv4, u32)>, cap: int) -> (Seq<VerdictRange>, int)
    decreases items.len(),
{
    if items.len() == 0 {
        (seq![], 0)
    } else {
        let prev = layout(items.drop_last(), cap);
        let cur = prev.1;
        let ip = items.last().0;
        let s = items.last().1 as int;
        if cur >= cap || s == 0 {
            prev
        } else {
            let hi = if cur + s - 1 < cap - 1 {
                cur + s - 1
            } else {
                cap - 1
            };
            (prev.0.push(VerdictRange { low: cur as u32, high: hi as u32, backend: ip }), hi + 1)
        }
    }
}

/// The ranges of the rule for `svc` (empty when none is laid out).
pub open spec fn planned_layout(t: Seq<NodeScore>, svc: Service, cap: u32) -> (
    Seq<VerdictRange>,
    int,
) {
    let eps = svc.endpoints_by_nodename@;
    layout(all_items(t, eps, total_weight(t, eps), cap as nat), cap as int)
}

/// A rule is emitted for `svc`: it spans at least two nodes, at least two
/// endpoints remain on admitted nodes, and some range is laid out.
pub open spec fn emits(t: Seq<NodeScore>, svc: Service, cap: u32) -> bool {
    let eps = svc.endpoints_by_nodename@;
    &&& eps.len() >= 2
    &&& total_endpoints(t, eps) >= 2
    &&& planned_layout(t, svc, cap).0.len() > 0
}

/// Name of the per-service chain: `<prefix>-<service name>`.
pub open spec fn chain_name(prefix: Seq<char>, name: Seq<char>) -> Seq<char> {
    prefix + seq!['-'] + name
}

/// What `plan_service` returns for these inputs.
pub open spec fn plan_matches(
    r: Option<ServicePlan>,
    t: Seq<NodeScore>,
    svc: Service,
    prefix: Seq<char>,
    cap: u32,
) -> bool {
    match r {
        None => !emits(t, svc, cap),
        Some(p) => {
            &&& emits(t, svc, cap)
            &&& p.chain@ == chain_name(prefix, svc.name@)
            &&& p.nodeport == svc.nodeport
            &&& p.targetport == svc.targetport
            &&& p.ranges@ == planned_layout(t, svc, cap).0
            &&& p.modulus == planned_layout(t, svc, cap).1
        },
    }
}

/// Ranges laid end to end from key 0 up to key `m − 1`.
pub open spec fn contiguous(rs: Seq<VerdictRange>, m: int) -> bool {
    &&& rs.len() == 0 ==> m == 0
    &&& rs.len() > 0 ==> rs[0].low == 0 && rs.last().high + 1 == m
    &&& forall|i: int| 0 <= i < rs.len() ==> #[trigger] rs[i].low <= rs[i].high
    &&& forall|i: int| 0 <= i < rs.len() - 1 ==> #[trigger] rs[i + 1].low == rs[i].high + 1
}

/// Range `r` holds key `x`.
pub open spec fn covers(r: VerdictRange, x: int) -> bool {
    r.low <= x <= r.high
}

/// Some range of `rs` holds key `x`.
pub open spec fn holds_key(rs: Seq<VerdictRange>, x: int) -> bool {
    exists|i: int| 0 <= i < rs.len() && #[trigger] covers(rs[i], x)
}

/// Total number of keys that the ranges hold.
pub open spec fn width_sum(rs: Seq<VerdictRange>) -> int
    decreases rs.len(),
{
    if rs.len() == 0 {
        0
    } else {
        width_sum(rs.drop_last()) + (rs.last().high - rs.last().low + 1)
    }
}

/// Sum of the first `n` shares of a portion `p` divided among `k` endpoints.
pub open spec fn share_sum(p: nat, k: nat, n: nat) -> nat
    decreases n,
{
    if n == 0 {
        0
    } else {
        share_sum(p, k, (n - 1) as nat) + share(p, k, (n - 1) as nat)
    }
}

/// The layout is contiguous, its cursor stays within `cap`, and its widths add up
/// to the cursor.
proof fn lemma_layout_shape(items: Seq<(Ipv4, u32)>, cap: int)
    requires
        cap <= u32::MAX,
    ensures
        contiguous(layout(items, cap).0, layout(items, cap).1),
        0 <= layout(items, cap).1,
        layout(items, cap).1 <= cap || layout(items, cap).1 == 0,
        width_sum(layout(items, cap).0) == layout(items, cap).1,
    decreases items.len(),
{
    if items.len() > 0 {
        lemma_layout_shape(items.drop_last(), cap);
        let prev = layout(items.drop_last(), cap);
        let cur = layout(items, cap);
        if cur.0.len() > prev.0.len() {
            assert(cur.0.drop_last() =~= prev.0);
            assert forall|i: int| 0 <= i < cur.0.len() - 1 implies #[trigger] cur.0[i + 1].low
                == cur.0[i].high + 1 by {
                if i + 1 < prev.0.len() {
                    assert(cur.0[i + 1] == prev.0[i + 1]);
                }
            }
        }
    }
}

/// In contiguous ranges an earlier range lies wholly below a later one.
proof fn lemma_contiguous_ordered(rs: Seq<VerdictRange>, m: int, i: int, j: int)
    requires
        contiguous(rs, m),
        0 <= i < j < rs.len(),
    ensures
        rs[i].high < rs[j].low,
    decreases j - i,
{
    if j > i + 1 {
        lemma_contiguous_ordered(rs, m, i, j - 1);
        assert(rs[j - 1].low <= rs[j - 1].high);
        assert(rs[(j - 1) + 1].low == rs[j - 1].high + 1);
    } else {
        assert(rs[i + 1].low == rs[i].high + 1);
    }
}

/// Contiguous ranges hold every key in `0..m` and no other.
proof fn lemma_contiguous_covers(rs: Seq<VerdictRange>, m: int)
    requires
        contiguous(rs, m),
    ensures
        forall|x: int| 0 <= x < m ==> #[trigger] holds_key(rs, x),
        forall|i: int, x: int| 0 <= i < rs.len() && #[trigger] covers(rs[i], x) ==> 0 <= x < m,
    decreases rs.len(),
{
    if rs.len() > 0 {
        let last = rs.last();
        let init = rs.drop_last();
        let m0 = last.low as int;
        assert(contiguous(init, m0)) by {
            if init.len() > 0 {
                assert(rs[init.len() - 1 + 1].low == rs[init.len() - 1].high + 1);
            }
            assert forall|i: int| 0 <= i < init.len() - 1 implies #[trigger] init[i + 1].low
                == init[i].high + 1 by {
                assert(rs[i + 1].low == rs[i].high + 1);
            }
            assert forall|i: int| 0 <= i < init.len() implies #[trigger] init[i].low
                <= init[i].high by {
                assert(rs[i].low <= rs[i].high);
            }
        }
        lemma_contiguous_covers(init, m0);
        assert(rs[rs.len() - 1].low <= rs[rs.len() - 1].high);
        assert forall|x: int| 0 <= x < m implies #[trigger] holds_key(rs, x) by {
            if x < m0 {
                assert(holds_key(init, x));
                let i = choose|i: int| 0 <= i < init.len() && #[trigger] covers(init[i], x);
                assert(covers(rs[i], x));
            } else {
                assert(covers(rs[rs.len() - 1], x));
            }
        }
        assert forall|i: int, x: int| 0 <= i < rs.len() && #[trigger] covers(rs[i], x) implies 0
            <= x < m by {
            if i < rs.len() - 1 {
                assert(covers(init[i], x));
            }
        }
    }
}

/// Every emitted rule's verdict map holds exactly the keys `0..modulus`, each in
/// exactly one range, and `modulus` is at most the cap.
pub proof fn lemma_plan_ranges_partition(t: Seq<NodeScore>, svc: Service, cap: u32)
    requires
        emits(t, svc, cap),
    ensures
        ({
            let (rs, m) = planned_layout(t, svc, cap);
            &&& 0 < m <= cap
            &&& forall|x: int| 0 <= x < m ==> #[trigger] holds_key(rs, x)
            &&& forall|i: int, x: int| 0 <= i < rs.len() && #[trigger] covers(rs[i], x) ==> 0 <= x < m
            &&& forall|i: int, j: int| 0 <= i < j < rs.len() ==> #[trigger] rs[i].high < #[trigger] rs[j].low
        }),
{
    let eps = svc.endpoints_by_nodename@;
    let items = all_items(t, eps, total_weight(t, eps), cap as nat);
    lemma_layout_shape(items, cap as int);
    let (rs, m) = planned_layout(t, svc, cap);
    lemma_contiguous_covers(rs, m);
    assert forall|i: int, j: int| 0 <= i < j < rs.len() implies #[trigger] rs[i].high < #[trigger] rs[j].low by {
        lemma_contiguous_ordered(rs, m, i, j);
    }
}

/// The keys given to the endpoints of an emitted rule add up to its modulus.
pub proof fn lemma_plan_widths_sum_to_modulus(t: Seq<NodeScore>, svc: Service, cap: u32)
    requires
        emits(t, svc, cap),
    ensures
        width_sum(planned_layout(t, svc, cap).0) == planned_layout(t, svc, cap).1,
{
    let eps = svc.endpoints_by_nodename@;
    lemma_layout_shape(all_items(t, eps, total_weight(t, eps), cap as nat), cap as int);
}

proof fn lemma_share_sum_closed(p: nat, k: nat, n: nat)
    requires
        k > 0,
    ensures
        share_sum(p, k, n) == n * (p / k) + if n < p % k {
            n
        } else {
            p % k
        },
    decreases n,
{
    if n > 0 {
        lemma_share_sum_closed(p, k, (n - 1) as nat);
        let q = p / k;
        let n1 = (n - 1) as nat;
        assert(n * q == n1 * q + q) by (nonlinear_arith)
            requires n == n1 + 1;
        let r = p % k;
        assert(share_sum(p, k, n) == share_sum(p, k, n1) + share(p, k, n1));
        assert(share(p, k, n1) == q + if n1 < r { 1nat } else { 0nat });
        if n1 < r {
            assert(share_sum(p, k, n) == n1 * q + n1 + q + 1);
        } else {
            assert(share_sum(p, k, n) == n1 * q + r + q);
        }
    } else {
        assert(0 * (p / k) == 0);
    }
}

/// A node's portion divided among its `k` endpoints: the shares add up to the
/// portion, and any two of them differ by at most one.
pub proof fn lemma_node_shares_balanced(p: nat, k: nat)
    requires
        k > 0,
    ensures
        share_sum(p, k, k) == p,
        forall|j1: nat, j2: nat| j1 < k && j2 < k ==> #[trigger] share(p, k, j1) <= #[trigger] share(p, k, j2) + 1,
{
    lemma_share_sum_closed(p, k, k);
    lemma_fundamental_div_mod(p as int, k as int);
    assert(k * (p / k) == (p / k) * k) by (nonlinear_arith);
}

/// No rule is emitted for a service on fewer than two nodes or with fewer than two
/// endpoints on admitted nodes.
pub proof fn lemma_thin_service_emits_nothing(t: Seq<NodeScore>, svc: Service, cap: u32)
    requires
        svc.endpoints_by_nodename@.len() < 2 || total_endpoints(t, svc.endpoints_by_nodename@) < 2,
    ensures
        !emits(t, svc, cap),
{
}

/// Two plans made from the same score table, service, prefix and cap are the
/// same plan: both absent, or equal in chain, ports, modulus and every range.
pub proof fn lemma_plan_deterministic(
    r1: Option<ServicePlan>,
    r2: Option<ServicePlan>,
    t: Seq<NodeScore>,
    svc: Service,
    prefix: Seq<char>,
    cap: u32,
)
    requires
        plan_matches(r1, t, svc, prefix, cap),
        plan_matches(r2, t, svc, prefix, cap),
    ensures
        r1 is Some <==> r2 is Some,
        r1 is Some ==> {
            &&& r1->0.chain@ == r2->0.chain@
            &&& r1->0.nodeport == r2->0.nodeport
            &&& r1->0.targetport == r2->0.targetport
            &&& r1->0.modulus == r2->0.modulus
            &&& r1->0.ranges@ == r2->0.ranges@
        },
{
}

/// Two rounded shares of a whole add up to at least the whole.
proof fn lemma_two_portions_cover(w0: nat, w1: nat, cap: nat)
    requires
        w0 + w1 > 0,
    ensures
        portion(w0, w0 + w1, cap) + portion(w1, w0 + w1, cap) >= cap,
        portion(w0, w0 + w1, cap) <= cap,
        portion(w1, w0 + w1, cap) <= cap,
{
    let t = w0 + w1;
    let d = 2 * t;
    let a = 2 * w0 * cap + t;
    let b = 2 * w1 * cap + t;
    assert(a + b == d * (cap + 1)) by (nonlinear_arith)
        requires a == 2 * w0 * cap + t, b == 2 * w1 * cap + t, t == w0 + w1, d == 2 * t;
    lemma_fundamental_div_mod(a as int, d as int);
    lemma_fundamental_div_mod(b as int, d as int);
    let qa = a / d;
    let qb = b / d;
    assert(qa + qb >= cap) by (nonlinear_arith)
        requires
            a == d * qa + a % d,
            b == d * qb + b % d,
            0 <= a % d < d,
            0 <= b % d < d,
            a + b == d * (cap + 1),
            d > 0;
    assert(a <= d * cap + t) by (nonlinear_arith)
        requires a == 2 * w0 * cap + t, w0 <= t, d == 2 * t;
    assert(b <= d * cap + t) by (nonlinear_arith)
        requires b == 2 * w1 * cap + t, w1 <= t, d == 2 * t;
    assert(qa <= cap) by (nonlinear_arith)
        requires a == d * qa + a % d, 0 <= a % d, a <= d * cap + t, d == 2 * t, t > 0;
    assert(qb <= cap) by (nonlinear_arith)
        requires b == d * qb + b % d, 0 <= b % d, b <= d * cap + t, d == 2 * t, t > 0;
}

/// A service on exactly two admitted nodes with one endpoint each always gets a
/// rule, and its random key is taken modulo the full cap.
pub proof fn lemma_two_single_endpoint_nodes_fill_cap(t: Seq<NodeScore>, svc: Service, cap: u32)
    requires
        cap >= 1,
        svc.endpoints_by_nodename@.len() == 2,
        svc.endpoints_by_nodename@[0].endpoints@.len() == 1,
        svc.endpoints_by_nodename@[1].endpoints@.len() == 1,
        node_weight(t, svc.endpoints_by_nodename@[0]) is Some,
        node_weight(t, svc.endpoints_by_nodename@[1]) is Some,
    ensures
        emits(t, svc, cap),
        planned_layout(t, svc, cap).1 == cap,
{
    let eps = svc.endpoints_by_nodename@;
    let e0 = eps[0];
    let e1 = eps[1];
    let w0 = node_weight(t, e0)->0;
    let w1 = node_weight(t, e1)->0;
    assert(eps.drop_last().drop_last() =~= Seq::<NodeEndpoints>::empty());
    assert(eps.drop_last().last() == e0);
    assert(eps.last() == e1);
    lemma_weight_floor(t, e0);
    lemma_weight_floor(t, e1);
    let tw = total_weight(t, eps);
    assert(total_weight(t, eps.drop_last().drop_last()) == 0);
    assert(total_weight(t, eps.drop_last()) == w0);
    assert(tw == w0 + w1);
    assert(total_endpoints(t, eps.drop_last().drop_last()) == 0);
    assert(total_endpoints(t, eps.drop_last()) == 1);
    assert(total_endpoints(t, eps) == 2);
    let c = cap as nat;
    lemma_two_portions_cover(w0, w1, c);
    let portion_a = portion(w0, tw, c);
    let portion_b = portion(w1, tw, c);
    let i0 = node_items(t, e0, tw, c);
    let i1 = node_items(t, e1, tw, c);
    assert(portion_a % 1 == 0 && portion_a / 1 == portion_a && portion_b % 1 == 0 && portion_b / 1 == portion_b);
    assert(portion_a > 0 ==> i0 =~= seq![(e0.endpoints@[0], portion_a as u32)]);
    assert(portion_a == 0 ==> i0 =~= Seq::<(Ipv4, u32)>::empty());
    assert(portion_b > 0 ==> i1 =~= seq![(e1.endpoints@[0], portion_b as u32)]);
    assert(portion_b == 0 ==> i1 =~= Seq::<(Ipv4, u32)>::empty());
    let items = all_items(t, eps, tw, c);
    assert(all_items(t, eps.drop_last().drop_last(), tw, c) =~= Seq::<(Ipv4, u32)>::empty());
    assert(all_items(t, eps.drop_last(), tw, c) =~= Seq::<(Ipv4, u32)>::empty() + i0);
    assert((portion_a as u32) as int == portion_a && (portion_b as u32) as int == portion_b);
    assert(items =~= i0 + i1);
    let ci = cap as int;
    if portion_a > 0 && portion_b > 0 {
        assert(items.drop_last() =~= i0);
        assert(i0.drop_last() =~= Seq::<(Ipv4, u32)>::empty());
        let first = layout(i0, ci);
        assert(layout(i0.drop_last(), ci) == (Seq::<VerdictRange>::empty(), 0int));
        assert(first.1 == if portion_a - 1 < ci - 1 { portion_a as int } else { ci });
    } else if portion_a > 0 {
        assert(items =~= i0);
        assert(i0.drop_last() =~= Seq::<(Ipv4, u32)>::empty());
        assert(layout(i0.drop_last(), ci) == (Seq::<VerdictRange>::empty(), 0int));
    } else {
        assert(items =~= i1);
        assert(i1.drop_last() =~= Seq::<(Ipv4, u32)>::empty());
        assert(layout(i1.drop_last(), ci) == (Seq::<VerdictRange>::empty(), 0int));
    }
}

/// An admitted node's weight is at least the floor.
proof fn lemma_weight_floor(t: Seq<NodeScore>, ne: NodeEndpoints)
    ensures
        node_weight(t, ne) matches Some(w) ==> w >= WEIGHT_FLOOR,
{
}

/// A node whose CPU head-room falls from 0.96 to 0.90 (its latency known) moves
/// from unsafe to admitted, and so takes traffic at the next reconciliation.
pub proof fn lemma_cpu_recovery_readmits(p: ScorePair)
    requires
        p.latency is Some,
    ensures
        !admitted(ScorePair { cpu: Some(960_000), ..p }),
        admitted(ScorePair { cpu: Some(900_000), ..p }),
{
}

/// Sum of the shares of `items`.
pub open spec fn share_total(items: Seq<(Ipv4, u32)>) -> int
    decreases items.len(),
{
    if items.len() == 0 {
        0
    } else {
        share_total(items.drop_last()) + items.last().1 as int
    }
}

/// The items with a positive share, in order: those that get a range.
pub open spec fn with_share(items: Seq<(Ipv4, u32)>) -> Seq<(Ipv4, u32)>
    decreases items.len(),
{
    if items.len() == 0 {
        seq![]
    } else if items.last().1 == 0 {
        with_share(items.drop_last())
    } else {
        with_share(items.drop_last()).push(items.last())
    }
}

/// When the shares fit within `cap`, nothing is cut: every item with a positive
/// share gets one range, in order, whose width is exactly its share.
proof fn lemma_layout_uncut(items: Seq<(Ipv4, u32)>, cap: int)
    requires
        cap <= u32::MAX,
        share_total(items) <= cap,
    ensures
        layout(items, cap).1 == share_total(items),
        layout(items, cap).0.len() == with_share(items).len(),
        forall|i: int|
            0 <= i < layout(items, cap).0.len() ==> (#[trigger] layout(items, cap).0[i]).backend
                == with_share(items)[i].0 && layout(items, cap).0[i].high - layout(items, cap).0[i].low + 1
                == with_share(items)[i].1,
    decreases items.len(),
{
    if items.len() > 0 {
        let init = items.drop_last();
        assert(share_total(init) >= 0) by {
            lemma_share_total_nonneg(init);
        }
        lemma_layout_uncut(init, cap);
        let prev = layout(init, cap);
        let cur = layout(items, cap);
        let ws0 = with_share(init);
        let ws = with_share(items);
        if items.last().1 > 0 {
            assert forall|i: int| 0 <= i < cur.0.len() implies (#[trigger] cur.0[i]).backend == ws[i].0
                && cur.0[i].high - cur.0[i].low + 1 == ws[i].1 by {
                if i < prev.0.len() {
                    assert(cur.0[i] == prev.0[i]);
                    assert(ws[i] == ws0[i]);
                }
            }
        }
    }
}

proof fn lemma_share_total_nonneg(items: Seq<(Ipv4, u32)>)
    ensures
        share_total(items) >= 0,
    decreases items.len(),
{
    if items.len() > 0 {
        lemma_share_total_nonneg(items.drop_last());
    }
}

/// When the rounded shares of a service fit within the cap, its rule gives each
/// endpoint with a positive share one range, in walk order, exactly as wide as
/// its share, and the modulus is the sum of the shares. An endpoint's share is
/// `share(p, k, j)` of its node's portion (see `node_items`), so the endpoints of
/// one node get widths that differ by at most one and add up to the portion.
pub proof fn lemma_plan_ranges_follow_shares(t: Seq<NodeScore>, svc: Service, cap: u32)
    requires
        share_total(
            all_items(
                t,
                svc.endpoints_by_nodename@,
                total_weight(t, svc.endpoints_by_nodename@),
                cap as nat,
            ),
        ) <= cap,
    ensures
        ({
            let items = all_items(
                t,
                svc.endpoints_by_nodename@,
                total_weight(t, svc.endpoints_by_nodename@),
                cap as nat,
            );
            let (rs, m) = planned_layout(t, svc, cap);
            &&& m == share_total(items)
            &&& rs.len() == with_share(items).len()
            &&& forall|i: int|
                0 <= i < rs.len() ==> (#[trigger] rs[i]).backend == with_share(items)[i].0 && rs[i].high
                    - rs[i].low + 1 == with_share(items)[i].1
        }),
{
    let eps = svc.endpoints_by_nodename@;
    lemma_layout_uncut(all_items(t, eps, total_weight(t, eps), cap as nat), cap as int);
}

/// The score pair recorded for node `name`.
pub fn lookup_score(table: &Vec<NodeScore>, name: &String) -> (r: Option<ScorePair>)
    ensures
        r == lookup(table@, name@),
{
    let mut k: usize = 0;
    while k < table.len()
        invariant
            k <= table@.len(),
            lookup(table@.subrange(0, k as int), name@) is None,
        decreases table@.len() - k,
    {
        assert(table@.subrange(0, k + 1).drop_last() =~= table@.subrange(0, k as int));
        if table[k].node.name.eq(name) {
            proof {
                lemma_lookup_prefix_found(table@, name@, k as int);
            }
            return Some(table[k].score);
        }
        k += 1;
    }
    assert(table@.subrange(0, table@.len() as int) =~= table@);
    None
}

/// Once a prefix of `t` holds no row named `name` and row `k` does, the
/// lookup finds row `k`.
proof fn lemma_lookup_prefix_found(t: Seq<NodeScore>, name: Seq<char>, k: int)
    requires
        0 <= k < t.len(),
        lookup(t.subrange(0, k), name) is None,
        t[k].node.name@ == name,
    ensures
        lookup(t, name) == Some(t[k].score),
    decreases t.len(),
{
    if k == t.len() - 1 {
        assert(t.drop_last() =~= t.subrange(0, k));
    } else {
        assert(t.drop_last().subrange(0, k) =~= t.subrange(0, k));
        lemma_lookup_prefix_found(t.drop_last(), name, k);
    }
}

/// Routing weight of the node that holds `ne`, absent when it is not admitted.
fn node_weight_exec(table: &Vec<NodeScore>, ne: &NodeEndpoints) -> (r: Option<u64>)
    ensures
        match r {
            Some(w) => node_weight(table@, *ne) == Some(w as nat) && w <= WEIGHT_MAX,
            None => node_weight(table@, *ne) is None,
        },
{
    match lookup_score(table, &ne.node) {
        Some(p) => {
            match (p.latency, p.cpu) {
                (Some(lat), Some(cpu)) => {
                    if CPU_UNUSABLE_AT_MOST < cpu && cpu < CPU_UNSAFE_AT_LEAST {
                        let w = 7 * (lat as u64) + 3 * (cpu as u64);
                        if w < WEIGHT_FLOOR {
                            Some(WEIGHT_FLOOR)
                        } else {
                            Some(w)
                        }
                    } else {
                        None
                    }
                },
                _ => None,
            }
        },
        None => None,
    }
}

/// `min(x, 2)`: enough of a count to tell whether it reaches two.
pub open spec fn upto_two(x: nat) -> nat {
    if x < 2 {
        x
    } else {
        2
    }
}

/// Some admitted node gives a positive total weight.
proof fn lemma_total_weight_positive(t: Seq<NodeScore>, eps: Seq<NodeEndpoints>)
    requires
        total_endpoints(t, eps) > 0,
    ensures
        total_weight(t, eps) >= WEIGHT_FLOOR,
    decreases eps.len(),
{
    if total_endpoints(t, eps.drop_last()) > 0 {
        lemma_total_weight_positive(t, eps.drop_last());
    }
}

/// Each node's weight is part of the total.
proof fn lemma_weight_within_total(t: Seq<NodeScore>, eps: Seq<NodeEndpoints>, i: int)
    requires
        0 <= i < eps.len(),
        node_weight(t, eps[i]) is Some,
    ensures
        node_weight(t, eps[i])->0 <= total_weight(t, eps),
    decreases eps.len(),
{
    if i < eps.len() - 1 {
        lemma_weight_within_total(t, eps.drop_last(), i);
    }
}

/// `portion` of a weight within the total, computed exactly.
fn portion_exec(w: u64, total: u128, cap: u32) -> (r: u32)
    requires
        0 < total <= 0x10_0000_0000_0000_0000_0000_0000u128,
        w <= total,
        w <= WEIGHT_MAX,
    ensures
        r == portion(w as nat, total as nat, cap as nat),
        r <= cap,
{
    let c = cap as u128;
    let ww = w as u128;
    proof {
        assert(2 * ww * c <= 2 * (WEIGHT_MAX as u128) * 0xffff_ffffu128) by (nonlinear_arith)
            requires ww <= WEIGHT_MAX as u128, c <= 0xffff_ffffu128;
    }
    let num = 2 * ww * c + total;
    let den = 2 * total;
    let r = num / den;
    proof {
        assert(num <= den * c + total) by (nonlinear_arith)
            requires num == 2 * ww * c + total, den == 2 * total, ww <= total;
        assert(r <= c) by (nonlinear_arith)
            requires r == num / den, num <= den * c + total, den == 2 * total, total > 0;
    }
    r as u32
}

/// Plans the DNAT rule of `service` from the score table `table`, with the
/// random key taken modulo at most `cap`. No rule (`None`) when the service spans
/// fewer than two nodes, when fewer than two endpoints remain on admitted nodes, or
/// when no range is laid out.
pub fn plan_service(table: &Vec<NodeScore>, service: &Service, prefix: &str, cap: u32) -> (r:
    Option<ServicePlan>)
    ensures
        plan_matches(r, table@, *service, prefix@, cap),
{
    let eps = &service.endpoints_by_nodename;
    let n = eps.len();
    if n < 2 {
        return None;
    }
    let ghost t = table@;
    let mut weights: Vec<Option<u64>> = Vec::new();
    let mut total: u128 = 0;
    let mut count: usize = 0;
    let mut i: usize = 0;
    while i < n
        invariant
            n == eps@.len(),
            t == table@,
            i <= n,
            weights@.len() == i,
            forall|k: int|
                0 <= k < i ==> match #[trigger] weights@[k] {
                    Some(w) => node_weight(t, eps@[k]) == Some(w as nat) && w <= WEIGHT_MAX,
                    None => node_weight(t, eps@[k]) is None,
                },
            total == total_weight(t, eps@.subrange(0, i as int)),
            total <= i * WEIGHT_MAX,
            count == upto_two(total_endpoints(t, eps@.subrange(0, i as int))),
        decreases n - i,
    {
        let w = node_weight_exec(table, &eps[i]);
        assert(eps@.subrange(0, i + 1).drop_last() =~= eps@.subrange(0, i as int));
        match w {
            Some(x) => {
                total = total + x as u128;
                let k = eps[i].endpoints.len();
                if count < 2 {
                    if k >= 2 {
                        count = 2;
                    } else {
                        count = count + k;
                        if count > 2 {
                            count = 2;
                        }
                    }
                }
            },
            None => {},
        }
        weights.push(w);
        proof {
            assert((i + 1) * WEIGHT_MAX == i * WEIGHT_MAX + WEIGHT_MAX) by (nonlinear_arith);
        }
        i += 1;
    }
    assert(eps@.subrange(0, n as int) =~= eps@);
    if count < 2 {
        return None;
    }
    proof {
        lemma_total_weight_positive(t, eps@);
        assert(n as int * WEIGHT_MAX as int <= 0xffff_ffff_ffff_ffff * WEIGHT_MAX as int)
            by (nonlinear_arith)
            requires n as int <= 0xffff_ffff_ffff_ffff;
    }
    let ghost tw = total as nat;
    let ghost cp = cap as nat;
    let mut items: Vec<(Ipv4, u32)> = Vec::new();
    i = 0;
    while i < n
        invariant
            n == eps@.len(),
            t == table@,
            i <= n,
            weights@.len() == n,
            forall|k: int|
                0 <= k < n ==> match #[trigger] weights@[k] {
                    Some(w) => node_weight(t, eps@[k]) == Some(w as nat) && w <= WEIGHT_MAX,
                    None => node_weight(t, eps@[k]) is None,
                },
            total == total_weight(t, eps@),
            0 < total <= 0x10_0000_0000_0000_0000_0000_0000u128,
            tw == total,
            cp == cap,
            items@ == all_items(t, eps@.subrange(0, i as int), tw, cp),
        decreases n - i,
    {
        assert(eps@.subrange(0, i + 1).drop_last() =~= eps@.subrange(0, i as int));
        let ghost before = items@;
        match weights[i] {
            Some(w) => {
                proof {
                    lemma_weight_within_total(t, eps@, i as int);
                }
                let p = portion_exec(w, total, cap);
                let ne = &eps[i];
                let k = ne.endpoints.len();
                if p > 0 && k > 0 {
                    let ghost node = node_items(t, eps@[i as int], tw, cp);
                    let base = (p as u64) / (k as u64);
                    let rem = (p as u64) % (k as u64);
                    let mut j: usize = 0;
                    while j < k
                        invariant
                            k == ne.endpoints@.len(),
                            *ne == eps@[i as int],
                            p > 0,
                            p == portion(w as nat, tw, cp),
                            node_weight(t, *ne) == Some(w as nat),
                            node == node_items(t, *ne, tw, cp),
                            base == p as nat / k as nat,
                            rem == p as nat % k as nat,
                            j <= k,
                            items@ == before + node.subrange(0, j as int),
                        decreases k - j,
                    {
                        let s: u64 = if (j as u64) < rem {
                            base + 1
                        } else {
                            base
                        };
                        proof {
                            lemma_fundamental_div_mod(p as int, k as int);
                            assert(s <= p) by (nonlinear_arith)
                                requires
                                    p as int == k as int * base as int + rem as int,
                                    0 <= rem < k,
                                    s == base + 1 || s == base,
                                    s == base + 1 ==> rem > 0,
                                    k > 0;
                        }
                        items.push((ne.endpoints[j], s as u32));
                        assert(node.subrange(0, j + 1) =~= node.subrange(0, j as int).push(
                            node[j as int],
                        ));
                        j += 1;
                    }
                    assert(node.subrange(0, k as int) =~= node);
                } else {
                    assert(node_items(t, eps@[i as int], tw, cp) =~= seq![]);
                }
            },
            None => {
                assert(node_items(t, eps@[i as int], tw, cp) =~= seq![]);
            },
        }
        assert(items@ =~= all_items(t, eps@.subrange(0, i + 1), tw, cp));
        i += 1;
    }
    assert(eps@.subrange(0, n as int) =~= eps@);
    let mut ranges: Vec<VerdictRange> = Vec::new();
    let mut cursor: u32 = 0;
    let m = items.len();
    let mut q: usize = 0;
    while q < m
        invariant
            m == items@.len(),
            q <= m,
            cursor <= cap,
            (ranges@, cursor as int) == layout(items@.subrange(0, q as int), cap as int),
        decreases m - q,
    {
        assert(items@.subrange(0, q + 1).drop_last() =~= items@.subrange(0, q as int));
        let (ip, s) = items[q];
        if cursor < cap && s > 0 {
            let end: u64 = cursor as u64 + s as u64 - 1;
            let hi: u32 = if end < (cap - 1) as u64 {
                end as u32
            } else {
                cap - 1
            };
            ranges.push(VerdictRange { low: cursor, high: hi, backend: ip });
            cursor = hi + 1;
        }
        q += 1;
    }
    assert(items@.subrange(0, m as int) =~= items@);
    if ranges.len() == 0 {
        return None;
    }
    let mut chain = prefix.to_owned();
    chain.append("-");
    chain.append(service.name.as_str());
    proof {
        reveal_strlit("-");
        assert(chain@ =~= chain_name(prefix@, service.name@));
        assert(total_endpoints(t, eps@) >= 2);
    }
    Some(
        ServicePlan {
            chain,
            nodeport: service.nodeport,
            targetport: service.targetport,
            modulus: cursor,
            ranges,
        },
    )
}

} // verus!
