use vstd::prelude::*;

use crate::state::{find_probe, names_view, probe_of, AppState, Probe};
use crate::text::{fixed2, fixed3, push_fixed2, push_fixed3};

verus! {

/// A candidate whose CPU score is above this (0.85) is rejected.
pub const CPU_HARD_LIMIT: u32 = 850_000;

/// A candidate whose latency score is above this (0.50) is rejected.
pub const LATENCY_HARD_LIMIT: u32 = 500_000;

/// Weight of the CPU score in a node's priority (0.3).
pub const CPU_WEIGHT: u32 = 300_000;

/// Weight of the latency score in a node's priority (0.7).
pub const LATENCY_WEIGHT: u32 = 700_000;

/// Lower end of the CPU warning zone (0.70).
pub const PENALTY_CPU_LOW: u32 = 700_000;

/// Upper end of the CPU warning zone (0.85).
pub const PENALTY_CPU_HIGH: u32 = 850_000;

/// Priority taken off a node in the CPU warning zone.
pub const PENALTY_SCORE: i64 = 15;

/// Priority of a node without probe data.
pub const DEFAULT_SCORE: i64 = 10;

/// The part of a Kubernetes object's metadata that the extender reads.
#[derive(Clone, Debug)]
pub struct Metadata {
    pub name: Option<String>,
}

/// A candidate node as the scheduler sends it.
#[derive(Clone, Debug)]
pub struct Node {
    pub metadata: Metadata,
}

/// A list of candidate nodes.
#[derive(Clone, Debug)]
pub struct NodeList {
    pub items: Vec<Node>,
}

/// The scheduler's request: candidates inline, or by name only.
#[derive(Clone, Debug)]
pub struct ExtenderArgs {
    pub nodes: NodeList,
    pub node_names: Option<Vec<String>>,
}

/// Answer to a filter call: the candidates kept, and a reason for each rejected one.
#[derive(Clone, Debug)]
pub struct FilterResult {
    pub nodes: NodeList,
    pub failed_nodes: Vec<(String, String)>,
}

/// Answer to a prioritize call for one candidate.
#[derive(Clone, Debug)]
pub struct HostPriority {
    pub host: String,
    pub score: i64,
}

impl Probe {
    /// Both scores are within their limits.
    pub open spec fn meets_spec(&self, cpu_max: u32, latency_max: u32) -> bool {
        self.cpu_ewma_score <= cpu_max && self.latency_ewma_score <= latency_max
    }

    /// `w_cpu·cpu + w_lat·latency`, at `SCALE²`.
    pub open spec fn combined_spec(&self, cpu_weight: u32, latency_weight: u32) -> nat {
        (cpu_weight * self.cpu_ewma_score + latency_weight * self.latency_ewma_score) as nat
    }

    /// The combined score times 100, halves rounded up, at most 100.
    pub open spec fn scheduler_score_spec(&self, cpu_weight: u32, latency_weight: u32) -> int {
        let s = (self.combined_spec(cpu_weight, latency_weight) + 5_000_000_000) / 10_000_000_000;
        if s > 100 {
            100
        } else {
            s as int
        }
    }

    /// Whether both scores are within their limits.
    pub fn meets_thresholds(&self, cpu_max: u32, latency_max: u32) -> (r: bool)
        ensures
            r == self.meets_spec(cpu_max, latency_max),
    {
        self.cpu_ewma_score <= cpu_max && self.latency_ewma_score <= latency_max
    }

    /// The weighted sum of the two scores, at `SCALE²` (weights are fractions of `SCALE`).
    pub fn calculate_combined_score(&self, cpu_weight: u32, latency_weight: u32) -> (r: u64)
        requires
            cpu_weight <= crate::score::SCALE,
            latency_weight <= crate::score::SCALE,
        ensures
            r == self.combined_spec(cpu_weight, latency_weight),
            r <= 2 * 1_000_000 * 0xffff_ffffnat,
    {
        proof {
            assert(cpu_weight * self.cpu_ewma_score <= 1_000_000 * 0xffff_ffffnat) by (nonlinear_arith)
                requires cpu_weight <= 1_000_000, self.cpu_ewma_score <= 0xffff_ffff;
            assert(latency_weight * self.latency_ewma_score <= 1_000_000 * 0xffff_ffffnat) by (nonlinear_arith)
                requires latency_weight <= 1_000_000, self.latency_ewma_score <= 0xffff_ffff;
        }
        (cpu_weight as u64) * (self.cpu_ewma_score as u64) + (latency_weight as u64) * (
        self.latency_ewma_score as u64)
    }

    /// The combined score as a scheduler priority in `[0, 100]`.
    pub fn to_scheduler_score(&self, cpu_weight: u32, latency_weight: u32) -> (r: i64)
        requires
            cpu_weight <= crate::score::SCALE,
            latency_weight <= crate::score::SCALE,
        ensures
            r == self.scheduler_score_spec(cpu_weight, latency_weight),
            0 <= r <= 100,
    {
        let c = self.calculate_combined_score(cpu_weight, latency_weight);
        let s = (c + 5_000_000_000) / 10_000_000_000;
        if s > 100 {
            100
        } else {
            s as i64
        }
    }
}

/// The CPU score lies in the warning zone `[0.70, 0.85]`.
pub open spec fn in_warning_zone(cpu: u32) -> bool {
    PENALTY_CPU_LOW <= cpu <= PENALTY_CPU_HIGH
}

/// Priority of a candidate with probe `p`: its scheduler score, less the penalty
/// (not below 0) in the warning zone; the default without a probe.
pub open spec fn priority_of(p: Option<Probe>) -> int {
    match p {
        None => DEFAULT_SCORE as int,
        Some(p) => {
            let base = p.scheduler_score_spec(CPU_WEIGHT, LATENCY_WEIGHT);
            if in_warning_zone(p.cpu_ewma_score) {
                if base < PENALTY_SCORE {
                    0
                } else {
                    base - PENALTY_SCORE
                }
            } else {
                base
            }
        },
    }
}

/// Names of the nodes of `items` that carry one, in order.
pub open spec fn named_items(items: Seq<Node>) -> Seq<Seq<char>>
    decreases items.len(),
{
    if items.len() == 0 {
        seq![]
    } else {
        let r = named_items(items.drop_last());
        match items.last().metadata.name {
            Some(n) => r.push(n@),
            None => r,
        }
    }
}

/// The candidates of a call: the named inline nodes if any are given, else the
/// names given, else `fallback`.
pub open spec fn candidates(args: ExtenderArgs, fallback: Seq<Seq<char>>) -> Seq<Seq<char>> {
    if args.nodes.items@.len() > 0 {
        named_items(args.nodes.items@)
    } else {
        match args.node_names {
            Some(v) => names_view(v@),
            None => fallback,
        }
    }
}

/// Candidate `n` is kept: it has a name and probe data within both limits.
pub open spec fn passes(ps: Seq<Probe>, n: Seq<char>) -> bool {
    n.len() > 0 && match probe_of(ps, n) {
        Some(p) => p.meets_spec(CPU_HARD_LIMIT, LATENCY_HARD_LIMIT),
        None => false,
    }
}

/// Candidate `n` is rejected: it has a name, and no probe data or a score over a limit.
pub open spec fn rejects(ps: Seq<Probe>, n: Seq<char>) -> bool {
    n.len() > 0 && !passes(ps, n)
}

/// The kept candidates, in order.
pub open spec fn passed_names(cands: Seq<Seq<char>>, ps: Seq<Probe>) -> Seq<Seq<char>>
    decreases cands.len(),
{
    if cands.len() == 0 {
        seq![]
    } else {
        let r = passed_names(cands.drop_last(), ps);
        if passes(ps, cands.last()) {
            r.push(cands.last())
        } else {
            r
        }
    }
}

/// Why a probe is over the limits.
pub open spec fn over_reason(p: Probe) -> Seq<char> {
    "Over threshold: CPU="@ + fixed3(p.cpu_ewma_score as nat) + " (limit "@ + fixed2(
        CPU_HARD_LIMIT as nat,
    ) + "), Latency="@ + fixed3(p.latency_ewma_score as nat) + " (limit "@ + fixed2(
        LATENCY_HARD_LIMIT as nat,
    ) + ")"@
}

/// Why candidate `n` is rejected.
pub open spec fn reject_reason(ps: Seq<Probe>, n: Seq<char>) -> Seq<char> {
    match probe_of(ps, n) {
        Some(p) => over_reason(p),
        None => "No probe data available"@,
    }
}

/// The reason recorded for `n`: that of the first pair for it.
pub open spec fn reason_of(f: Seq<(String, String)>, n: Seq<char>) -> Option<Seq<char>>
    decreases f.len(),
{
    if f.len() == 0 {
        None
    } else {
        match reason_of(f.drop_last(), n) {
            Some(r) => Some(r),
            None => if f.last().0@ == n {
                Some(f.last().1@)
            } else {
                None
            },
        }
    }
}

/// Index of the highest score, the first one among equals.
pub open spec fn best_of(r: Seq<HostPriority>) -> int
    decreases r.len(),
{
    if r.len() <= 1 {
        0
    } else {
        let b = best_of(r.drop_last());
        if r.last().score > r[b].score {
            r.len() - 1
        } else {
            b
        }
    }
}

/// The candidates of `args`, else of `fallback`.
pub fn candidate_names(args: &ExtenderArgs, fallback: Vec<String>) -> (r: Vec<String>)
    ensures
        names_view(r@) == candidates(*args, names_view(fallback@)),
{
    let items = &args.nodes.items;
    if items.len() > 0 {
        let mut r: Vec<String> = Vec::new();
        let mut i: usize = 0;
        while i < items.len()
            invariant
                i <= items@.len(),
                names_view(r@) == named_items(items@.subrange(0, i as int)),
            decreases items@.len() - i,
        {
            assert(items@.subrange(0, i + 1).drop_last() =~= items@.subrange(0, i as int));
            match &items[i].metadata.name {
                Some(n) => {
                    r.push(n.clone());
                },
                None => {},
            }
            assert(names_view(r@) =~= named_items(items@.subrange(0, i + 1)));
            i += 1;
        }
        assert(items@.subrange(0, items@.len() as int) =~= items@);
        r
    } else {
        match &args.node_names {
            Some(v) => crate::state::copy_names(v),
            None => fallback,
        }
    }
}

/// The reason text for a probe over the limits.
fn over_threshold_reason(p: &Probe) -> (r: String)
    ensures
        r@ == over_reason(*p),
{
    let mut s = String::new();
    s.append("Over threshold: CPU=");
    push_fixed3(&mut s, p.cpu_ewma_score);
    s.append(" (limit ");
    push_fixed2(&mut s, CPU_HARD_LIMIT);
    s.append("), Latency=");
    push_fixed3(&mut s, p.latency_ewma_score);
    s.append(" (limit ");
    push_fixed2(&mut s, LATENCY_HARD_LIMIT);
    s.append(")");
    assert(s@ =~= over_reason(*p));
    s
}

/// Records `reason` for `name` unless a reason is recorded already.
fn put_failed(f: &mut Vec<(String, String)>, name: &String, reason: String)
    ensures
        forall|n: Seq<char>|
            #[trigger] reason_of(final(f)@, n) == match reason_of(old(f)@, n) {
                Some(x) => Some(x),
                None => if n == name@ {
                    Some(reason@)
                } else {
                    None
                },
            },
{
    let mut i: usize = 0;
    while i < f.len()
        invariant
            i <= f@.len(),
            reason_of(f@.subrange(0, i as int), name@) is None,
        decreases f@.len() - i,
    {
        assert(f@.subrange(0, i + 1).drop_last() =~= f@.subrange(0, i as int));
        if f[i].0.eq(name) {
            proof {
                lemma_reason_prefix(f@, name@, i + 1);
            }
            return;
        }
        i += 1;
    }
    assert(f@.subrange(0, f@.len() as int) =~= f@);
    let ghost f0 = f@;
    f.push((name.clone(), reason));
    assert(f@.drop_last() =~= f0);
}

proof fn lemma_reason_prefix(f: Seq<(String, String)>, n: Seq<char>, k: int)
    requires
        0 <= k <= f.len(),
        reason_of(f.subrange(0, k), n) is Some,
    ensures
        reason_of(f, n) == reason_of(f.subrange(0, k), n),
    decreases f.len(),
{
    if k == f.len() {
        assert(f.subrange(0, k) =~= f);
    } else {
        assert(f.drop_last().subrange(0, k) =~= f.subrange(0, k));
        lemma_reason_prefix(f.drop_last(), n, k);
    }
}

/// Priority of a candidate whose probe is `p`.
fn priority_score(p: &Probe) -> (r: i64)
    ensures
        r == priority_of(Some(*p)),
{
    let base = p.to_scheduler_score(CPU_WEIGHT, LATENCY_WEIGHT);
    if PENALTY_CPU_LOW <= p.cpu_ewma_score && p.cpu_ewma_score <= PENALTY_CPU_HIGH {
        if base < PENALTY_SCORE {
            0
        } else {
            base - PENALTY_SCORE
        }
    } else {
        base
    }
}

/// Filters the candidates of `payload` (the cached probes' hosts when none are
/// given): a candidate with a name is kept when its probe is within both limits,
/// and otherwise gets a reason in `failed_nodes`. Records the kept names.
pub fn filter_handler(state: &mut AppState, payload: &ExtenderArgs) -> (r: FilterResult)
    ensures
        ({
            let ps = old(state).probes@;
            let cands = candidates(*payload, ps.map_values(|p: Probe| p.hostname@));
            &&& named_items(r.nodes.items@) == passed_names(cands, ps)
            &&& forall|n: Seq<char>|
                #[trigger] reason_of(r.failed_nodes@, n) == if cands.contains(n) && rejects(ps, n) {
                    Some(reject_reason(ps, n))
                } else {
                    None
                }
            &&& names_view(final(state).last_filtered@) == passed_names(cands, ps)
        }),
        final(state).probes == old(state).probes,
        final(state).pod_counts == old(state).pod_counts,
        final(state).prober_mapping == old(state).prober_mapping,
        final(state).local_node == old(state).local_node,
{
    let monitored = state.get_monitored_nodes();
    let cands = candidate_names(payload, monitored);
    let ghost ps = state.probes@;
    let ghost cs = names_view(cands@);
    let mut kept: Vec<Node> = Vec::new();
    let mut kept_names: Vec<String> = Vec::new();
    let mut failed: Vec<(String, String)> = Vec::new();
    let mut i: usize = 0;
    while i < cands.len()
        invariant
            ps == state.probes@,
            cs == names_view(cands@),
            i <= cands@.len(),
            named_items(kept@) == passed_names(cs.subrange(0, i as int), ps),
            names_view(kept_names@) == passed_names(cs.subrange(0, i as int), ps),
            forall|n: Seq<char>|
                #[trigger] reason_of(failed@, n) == if cs.subrange(0, i as int).contains(n) && rejects(
                    ps,
                    n,
                ) {
                    Some(reject_reason(ps, n))
                } else {
                    None
                },
        decreases cands@.len() - i,
    {
        let c = &cands[i];
        let ghost pre = cs.subrange(0, i as int);
        let ghost cur = cs.subrange(0, i + 1);
        assert(cur.drop_last() =~= pre);
        assert(cur.last() == c@);
        let ghost kept0 = kept@;
        if !c.as_str().is_empty() {
            match find_probe(&state.probes, c) {
                Some(k) => {
                    if state.probes[k].meets_thresholds(CPU_HARD_LIMIT, LATENCY_HARD_LIMIT) {
                        kept.push(Node { metadata: Metadata { name: Some(c.clone()) } });
                        kept_names.push(c.clone());
                        assert(kept@.drop_last() =~= kept0);
                        assert(names_view(kept_names@) =~= names_view(kept_names@.drop_last()).push(c@));
                    } else {
                        let reason = over_threshold_reason(&state.probes[k]);
                        put_failed(&mut failed, c, reason);
                    }
                },
                None => {
                    let reason = String::from_str("No probe data available");
                    put_failed(&mut failed, c, reason);
                },
            }
        }
        assert forall|n: Seq<char>| #[trigger] reason_of(failed@, n) == if cur.contains(n) && rejects(
            ps,
            n,
        ) {
            Some(reject_reason(ps, n))
        } else {
            None
        } by {
            if cur.contains(n) && !pre.contains(n) {
                let j = choose|j: int| 0 <= j < cur.len() && cur[j] == n;
                if j < pre.len() {
                    assert(pre[j] == n);
                }
            }
            if pre.contains(n) {
                let j = choose|j: int| 0 <= j < pre.len() && pre[j] == n;
                assert(cur[j] == n);
            }
            if n == c@ {
                assert(cur[i as int] == n);
            }
        }
        i += 1;
    }
    assert(cs.subrange(0, cands@.len() as int) =~= cs);
    state.update_last_filtered(kept_names);
    FilterResult { nodes: NodeList { items: kept }, failed_nodes: failed }
}

/// Scores the candidates of `payload` (the names kept by the last filter when
/// none are given), in order, and counts one more pod on the best one: the first
/// candidate with the highest score.
pub fn prioritize_handler(state: &mut AppState, payload: &ExtenderArgs) -> (r: Vec<HostPriority>)
    ensures
        ({
            let ps = old(state).probes@;
            let cands = candidates(*payload, names_view(old(state).last_filtered@));
            &&& r@.len() == cands.len()
            &&& forall|i: int|
                0 <= i < r@.len() ==> (#[trigger] r@[i]).host@ == cands[i] && r@[i].score
                    == priority_of(probe_of(ps, cands[i]))
        }),
        r@.len() == 0 ==> final(state).pod_counts == old(state).pod_counts,
        r@.len() > 0 ==> {
            let best = r@[best_of(r@)].host@;
            &&& crate::state::pod_count(final(state).pod_counts@, best) == if crate::state::pod_count(
                old(state).pod_counts@,
                best,
            ) < u64::MAX {
                crate::state::pod_count(old(state).pod_counts@, best) + 1
            } else {
                crate::state::pod_count(old(state).pod_counts@, best)
            }
            &&& forall|n: Seq<char>|
                n != best ==> #[trigger] crate::state::pod_count(final(state).pod_counts@, n)
                    == crate::state::pod_count(old(state).pod_counts@, n)
        },
        final(state).probes == old(state).probes,
        final(state).last_filtered == old(state).last_filtered,
        final(state).prober_mapping == old(state).prober_mapping,
        final(state).local_node == old(state).local_node,
{
    let fallback = state.get_last_filtered_nodes();
    let cands = candidate_names(payload, fallback);
    let ghost ps = state.probes@;
    let ghost cs = names_view(cands@);
    let mut r: Vec<HostPriority> = Vec::new();
    let mut best: usize = 0;
    let mut i: usize = 0;
    while i < cands.len()
        invariant
            ps == state.probes@,
            cs == names_view(cands@),
            i <= cands@.len(),
            r@.len() == i,
            forall|k: int|
                0 <= k < i ==> (#[trigger] r@[k]).host@ == cs[k] && r@[k].score == priority_of(
                    probe_of(ps, cs[k]),
                ),
            i > 0 ==> best == best_of(r@) && best < i,
        decreases cands@.len() - i,
    {
        let score = match find_probe(&state.probes, &cands[i]) {
            Some(k) => priority_score(&state.probes[k]),
            None => DEFAULT_SCORE,
        };
        let ghost r0 = r@;
        r.push(HostPriority { host: cands[i].clone(), score });
        assert(r@.drop_last() =~= r0);
        if i > 0 && score > r[best].score {
            best = i;
        } else if i == 0 {
            best = 0;
        }
        i += 1;
    }
    if r.len() > 0 {
        let host = r[best].host.clone();
        state.increment_pod_count(&host);
    }
    r
}

/// Every kept candidate was among the candidates, has probe data, and is within
/// both limits: a candidate over the CPU or the latency limit, or without probe
/// data, is never kept.
pub proof fn lemma_filter_keeps_only_healthy(cands: Seq<Seq<char>>, ps: Seq<Probe>)
    ensures
        forall|i: int|
            0 <= i < passed_names(cands, ps).len() ==> {
                let n = #[trigger] passed_names(cands, ps)[i];
                &&& cands.contains(n)
                &&& n.len() > 0
                &&& probe_of(ps, n) is Some
                &&& probe_of(ps, n)->0.cpu_ewma_score <= CPU_HARD_LIMIT
                &&& probe_of(ps, n)->0.latency_ewma_score <= LATENCY_HARD_LIMIT
            },
    decreases cands.len(),
{
    if cands.len() > 0 {
        let init = cands.drop_last();
        lemma_filter_keeps_only_healthy(init, ps);
        let p = passed_names(cands, ps);
        assert forall|i: int| 0 <= i < p.len() implies cands.contains(#[trigger] p[i]) && passes(ps, p[i]) by {
            if i < passed_names(init, ps).len() {
                let n = passed_names(init, ps)[i];
                assert(p[i] == n);
                let j = choose|j: int| 0 <= j < init.len() && init[j] == n;
                assert(cands[j] == n);
            } else {
                assert(p[i] == cands.last());
                assert(cands[cands.len() - 1] == p[i]);
            }
        }
    }
}

/// A candidate's priority lies in `[0, 100]`; the warning-zone penalty applies
/// exactly when its CPU score is in `[0.70, 0.85]`.
pub proof fn lemma_priority_bounds(p: Option<Probe>)
    ensures
        0 <= priority_of(p) <= 100,
        p matches Some(q) ==> (in_warning_zone(q.cpu_ewma_score) ==> priority_of(p) == if q.scheduler_score_spec(
            CPU_WEIGHT,
            LATENCY_WEIGHT,
        ) < PENALTY_SCORE {
            0
        } else {
            q.scheduler_score_spec(CPU_WEIGHT, LATENCY_WEIGHT) - PENALTY_SCORE
        }) && (!in_warning_zone(q.cpu_ewma_score) ==> priority_of(p) == q.scheduler_score_spec(
            CPU_WEIGHT,
            LATENCY_WEIGHT,
        )),
{
}

} // verus!
