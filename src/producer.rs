use vstd::prelude::*;

use crate::score::{cpu_headroom, ewma, ewma_spec, headroom_spec, in_unit, latency_headroom, SCALE};

verus! {

/// The running average a producer keeps for one node.
#[derive(Clone, Debug)]
pub struct NodeEwma {
    pub node: String,
    pub value: u32,
}

/// A producer's running averages, one per node.
#[derive(Clone, Debug)]
pub struct EwmaTracker {
    pub entries: Vec<NodeEwma>,
}

/// The average kept for node `name`.
pub open spec fn average_of(e: Seq<NodeEwma>, name: Seq<char>) -> Option<u32>
    decreases e.len(),
{
    if e.len() == 0 {
        None
    } else if e[0].node@ == name {
        Some(e[0].value)
    } else {
        average_of(e.drop_first(), name)
    }
}

/// Position of the first average kept for `name`.
fn find_average(e: &Vec<NodeEwma>, name: &String) -> (r: Option<usize>)
    ensures
        match r {
            Some(i) => i < e@.len() && e@[i as int].node@ == name@ && forall|k: int|
                0 <= k < i ==> #[trigger] e@[k].node@ != name@,
            None => forall|k: int| 0 <= k < e@.len() ==> #[trigger] e@[k].node@ != name@,
        },
{
    let mut i: usize = 0;
    while i < e.len()
        invariant
            i <= e@.len(),
            forall|k: int| 0 <= k < i ==> #[trigger] e@[k].node@ != name@,
        decreases e@.len() - i,
    {
        if e[i].node.eq(name) {
            return Some(i);
        }
        i += 1;
    }
    None
}

/// The average of a node is that of its first row, or none without one (`i` = length).
proof fn lemma_average_first(e: Seq<NodeEwma>, name: Seq<char>, i: int)
    requires
        0 <= i <= e.len(),
        i < e.len() ==> e[i].node@ == name,
        forall|k: int| 0 <= k < i ==> #[trigger] e[k].node@ != name,
    ensures
        average_of(e, name) == if i < e.len() {
            Some(e[i].value)
        } else {
            None::<u32>
        },
    decreases e.len(),
{
    if e.len() > 0 && i > 0 {
        assert forall|k: int| 0 <= k < i - 1 implies #[trigger] e.drop_first()[k].node@ != name by {
            assert(e.drop_first()[k] == e[k + 1]);
        }
        assert(e[0].node@ != name);
        lemma_average_first(e.drop_first(), name, i - 1);
    }
}

/// Changing or adding the row at `i` leaves the averages of other nodes.
proof fn lemma_average_other(e0: Seq<NodeEwma>, e1: Seq<NodeEwma>, i: int, n: Seq<char>)
    requires
        0 <= i <= e0.len(),
        i < e0.len() ==> e1.len() == e0.len(),
        i == e0.len() ==> e1.len() == e0.len() + 1,
        forall|k: int| 0 <= k < e0.len() && k != i ==> #[trigger] e1[k] == e0[k],
        i < e1.len() && e1[i].node@ != n,
        i < e0.len() ==> e0[i].node@ == e1[i].node@,
    ensures
        average_of(e1, n) == average_of(e0, n),
    decreases e0.len(),
{
    if i == 0 {
        if e0.len() > 0 {
            assert forall|k: int| 0 <= k < e0.drop_first().len() implies #[trigger] e1.drop_first()[k]
                == e0.drop_first()[k] by {
                assert(e1[k + 1] == e0[k + 1]);
            }
            assert(e1.drop_first() =~= e0.drop_first());
            assert(e0[0].node@ != n);
            assert(average_of(e1, n) == average_of(e1.drop_first(), n));
            assert(average_of(e0, n) == average_of(e0.drop_first(), n));
        } else {
            assert(average_of(e1.drop_first(), n) is None);
        }
    } else {
        assert(e1[0] == e0[0]);
        assert forall|k: int| 0 <= k < e0.drop_first().len() && k != i - 1 implies #[trigger] e1.drop_first()[k]
            == e0.drop_first()[k] by {
            assert(e1[k + 1] == e0[k + 1]);
        }
        lemma_average_other(e0.drop_first(), e1.drop_first(), i - 1, n);
        assert(average_of(e1, n) == average_of(e0, n));
    }
}

impl EwmaTracker {
    /// Every kept average is a score in `[0, 1]`.
    pub open spec fn wf(&self) -> bool {
        forall|i: int| 0 <= i < self.entries@.len() ==> #[trigger] self.entries@[i].value <= SCALE
    }

    /// A tracker that has seen no sample.
    pub fn new() -> (r: EwmaTracker)
        ensures
            r.wf(),
            r.entries@.len() == 0,
    {
        EwmaTracker { entries: Vec::new() }
    }

    /// The average kept for `node`.
    pub fn previous(&self, node: &String) -> (r: Option<u32>)
        ensures
            r == average_of(self.entries@, node@),
    {
        match find_average(&self.entries, node) {
            Some(i) => {
                proof {
                    lemma_average_first(self.entries@, node@, i as int);
                }
                Some(self.entries[i].value)
            },
            None => {
                proof {
                    lemma_average_first(self.entries@, node@, self.entries@.len() as int);
                }
                None
            },
        }
    }

    /// Smooths a normalised `sample` of `node` into its average with weight
    /// `alpha` (the first sample starts the average), keeps and returns it.
    pub fn observe(&mut self, node: &String, sample: u32, alpha: u32) -> (r: u32)
        requires
            old(self).wf(),
            0 < alpha <= SCALE,
            sample <= SCALE,
        ensures
            final(self).wf(),
            r == ewma_spec(alpha as int, sample as int, average_of(old(self).entries@, node@)),
            in_unit(r as int),
            average_of(final(self).entries@, node@) == Some(r),
            forall|n: Seq<char>|
                n != node@ ==> #[trigger] average_of(final(self).entries@, n) == average_of(
                    old(self).entries@,
                    n,
                ),
    {
        let ghost e0 = self.entries@;
        match find_average(&self.entries, node) {
            Some(i) => {
                proof {
                    lemma_average_first(e0, node@, i as int);
                }
                let mut row = self.entries.remove(i);
                let v = ewma(alpha, sample, Some(row.value));
                row.value = v;
                self.entries.insert(i, row);
                proof {
                    let e1 = self.entries@;
                    assert(e1 =~= e0.update(i as int, row));
                    assert forall|k: int| 0 <= k < i implies #[trigger] e1[k].node@ != node@ by {
                        assert(e1[k] == e0[k]);
                    }
                    lemma_average_first(e1, node@, i as int);
                    assert forall|n: Seq<char>| n != node@ implies #[trigger] average_of(e1, n)
                        == average_of(e0, n) by {
                        lemma_average_other(e0, e1, i as int, n);
                    }
                }
                v
            },
            None => {
                proof {
                    lemma_average_first(e0, node@, e0.len() as int);
                }
                let v = ewma(alpha, sample, None);
                let row = NodeEwma { node: node.clone(), value: v };
                self.entries.push(row);
                proof {
                    let e1 = self.entries@;
                    assert forall|k: int| 0 <= k < e0.len() implies #[trigger] e1[k].node@ != node@ by {
                        assert(e1[k] == e0[k]);
                    }
                    lemma_average_first(e1, node@, e0.len() as int);
                    assert forall|n: Seq<char>| n != node@ implies #[trigger] average_of(e1, n)
                        == average_of(e0, n) by {
                        lemma_average_other(e0, e1, e0.len() as int, n);
                    }
                }
                v
            },
        }
    }

    /// Handles one CPU query of `node` that gave the busy fraction `busy`, or
    /// nothing: with a result the head-room `1 − busy` is smoothed in and the new
    /// average returned; without one the average is left as it is.
    pub fn observe_cpu(&mut self, node: &String, busy: Option<u32>, alpha: u32) -> (r: Option<u32>)
        requires
            old(self).wf(),
            0 < alpha <= SCALE,
        ensures
            final(self).wf(),
            busy is None ==> r is None && final(self).entries@ == old(self).entries@,
            busy matches Some(b) ==> r == Some(
                ewma_spec(
                    alpha as int,
                    if b >= SCALE {
                        0
                    } else {
                        SCALE - b
                    },
                    average_of(old(self).entries@, node@),
                ) as u32,
            ),
            r matches Some(v) ==> average_of(final(self).entries@, node@) == Some(v),
            forall|n: Seq<char>|
                n != node@ ==> #[trigger] average_of(final(self).entries@, n) == average_of(
                    old(self).entries@,
                    n,
                ),
    {
        match busy {
            Some(b) => {
                let h = cpu_headroom(b);
                Some(self.observe(node, h, alpha))
            },
            None => None,
        }
    }

    /// Handles one latency probe of `node` that took `rtt_ms`, or failed: with a
    /// round trip its score `clamp(1 − rtt / sla, 0, 1)` is smoothed in and the new
    /// average returned; a failed probe leaves the average as it is.
    pub fn observe_latency(&mut self, node: &String, rtt_ms: Option<u64>, sla_ms: u64, alpha: u32) -> (r:
        Option<u32>)
        requires
            old(self).wf(),
            0 < alpha <= SCALE,
            sla_ms > 0,
        ensures
            final(self).wf(),
            rtt_ms is None ==> r is None && final(self).entries@ == old(self).entries@,
            rtt_ms matches Some(t) ==> r == Some(
                ewma_spec(
                    alpha as int,
                    headroom_spec(t as int, sla_ms as int),
                    average_of(old(self).entries@, node@),
                ) as u32,
            ),
            r matches Some(v) ==> average_of(final(self).entries@, node@) == Some(v),
            forall|n: Seq<char>|
                n != node@ ==> #[trigger] average_of(final(self).entries@, n) == average_of(
                    old(self).entries@,
                    n,
                ),
    {
        match rtt_ms {
            Some(t) => {
                let h = latency_headroom(t, sla_ms);
                Some(self.observe(node, h, alpha))
            },
            None => None,
        }
    }
}

} // verus!
