use vstd::prelude::*;

verus! {

/// Fixed-point denominator: a score of `SCALE` stands for 1.0, so scores are
/// parts per million. Every head-room score lies in `[0, SCALE]`; higher is better.
pub const SCALE: u32 = 1_000_000;

/// `v` is a valid head-room score.
pub open spec fn in_unit(v: int) -> bool {
    0 <= v <= SCALE as int
}

/// One EWMA step, `alpha·x + (1 − alpha)·prev` rounded down; the first sample
/// initialises the average.
pub open spec fn ewma_spec(alpha: int, sample: int, prev: Option<u32>) -> int {
    match prev {
        None => sample,
        Some(p) => (alpha * sample + (SCALE as int - alpha) * p as int) / SCALE as int,
    }
}

/// Head-room of `used` against `limit`: `clamp(1 − used / limit, 0, 1)`, rounded down.
pub open spec fn headroom_spec(used: int, limit: int) -> int {
    if used >= limit {
        0
    } else {
        (SCALE as int * (limit - used)) / limit
    }
}

/// Smooths `sample` into the previous average `prev` with weight `alpha`.
pub fn ewma(alpha: u32, sample: u32, prev: Option<u32>) -> (r: u32)
    requires
        0 < alpha <= SCALE,
        sample <= SCALE,
        prev matches Some(p) ==> p <= SCALE,
    ensures
        r == ewma_spec(alpha as int, sample as int, prev),
        in_unit(r as int),
{
    match prev {
        None => sample,
        Some(p) => {
            let a = alpha as u64;
            let x = sample as u64;
            let q = p as u64;
            let s = SCALE as u64;
            proof {
                assert(a * x <= a * s) by (nonlinear_arith)
                    requires x <= s;
                assert((s - a) * q <= (s - a) * s) by (nonlinear_arith)
                    requires q <= s, a <= s;
                assert(a * s + (s - a) * s == s * s) by (nonlinear_arith);
                assert(s * s == 1_000_000_000_000u64);
            }
            let num = a * x + (s - a) * q;
            proof {
                assert(num / s <= s) by (nonlinear_arith)
                    requires num <= s * s, s > 0;
            }
            (num / s) as u32
        },
    }
}

/// Head-room of a measured `used` amount against `limit`.
pub fn headroom(used: u64, limit: u64) -> (r: u32)
    requires
        limit > 0,
    ensures
        r == headroom_spec(used as int, limit as int),
        in_unit(r as int),
{
    if used >= limit {
        0
    } else {
        let d = (limit - used) as u128;
        proof {
            assert(1_000_000u128 * d <= 1_000_000u128 * 0xffff_ffff_ffff_ffffu128) by (nonlinear_arith)
                requires d <= 0xffff_ffff_ffff_ffffu128;
        }
        let num = (SCALE as u128) * d;
        let r = num / (limit as u128);
        proof {
            assert(r <= SCALE) by (nonlinear_arith)
                requires r == num / (limit as u128), num == SCALE as u128 * d, d <= limit, limit > 0;
        }
        r as u32
    }
}

/// Normalised latency score of one probe: `clamp(1 − rtt / sla, 0, 1)`.
pub fn latency_headroom(rtt_ms: u64, sla_ms: u64) -> (r: u32)
    requires
        sla_ms > 0,
    ensures
        r == headroom_spec(rtt_ms as int, sla_ms as int),
        in_unit(r as int),
{
    headroom(rtt_ms, sla_ms)
}

/// CPU head-room `1 − busy` of a busy fraction `busy` (a value above 1 counts as 1).
pub fn cpu_headroom(busy: u32) -> (r: u32)
    ensures
        r == if busy >= SCALE { 0 } else { SCALE - busy },
        in_unit(r as int),
{
    if busy >= SCALE {
        0
    } else {
        SCALE - busy
    }
}

/// CPU head-room from a kubelet usage reading in nanocores against the node's
/// allocatable whole cores: usage is counted in whole millicores, as
/// `1 − millicores / (1000 · cores)`.
pub fn cpu_headroom_from_usage(usage_nano_cores: u64, alloc_cores: u64) -> (r: u32)
    requires
        0 < alloc_cores <= u64::MAX / 1000,
    ensures
        r == headroom_spec(usage_nano_cores as int / 1_000_000, alloc_cores as int * 1000),
        in_unit(r as int),
{
    headroom(usage_nano_cores / 1_000_000, alloc_cores * 1000)
}

} // verus!
