use vstd::prelude::*;

use crate::model::Ipv4;
use crate::text::{decimal, digit, ipv4_text};

verus! {

/// Value of an ASCII decimal digit.
pub open spec fn digit_value(c: char) -> Option<nat> {
    if '0' <= c && c <= '9' {
        Some((c as nat - '0' as nat) as nat)
    } else {
        None
    }
}

/// Progress of reading dotted-quad text: the octets finished, the value, length
/// and leading-zero flag of the field being read, and whether the text is bad.
pub struct Scan {
    pub done: Seq<u8>,
    pub cur: nat,
    pub len: nat,
    pub lead_zero: bool,
    pub bad: bool,
}

/// A field is one to three digits without a leading zero (but `0` itself) and
/// its value is at most 255.
pub open spec fn octet_ok(cur: nat, len: nat, lead_zero: bool) -> bool {
    1 <= len <= 3 && cur <= 255 && !(lead_zero && len > 1)
}

/// Reads the characters of `s` in order.
pub open spec fn scan(s: Seq<char>) -> Scan
    decreases s.len(),
{
    if s.len() == 0 {
        Scan { done: seq![], cur: 0, len: 0, lead_zero: false, bad: false }
    } else {
        let st = scan(s.drop_last());
        let c = s.last();
        if st.bad {
            st
        } else if c == '.' {
            if octet_ok(st.cur, st.len, st.lead_zero) && st.done.len() < 3 {
                Scan { done: st.done.push(st.cur as u8), cur: 0, len: 0, lead_zero: false, bad: false }
            } else {
                Scan { bad: true, ..st }
            }
        } else {
            match digit_value(c) {
                Some(d) => if st.len < 3 {
                    Scan {
                        done: st.done,
                        cur: st.cur * 10 + d,
                        len: st.len + 1,
                        lead_zero: if st.len == 0 {
                            d == 0
                        } else {
                            st.lead_zero
                        },
                        bad: false,
                    }
                } else {
                    Scan { bad: true, ..st }
                },
                None => Scan { bad: true, ..st },
            }
        }
    }
}

/// The address that dotted-quad text `s` denotes: exactly four fields of one to
/// three digits, separated by dots, each at most 255 and without leading zeros.
pub open spec fn parse_ipv4_spec(s: Seq<char>) -> Option<Ipv4> {
    let st = scan(s);
    if !st.bad && st.done.len() == 3 && octet_ok(st.cur, st.len, st.lead_zero) {
        Some(Ipv4 { a: st.done[0], b: st.done[1], c: st.done[2], d: st.cur as u8 })
    } else {
        None
    }
}

/// Reads dotted-quad IPv4 text such as `"10.0.0.1"`: the address whose text it
/// is, or none when it is no address's text.
pub fn parse_ipv4(s: &str) -> (r: Option<Ipv4>)
    ensures
        r == parse_ipv4_spec(s@),
        match r {
            Some(ip) => s@ == ipv4_text(ip),
            None => forall|ip: Ipv4| s@ != #[trigger] ipv4_text(ip),
        },
{
    let r = parse_ipv4_text(s);
    proof {
        match r {
            Some(ip) => lemma_parsed_text_is_canonical(s@),
            None => {
                assert forall|ip: Ipv4| s@ != #[trigger] ipv4_text(ip) by {
                    if s@ == ipv4_text(ip) {
                        lemma_ipv4_text_parses(ip);
                    }
                }
            },
        }
    }
    r
}

fn parse_ipv4_text(s: &str) -> (r: Option<Ipv4>)
    ensures
        r == parse_ipv4_spec(s@),
{
    let n = s.unicode_len();
    let mut done: Vec<u8> = Vec::new();
    let mut cur: u32 = 0;
    let mut len: u32 = 0;
    let mut lead_zero = false;
    let mut i: usize = 0;
    while i < n
        invariant
            n == s@.len(),
            i <= n,
            ({
                let st = scan(s@.subrange(0, i as int));
                &&& !st.bad
                &&& st.done == done@
                &&& st.cur == cur
                &&& st.len == len
                &&& st.lead_zero == lead_zero
            }),
            len <= 3,
            len == 0 ==> cur == 0,
            len == 1 ==> cur < 10,
            len == 2 ==> cur < 100,
            len == 3 ==> cur < 1000,
        decreases n - i,
    {
        let c = s.get_char(i);
        assert(s@.subrange(0, i + 1).drop_last() =~= s@.subrange(0, i as int));
        if c == '.' {
            if 1 <= len && len <= 3 && cur <= 255 && !(lead_zero && len > 1) && done.len() < 3 {
                done.push(cur as u8);
                cur = 0;
                len = 0;
                lead_zero = false;
            } else {
                proof {
                    lemma_scan_stays_bad(s@, i as int + 1);
                }
                return None;
            }
        } else if '0' <= c && c <= '9' && len < 3 {
            let d = (c as u32) - ('0' as u32);
            if len == 0 {
                lead_zero = d == 0;
            }
            cur = cur * 10 + d;
            len = len + 1;
        } else {
            proof {
                lemma_scan_stays_bad(s@, i as int + 1);
            }
            return None;
        }
        i += 1;
    }
    assert(s@.subrange(0, n as int) =~= s@);
    if done.len() == 3 && 1 <= len && len <= 3 && cur <= 255 && !(lead_zero && len > 1) {
        Some(Ipv4 { a: done[0], b: done[1], c: done[2], d: cur as u8 })
    } else {
        None
    }
}

proof fn lemma_digit_value(d: nat)
    requires
        d < 10,
    ensures
        digit_value(digit(d)) == Some(d),
{
}

/// Reading the decimal text of `v <= 255` into a fresh field gives value `v`.
proof fn lemma_scan_decimal(s: Seq<char>, v: nat)
    requires
        v <= 255,
        !scan(s).bad,
        scan(s).len == 0,
        scan(s).cur == 0,
    ensures
        scan(s + decimal(v)) == (Scan {
            done: scan(s).done,
            cur: v,
            len: decimal(v).len(),
            lead_zero: v == 0,
            bad: false,
        }),
        1 <= decimal(v).len() <= 3,
        v < 10 ==> decimal(v).len() == 1,
        10 <= v < 100 ==> decimal(v).len() == 2,
        v >= 100 ==> decimal(v).len() == 3,
    decreases v,
{
    if v < 10 {
        lemma_digit_value(v);
        assert(decimal(v) == seq![digit(v)]);
        assert((s + decimal(v)).drop_last() =~= s);
        assert((s + decimal(v)).last() == digit(v));
        assert(digit(v) != '.');
    } else {
        let q = v / 10;
        let r = v % 10;
        lemma_scan_decimal(s, q);
        lemma_digit_value(r);
        assert(decimal(v) == decimal(q).push(digit(r)));
        assert((s + decimal(v)).drop_last() =~= s + decimal(q));
        assert((s + decimal(v)).last() == digit(r));
        assert(digit(r) != '.');
        assert(q >= 1 && q <= 25);
        assert(q * 10 + r == v);
    }
}

/// A dot after a complete field closes it.
proof fn lemma_scan_dot(s: Seq<char>)
    requires
        !scan(s).bad,
        scan(s).done.len() < 3,
        octet_ok(scan(s).cur, scan(s).len, scan(s).lead_zero),
    ensures
        scan(s.push('.')) == (Scan {
            done: scan(s).done.push(scan(s).cur as u8),
            cur: 0,
            len: 0,
            lead_zero: false,
            bad: false,
        }),
{
    assert(s.push('.').drop_last() =~= s);
}

/// The dotted-quad text of an address reads back as that address.
pub proof fn lemma_ipv4_text_parses(ip: Ipv4)
    ensures
        parse_ipv4_spec(ipv4_text(ip)) == Some(ip),
{
    let e = Seq::<char>::empty();
    lemma_scan_decimal(e, ip.a as nat);
    let s1 = e + decimal(ip.a as nat);
    lemma_scan_dot(s1);
    let s2 = s1.push('.');
    lemma_scan_decimal(s2, ip.b as nat);
    let s3 = s2 + decimal(ip.b as nat);
    lemma_scan_dot(s3);
    let s4 = s3.push('.');
    lemma_scan_decimal(s4, ip.c as nat);
    let s5 = s4 + decimal(ip.c as nat);
    lemma_scan_dot(s5);
    let s6 = s5.push('.');
    lemma_scan_decimal(s6, ip.d as nat);
    let s7 = s6 + decimal(ip.d as nat);
    assert(s7 =~= ipv4_text(ip));
    let st = scan(s7);
    assert(st.done =~= seq![ip.a, ip.b, ip.c]);
}

/// Value of a string of decimal digits.
pub open spec fn digits_value(f: Seq<char>) -> nat
    decreases f.len(),
{
    if f.len() == 0 {
        0
    } else {
        digits_value(f.drop_last()) * 10 + match digit_value(f.last()) {
            Some(d) => d,
            None => 0,
        }
    }
}

/// Every character of `f` is a decimal digit.
pub open spec fn all_digits(f: Seq<char>) -> bool {
    forall|i: int| 0 <= i < f.len() ==> #[trigger] digit_value(f[i]) is Some
}

/// The text of finished fields: each octet's decimal text followed by a dot.
pub open spec fn dotted(done: Seq<u8>) -> Seq<char>
    decreases done.len(),
{
    if done.len() == 0 {
        seq![]
    } else {
        dotted(done.drop_last()) + decimal(done.last() as nat) + seq!['.']
    }
}

proof fn lemma_digit_char(c: char)
    requires
        digit_value(c) is Some,
    ensures
        digit(digit_value(c)->0) == c,
        digit_value(c)->0 < 10,
{
}

proof fn lemma_digits_value_positive(f: Seq<char>)
    requires
        f.len() > 0,
        all_digits(f),
        f[0] != '0',
    ensures
        digits_value(f) >= 1,
    decreases f.len(),
{
    if f.len() > 1 {
        assert(f.drop_last()[0] == f[0]);
        assert forall|i: int| 0 <= i < f.drop_last().len() implies #[trigger] digit_value(
            f.drop_last()[i],
        ) is Some by {
            assert(f.drop_last()[i] == f[i]);
        }
        lemma_digits_value_positive(f.drop_last());
    } else {
        assert(f.last() == f[0]);
        assert(digit_value(f[0]) is Some);
    }
}

/// Digits without a leading zero (but `0` itself) are the decimal text of their value.
proof fn lemma_canonical_digits(f: Seq<char>)
    requires
        f.len() > 0,
        all_digits(f),
        !(f[0] == '0' && f.len() > 1),
    ensures
        f == decimal(digits_value(f)),
    decreases f.len(),
{
    let v = digits_value(f);
    assert(digit_value(f[f.len() - 1]) is Some);
    lemma_digit_char(f.last());
    let d = digit_value(f.last())->0;
    if f.len() == 1 {
        assert(f.drop_last().len() == 0);
        assert(v == d);
        assert(f =~= seq![digit(d)]);
    } else {
        let g = f.drop_last();
        assert(g[0] == f[0]);
        assert forall|i: int| 0 <= i < g.len() implies #[trigger] digit_value(g[i]) is Some by {
            assert(g[i] == f[i]);
        }
        lemma_canonical_digits(g);
        lemma_digits_value_positive(g);
        let w = digits_value(g);
        assert(v == w * 10 + d);
        assert(v / 10 == w && v % 10 == d);
        assert(v >= 10);
        assert(decimal(v) == decimal(w).push(digit(d)));
        assert(f =~= g.push(f.last()));
    }
}

/// What has been read so far, when it is not bad: the finished fields, then the
/// digits of the field being read.
proof fn lemma_scan_shape(s: Seq<char>)
    requires
        !scan(s).bad,
    ensures
        ({
            let st = scan(s);
            let cut = s.len() - st.len;
            let f = s.subrange(cut, s.len() as int);
            &&& st.len <= s.len()
            &&& s.subrange(0, cut) == dotted(st.done)
            &&& all_digits(f)
            &&& digits_value(f) == st.cur
            &&& st.lead_zero == (st.len > 0 && f[0] == '0')
            &&& st.cur <= 999
            &&& (st.len == 0 ==> st.cur == 0)
            &&& (st.len == 1 ==> st.cur < 10)
            &&& (st.len == 2 ==> st.cur < 100)
        }),
    decreases s.len(),
{
    if s.len() == 0 {
        assert(s.subrange(0, 0) =~= dotted(Seq::<u8>::empty()));
    } else {
        let p = s.drop_last();
        let c = s.last();
        let st0 = scan(p);
        assert(!st0.bad);
        lemma_scan_shape(p);
        let cut0 = p.len() - st0.len;
        let f0 = p.subrange(cut0, p.len() as int);
        let st = scan(s);
        if c == '.' {
            lemma_canonical_digits(f0);
            assert(st.done == st0.done.push(st0.cur as u8));
            assert(st.done.drop_last() =~= st0.done);
            assert(s.subrange(0, s.len() as int) =~= p.subrange(0, cut0) + f0 + seq!['.']);
            assert(s.subrange(s.len() as int, s.len() as int) =~= Seq::<char>::empty());
        } else {
            let d = digit_value(c)->0;
            lemma_digit_char(c);
            let cut = s.len() - st.len;
            let f = s.subrange(cut, s.len() as int);
            assert(cut == cut0);
            assert(f =~= f0.push(c));
            assert(f.drop_last() =~= f0);
            assert(s.subrange(0, cut) =~= p.subrange(0, cut0));
            assert forall|i: int| 0 <= i < f.len() implies #[trigger] digit_value(f[i]) is Some by {
                if i < f0.len() {
                    assert(f[i] == f0[i]);
                }
            }
            if st0.len > 0 {
                assert(f[0] == f0[0]);
            }
        }
    }
}

/// Text that reads as an address is that address's dotted-quad text.
pub proof fn lemma_parsed_text_is_canonical(s: Seq<char>)
    requires
        parse_ipv4_spec(s) is Some,
    ensures
        s == ipv4_text(parse_ipv4_spec(s)->0),
{
    let st = scan(s);
    lemma_scan_shape(s);
    let cut = s.len() - st.len;
    let f = s.subrange(cut, s.len() as int);
    lemma_canonical_digits(f);
    let ip = parse_ipv4_spec(s)->0;
    let dn = st.done;
    assert(dn.drop_last().drop_last().drop_last() =~= Seq::<u8>::empty());
    assert(dn.drop_last().drop_last().last() == dn[0]);
    assert(dn.drop_last().last() == dn[1]);
    assert(dn.last() == dn[2]);
    assert(s =~= s.subrange(0, cut) + f);
    let d2 = dn.drop_last();
    let d1 = d2.drop_last();
    assert(dotted(d1.drop_last()) =~= Seq::<char>::empty());
    assert(dotted(d1) =~= decimal(dn[0] as nat) + seq!['.']);
    assert(dotted(d2) =~= decimal(dn[0] as nat) + seq!['.'] + decimal(dn[1] as nat) + seq!['.']);
    assert(dotted(dn) =~= decimal(dn[0] as nat) + seq!['.'] + decimal(dn[1] as nat) + seq!['.']
        + decimal(dn[2] as nat) + seq!['.']);
    assert(ip.a == dn[0] && ip.b == dn[1] && ip.c == dn[2]);
    assert(ip.d as nat == st.cur);
    assert(f == decimal(ip.d as nat));
    assert(s =~= ipv4_text(ip));
}

/// Once the text read so far is bad, the whole text is.
proof fn lemma_scan_stays_bad(s: Seq<char>, k: int)
    requires
        0 <= k <= s.len(),
        scan(s.subrange(0, k)).bad,
    ensures
        scan(s).bad,
    decreases s.len() - k,
{
    if k == s.len() {
        assert(s.subrange(0, k) =~= s);
    } else {
        assert(s.subrange(0, k + 1).drop_last() =~= s.subrange(0, k));
        lemma_scan_stays_bad(s, k + 1);
    }
}

} // verus!
