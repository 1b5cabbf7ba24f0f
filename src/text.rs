use vstd::prelude::*;
use vstd::string::StringSliceAdditionalSpecFns;

use crate::model::Ipv4;

verus! {

/// The ASCII digit for `d < 10`.
pub open spec fn digit(d: nat) -> char {
    if d == 0 {
        '0'
    } else if d == 1 {
        '1'
    } else if d == 2 {
        '2'
    } else if d == 3 {
        '3'
    } else if d == 4 {
        '4'
    } else if d == 5 {
        '5'
    } else if d == 6 {
        '6'
    } else if d == 7 {
        '7'
    } else if d == 8 {
        '8'
    } else {
        '9'
    }
}

/// Decimal text of `n`, without leading zeros.
pub open spec fn decimal(n: nat) -> Seq<char>
    decreases n,
{
    if n < 10 {
        seq![digit(n)]
    } else {
        decimal(n / 10).push(digit(n % 10))
    }
}

/// `v / SCALE` with three decimals, halves rounded up: `"0.365"` for 365_000.
pub open spec fn fixed3(v: nat) -> Seq<char> {
    let m = (v + 500) / 1000;
    let f = m % 1000;
    decimal(m / 1000) + seq!['.', digit(f / 100), digit((f / 10) % 10), digit(f % 10)]
}

/// `v / SCALE` with two decimals, halves rounded up: `"0.85"` for 850_000.
pub open spec fn fixed2(v: nat) -> Seq<char> {
    let m = (v + 5000) / 10000;
    let f = m % 100;
    decimal(m / 100) + seq!['.', digit(f / 10), digit(f % 10)]
}

/// Dotted-quad text of an address: `"10.0.0.1"`.
pub open spec fn ipv4_text(ip: Ipv4) -> Seq<char> {
    decimal(ip.a as nat) + seq!['.'] + decimal(ip.b as nat) + seq!['.'] + decimal(ip.c as nat)
        + seq!['.'] + decimal(ip.d as nat)
}

/// Bytes that URL encoding leaves as they are.
pub open spec fn url_unreserved(b: u8) -> bool {
    (0x30 <= b <= 0x39) || (0x41 <= b <= 0x5a) || (0x61 <= b <= 0x7a) || b == 0x2d || b == 0x2e
        || b == 0x5f || b == 0x7e
}

/// Upper-case hex digit of `d < 16`.
pub open spec fn hex_digit(d: u8) -> char {
    if d < 10 {
        digit(d as nat)
    } else {
        ((d - 10) as u8 + 0x41u8) as char
    }
}

/// Percent-encoding of a byte string: unreserved bytes stay, each other byte
/// becomes `%` and two upper-case hex digits.
pub open spec fn percent_encoded(b: Seq<u8>) -> Seq<char>
    decreases b.len(),
{
    if b.len() == 0 {
        seq![]
    } else {
        let c = b.last();
        percent_encoded(b.drop_last()) + if url_unreserved(c) {
            seq![c as char]
        } else {
            seq!['%', hex_digit(c / 16), hex_digit(c % 16)]
        }
    }
}

/// Relies on `urlencoding::encode`: every byte of the UTF-8 text but ASCII letters,
/// digits and `-` `.` `_` `~` becomes `%` and two upper-case hex digits.
#[verifier::external_body]
pub(crate) fn url_encode(s: &str) -> (r: String)
    ensures
        r@ == percent_encoded(s.spec_bytes()),
{
    urlencoding::encode(s).into_owned()
}

/// Appends digit `d`.
pub fn push_digit(s: &mut String, d: u64)
    requires
        d < 10,
    ensures
        final(s)@ == old(s)@.push(digit(d as nat)),
{
    let t: &str = if d == 0 {
        "0"
    } else if d == 1 {
        "1"
    } else if d == 2 {
        "2"
    } else if d == 3 {
        "3"
    } else if d == 4 {
        "4"
    } else if d == 5 {
        "5"
    } else if d == 6 {
        "6"
    } else if d == 7 {
        "7"
    } else if d == 8 {
        "8"
    } else {
        "9"
    };
    proof {
        reveal_strlit("0");
        reveal_strlit("1");
        reveal_strlit("2");
        reveal_strlit("3");
        reveal_strlit("4");
        reveal_strlit("5");
        reveal_strlit("6");
        reveal_strlit("7");
        reveal_strlit("8");
        reveal_strlit("9");
    }
    s.append(t);
    assert(s@ =~= old(s)@.push(digit(d as nat)));
}

/// Appends the decimal text of `n`.
pub fn push_decimal(s: &mut String, n: u64)
    ensures
        final(s)@ == old(s)@ + decimal(n as nat),
    decreases n,
{
    if n < 10 {
        push_digit(s, n);
        assert(s@ =~= old(s)@ + decimal(n as nat));
    } else {
        push_decimal(s, n / 10);
        push_digit(s, n % 10);
        assert(s@ =~= old(s)@ + decimal(n as nat));
    }
}

/// Decimal text of `n`.
pub fn decimal_string(n: u64) -> (r: String)
    ensures
        r@ == decimal(n as nat),
{
    let mut s = String::new();
    push_decimal(&mut s, n);
    assert(s@ =~= decimal(n as nat));
    s
}

/// Appends `v / SCALE` with three decimals.
pub fn push_fixed3(s: &mut String, v: u32)
    ensures
        final(s)@ == old(s)@ + fixed3(v as nat),
{
    let m: u64 = (v as u64 + 500) / 1000;
    let f: u64 = m % 1000;
    push_decimal(s, m / 1000);
    s.append(".");
    proof {
        reveal_strlit(".");
    }
    push_digit(s, f / 100);
    push_digit(s, (f / 10) % 10);
    push_digit(s, f % 10);
    assert(s@ =~= old(s)@ + fixed3(v as nat));
}

/// Appends `v / SCALE` with two decimals.
pub fn push_fixed2(s: &mut String, v: u32)
    ensures
        final(s)@ == old(s)@ + fixed2(v as nat),
{
    let m: u64 = (v as u64 + 5000) / 10000;
    let f: u64 = m % 100;
    push_decimal(s, m / 100);
    s.append(".");
    proof {
        reveal_strlit(".");
    }
    push_digit(s, f / 10);
    push_digit(s, f % 10);
    assert(s@ =~= old(s)@ + fixed2(v as nat));
}

/// Appends the dotted-quad text of `ip`.
pub fn push_ipv4(s: &mut String, ip: Ipv4)
    ensures
        final(s)@ == old(s)@ + ipv4_text(ip),
{
    proof {
        reveal_strlit(".");
    }
    push_decimal(s, ip.a as u64);
    s.append(".");
    push_decimal(s, ip.b as u64);
    s.append(".");
    push_decimal(s, ip.c as u64);
    s.append(".");
    push_decimal(s, ip.d as u64);
    assert(s@ =~= old(s)@ + ipv4_text(ip));
}

/// Dotted-quad text of `ip`.
pub fn ipv4_string(ip: Ipv4) -> (r: String)
    ensures
        r@ == ipv4_text(ip),
{
    let mut s = String::new();
    push_ipv4(&mut s, ip);
    assert(s@ =~= ipv4_text(ip));
    s
}

} // verus!
