//! Syntactic validation of IP address literals, over the UTF-8 bytes of the
//! configured string.
//!
//! An IPv4 literal is four decimal octets, each 1 to 3 digits, value at most
//! 255, with no leading zero, separated by dots. An IPv6 literal is up to
//! eight groups of 1 to 4 hexadecimal digits separated by colons, with at
//! most one `::` standing for one or more zero groups, and optionally an
//! embedded IPv4 literal in place of the last two groups.
use vstd::prelude::*;
use vstd::string::StringSliceAdditionalSpecFns;

verus! {

pub open spec fn is_digit(b: u8) -> bool {
    0x30 <= b <= 0x39
}

pub open spec fn is_hex_digit(b: u8) -> bool {
    is_digit(b) || (0x61 <= b <= 0x66) || (0x41 <= b <= 0x46)
}

/// All bytes of `[lo, hi)` are decimal digits.
pub open spec fn all_digits(s: Seq<u8>, lo: int, hi: int) -> bool {
    forall|x: int| lo <= x < hi ==> is_digit(#[trigger] s[x])
}

/// The decimal value of the digits of `[lo, hi)`.
pub open spec fn octet_val(s: Seq<u8>, lo: int, hi: int) -> int
    decreases hi - lo,
{
    if hi <= lo {
        0
    } else {
        octet_val(s, lo, hi - 1) * 10 + (s[hi - 1] - 0x30)
    }
}

/// `[lo, hi)` is a decimal octet: 1 to 3 digits, no leading zero, at most 255.
pub open spec fn valid_octet(s: Seq<u8>, lo: int, hi: int) -> bool {
    &&& 1 <= hi - lo <= 3
    &&& all_digits(s, lo, hi)
    &&& (hi - lo > 1 ==> s[lo] != 0x30)
    &&& octet_val(s, lo, hi) <= 255
}

/// `[lo, hi)` is an IPv4 literal: four octets separated by dots.
pub open spec fn valid_ipv4_at(s: Seq<u8>, lo: int, hi: int) -> bool {
    exists|d1: int, d2: int, d3: int|
        {
            &&& lo < d1 < d2 < d3 < hi
            &&& #[trigger] s[d1] == 0x2E
            &&& #[trigger] s[d2] == 0x2E
            &&& #[trigger] s[d3] == 0x2E
            &&& valid_octet(s, lo, d1)
            &&& valid_octet(s, d1 + 1, d2)
            &&& valid_octet(s, d2 + 1, d3)
            &&& valid_octet(s, d3 + 1, hi)
        }
}

/// The length of the run of hexadecimal digits starting at `pos`.
pub open spec fn hex_run(s: Seq<u8>, pos: int) -> int
    decreases s.len() - pos,
{
    if pos < 0 || pos >= s.len() || !is_hex_digit(s[pos]) {
        0
    } else {
        1 + hex_run(s, pos + 1)
    }
}

/// The suffix at `pos` completes an IPv6 literal in which no `::` occurred
/// yet, with `groups` groups already consumed.
pub open spec fn v6_full(s: Seq<u8>, pos: int, groups: int) -> bool
    decreases s.len() - pos,
{
    ||| (groups == 6 && valid_ipv4_at(s, pos, s.len() as int))
    ||| {
        let h = hex_run(s, pos);
        &&& 1 <= h <= 4
        &&& {
            ||| (groups == 7 && pos + h == s.len())
            ||| {
                &&& groups < 7
                &&& pos + h < s.len()
                &&& s[pos + h] == 0x3A
                &&& {
                    if pos + h + 1 < s.len() && s[pos + h + 1] == 0x3A {
                        v6_tail(s, pos + h + 2, groups + 1)
                    } else {
                        pos + h + 1 < s.len() && v6_full(s, pos + h + 1, groups + 1)
                    }
                }
            }
        }
    }
}

/// The suffix at `pos` completes an IPv6 literal in which a `::` has already
/// occurred, with `groups` explicit groups consumed so far; the `::` stands
/// for at least one group, so at most seven explicit groups fit in all.
pub open spec fn v6_tail(s: Seq<u8>, pos: int, groups: int) -> bool
    decreases s.len() - pos,
{
    ||| pos == s.len()
    ||| (groups <= 5 && valid_ipv4_at(s, pos, s.len() as int))
    ||| {
        let h = hex_run(s, pos);
        &&& 1 <= h <= 4
        &&& groups + 1 <= 7
        &&& {
            ||| pos + h == s.len()
            ||| {
                &&& pos + h + 1 < s.len()
                &&& s[pos + h] == 0x3A
                &&& s[pos + h + 1] != 0x3A
                &&& v6_tail(s, pos + h + 1, groups + 1)
            }
        }
    }
}

/// `s` is an IPv6 literal.
pub open spec fn valid_ipv6(s: Seq<u8>) -> bool {
    if s.len() >= 2 && s[0] == 0x3A && s[1] == 0x3A {
        v6_tail(s, 2, 0)
    } else {
        v6_full(s, 0, 0)
    }
}

/// `s` is an IP address literal: IPv4 or IPv6.
pub open spec fn is_ip_literal(s: Seq<u8>) -> bool {
    valid_ipv4_at(s, 0, s.len() as int) || valid_ipv6(s)
}

/// `x` occurs among the recorded positions.
pub open spec fn position_in(ps: Seq<usize>, x: int) -> bool {
    exists|m: int| 0 <= m < ps.len() && (#[trigger] ps[m]) as int == x
}

/// Whether `[lo, hi)` is a decimal octet.
fn check_octet(s: &[u8], lo: usize, hi: usize) -> (r: bool)
    requires
        lo <= hi <= s@.len(),
    ensures
        r == valid_octet(s@, lo as int, hi as int),
{
    if hi - lo < 1 || hi - lo > 3 {
        return false;
    }
    let mut i: usize = lo;
    let mut val: u32 = 0;
    while i < hi
        invariant
            lo <= i <= hi <= s@.len(),
            hi - lo <= 3,
            all_digits(s@, lo as int, i as int),
            val == octet_val(s@, lo as int, i as int),
            i - lo == 0 ==> val == 0,
            i - lo == 1 ==> val <= 9,
            i - lo == 2 ==> val <= 99,
            i - lo == 3 ==> val <= 999,
        decreases hi - i,
    {
        let b = s[i];
        if b < 0x30 || b > 0x39 {
            return false;
        }
        val = val * 10 + (b - 0x30) as u32;
        i += 1;
    }
    if hi - lo > 1 && s[lo] == 0x30 {
        return false;
    }
    val <= 255
}

/// Whether `[lo, hi)` is an IPv4 literal: collects the dot positions, which
/// a valid literal determines uniquely, and checks the four octets.
fn check_ipv4(s: &[u8], lo: usize, hi: usize) -> (r: bool)
    requires
        lo <= hi <= s@.len(),
    ensures
        r == valid_ipv4_at(s@, lo as int, hi as int),
{
    let mut dots: Vec<usize> = Vec::new();
    let mut i: usize = lo;
    while i < hi
        invariant
            lo <= i <= hi <= s@.len(),
            forall|m: int|
                0 <= m < dots@.len() ==> lo <= (#[trigger] dots@[m]) < i && s@[dots@[m] as int]
                    == 0x2E,
            forall|m1: int, m2: int| 0 <= m1 < m2 < dots@.len() ==> dots@[m1] < dots@[m2],
            forall|x: int| lo <= x < i && s@[x] == 0x2E ==> position_in(dots@, x),
        decreases hi - i,
    {
        if s[i] == 0x2E {
            let ghost old_dots = dots@;
            dots.push(i);
            proof {
                assert forall|x: int| lo <= x < i + 1 && s@[x] == 0x2E implies position_in(
                    dots@,
                    x,
                ) by {
                    if x < i {
                        assert(position_in(old_dots, x));
                        let m = choose|m: int|
                            0 <= m < old_dots.len() && (#[trigger] old_dots[m]) as int == x;
                        assert(dots@[m] as int == x);
                    } else {
                        assert(dots@[dots@.len() - 1] as int == x);
                    }
                }
            }
        }
        i += 1;
    }
    proof {
        // any witness's dot positions are dots of `s`, hence recorded
        if valid_ipv4_at(s@, lo as int, hi as int) {
            let (d1, d2, d3) = choose|d1: int, d2: int, d3: int|
                {
                    &&& lo < d1 < d2 < d3 < hi
                    &&& #[trigger] s@[d1] == 0x2E
                    &&& #[trigger] s@[d2] == 0x2E
                    &&& #[trigger] s@[d3] == 0x2E
                    &&& valid_octet(s@, lo as int, d1)
                    &&& valid_octet(s@, d1 + 1, d2)
                    &&& valid_octet(s@, d2 + 1, d3)
                    &&& valid_octet(s@, d3 + 1, hi as int)
                };
            assert(position_in(dots@, d1));
            assert(position_in(dots@, d2));
            assert(position_in(dots@, d3));
            // and every recorded dot is one of the witness's: octets hold no dots
            assert forall|m: int| 0 <= m < dots@.len() implies (dots@[m] as int == d1
                || dots@[m] as int == d2 || dots@[m] as int == d3) by {
                let x = dots@[m] as int;
                if x != d1 && x != d2 && x != d3 {
                    if x < d1 {
                        assert(is_digit(s@[x]));
                    } else if x < d2 {
                        assert(is_digit(s@[x]));
                    } else if x < d3 {
                        assert(is_digit(s@[x]));
                    } else {
                        assert(is_digit(s@[x]));
                    }
                }
            }
            let m1 = choose|m: int| 0 <= m < dots@.len() && (#[trigger] dots@[m]) as int == d1;
            let m2 = choose|m: int| 0 <= m < dots@.len() && (#[trigger] dots@[m]) as int == d2;
            let m3 = choose|m: int| 0 <= m < dots@.len() && (#[trigger] dots@[m]) as int == d3;
            assert(m1 < m2 && m2 < m3) by {
                if m2 <= m1 {
                    assert(dots@[m2] <= dots@[m1]);
                }
                if m3 <= m2 {
                    assert(dots@[m3] <= dots@[m2]);
                }
            }
            assert(dots@.len() == 3) by {
                if dots@.len() > 3 {
                    let mx: int = if m1 != 0 {
                        0
                    } else if m2 != 1 {
                        1
                    } else if m3 != 2 {
                        2
                    } else {
                        3
                    };
                    assert(0 <= mx < dots@.len());
                    assert(mx != m1 && mx != m2 && mx != m3);
                    assert(dots@[mx] as int == d1 || dots@[mx] as int == d2 || dots@[mx] as int
                        == d3);
                    assert(false) by {
                        if dots@[mx] as int == d1 {
                            if mx < m1 {
                                assert(dots@[mx] < dots@[m1]);
                            } else {
                                assert(dots@[m1] < dots@[mx]);
                            }
                        } else if dots@[mx] as int == d2 {
                            if mx < m2 {
                                assert(dots@[mx] < dots@[m2]);
                            } else {
                                assert(dots@[m2] < dots@[mx]);
                            }
                        } else {
                            if mx < m3 {
                                assert(dots@[mx] < dots@[m3]);
                            } else {
                                assert(dots@[m3] < dots@[mx]);
                            }
                        }
                    }
                }
            }
            assert(m1 == 0 && m2 == 1 && m3 == 2);
        }
    }
    if dots.len() != 3 {
        return false;
    }
    let d1 = dots[0];
    let d2 = dots[1];
    let d3 = dots[2];
    if !(lo < d1 && d1 < d2 && d2 < d3 && d3 < hi) {
        return false;
    }
    let r = check_octet(s, lo, d1) && check_octet(s, d1 + 1, d2) && check_octet(s, d2 + 1, d3)
        && check_octet(s, d3 + 1, hi);
    proof {
        if r {
            assert(valid_ipv4_at(s@, lo as int, hi as int)) by {
                assert(s@[d1 as int] == 0x2E && s@[d2 as int] == 0x2E && s@[d3 as int] == 0x2E);
            }
        }
    }
    r
}

/// Whether `b` is a hexadecimal digit.
fn is_hex_byte(b: u8) -> (r: bool)
    ensures
        r == is_hex_digit(b),
{
    (0x30 <= b && b <= 0x39) || (0x61 <= b && b <= 0x66) || (0x41 <= b && b <= 0x46)
}

/// The hexadecimal-digit run length starting at `pos`.
fn scan_hex_run(s: &[u8], pos: usize) -> (r: usize)
    requires
        pos <= s@.len(),
    ensures
        r == hex_run(s@, pos as int),
        pos + r <= s@.len(),
{
    let mut i: usize = pos;
    while i < s.len() && is_hex_byte(s[i])
        invariant
            pos <= i <= s@.len(),
            hex_run(s@, pos as int) == i - pos + hex_run(s@, i as int),
        decreases s@.len() - i,
    {
        proof {
            assert(is_hex_digit(s@[i as int]));
        }
        i += 1;
    }
    proof {
        assert(hex_run(s@, i as int) == 0);
    }
    i - pos
}

/// Whether the suffix at `pos` completes an IPv6 literal with no `::` yet.
fn check_v6_full(s: &[u8], pos: usize, groups: u32) -> (r: bool)
    requires
        pos <= s@.len(),
        groups <= 7,
    ensures
        r == v6_full(s@, pos as int, groups as int),
    decreases s@.len() - pos,
{
    let n = s.len();
    if groups == 6 && check_ipv4(s, pos, n) {
        return true;
    }
    let h = scan_hex_run(s, pos);
    if h < 1 || h > 4 {
        return false;
    }
    if groups == 7 && pos + h == n {
        return true;
    }
    if !(groups < 7 && pos + h < n && s[pos + h] == 0x3A) {
        return false;
    }
    if pos + h + 1 < n && s[pos + h + 1] == 0x3A {
        check_v6_tail(s, pos + h + 2, groups + 1)
    } else {
        pos + h + 1 < n && check_v6_full(s, pos + h + 1, groups + 1)
    }
}

/// Whether the suffix at `pos` completes an IPv6 literal after a `::`.
fn check_v6_tail(s: &[u8], pos: usize, groups: u32) -> (r: bool)
    requires
        pos <= s@.len(),
        groups <= 7,
    ensures
        r == v6_tail(s@, pos as int, groups as int),
    decreases s@.len() - pos,
{
    let n = s.len();
    if pos == n {
        return true;
    }
    if groups <= 5 && check_ipv4(s, pos, n) {
        return true;
    }
    let h = scan_hex_run(s, pos);
    if h < 1 || h > 4 || groups + 1 > 7 {
        return false;
    }
    if pos + h == n {
        return true;
    }
    if pos + h + 1 < n && s[pos + h] == 0x3A && s[pos + h + 1] != 0x3A {
        check_v6_tail(s, pos + h + 1, groups + 1)
    } else {
        false
    }
}

/// Whether the UTF-8 bytes of `ip` form an IP address literal, IPv4 or IPv6.
pub fn is_valid_ip(ip: &str) -> (r: bool)
    ensures
        r == is_ip_literal(ip.spec_bytes()),
{
    let b = ip.as_bytes();
    if check_ipv4(b, 0, b.len()) {
        return true;
    }
    if b.len() >= 2 && b[0] == 0x3A && b[1] == 0x3A {
        check_v6_tail(b, 2, 0)
    } else {
        check_v6_full(b, 0, 0)
    }
}

} // verus!
