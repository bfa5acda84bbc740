//! Addresses in their usual notation.
use vstd::prelude::*;
use crate::text::{dec, decimal, hex_char, hex_digit};
use crate::types::{IpAddr, Ipv4Addr, Ipv6Addr};
use crate::wire::{be_bytes, lemma_be_bytes_len, read_u16, u16_at};

verus! {

/// An IPv4 address: its four bytes in decimal, with dots between them.
pub open spec fn ipv4_text(a: Ipv4Addr) -> Seq<char> {
    let o = a.spec_octets();
    dec(o[0] as nat) + "."@ + dec(o[1] as nat) + "."@ + dec(o[2] as nat) + "."@ + dec(o[3] as nat)
}

/// A number in hexadecimal, without leading zeros.
pub open spec fn hex_text(n: nat) -> Seq<char>
    decreases n,
{
    if n < 16 {
        seq![hex_char(n)]
    } else {
        hex_text(n / 16).push(hex_char(n % 16))
    }
}

/// The eight 16-bit groups of an address.
pub open spec fn groups(a: Ipv6Addr) -> Seq<u16> {
    Seq::new(8, |i: int| u16_at(a.spec_octets(), 2 * i))
}

/// Groups in hexadecimal, with colons between them.
pub open spec fn joined_groups(g: Seq<u16>) -> Seq<char>
    decreases g.len(),
{
    if g.len() == 0 {
        Seq::empty()
    } else if g.len() == 1 {
        hex_text(g[0] as nat)
    } else {
        joined_groups(g.drop_last()) + ":"@ + hex_text(g.last() as nat)
    }
}

/// The number of zero groups at the start.
pub open spec fn zeros_ahead(g: Seq<u16>) -> nat
    decreases g.len(),
{
    if g.len() == 0 || g[0] != 0 {
        0
    } else {
        1 + zeros_ahead(g.skip(1))
    }
}

/// Of the first `n` positions, the first at which the most zero groups follow one another.
pub open spec fn longest_zeros(g: Seq<u16>, n: nat) -> int
    decreases n,
{
    if n <= 1 {
        0
    } else {
        let before = longest_zeros(g, (n - 1) as nat);
        if zeros_ahead(g.skip(n - 1)) > zeros_ahead(g.skip(before)) {
            n - 1
        } else {
            before
        }
    }
}

/// An IPv6 address: its groups in hexadecimal with colons between them, where two colons stand for
/// the first of the longest runs of two or more zero groups. An address that stands for an IPv4
/// address ends in the notation of that one.
pub open spec fn ipv6_text(a: Ipv6Addr) -> Seq<char> {
    let g = groups(a);
    let at = longest_zeros(g, 8);
    let len = zeros_ahead(g.skip(at));
    if a.bits / 0x1_0000_0000 == 0xffff {
        "::ffff:"@ + ipv4_text(Ipv4Addr { bits: (a.bits % 0x1_0000_0000) as u32 })
    } else if len > 1 {
        joined_groups(g.take(at)) + "::"@ + joined_groups(g.skip(at + len))
    } else {
        joined_groups(g)
    }
}

/// An address in its usual notation.
pub open spec fn ip_text(a: IpAddr) -> Seq<char> {
    match a {
        IpAddr::V4(x) => ipv4_text(x),
        IpAddr::V6(x) => ipv6_text(x),
    }
}

fn show_ipv4(a: &Ipv4Addr) -> (r: String)
    ensures
        r@ == ipv4_text(*a),
{
    let o = a.octets();
    proof {
        lemma_be_bytes_len(a.bits as nat, 4);
    }
    decimal(o[0] as u64).concat(".").concat(decimal(o[1] as u64).as_str()).concat(".").concat(
        decimal(o[2] as u64).as_str(),
    ).concat(".").concat(decimal(o[3] as u64).as_str())
}

fn hexadecimal(n: u16) -> (r: String)
    ensures
        r@ == hex_text(n as nat),
    decreases n,
{
    if n < 16 {
        let mut r = String::new();
        r.push(hex_digit(n as u8));
        assert(r@ =~= hex_text(n as nat));
        r
    } else {
        let mut r = hexadecimal(n / 16);
        r.push(hex_digit((n % 16) as u8));
        r
    }
}

/// The groups from one position up to another in hexadecimal, with colons between them.
fn show_groups(g: &Vec<u16>, from: usize, to: usize) -> (r: String)
    requires
        from <= to <= g@.len(),
    ensures
        r@ == joined_groups(g@.subrange(from as int, to as int)),
{
    let mut r = String::new();
    let mut i: usize = from;
    assert(r@ =~= joined_groups(g@.subrange(from as int, from as int)));
    while i < to
        invariant
            from <= i <= to <= g@.len(),
            r@ == joined_groups(g@.subrange(from as int, i as int)),
        decreases to - i,
    {
        let ghost longer = g@.subrange(from as int, i + 1);
        assert(longer.drop_last() =~= g@.subrange(from as int, i as int));
        let one = hexadecimal(g[i]);
        if i > from {
            r = r.concat(":").concat(one.as_str());
        } else {
            r = one;
            assert(longer.len() == 1);
        }
        assert(r@ =~= joined_groups(longer));
        i = i + 1;
    }
    r
}

/// The number of zero groups from a position on.
fn count_zeros(g: &Vec<u16>, from: usize) -> (r: usize)
    requires
        from <= g@.len(),
    ensures
        r == zeros_ahead(g@.skip(from as int)),
        from + r <= g@.len(),
    decreases g@.len() - from,
{
    if from == g.len() || g[from] != 0 {
        return 0;
    }
    assert(g@.skip(from as int).skip(1) =~= g@.skip(from + 1));
    1 + count_zeros(g, from + 1)
}

fn show_ipv6(a: &Ipv6Addr) -> (r: String)
    ensures
        r@ == ipv6_text(*a),
{
    if a.bits / 0x1_0000_0000 == 0xffff {
        let low = show_ipv4(&Ipv4Addr { bits: (a.bits % 0x1_0000_0000) as u32 });
        return String::from_str("::ffff:").concat(low.as_str());
    }
    let o = a.octets();
    let mut g: Vec<u16> = Vec::new();
    let mut i: usize = 0;
    proof {
        lemma_be_bytes_len(a.bits as nat, 16);
    }
    while i < 8
        invariant
            i <= 8,
            o@ == a.spec_octets(),
            o@.len() == 16,
            g@ == groups(*a).take(i as int),
        decreases 8 - i,
    {
        g.push(read_u16(o.as_slice(), 2 * i));
        i = i + 1;
        assert(g@ =~= groups(*a).take(i as int));
    }
    assert(g@ =~= groups(*a));
    let mut at: usize = 0;
    let mut len: usize = count_zeros(&g, 0);
    let mut n: usize = 1;
    while n < 8
        invariant
            1 <= n <= 8,
            g@.len() == 8,
            at == longest_zeros(g@, n as nat),
            at < 8,
            len == zeros_ahead(g@.skip(at as int)),
            at + len <= 8,
        decreases 8 - n,
    {
        let here: usize = count_zeros(&g, n);
        if here > len {
            at = n;
            len = here;
        }
        n = n + 1;
    }
    if len > 1 {
        let head = show_groups(&g, 0, at);
        let tail = show_groups(&g, at + len, 8);
        assert(g@.subrange(0, at as int) =~= g@.take(at as int));
        assert(g@.subrange(at + len, 8) =~= g@.skip(at + len));
        head.concat("::").concat(tail.as_str())
    } else {
        assert(g@.subrange(0, 8) =~= g@);
        show_groups(&g, 0, 8)
    }
}

/// An address in its usual notation.
pub fn show_ip(a: &IpAddr) -> (r: String)
    ensures
        r@ == ip_text(*a),
{
    match a {
        IpAddr::V4(x) => show_ipv4(x),
        IpAddr::V6(x) => show_ipv6(x),
    }
}

/// The value of a hexadecimal digit in lower case.
pub open spec fn digit_value(c: char) -> nat {
    if '0' <= c <= '9' {
        (c as nat - '0' as nat) as nat
    } else {
        (c as nat - 'a' as nat + 10) as nat
    }
}

/// The number that hexadecimal digits denote.
pub open spec fn hex_number(s: Seq<char>) -> nat
    decreases s.len(),
{
    if s.len() == 0 {
        0
    } else {
        hex_number(s.drop_last()) * 16 + digit_value(s.last())
    }
}

/// The hexadecimal notation of a number starts with a zero only for zero, and denotes the number.
pub proof fn law_hex_text(n: nat)
    ensures
        hex_text(n).len() > 0,
        hex_text(n)[0] == '0' <==> n == 0,
        hex_number(hex_text(n)) == n,
    decreases n,
{
    assert(digit_value(hex_char(n % 16)) == n % 16);
    if n < 16 {
        assert(hex_number(hex_text(n).drop_last()) == 0);
    } else {
        law_hex_text(n / 16);
        assert(hex_text(n).drop_last() =~= hex_text(n / 16));
        assert(hex_text(n)[0] == hex_text(n / 16)[0]);
    }
}

/// The run of zeros at the start of some groups: all of it is zero, and what follows it is not.
pub proof fn law_zeros_ahead(g: Seq<u16>)
    ensures
        zeros_ahead(g) <= g.len(),
        forall|i: int| 0 <= i < zeros_ahead(g) ==> #[trigger] g[i] == 0,
        zeros_ahead(g) < g.len() ==> g[zeros_ahead(g) as int] != 0,
    decreases g.len(),
{
    if g.len() > 0 && g[0] == 0 {
        let rest = g.skip(1);
        law_zeros_ahead(rest);
        assert forall|i: int| 0 <= i < zeros_ahead(g) implies #[trigger] g[i] == 0 by {
            if i > 0 {
                assert(rest[i - 1] == g[i]);
            }
        }
    }
}

/// The run of zeros that is found is the longest, and the first of that length.
pub proof fn law_longest_zeros(g: Seq<u16>, n: nat, i: int)
    requires
        0 <= i < n,
    ensures
        0 <= longest_zeros(g, n) < n,
        zeros_ahead(g.skip(i)) <= zeros_ahead(g.skip(longest_zeros(g, n))),
        i < longest_zeros(g, n) ==> zeros_ahead(g.skip(i)) < zeros_ahead(
            g.skip(longest_zeros(g, n)),
        ),
    decreases n,
{
    if n > 1 {
        law_longest_zeros(g, (n - 1) as nat, if i < n - 1 { i } else { 0 });
    }
}

/// The text of an IPv4 address is its four bytes in decimal with dots between them.
pub proof fn law_ipv4_text(a: u8, b: u8, c: u8, d: u8)
    ensures
        ip_text(
            IpAddr::V4(
                Ipv4Addr { bits: (a * 0x100_0000 + b * 0x1_0000 + c * 0x100 + d) as u32 },
            ),
        ) == dec(a as nat) + seq!['.'] + dec(b as nat) + seq!['.'] + dec(c as nat) + seq!['.'] + dec(
            d as nat,
        ),
{
    let v: u32 = (a * 0x100_0000 + b * 0x1_0000 + c * 0x100 + d) as u32;
    let o = Ipv4Addr { bits: v }.spec_octets();
    assert(o == seq![a, b, c, d]) by {
        lemma_four_bytes(a, b, c, d, v);
    }
    reveal_strlit(".");
    assert("."@ =~= seq!['.']);
}

proof fn lemma_four_bytes(a: u8, b: u8, c: u8, d: u8, v: u32)
    requires
        v == a * 0x100_0000 + b * 0x1_0000 + c * 0x100 + d,
    ensures
        be_bytes(v as nat, 4) == seq![a, b, c, d],
{
    crate::wire::lemma_be4(v);
    assert(v % 0x100 == d && v / 0x100 == a * 0x1_0000 + b * 0x100 + c);
    assert(v / 0x1_0000 == a * 0x100 + b);
    assert(v / 0x100_0000 == a);
    assert((v / 0x100) % 0x100 == c);
    assert((v / 0x1_0000) % 0x100 == b);
}

/// The text of an IPv6 address whose last four bytes are an IPv4 address behind ten zeros and two
/// bytes of ones is that of the IPv4 address with `::ffff:` in front. In others the first of the
/// longest runs of two or more zero groups is written as two colons; without such a run all eight
/// groups are written.
pub proof fn law_ipv6_text(a: Ipv6Addr, v: Ipv4Addr, at: int, len: int)
    ensures
        ip_text(IpAddr::V6(Ipv6Addr { bits: (0xffff_0000_0000 + v.bits) as u128 })) == "::ffff:"@
            + ip_text(IpAddr::V4(v)),
        a.bits / 0x1_0000_0000 != 0xffff && 0 <= at && 2 <= len && at + len <= 8 && (forall|i: int|
            at <= i < at + len ==> #[trigger] groups(a)[i] == 0) && (at + len < 8 ==> groups(a)[at
            + len] != 0) && (forall|i: int|
            0 <= i < at ==> #[trigger] zeros_ahead(groups(a).skip(i)) < len) && (forall|i: int|
            at < i < 8 ==> #[trigger] zeros_ahead(groups(a).skip(i)) <= len) ==> ip_text(
            IpAddr::V6(a),
        ) == joined_groups(groups(a).take(at)) + seq![':', ':'] + joined_groups(
            groups(a).skip(at + len),
        ),
        a.bits / 0x1_0000_0000 != 0xffff && (forall|i: int|
            0 <= i < 7 ==> #[trigger] groups(a)[i] != 0 || groups(a)[i + 1] != 0) ==> ip_text(
            IpAddr::V6(a),
        ) == joined_groups(groups(a)),
{
    let g = groups(a);
    let found = longest_zeros(g, 8);
    reveal_strlit("::");
    assert("::"@ =~= seq![':', ':']);
    law_longest_zeros(g, 8, 0);
    law_zeros_ahead(g.skip(found));
    if 0 <= at && 2 <= len && at + len <= 8 && (forall|i: int|
        at <= i < at + len ==> #[trigger] g[i] == 0) && (at + len < 8 ==> g[at + len] != 0) && (forall|
        i: int,
    |
        0 <= i < at ==> #[trigger] zeros_ahead(g.skip(i)) < len) && (forall|i: int|
        at < i < 8 ==> #[trigger] zeros_ahead(g.skip(i)) <= len) {
        lemma_run(g, at, len);
        law_longest_zeros(g, 8, at);
        assert(zeros_ahead(g.skip(found)) >= len);
        assert(found == at);
    }
    if forall|i: int| 0 <= i < 7 ==> #[trigger] g[i] != 0 || g[i + 1] != 0 {
        if zeros_ahead(g.skip(found)) > 1 {
            assert(g.skip(found)[0] == 0 && g.skip(found)[1] == 0);
            assert(g[found] == 0 && g[found + 1] == 0);
        }
    }
}

proof fn lemma_run(g: Seq<u16>, at: int, len: int)
    requires
        0 <= at,
        0 <= len,
        at + len <= g.len(),
        forall|i: int| at <= i < at + len ==> #[trigger] g[i] == 0,
        at + len < g.len() ==> g[at + len] != 0,
    ensures
        zeros_ahead(g.skip(at)) == len,
{
    let z = zeros_ahead(g.skip(at)) as int;
    law_zeros_ahead(g.skip(at));
    if z < len {
        assert(g.skip(at)[z] == g[at + z]);
    }
    if z > len {
        assert(g.skip(at)[len] == g[at + len]);
    }
}

/// Groups are written in hexadecimal with a colon between each two.
pub proof fn law_joined_groups(g: Seq<u16>, n: u16, h: Seq<u16>)
    ensures
        joined_groups(Seq::empty()).len() == 0,
        joined_groups(seq![n]) == hex_text(n as nat),
        g.len() > 0 && h.len() > 0 ==> joined_groups(g + h) == joined_groups(g) + seq![':']
            + joined_groups(h),
    decreases h.len(),
{
    reveal_strlit(":");
    assert(":"@ =~= seq![':']);
    if g.len() > 0 && h.len() > 0 {
        assert((g + h).drop_last() =~= g + h.drop_last());
        if h.len() > 1 {
            law_joined_groups(g, n, h.drop_last());
        } else {
            assert(g + h.drop_last() =~= g);
            assert(h =~= seq![h[0]]);
        }
        assert(joined_groups(g + h) =~= joined_groups(g) + seq![':'] + joined_groups(h));
    }
}

} // verus!
