//! The names under which addresses are looked up.
use vstd::prelude::*;
use crate::dns::name::{canon, DomainName};
use crate::text::{dec, digit_char};
use crate::types::{IpAddr, Ipv4Addr, Ipv6Addr};
use crate::wire::same_bytes;

verus! {

/// The label "in-addr".
pub open spec fn in_addr() -> Seq<u8> {
    seq![105u8, 110, 45, 97, 100, 100, 114]
}

/// The label "ip6".
pub open spec fn ip6() -> Seq<u8> {
    seq![105u8, 112, 54]
}

/// The label "arpa".
pub open spec fn arpa() -> Seq<u8> {
    seq![97u8, 114, 112, 97]
}

/// True of the bytes of decimal digits.
pub open spec fn is_decimal(b: u8) -> bool {
    48 <= b <= 57
}

/// The number below 256 that a label denotes in decimal, without leading zeros.
pub open spec fn octet_of(label: Seq<u8>) -> Option<nat> {
    if label.len() == 1 && is_decimal(label[0]) {
        Some((label[0] - 48) as nat)
    } else if label.len() == 2 && is_decimal(label[0]) && label[0] != 48 && is_decimal(label[1]) {
        Some(((label[0] - 48) * 10 + (label[1] - 48)) as nat)
    } else if label.len() == 3 && is_decimal(label[0]) && label[0] != 48 && is_decimal(label[1])
        && is_decimal(label[2]) && (label[0] - 48) * 100 + (label[1] - 48) * 10 + (label[2] - 48)
        < 256 {
        Some(((label[0] - 48) * 100 + (label[1] - 48) * 10 + (label[2] - 48)) as nat)
    } else {
        None
    }
}

/// The number below 16 that a label in lower case denotes in hexadecimal.
pub open spec fn nibble_of(label: Seq<u8>) -> Option<nat> {
    if label.len() == 1 && is_decimal(label[0]) {
        Some((label[0] - 48) as nat)
    } else if label.len() == 1 && 97 <= label[0] <= 102 {
        Some((label[0] - 87) as nat)
    } else {
        None
    }
}

/// The digit that a label denotes: in base sixteen, or else in base 256.
pub open spec fn digit_of(label: Seq<u8>, sixteen: bool) -> Option<nat> {
    if sixteen {
        nibble_of(label)
    } else {
        octet_of(label)
    }
}

/// The number that labels denote, one digit each, the least significant first.
pub open spec fn reversed_value(labels: Seq<Seq<u8>>, sixteen: bool) -> Option<nat>
    decreases labels.len(),
{
    if labels.len() == 0 {
        Some(0)
    } else {
        match (digit_of(labels[0], sixteen), reversed_value(labels.skip(1), sixteen)) {
            (Some(d), Some(v)) => Some(
                if sixteen {
                    v * 16 + d
                } else {
                    v * 256 + d
                },
            ),
            _ => None,
        }
    }
}

/// The address that is looked up under a name: its bytes in decimal, or its hexadecimal digits, the
/// last first, below the domain for such lookups.
pub open spec fn reverse_of(name: Seq<Seq<u8>>) -> Option<IpAddr> {
    let n = canon(name);
    if n.len() == 6 && n[4] == in_addr() && n[5] == arpa() {
        match reversed_value(n.take(4), false) {
            Some(v) => Some(IpAddr::V4(Ipv4Addr { bits: v as u32 })),
            None => None,
        }
    } else if n.len() == 34 && n[32] == ip6() && n[33] == arpa() {
        match reversed_value(n.take(32), true) {
            Some(v) => Some(IpAddr::V6(Ipv6Addr { bits: v as u128 })),
            None => None,
        }
    } else {
        None
    }
}

/// How many numbers have the given number of digits.
spec fn scale(n: nat, sixteen: bool) -> nat
    decreases n,
{
    if n == 0 {
        1
    } else if sixteen {
        16 * scale((n - 1) as nat, sixteen)
    } else {
        256 * scale((n - 1) as nat, sixteen)
    }
}

fn read_octet(label: &[u8]) -> (r: Option<u128>)
    ensures
        match (r, octet_of(label@)) {
            (Some(a), Some(b)) => a == b && a < 256,
            (None, None) => true,
            _ => false,
        },
{
    let n: usize = label.len();
    if n == 0 || n > 3 {
        return None;
    }
    let mut value: u128 = 0;
    let mut i: usize = 0;
    while i < n
        invariant
            n == label@.len(),
            1 <= n <= 3,
            i <= n,
            forall|j: int| 0 <= j < i ==> is_decimal(#[trigger] label@[j]),
            i == 0 ==> value == 0,
            i == 1 ==> value == label@[0] - 48,
            i == 2 ==> value == (label@[0] - 48) * 10 + (label@[1] - 48),
            i == 3 ==> value == (label@[0] - 48) * 100 + (label@[1] - 48) * 10 + (label@[2] - 48),
        decreases n - i,
    {
        if label[i] < 48 || label[i] > 57 {
            return None;
        }
        value = value * 10 + (label[i] - 48) as u128;
        i = i + 1;
    }
    if value > 255 || (n > 1 && label[0] == 48) {
        None
    } else {
        Some(value)
    }
}

fn read_nibble(label: &[u8]) -> (r: Option<u128>)
    ensures
        match (r, nibble_of(label@)) {
            (Some(a), Some(b)) => a == b && a < 16,
            (None, None) => true,
            _ => false,
        },
{
    if label.len() != 1 {
        None
    } else if 48 <= label[0] && label[0] <= 57 {
        Some((label[0] - 48) as u128)
    } else if 97 <= label[0] && label[0] <= 102 {
        Some((label[0] - 87) as u128)
    } else {
        None
    }
}

/// The number that the labels of a lower-case name from one position up to another denote.
fn read_reversed(labels: &Vec<Vec<u8>>, from: usize, to: usize, sixteen: bool) -> (r: Option<u128>)
    requires
        from <= to <= labels@.len(),
        scale((to - from) as nat, sixteen) <= u128::MAX + 1,
    ensures
        match (
            r,
            reversed_value(
                labels@.map_values(|l: Vec<u8>| l@).subrange(from as int, to as int),
                sixteen,
            ),
        ) {
            (Some(a), Some(b)) => a == b && a < scale((to - from) as nat, sixteen),
            (None, None) => true,
            _ => false,
        },
    decreases to - from,
{
    let ghost all = labels@.map_values(|l: Vec<u8>| l@);
    let ghost part = all.subrange(from as int, to as int);
    if from == to {
        return Some(0);
    }
    proof {
        assert(part.skip(1) =~= all.subrange(from + 1, to as int));
        assert(part[0] == labels@[from as int]@);
        assert(scale((to - from) as nat, sixteen) >= scale((to - from - 1) as nat, sixteen));
    }
    let digit = if sixteen {
        read_nibble(labels[from].as_slice())
    } else {
        read_octet(labels[from].as_slice())
    };
    let rest = read_reversed(labels, from + 1, to, sixteen);
    match (digit, rest) {
        (Some(d), Some(v)) => if sixteen {
            Some(v * 16 + d)
        } else {
            Some(v * 256 + d)
        },
        _ => None,
    }
}

/// The address that is looked up under a name.
pub fn reverse_address(name: &DomainName) -> (r: Option<IpAddr>)
    ensures
        r == reverse_of(name@),
{
    let labels = name.lower_labels();
    let ghost all = labels@.map_values(|l: Vec<u8>| l@);
    let n: usize = labels.len();
    assert(all == canon(name@));
    if n == 6 && same_bytes(labels[4].as_slice(), &[105, 110, 45, 97, 100, 100, 114]) && same_bytes(
        labels[5].as_slice(),
        &[97, 114, 112, 97],
    ) {
        proof {
            assert(labels@[4]@ =~= in_addr());
            assert(labels@[5]@ =~= arpa());
            assert(all.subrange(0, 4) =~= all.take(4));
            reveal_with_fuel(scale, 5);
        }
        match read_reversed(&labels, 0, 4, false) {
            Some(v) => Some(IpAddr::V4(Ipv4Addr { bits: v as u32 })),
            None => None,
        }
    } else if n == 34 && same_bytes(labels[32].as_slice(), &[105, 112, 54]) && same_bytes(
        labels[33].as_slice(),
        &[97, 114, 112, 97],
    ) {
        proof {
            assert(labels@[32]@ =~= ip6());
            assert(labels@[33]@ =~= arpa());
            assert(all.subrange(0, 32) =~= all.take(32));
            reveal_with_fuel(scale, 33);
        }
        match read_reversed(&labels, 0, 32, true) {
            Some(v) => Some(IpAddr::V6(Ipv6Addr { bits: v })),
            None => None,
        }
    } else {
        None
    }
}

/// True of a label that is the decimal notation of a number.
pub open spec fn decimal_label(label: Seq<u8>, n: nat) -> bool {
    label.len() == dec(n).len() && forall|i: int|
        0 <= i < label.len() ==> (#[trigger] label[i]) as char == dec(n)[i]
}

/// A label denotes a number exactly where the number is below 256 and the label is its decimal
/// notation: leading zeros and larger numbers are refused.
pub proof fn law_octet(label: Seq<u8>, n: nat)
    ensures
        octet_of(label) == Some(n) <==> n < 256 && decimal_label(label, n),
{
    reveal_with_fuel(dec, 4);
    if let Some(v) = octet_of(label) {
        if label.len() == 1 {
            assert(dec(v) =~= seq![label[0] as char]);
        } else if label.len() == 2 {
            assert(v / 10 == label[0] - 48 && v % 10 == label[1] - 48);
            assert(dec(v) =~= seq![label[0] as char, label[1] as char]);
        } else {
            assert(v / 100 == label[0] - 48 && (v / 10) % 10 == label[1] - 48 && v % 10 == label[2]
                - 48);
            assert(v / 10 / 10 == label[0] - 48);
            assert(dec(v) =~= seq![label[0] as char, label[1] as char, label[2] as char]);
        }
        assert(decimal_label(label, v));
    }
    if n < 256 && decimal_label(label, n) {
        assert(label[label.len() - 1] as char == digit_char(n % 10));
        if n < 10 {
            assert(dec(n).len() == 1);
            assert(label[0] == 48 + n);
        } else if n < 100 {
            assert(dec(n).len() == 2);
            assert(label[0] as char == dec(n)[0] && label[1] as char == dec(n)[1]);
            assert(dec(n)[0] == digit_char(n / 10));
            assert(label[0] == 48 + n / 10 && label[1] == 48 + n % 10);
        } else {
            assert(dec(n).len() == 3);
            assert(label[0] as char == dec(n)[0] && label[1] as char == dec(n)[1] && label[2] as char
                == dec(n)[2]);
            assert(dec(n)[0] == digit_char(n / 10 / 10) && dec(n)[1] == digit_char((n / 10) % 10));
            assert(label[0] == 48 + n / 10 / 10 && label[1] == 48 + (n / 10) % 10 && label[2] == 48 + n
                % 10);
        }
    }
}

/// The name of an IPv4 address is its four bytes in decimal, the last first, below `in-addr.arpa`.
pub proof fn law_reverse_ipv4(name: Seq<Seq<u8>>, a: u8, b: u8, c: u8, d: u8)
    requires
        name.len() == 6,
        decimal_label(name[0], d as nat),
        decimal_label(name[1], c as nat),
        decimal_label(name[2], b as nat),
        decimal_label(name[3], a as nat),
        name[4] == seq![105u8, 110, 45, 97, 100, 100, 114],
        name[5] == seq![97u8, 114, 112, 97],
    ensures
        reverse_of(name) == Some(
            IpAddr::V4(
                Ipv4Addr {
                    bits: (a * 0x100_0000 + b * 0x1_0000 + c * 0x100 + d) as u32,
                },
            ),
        ),
{
    let n = canon(name);
    law_octet(name[0], d as nat);
    law_octet(name[1], c as nat);
    law_octet(name[2], b as nat);
    law_octet(name[3], a as nat);
    assert(n[0] =~= name[0]);
    assert(n[1] =~= name[1]);
    assert(n[2] =~= name[2]);
    assert(n[3] =~= name[3]);
    assert(n[4] =~= name[4]);
    assert(n[5] =~= name[5]);
    let p = n.take(4);
    assert(p.skip(1).skip(1).skip(1).skip(1).len() == 0);
    reveal_with_fuel(reversed_value, 5);
    assert(p[0] == n[0] && p.skip(1)[0] == n[1] && p.skip(1).skip(1)[0] == n[2] && p.skip(1).skip(
        1,
    ).skip(1)[0] == n[3]);
}

/// Hexadecimal digit `i` of a number, the least significant first.
pub open spec fn nibble(v: nat, i: nat) -> nat
    decreases i,
{
    if i == 0 {
        v % 16
    } else {
        nibble(v / 16, (i - 1) as nat)
    }
}

/// True of a label that is one hexadecimal digit, in either case.
pub open spec fn hex_label(label: Seq<u8>, d: nat) -> bool {
    label.len() == 1 && (d < 10 && label[0] == 48 + d || 10 <= d < 16 && (label[0] == 55 + d
        || label[0] == 87 + d))
}

proof fn lemma_nibbles(labels: Seq<Seq<u8>>, v: nat)
    requires
        v < scale(labels.len(), true),
        forall|i: nat|
            #![trigger labels[i as int]]
            i < labels.len() ==> nibble_of(labels[i as int]) == Some(nibble(v, i)),
    ensures
        reversed_value(labels, true) == Some(v),
    decreases labels.len(),
{
    if labels.len() > 0 {
        let rest = labels.skip(1);
        assert(labels[0nat as int] == labels[0]);
        assert forall|i: nat| #![trigger rest[i as int]] i < rest.len() implies nibble_of(
            rest[i as int],
        ) == Some(nibble(v / 16, i)) by {
            assert(rest[i as int] == labels[(i + 1) as nat as int]);
        }
        lemma_nibbles(rest, v / 16);
    }
}

/// The name of an IPv6 address is its thirty-two hexadecimal digits, the last first, below
/// `ip6.arpa`.
pub proof fn law_reverse_ipv6(name: Seq<Seq<u8>>, v: u128)
    requires
        name.len() == 34,
        forall|i: nat| #![trigger name[i as int]] i < 32 ==> hex_label(name[i as int], nibble(v as nat, i)),
        name[32] == seq![105u8, 112, 54],
        name[33] == seq![97u8, 114, 112, 97],
    ensures
        reverse_of(name) == Some(IpAddr::V6(Ipv6Addr { bits: v })),
{
    let n = canon(name);
    assert(n[32] =~= name[32]);
    assert(n[33] =~= name[33]);
    assert(n[32].len() == 3 && in_addr().len() == 7);
    let p = n.take(32);
    assert forall|i: nat| #![trigger p[i as int]] i < 32 implies nibble_of(p[i as int]) == Some(
        nibble(v as nat, i),
    ) by {
        assert(hex_label(name[i as int], nibble(v as nat, i)));
        assert(p[i as int] == n[i as int]);
    }
    reveal_with_fuel(scale, 33);
    lemma_nibbles(p, v as nat);
}

/// A name of another form is not that of an address: one with another number of labels, or with a
/// label that is no digit of its kind.
pub proof fn law_no_reverse(name: Seq<Seq<u8>>, i: int)
    ensures
        name.len() != 6 && name.len() != 34 ==> reverse_of(name) is None,
        name.len() == 6 && 0 <= i < 4 && (forall|n: nat|
            n < 256 ==> !#[trigger] decimal_label(canon(name)[i], n)) ==> reverse_of(name) is None,
        name.len() == 34 && 0 <= i < 32 && (forall|d: nat|
            d < 16 ==> !#[trigger] hex_label(canon(name)[i], d)) ==> reverse_of(name) is None,
{
    let n = canon(name);
    if name.len() == 6 && 0 <= i < 4 && reverse_of(name) is Some {
        lemma_all_digits(n.take(4), i, false);
        law_octet(n[i], octet_of(n[i])->0);
    }
    if name.len() == 34 && 0 <= i < 32 && reverse_of(name) is Some {
        lemma_all_digits(n.take(32), i, true);
        assert(hex_label(n[i], nibble_of(n[i])->0));
    }
}

proof fn lemma_all_digits(labels: Seq<Seq<u8>>, i: int, sixteen: bool)
    requires
        reversed_value(labels, sixteen) is Some,
        0 <= i < labels.len(),
    ensures
        digit_of(labels[i], sixteen) is Some,
    decreases labels.len(),
{
    if i > 0 {
        lemma_all_digits(labels.skip(1), i - 1, sixteen);
    }
}

} // verus!
