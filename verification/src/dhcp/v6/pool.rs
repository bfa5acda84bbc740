//! Leases, and the addresses of a range that are free of them.
use vstd::prelude::*;
use crate::clock::Timestamp;
use crate::types::{IpAddr, Ipv6Addr};
use crate::wire::same_bytes;

verus! {

/// A lease of an address.
#[derive(Debug)]
pub struct Lease {
    pub ip: IpAddr,
    /// The identifier of the client that has it.
    pub client_id: Option<Vec<u8>>,
    /// When it ends.
    pub expires: Timestamp,
}

impl Lease {
    /// True of the leases of a client.
    pub open spec fn held_by(self, client: Seq<u8>) -> bool {
        self.client_id matches Some(c) && c@ == client
    }

    /// True of the leases of a client.
    pub fn is_held_by(&self, client: &[u8]) -> (r: bool)
        ensures
            r == self.held_by(client@),
    {
        match &self.client_id {
            Some(c) => same_bytes(c.as_slice(), client),
            None => false,
        }
    }
}

/// The first lease of an address.
pub open spec fn lease_of(leases: Seq<Lease>, ip: IpAddr) -> Option<Lease>
    decreases leases.len(),
{
    if leases.len() == 0 {
        None
    } else if leases[0].ip == ip {
        Some(leases[0])
    } else {
        lease_of(leases.skip(1), ip)
    }
}

/// The first lease of a client.
pub open spec fn lease_held(leases: Seq<Lease>, client: Seq<u8>) -> Option<Lease>
    decreases leases.len(),
{
    if leases.len() == 0 {
        None
    } else if leases[0].held_by(client) {
        Some(leases[0])
    } else {
        lease_held(leases.skip(1), client)
    }
}

/// The first lease of an address.
pub fn find_by_ip<'a>(leases: &'a Vec<Lease>, ip: &IpAddr) -> (r: Option<&'a Lease>)
    ensures
        match r {
            Some(l) => lease_of(leases@, *ip) == Some(*l),
            None => lease_of(leases@, *ip) is None,
        },
{
    let mut i: usize = 0;
    assert(leases@.skip(0) =~= leases@);
    while i < leases.len()
        invariant
            i <= leases@.len(),
            lease_of(leases@.skip(i as int), *ip) == lease_of(leases@, *ip),
        decreases leases@.len() - i,
    {
        proof {
            assert(leases@.skip(i as int)[0] == leases@[i as int]);
            assert(leases@.skip(i as int).skip(1) =~= leases@.skip(i + 1));
        }
        if leases[i].ip == *ip {
            return Some(&leases[i]);
        }
        i = i + 1;
    }
    None
}

/// The first lease of a client.
pub fn find_by_client<'a>(leases: &'a Vec<Lease>, client: &[u8]) -> (r: Option<&'a Lease>)
    ensures
        match r {
            Some(l) => lease_held(leases@, client@) == Some(*l),
            None => lease_held(leases@, client@) is None,
        },
{
    let mut i: usize = 0;
    assert(leases@.skip(0) =~= leases@);
    while i < leases.len()
        invariant
            i <= leases@.len(),
            lease_held(leases@.skip(i as int), client@) == lease_held(leases@, client@),
        decreases leases@.len() - i,
    {
        proof {
            assert(leases@.skip(i as int)[0] == leases@[i as int]);
            assert(leases@.skip(i as int).skip(1) =~= leases@.skip(i + 1));
        }
        if leases[i].is_held_by(client) {
            return Some(&leases[i]);
        }
        i = i + 1;
    }
    None
}

/// The address with the given number.
pub open spec fn numbered(n: int) -> IpAddr {
    IpAddr::V6(Ipv6Addr { bits: n as u128 })
}

/// The first address from `start` to `end` that no lease has.
pub open spec fn first_free(leases: Seq<Lease>, start: int, end: int) -> Option<Ipv6Addr>
    decreases end + 1 - start,
{
    if start > end {
        None
    } else if lease_of(leases, numbered(start)) is None {
        Some(Ipv6Addr { bits: start as u128 })
    } else {
        first_free(leases, start + 1, end)
    }
}

/// The first address of a range that no lease has.
pub fn find_free(leases: &Vec<Lease>, start: Ipv6Addr, end: Ipv6Addr) -> (r: Option<Ipv6Addr>)
    ensures
        r == first_free(leases@, start.bits as int, end.bits as int),
{
    if start.bits > end.bits {
        return None;
    }
    let mut at: u128 = start.bits;
    while at < end.bits
        invariant
            start.bits <= at <= end.bits,
            first_free(leases@, at as int, end.bits as int) == first_free(
                leases@,
                start.bits as int,
                end.bits as int,
            ),
        decreases end.bits - at,
    {
        if find_by_ip(leases, &IpAddr::V6(Ipv6Addr { bits: at })).is_none() {
            return Some(Ipv6Addr { bits: at });
        }
        at = at + 1;
    }
    let last = find_by_ip(leases, &IpAddr::V6(Ipv6Addr { bits: at }));
    proof {
        reveal_with_fuel(first_free, 2);
    }
    if last.is_none() {
        Some(Ipv6Addr { bits: at })
    } else {
        None
    }
}

/// A free address of a range lies in it, no lease has it, and leases have all addresses of the
/// range before it; where there is none, leases have the whole range.
pub proof fn law_first_free(leases: Seq<Lease>, start: Ipv6Addr, end: Ipv6Addr)
    ensures
        match first_free(leases, start.bits as int, end.bits as int) {
            Some(a) => {
                &&& start.bits <= a.bits <= end.bits
                &&& lease_of(leases, IpAddr::V6(a)) is None
                &&& forall|b: Ipv6Addr|
                    start.bits <= b.bits < a.bits ==> (#[trigger] lease_of(leases, IpAddr::V6(b))) is Some
            },
            None => forall|b: Ipv6Addr|
                start.bits <= b.bits <= end.bits ==> (#[trigger] lease_of(leases, IpAddr::V6(b))) is Some,
        },
{
    lemma_first_free(leases, start.bits as int, end.bits as int);
}

proof fn lemma_first_free(leases: Seq<Lease>, start: int, end: int)
    requires
        0 <= start <= u128::MAX + 1,
        0 <= end <= u128::MAX,
    ensures
        match first_free(leases, start, end) {
            Some(a) => {
                &&& start <= a.bits <= end
                &&& lease_of(leases, IpAddr::V6(a)) is None
                &&& forall|b: Ipv6Addr|
                    start <= b.bits < a.bits ==> (#[trigger] lease_of(leases, IpAddr::V6(b))) is Some
            },
            None => forall|b: Ipv6Addr|
                start <= b.bits <= end ==> (#[trigger] lease_of(leases, IpAddr::V6(b))) is Some,
        },
    decreases end + 1 - start,
{
    if start <= end && lease_of(leases, numbered(start)) is Some {
        lemma_first_free(leases, start + 1, end);
        assert forall|b: Ipv6Addr|
            b.bits == start implies (#[trigger] lease_of(leases, IpAddr::V6(b))) is Some by {
            assert(IpAddr::V6(b) == numbered(start));
        }
    }
}

/// A lease that is found is one of the list and fits; where none is found, none of the list fits.
pub proof fn law_found_leases(leases: Seq<Lease>, ip: IpAddr, client: Seq<u8>)
    ensures
        match lease_of(leases, ip) {
            Some(l) => leases.contains(l) && l.ip == ip,
            None => forall|i: int| 0 <= i < leases.len() ==> (#[trigger] leases[i]).ip != ip,
        },
        match lease_held(leases, client) {
            Some(l) => leases.contains(l) && l.held_by(client),
            None => forall|i: int|
                0 <= i < leases.len() ==> !(#[trigger] leases[i]).held_by(client),
        },
    decreases leases.len(),
{
    if leases.len() > 0 {
        let rest = leases.skip(1);
        law_found_leases(rest, ip, client);
        assert(leases[0] == leases.first());
        assert forall|l: Lease| rest.contains(l) implies leases.contains(l) by {
            let i = choose|i: int| 0 <= i < rest.len() && rest[i] == l;
            assert(leases[i + 1] == l);
        }
        assert forall|i: int| 0 < i < leases.len() implies (#[trigger] leases[i]) == rest[i - 1] by {}
        if lease_of(leases, ip) is None {
            assert forall|i: int| 0 <= i < leases.len() implies (#[trigger] leases[i]).ip != ip by {
                if i > 0 {
                    assert(rest[i - 1].ip != ip);
                }
            }
        }
        if lease_held(leases, client) is None {
            assert forall|i: int| 0 <= i < leases.len() implies !(#[trigger] leases[i]).held_by(
                client,
            ) by {
                if i > 0 {
                    assert(!rest[i - 1].held_by(client));
                }
            }
        }
    }
}

/// Of several leases of an address, or of a client, the first one is found.
pub proof fn law_first_leases(leases: Seq<Lease>, i: int, ip: IpAddr, client: Seq<u8>)
    requires
        0 <= i < leases.len(),
    ensures
        leases[i].ip == ip && (forall|j: int| 0 <= j < i ==> (#[trigger] leases[j]).ip != ip)
            ==> lease_of(leases, ip) == Some(leases[i]),
        leases[i].client_id is Some && leases[i].client_id->0@ == client && (forall|j: int|
            0 <= j < i ==> (#[trigger] leases[j]).client_id is None || leases[j].client_id->0@
                != client) ==> lease_held(leases, client) == Some(leases[i]),
    decreases i,
{
    if i > 0 {
        let rest = leases.skip(1);
        law_first_leases(rest, i - 1, ip, client);
        assert(rest[i - 1] == leases[i]);
        assert forall|j: int| 0 <= j < i - 1 implies (#[trigger] rest[j]) == leases[j + 1] by {}
        assert(leases[0] == leases[0]);
    }
}

} // verus!
