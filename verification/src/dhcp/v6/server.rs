//! The pools of a DHCPv6 server, and what it does with a packet.
use vstd::prelude::*;
use crate::dhcp::v6::constants::{OPTION_CLIENT_ID, OPTION_IA_NA, OPTION_IA_PD, OPTION_IA_TA};
use crate::dhcp::v6::message::{parse_failed, parse_message, DhcpModel, DhcpV6Message};
use crate::dhcp::v6::pool::{
    find_by_client, find_by_ip, find_free, first_free, law_first_free, law_first_leases,
    law_found_leases, lease_held, lease_of, Lease,
};
use crate::dhcp::v6::protocol::{duid_fault, DhcpContext, Handler, RequestContext};
use crate::error::DhcpError;
use crate::types::{IpAddr, Ipv6Addr, MacAddress};
use crate::wire::{
    be_bytes, lemma_be2, lemma_be4, lemma_u32_field, put_slice, put_u16, put_u32, read_u32, u32_at,
};

verus! {

/// How long a lease from a pool lasts, in seconds.
pub const DEFAULT_LEASE_TIME: u32 = 86400;

/// The size of the largest packet.
pub const MAX_PACKET_SIZE: usize = 1500;

/// The size of the buffer for incoming packets.
pub const RECV_BUFFER_SIZE: usize = 2048;

/// A range of addresses; one with a prefix length is delegated as a whole.
#[derive(Debug, Clone, Copy, PartialEq, Eq, Structural)]
pub struct AddressPool {
    pub start6: Ipv6Addr,
    pub end6: Ipv6Addr,
    pub prefix_len: u8,
}

impl Default for AddressPool {
    /// The range of the unspecified address.
    fn default() -> (r: Self)
        ensures
            r == (AddressPool {
                start6: Ipv6Addr { bits: 0 },
                end6: Ipv6Addr { bits: 0 },
                prefix_len: 0,
            }),
    {
        AddressPool {
            start6: Ipv6Addr { bits: 0 },
            end6: Ipv6Addr { bits: 0 },
            prefix_len: 0,
        }
    }
}

impl AddressPool {
    /// True of the addresses of the range.
    pub open spec fn covers(self, a: Ipv6Addr) -> bool {
        self.start6.bits <= a.bits <= self.end6.bits
    }
}

/// A pool with the interface that it serves.
#[derive(Debug)]
pub struct PoolConfig {
    pub interface: Option<String>,
    pub pool: AddressPool,
}

impl PoolConfig {
    /// The name of the interface.
    pub open spec fn name(self) -> Seq<char> {
        match self.interface {
            Some(s) => s@,
            None => "default"@,
        }
    }

    /// True of the pools of an interface. One that starts at the unspecified address is none.
    pub open spec fn serves(self, interface: Seq<char>) -> bool {
        self.pool.start6.bits != 0 && self.name() == interface
    }
}

/// The pools of an interface, in order.
pub open spec fn pools_on(contexts: Seq<PoolConfig>, interface: Seq<char>) -> Seq<AddressPool>
    decreases contexts.len(),
{
    if contexts.len() == 0 {
        Seq::empty()
    } else if contexts.last().serves(interface) {
        pools_on(contexts.drop_last(), interface).push(contexts.last().pool)
    } else {
        pools_on(contexts.drop_last(), interface)
    }
}

/// The pools of one interface.
#[derive(Debug)]
pub struct PoolGroup {
    pub interface: String,
    pub pools: Vec<AddressPool>,
}

/// The pools of the first group of an interface.
pub open spec fn group_pools(groups: Seq<PoolGroup>, interface: Seq<char>) -> Seq<AddressPool>
    decreases groups.len(),
{
    if groups.len() == 0 {
        Seq::empty()
    } else if groups[0].interface@ == interface {
        groups[0].pools@
    } else {
        group_pools(groups.skip(1), interface)
    }
}

/// The position of the first group of an interface.
fn find_group(groups: &Vec<PoolGroup>, interface: &str) -> (r: Option<usize>)
    ensures
        match r {
            Some(i) => {
                &&& i < groups@.len()
                &&& groups@[i as int].interface@ == interface@
                &&& groups@[i as int].pools@ == group_pools(groups@, interface@)
                &&& forall|j: int| 0 <= j < i ==> (#[trigger] groups@[j]).interface@ != interface@
            },
            None => group_pools(groups@, interface@).len() == 0 && forall|j: int|
                0 <= j < groups@.len() ==> (#[trigger] groups@[j]).interface@ != interface@,
        },
{
    let name = String::from_str(interface);
    let mut i: usize = 0;
    assert(groups@.skip(0) =~= groups@);
    while i < groups.len()
        invariant
            i <= groups@.len(),
            name@ == interface@,
            group_pools(groups@.skip(i as int), interface@) == group_pools(groups@, interface@),
            forall|j: int| 0 <= j < i ==> (#[trigger] groups@[j]).interface@ != interface@,
        decreases groups@.len() - i,
    {
        proof {
            assert(groups@.skip(i as int)[0] == groups@[i as int]);
            assert(groups@.skip(i as int).skip(1) =~= groups@.skip(i + 1));
        }
        if groups[i].interface == name {
            return Some(i);
        }
        i = i + 1;
    }
    None
}

/// A pool more in the first group of its interface.
proof fn lemma_group_grows(before: Seq<PoolGroup>, after: Seq<PoolGroup>, i: int, name: Seq<char>)
    requires
        0 <= i < before.len(),
        after.len() == before.len(),
        forall|j: int| 0 <= j < before.len() && j != i ==> #[trigger] after[j] == before[j],
        after[i].interface@ == before[i].interface@,
        forall|j: int|
            0 <= j < i ==> (#[trigger] before[j]).interface@ != before[i].interface@,
    ensures
        group_pools(after, name) == if name == before[i].interface@ {
            after[i].pools@
        } else {
            group_pools(before, name)
        },
    decreases before.len(),
{
    if i == 0 {
        assert(after.skip(1) =~= before.skip(1));
    } else {
        assert(after[0] == before[0]);
        assert forall|j: int| 0 <= j < i - 1 implies (#[trigger] before.skip(1)[j]).interface@
            != before[i].interface@ by {
            assert(before.skip(1)[j] == before[j + 1]);
        }
        lemma_group_grows(before.skip(1), after.skip(1), i - 1, name);
    }
}

/// A group more at the end.
proof fn lemma_group_added(before: Seq<PoolGroup>, g: PoolGroup, name: Seq<char>)
    requires
        forall|j: int| 0 <= j < before.len() ==> (#[trigger] before[j]).interface@ != g.interface@,
    ensures
        group_pools(before.push(g), name) == if name == g.interface@ {
            g.pools@
        } else {
            group_pools(before, name)
        },
    decreases before.len(),
{
    if before.len() == 0 {
        assert(before.push(g).skip(1) =~= before);
    } else {
        assert(before.push(g).skip(1) =~= before.skip(1).push(g));
        assert forall|j: int| 0 <= j < before.skip(1).len() implies (#[trigger] before.skip(
            1,
        )[j]).interface@ != g.interface@ by {
            assert(before.skip(1)[j] == before[j + 1]);
        }
        lemma_group_added(before.skip(1), g, name);
        assert(before.push(g)[0] == before[0]);
    }
}

/// Whether one of some pools has an address.
pub open spec fn in_pools(a: Ipv6Addr, pools: Seq<AddressPool>) -> bool {
    exists|i: int| 0 <= i < pools.len() && (#[trigger] pools[i]).covers(a)
}

/// The first free address of a pool. The start is tried first, also where the end lies before it.
pub open spec fn pool_free(pool: AddressPool, leases: Seq<Lease>) -> Option<Ipv6Addr> {
    if lease_of(leases, IpAddr::V6(pool.start6)) is None {
        Some(pool.start6)
    } else {
        first_free(leases, pool.start6.bits as int, pool.end6.bits as int)
    }
}

/// True of the addresses at which one of some pools starts.
pub open spec fn starts_pool(a: Ipv6Addr, pools: Seq<AddressPool>) -> bool {
    exists|i: int| 0 <= i < pools.len() && (#[trigger] pools[i]).start6 == a
}

/// The first free address of the first pool that has one.
pub open spec fn first_available(pools: Seq<AddressPool>, leases: Seq<Lease>) -> Option<Ipv6Addr>
    decreases pools.len(),
{
    if pools.len() == 0 {
        None
    } else {
        match pool_free(pools[0], leases) {
            Some(a) => Some(a),
            None => first_available(pools.skip(1), leases),
        }
    }
}

/// An address for a client.
#[derive(Debug, Clone, Copy, PartialEq, Eq, Structural)]
pub enum Allocation {
    /// The client has the lease already.
    Existing(Ipv6Addr),
    /// The address is free and is to be leased.
    Free(Ipv6Addr),
}

/// Why there is no address or no prefix.
pub ghost enum PoolFault {
    NoPool,
    InUse(Ipv6Addr),
    NoAddress,
    NoPrefix,
}

/// Why a packet is not handled.
pub ghost enum PacketFault {
    Unreadable(Seq<char>),
    NoClient,
}

/// True of the error for a fault.
pub open spec fn pool_error(e: DhcpError, f: PoolFault, interface: Seq<char>) -> bool {
    match f {
        PoolFault::NoPool => e matches DhcpError::NoAddressPool(i) && i@ == interface,
        PoolFault::InUse(a) => e == DhcpError::AddressInUse(a),
        PoolFault::NoAddress => e is NoAddressesAvailable,
        PoolFault::NoPrefix => e is NoPrefixAvailable,
    }
}

/// The identifier of a server: its hardware address, and the seconds from the year 2000 to when the
/// identifier was made.
pub open spec fn server_duid(mac: Seq<u8>, time: u32) -> Seq<u8> {
    be_bytes(1, 2) + be_bytes(1, 2) + be_bytes(time as nat, 4) + mac
}

/// The pools of a server.
#[derive(Debug)]
pub struct DhcpV6Server {
    groups: Vec<PoolGroup>,
}

impl DhcpV6Server {
    /// The pools of an interface.
    pub closed spec fn pools(self, interface: Seq<char>) -> Seq<AddressPool> {
        group_pools(self.groups@, interface)
    }

    /// The server with the given pools, by interface.
    pub fn index_address_pools(contexts: &Vec<PoolConfig>) -> (r: Self)
        ensures
            forall|interface: Seq<char>|
                (#[trigger] r.pools(interface)) == pools_on(contexts@, interface),
    {
        let mut groups: Vec<PoolGroup> = Vec::new();
        let mut i: usize = 0;
        assert(contexts@.take(0) =~= Seq::<PoolConfig>::empty());
        while i < contexts.len()
            invariant
                i <= contexts@.len(),
                forall|n: Seq<char>|
                    (#[trigger] group_pools(groups@, n)) == pools_on(contexts@.take(i as int), n),
            decreases contexts@.len() - i,
        {
            let ghost before = groups@;
            let ghost taken = contexts@.take(i as int);
            let ghost context = contexts@[i as int];
            proof {
                assert(contexts@.take(i + 1).drop_last() =~= taken);
                assert(contexts@.take(i + 1).last() == context);
            }
            let pool = contexts[i].pool;
            if !pool.start6.is_unspecified() {
                let name: &str = match &contexts[i].interface {
                    Some(s) => s.as_str(),
                    None => "default",
                };
                match find_group(&groups, name) {
                    Some(k) => {
                        groups[k].pools.push(pool);
                        proof {
                            assert forall|n: Seq<char>| (#[trigger] group_pools(groups@, n))
                                == pools_on(contexts@.take(i + 1), n) by {
                                lemma_group_grows(before, groups@, k as int, n);
                                assert(group_pools(before, n) == pools_on(taken, n));
                            }
                        }
                    },
                    None => {
                        let mut pools: Vec<AddressPool> = Vec::new();
                        pools.push(pool);
                        groups.push(PoolGroup { interface: String::from_str(name), pools });
                        proof {
                            assert(groups@ == before.push(groups@.last()));
                            assert forall|n: Seq<char>| (#[trigger] group_pools(groups@, n))
                                == pools_on(contexts@.take(i + 1), n) by {
                                lemma_group_added(before, groups@.last(), n);
                                assert(group_pools(before, n) == pools_on(taken, n));
                                if n == context.name() {
                                    assert(pools_on(taken, n) =~= Seq::<AddressPool>::empty());
                                }
                            }
                        }
                    },
                }
            } else {
                assert forall|n: Seq<char>| (#[trigger] group_pools(groups@, n)) == pools_on(
                    contexts@.take(i + 1),
                    n,
                ) by {
                    assert(group_pools(before, n) == pools_on(taken, n));
                }
            }
            i = i + 1;
        }
        assert(contexts@.take(i as int) =~= contexts@);
        DhcpV6Server { groups }
    }

    /// Whether one of some pools has an address.
    pub fn is_address_in_pools(addr: &Ipv6Addr, pools: &[AddressPool]) -> (r: bool)
        ensures
            r == in_pools(*addr, pools@),
    {
        let mut i: usize = 0;
        while i < pools.len()
            invariant
                i <= pools@.len(),
                forall|j: int| 0 <= j < i ==> !(#[trigger] pools@[j]).covers(*addr),
            decreases pools@.len() - i,
        {
            if pools[i].start6.bits <= addr.bits && addr.bits <= pools[i].end6.bits {
                assert(pools@[i as int].covers(*addr));
                return true;
            }
            i = i + 1;
        }
        false
    }

    /// The next address; the first after the last.
    pub fn increment_ipv6_addr(addr: Ipv6Addr) -> (r: Ipv6Addr)
        ensures
            r.bits == if addr.bits == u128::MAX {
                0
            } else {
                addr.bits + 1
            },
    {
        if addr.bits == u128::MAX {
            Ipv6Addr { bits: 0 }
        } else {
            Ipv6Addr { bits: addr.bits + 1 }
        }
    }

    /// The address for a client: the one that it has; else the one that it asks for, if a pool has
    /// it; else the first free one.
    pub open spec fn allocated(
        self,
        client: Seq<u8>,
        interface: Seq<char>,
        requested: Option<Ipv6Addr>,
        leases: Seq<Lease>,
    ) -> Result<Allocation, PoolFault> {
        let pools = self.pools(interface);
        if pools.len() == 0 {
            Err(PoolFault::NoPool)
        } else {
            match (lease_held(leases, client), requested) {
                (Some(Lease { ip: IpAddr::V6(a), .. }), _) => Ok(Allocation::Existing(a)),
                (_, Some(a)) if in_pools(a, pools) => if lease_of(leases, IpAddr::V6(a)) is None {
                    Ok(Allocation::Free(a))
                } else {
                    Err(PoolFault::InUse(a))
                },
                _ => match first_available(pools, leases) {
                    Some(a) => Ok(Allocation::Free(a)),
                    None => Err(PoolFault::NoAddress),
                },
            }
        }
    }

    /// The pools of an interface, if it has any.
    fn pools_of(&self, interface: &str) -> (r: Result<&Vec<AddressPool>, DhcpError>)
        ensures
            match r {
                Ok(v) => v@ == self.pools(interface@) && v@.len() > 0,
                Err(e) => self.pools(interface@).len() == 0 && pool_error(
                    e,
                    PoolFault::NoPool,
                    interface@,
                ),
            },
    {
        if let Some(i) = find_group(&self.groups, interface) {
            if self.groups[i].pools.len() > 0 {
                return Ok(&self.groups[i].pools);
            }
        }
        Err(DhcpError::NoAddressPool(String::from_str(interface)))
    }

    /// Finds the address for a client among the pools of an interface.
    pub fn allocate_address(
        &self,
        client_id: &[u8],
        _ia_id: u32,
        interface: &str,
        requested_addr: Option<Ipv6Addr>,
        leases: &Vec<Lease>,
    ) -> (r: Result<Allocation, DhcpError>)
        ensures
            match (r, self.allocated(client_id@, interface@, requested_addr, leases@)) {
                (Ok(a), Ok(w)) => a == w,
                (Err(e), Err(f)) => pool_error(e, f, interface@),
                _ => false,
            },
    {
        let pools = match self.pools_of(interface) {
            Ok(v) => v,
            Err(e) => {
                return Err(e);
            },
        };
        if let Some(lease) = find_by_client(leases, client_id) {
            if let IpAddr::V6(a) = lease.ip {
                return Ok(Allocation::Existing(a));
            }
        }
        if let Some(a) = requested_addr {
            if Self::is_address_in_pools(&a, pools.as_slice()) {
                if find_by_ip(leases, &IpAddr::V6(a)).is_none() {
                    return Ok(Allocation::Free(a));
                }
                return Err(DhcpError::AddressInUse(a));
            }
        }
        let mut i: usize = 0;
        assert(pools@.skip(0) =~= pools@);
        while i < pools.len()
            invariant
                i <= pools@.len(),
                first_available(pools@.skip(i as int), leases@) == first_available(pools@, leases@),
                match first_available(pools@, leases@) {
                    Some(a) => self.allocated(client_id@, interface@, requested_addr, leases@)
                        == Ok::<Allocation, PoolFault>(Allocation::Free(a)),
                    None => self.allocated(client_id@, interface@, requested_addr, leases@)
                        == Err::<Allocation, PoolFault>(PoolFault::NoAddress),
                },
            decreases pools@.len() - i,
        {
            proof {
                assert(pools@.skip(i as int)[0] == pools@[i as int]);
                assert(pools@.skip(i as int).skip(1) =~= pools@.skip(i + 1));
            }
            if find_by_ip(leases, &IpAddr::V6(pools[i].start6)).is_none() {
                return Ok(Allocation::Free(pools[i].start6));
            }
            if let Some(a) = find_free(leases, pools[i].start6, pools[i].end6) {
                return Ok(Allocation::Free(a));
            }
            i = i + 1;
        }
        Err(DhcpError::NoAddressesAvailable)
    }

    /// The position of the first pool that is delegated.
    pub open spec fn delegable(pools: Seq<AddressPool>) -> Option<int>
        decreases pools.len(),
    {
        if pools.len() == 0 {
            None
        } else if pools[0].prefix_len > 0 {
            Some(0)
        } else {
            match Self::delegable(pools.skip(1)) {
                Some(i) => Some(i + 1),
                None => None,
            }
        }
    }

    /// The prefix that is delegated on an interface, with its length: the first of its pools that
    /// has one.
    pub fn handle_prefix_delegation(
        &self,
        _client_id: &[u8],
        _ia_pd_id: u32,
        interface: &str,
        _requested_prefix: Option<(Ipv6Addr, u8)>,
    ) -> (r: Result<(Ipv6Addr, u8), DhcpError>)
        ensures
            ({
                let pools = self.pools(interface@);
                match (r, Self::delegable(pools)) {
                    (Ok(p), Some(i)) => p == (pools[i].start6, pools[i].prefix_len),
                    (Err(e), None) => pool_error(
                        e,
                        if pools.len() == 0 {
                            PoolFault::NoPool
                        } else {
                            PoolFault::NoPrefix
                        },
                        interface@,
                    ),
                    _ => false,
                }
            }),
    {
        let pools = match self.pools_of(interface) {
            Ok(v) => v,
            Err(e) => {
                return Err(e);
            },
        };
        let mut i: usize = 0;
        assert(pools@.skip(0) =~= pools@);
        while i < pools.len()
            invariant
                i <= pools@.len(),
                pools@ == self.pools(interface@),
                match Self::delegable(pools@.skip(i as int)) {
                    Some(k) => Self::delegable(pools@) == Some(i + k),
                    None => Self::delegable(pools@) is None,
                },
            decreases pools@.len() - i,
        {
            proof {
                assert(pools@.skip(i as int)[0] == pools@[i as int]);
                assert(pools@.skip(i as int).skip(1) =~= pools@.skip(i + 1));
            }
            if pools[i].prefix_len > 0 {
                return Ok((pools[i].start6, pools[i].prefix_len));
            }
            i = i + 1;
        }
        Err(DhcpError::NoPrefixAvailable)
    }

    /// The identifier of a server.
    pub fn generate_server_duid(mac: &MacAddress, time: u32) -> (r: Vec<u8>)
        ensures
            r@ == server_duid(mac.bytes@, time),
    {
        let mut duid: Vec<u8> = Vec::new();
        put_u16(&mut duid, 1);
        put_u16(&mut duid, 1);
        put_u32(&mut duid, time);
        put_slice(&mut duid, mac.octets());
        assert(duid@ =~= server_duid(mac.bytes@, time));
        duid
    }

    /// What a packet asks for: the message and its handler, or nothing where the message is of
    /// another type. A message must name the client.
    pub open spec fn dispatched(data: Seq<u8>) -> Result<Option<(Handler, DhcpModel)>, PacketFault> {
        match parse_message(data) {
            Err(reason) => Err(PacketFault::Unreadable(reason)),
            Ok(m) => if !m.options.contains_key(OPTION_CLIENT_ID) {
                Err(PacketFault::NoClient)
            } else {
                match Handler::of(m.message_type) {
                    Some(h) => Ok(Some((h, m))),
                    None => Ok(None),
                }
            },
        }
    }

    /// What a packet asks for: the message and its handler, or nothing where the message is of
    /// another type. A message must name the client.
    pub fn dispatch(data: &[u8]) -> (r: Result<Option<(Handler, DhcpV6Message)>, DhcpError>)
        ensures
            match Self::dispatched(data@) {
                Err(PacketFault::Unreadable(t)) => r matches Err(e) && parse_failed(e, t),
                Err(PacketFault::NoClient) => r matches Err(DhcpError::MissingOption(n)) && n@
                    == "CLIENT_ID"@,
                Ok(Some((h, m))) => r matches Ok(Some((handler, msg))) && handler == h && msg@ == m,
                Ok(None) => r matches Ok(None),
            },
    {
        let message = match DhcpV6Message::from_bytes(data) {
            Ok(m) => m,
            Err(e) => {
                return Err(e);
            },
        };
        if message.get_option(OPTION_CLIENT_ID).is_none() {
            return Err(DhcpError::MissingOption(String::from_str("CLIENT_ID")));
        }
        match Handler::from_type(message.message_type()) {
            Some(h) => Ok(Some((h, message))),
            None => Ok(None),
        }
    }

    /// The pool that serves the requests on an interface: the first of the interface.
    pub open spec fn serving(self, interface: Seq<char>, if_index: u32) -> Option<DhcpContext> {
        let pools = self.pools(interface);
        if pools.len() == 0 {
            None
        } else {
            Some(
                DhcpContext {
                    start6: IpAddr::V6(pools[0].start6),
                    end6: Some(IpAddr::V6(pools[0].end6)),
                    flags: 0,
                    if_index,
                    lease_time: DEFAULT_LEASE_TIME,
                },
            )
        }
    }

    /// What is known of a request: its client, transaction and association are those of the
    /// message, its pool that of the interface.
    pub fn request_context(
        &self,
        msg: &DhcpV6Message,
        interface: &str,
        if_index: u32,
        multicast_dest: bool,
    ) -> (r: RequestContext)
        ensures
            r.clid@ == client_of(msg@),
            r.clid_len == r.clid@.len(),
            r.transaction_id@ == msg@.transaction_id,
            r.interface@ == interface@,
            r.client_hostname is None,
            r.context == self.serving(interface@, if_index),
            (r.ia_type, r.iaid) == association_of(msg@),
            r.multicast_dest == multicast_dest,
    {
        let clid: Vec<u8> = match msg.get_option(OPTION_CLIENT_ID) {
            Some(d) => vstd::slice::slice_to_vec(d),
            None => Vec::new(),
        };
        assert(!msg@.options.contains_key(OPTION_CLIENT_ID) ==> clid@ =~= Seq::<u8>::empty());
        let (ia_type, iaid): (u16, u32) = if let Some(n) = read_iaid(msg, OPTION_IA_NA) {
            (OPTION_IA_NA, n)
        } else if let Some(n) = read_iaid(msg, OPTION_IA_TA) {
            (OPTION_IA_TA, n)
        } else if let Some(n) = read_iaid(msg, OPTION_IA_PD) {
            (OPTION_IA_PD, n)
        } else {
            (OPTION_IA_NA, 0)
        };
        let context = match self.pools_of(interface) {
            Ok(v) => Some(
                DhcpContext {
                    start6: IpAddr::V6(v[0].start6),
                    end6: Some(IpAddr::V6(v[0].end6)),
                    flags: 0,
                    if_index,
                    lease_time: DEFAULT_LEASE_TIME,
                },
            ),
            Err(_) => None,
        };
        RequestContext::new(
            clid,
            *msg.transaction_id(),
            interface,
            iaid,
            ia_type,
            multicast_dest,
        ).with_context(context)
    }
}

/// The identifier of the client of a message; empty where it names none.
pub open spec fn client_of(m: DhcpModel) -> Seq<u8> {
    if m.options.contains_key(OPTION_CLIENT_ID) {
        m.options[OPTION_CLIENT_ID]
    } else {
        Seq::empty()
    }
}

/// The identifier of an association of a message.
pub open spec fn iaid_of(m: DhcpModel, code: u16) -> Option<u32> {
    if m.options.contains_key(code) && m.options[code].len() >= 4 {
        Some(u32_at(m.options[code], 0))
    } else {
        None
    }
}

/// The kind and the identifier of the association of a message: one of addresses, else one of
/// temporary addresses, else one of prefixes.
pub open spec fn association_of(m: DhcpModel) -> (u16, u32) {
    match (iaid_of(m, OPTION_IA_NA), iaid_of(m, OPTION_IA_TA), iaid_of(m, OPTION_IA_PD)) {
        (Some(n), _, _) => (OPTION_IA_NA, n),
        (None, Some(n), _) => (OPTION_IA_TA, n),
        (None, None, Some(n)) => (OPTION_IA_PD, n),
        _ => (OPTION_IA_NA, 0),
    }
}

/// The identifier of an association of a message.
fn read_iaid(msg: &DhcpV6Message, code: u16) -> (r: Option<u32>)
    ensures
        r == iaid_of(msg@, code),
{
    match msg.get_option(code) {
        Some(d) if d.len() >= 4 => Some(read_u32(d, 0)),
        _ => None,
    }
}

proof fn lemma_first_available(pools: Seq<AddressPool>, leases: Seq<Lease>)
    ensures
        match first_available(pools, leases) {
            Some(a) => (in_pools(a, pools) || starts_pool(a, pools)) && lease_of(
                leases,
                IpAddr::V6(a),
            ) is None,
            None => forall|a: Ipv6Addr| #[trigger]
                in_pools(a, pools) ==> lease_of(leases, IpAddr::V6(a)) is Some,
        },
    decreases pools.len(),
{
    if pools.len() > 0 {
        let rest = pools.skip(1);
        law_first_free(leases, pools[0].start6, pools[0].end6);
        lemma_first_available(rest, leases);
        assert(starts_pool(pools[0].start6, pools));
        assert forall|a: Ipv6Addr| #[trigger] starts_pool(a, rest) implies starts_pool(a, pools) by {
            let i = choose|i: int| 0 <= i < rest.len() && (#[trigger] rest[i]).start6 == a;
            assert(pools[i + 1].start6 == a);
        }
        assert forall|a: Ipv6Addr| #[trigger] in_pools(a, pools) == (pools[0].covers(a) || in_pools(
            a,
            rest,
        )) by {
            if in_pools(a, rest) {
                let i = choose|i: int| 0 <= i < rest.len() && (#[trigger] rest[i]).covers(a);
                assert(pools[i + 1].covers(a));
            }
            if in_pools(a, pools) {
                let i = choose|i: int| 0 <= i < pools.len() && (#[trigger] pools[i]).covers(a);
                if i > 0 {
                    assert(rest[i - 1].covers(a));
                }
            }
        }
    }
}

/// An address that is to be leased lies in a pool of the interface or is the start of one, and no
/// lease has it. One
/// that is there already is the client's. No address is available only where leases have all of the
/// pools.
pub proof fn law_allocation(
    server: DhcpV6Server,
    client: Seq<u8>,
    interface: Seq<char>,
    requested: Option<Ipv6Addr>,
    leases: Seq<Lease>,
)
    ensures
        match server.allocated(client, interface, requested, leases) {
            Ok(Allocation::Free(a)) => {
                &&& in_pools(a, server.pools(interface)) || starts_pool(a, server.pools(interface))
                &&& forall|i: int| 0 <= i < leases.len() ==> (#[trigger] leases[i]).ip != IpAddr::V6(a)
            },
            Ok(Allocation::Existing(a)) => exists|i: int|
                0 <= i < leases.len() && (#[trigger] leases[i]).ip == IpAddr::V6(a)
                    && leases[i].held_by(client),
            Err(PoolFault::NoAddress) => forall|a: Ipv6Addr|
                #[trigger] in_pools(a, server.pools(interface)) ==> lease_of(leases, IpAddr::V6(a)) is Some,
            Err(PoolFault::InUse(a)) => requested == Some(a) && lease_of(leases, IpAddr::V6(a)) is Some,
            Err(PoolFault::NoPool) => server.pools(interface).len() == 0,
            Err(PoolFault::NoPrefix) => false,
        },
{
    lemma_first_available(server.pools(interface), leases);
    match server.allocated(client, interface, requested, leases) {
        Ok(Allocation::Free(a)) => law_found_leases(leases, IpAddr::V6(a), client),
        Ok(Allocation::Existing(a)) => {
            law_found_leases(leases, IpAddr::V6(a), client);
            let l = lease_held(leases, client)->0;
            let i = choose|i: int| 0 <= i < leases.len() && leases[i] == l;
            assert(leases[i].ip == IpAddr::V6(a));
        },
        _ => {},
    }
}

/// The identifier of a server is a valid one.
pub proof fn law_server_duid_is_valid(mac: MacAddress, time: u32)
    ensures
        duid_fault(server_duid(mac.bytes@, time)) is None,
{
    lemma_be2(1);
    lemma_be4(time);
    assert(server_duid(mac.bytes@, time).len() == 14);
}

/// A client that holds the lease of an address gets that address, whatever it asks for.
pub proof fn law_client_keeps_its_address(
    server: DhcpV6Server,
    client: Seq<u8>,
    interface: Seq<char>,
    requested: Option<Ipv6Addr>,
    leases: Seq<Lease>,
    i: int,
    a: Ipv6Addr,
)
    requires
        server.pools(interface).len() > 0,
        0 <= i < leases.len(),
        leases[i].ip == IpAddr::V6(a),
        leases[i].client_id is Some && leases[i].client_id->0@ == client,
        forall|j: int|
            0 <= j < i ==> (#[trigger] leases[j]).client_id is None || leases[j].client_id->0@
                != client,
    ensures
        server.allocated(client, interface, requested, leases) == Ok::<Allocation, PoolFault>(
            Allocation::Existing(a),
        ),
{
    law_first_leases(leases, i, IpAddr::V6(a), client);
}

/// A new client gets the address that it asks for where a pool of the interface has it and no lease
/// does; where a lease has it, the answer is that it is in use.
pub proof fn law_requested_address(
    server: DhcpV6Server,
    client: Seq<u8>,
    interface: Seq<char>,
    a: Ipv6Addr,
    leases: Seq<Lease>,
    k: int,
)
    requires
        0 <= k < server.pools(interface).len(),
        server.pools(interface)[k].start6.bits <= a.bits <= server.pools(interface)[k].end6.bits,
        forall|i: int|
            0 <= i < leases.len() ==> (#[trigger] leases[i]).client_id is None
                || leases[i].client_id->0@ != client,
    ensures
        (forall|i: int| 0 <= i < leases.len() ==> (#[trigger] leases[i]).ip != IpAddr::V6(a))
            ==> server.allocated(client, interface, Some(a), leases) == Ok::<Allocation, PoolFault>(
            Allocation::Free(a),
        ),
        (exists|i: int| 0 <= i < leases.len() && (#[trigger] leases[i]).ip == IpAddr::V6(a))
            ==> server.allocated(client, interface, Some(a), leases) == Err::<Allocation, PoolFault>(
            PoolFault::InUse(a),
        ),
{
    law_found_leases(leases, IpAddr::V6(a), client);
    if let Some(l) = lease_held(leases, client) {
        let i = choose|i: int| 0 <= i < leases.len() && leases[i] == l;
        assert(leases[i].held_by(client));
    }
    assert(server.pools(interface)[k].covers(a));
    assert(in_pools(a, server.pools(interface)));
    if let Some(l) = lease_of(leases, IpAddr::V6(a)) {
        let i = choose|i: int| 0 <= i < leases.len() && leases[i] == l;
        assert(leases[i].ip == IpAddr::V6(a));
    }
}

proof fn lemma_lowest(pools: Seq<AddressPool>, leases: Seq<Lease>, k: int, a: Ipv6Addr)
    requires
        0 <= k < pools.len(),
        pools[k].start6.bits <= a.bits <= pools[k].end6.bits,
        lease_of(leases, IpAddr::V6(a)) is None,
        forall|b: Ipv6Addr|
            pools[k].start6.bits <= b.bits < a.bits ==> (#[trigger] lease_of(
                leases,
                IpAddr::V6(b),
            )) is Some,
        forall|j: int, b: Ipv6Addr|
            #![trigger pools[j], lease_of(leases, IpAddr::V6(b))]
            0 <= j < k && (pools[j].start6.bits <= b.bits <= pools[j].end6.bits || b
                == pools[j].start6) ==> lease_of(leases, IpAddr::V6(b)) is Some,
    ensures
        first_available(pools, leases) == Some(a),
    decreases k,
{
    law_first_free(leases, pools[0].start6, pools[0].end6);
    if k == 0 {
        let got = pool_free(pools[0], leases);
        if pools[0].start6.bits < a.bits {
            assert(lease_of(leases, IpAddr::V6(pools[0].start6)) is Some);
        }
        assert(got is Some);
        let g = got->0;
        assert(lease_of(leases, IpAddr::V6(g)) is None);
        assert(g.bits >= a.bits);
        assert(g.bits <= a.bits);
        assert(g == a);
    } else {
        let rest = pools.skip(1);
        assert(rest[k - 1] == pools[k]);
        assert(pools[0].start6 == pools[0].start6);
        assert(lease_of(leases, IpAddr::V6(pools[0].start6)) is Some);
        if let Some(g) = first_free(leases, pools[0].start6.bits as int, pools[0].end6.bits as int) {
            assert(lease_of(leases, IpAddr::V6(g)) is Some);
        }
        assert forall|j: int, b: Ipv6Addr|
            #![trigger rest[j], lease_of(leases, IpAddr::V6(b))]
            0 <= j < k - 1 && (rest[j].start6.bits <= b.bits <= rest[j].end6.bits || b
                == rest[j].start6) implies lease_of(leases, IpAddr::V6(b)) is Some by {
            assert(rest[j] == pools[j + 1]);
        }
        lemma_lowest(rest, leases, k - 1, a);
    }
}

/// A new client that asks for no address, or for one that no pool has, gets the lowest address of
/// the first pool with a free one.
pub proof fn law_lowest_address(
    server: DhcpV6Server,
    client: Seq<u8>,
    interface: Seq<char>,
    requested: Option<Ipv6Addr>,
    leases: Seq<Lease>,
    k: int,
    a: Ipv6Addr,
)
    requires
        ({
            let pools = server.pools(interface);
            &&& 0 <= k < pools.len()
            &&& pools[k].start6.bits <= a.bits <= pools[k].end6.bits
            &&& requested is None || forall|j: int|
                0 <= j < pools.len() ==> !((#[trigger] pools[j]).start6.bits <= requested->0.bits
                    <= pools[j].end6.bits)
            &&& lease_of(leases, IpAddr::V6(a)) is None
            &&& forall|b: Ipv6Addr|
                pools[k].start6.bits <= b.bits < a.bits ==> (#[trigger] lease_of(
                    leases,
                    IpAddr::V6(b),
                )) is Some
            &&& forall|j: int, b: Ipv6Addr|
                #![trigger pools[j], lease_of(leases, IpAddr::V6(b))]
                0 <= j < k && (pools[j].start6.bits <= b.bits <= pools[j].end6.bits || b
                    == pools[j].start6) ==> lease_of(leases, IpAddr::V6(b)) is Some
        }),
        forall|i: int|
            0 <= i < leases.len() ==> (#[trigger] leases[i]).client_id is None
                || leases[i].client_id->0@ != client,
    ensures
        server.allocated(client, interface, requested, leases) == Ok::<Allocation, PoolFault>(
            Allocation::Free(a),
        ),
{
    let pools = server.pools(interface);
    law_found_leases(leases, IpAddr::V6(a), client);
    if let Some(l) = lease_held(leases, client) {
        let i = choose|i: int| 0 <= i < leases.len() && leases[i] == l;
        assert(leases[i].held_by(client));
    }
    if let Some(w) = requested {
        if in_pools(w, pools) {
            let j = choose|j: int| 0 <= j < pools.len() && (#[trigger] pools[j]).covers(w);
            assert(pools[j].start6.bits <= w.bits);
        }
    }
    lemma_lowest(pools, leases, k, a);
}

/// A configured pool serves the interface that it names, or the one called `default` where it names
/// none, unless it starts at the unspecified address; the pools of an interface come in the order
/// in which they are configured.
pub proof fn law_pools_of_interfaces(
    contexts: Seq<PoolConfig>,
    config: PoolConfig,
    interface: Seq<char>,
)
    ensures
        pools_on(Seq::empty(), interface).len() == 0,
        pools_on(contexts.push(config), interface) == if config.pool.start6.bits != 0 && (
        match config.interface {
            Some(name) => name@ == interface,
            None => interface == "default"@,
        }) {
            pools_on(contexts, interface).push(config.pool)
        } else {
            pools_on(contexts, interface)
        },
{
    assert(contexts.push(config).drop_last() =~= contexts);
}

/// The prefix that is delegated is that of the first pool with a prefix length.
pub proof fn law_delegated_prefix(pools: Seq<AddressPool>, i: int)
    ensures
        0 <= i < pools.len() && pools[i].prefix_len > 0 && (forall|j: int|
            0 <= j < i ==> (#[trigger] pools[j]).prefix_len == 0) ==> DhcpV6Server::delegable(pools)
            == Some(i),
        (forall|j: int| 0 <= j < pools.len() ==> (#[trigger] pools[j]).prefix_len == 0)
            ==> DhcpV6Server::delegable(pools) is None,
    decreases pools.len(),
{
    if pools.len() > 0 {
        let rest = pools.skip(1);
        law_delegated_prefix(rest, i - 1);
        assert forall|j: int| 0 <= j < rest.len() implies (#[trigger] rest[j]) == pools[j + 1] by {}
        assert(pools[0] == pools[0]);
        if 0 < i < pools.len() {
            assert(rest[i - 1] == pools[i]);
        }
    }
}

/// The identifier of a server holds two for its kind and two for the kind of hardware, both one,
/// then four bytes of time, then the six bytes of the hardware address.
pub proof fn law_server_duid_bytes(mac: MacAddress, time: u32)
    ensures
        ({
            let duid = server_duid(mac.bytes@, time);
            &&& duid.len() == 14
            &&& duid[0] == 0 && duid[1] == 1
            &&& duid[2] == 0 && duid[3] == 1
            &&& u32_at(duid, 4) == time
            &&& duid.skip(8) == mac.bytes@
        }),
{
    let duid = server_duid(mac.bytes@, time);
    lemma_be2(1);
    lemma_be4(time);
    assert(duid.subrange(4, 8) =~= be_bytes(time as nat, 4));
    lemma_u32_field(duid, 4, time);
    assert(duid.skip(8) =~= mac.bytes@);
}

/// Requests on an interface are served from its first pool, with leases of a day; on an interface
/// without a pool they are not served.
pub proof fn law_serving_pool(server: DhcpV6Server, interface: Seq<char>, if_index: u32)
    ensures
        server.pools(interface).len() == 0 ==> server.serving(interface, if_index) is None,
        server.pools(interface).len() > 0 ==> (server.serving(interface, if_index) matches Some(c)
            && c.start6 == IpAddr::V6(server.pools(interface)[0].start6) && c.end6 == Some(
            IpAddr::V6(server.pools(interface)[0].end6),
        ) && c.flags == 0 && c.if_index == if_index && c.lease_time == 86400),
{
}

/// A request is about its association of addresses, whose option is 3; without one about that of
/// temporary addresses, 4; without that about that of prefixes, 25. The identifier is in the first
/// four bytes of the option. A request with none of them is about the association 0 of addresses.
pub proof fn law_association_of_request(m: DhcpModel)
    ensures
        ({
            let names = |code: u16| m.options.contains_key(code) && m.options[code].len() >= 4;
            &&& names(3u16) ==> association_of(m) == (3u16, u32_at(m.options[3], 0))
            &&& !names(3u16) && names(4u16) ==> association_of(m) == (4u16, u32_at(m.options[4], 0))
            &&& !names(3u16) && !names(4u16) && names(25u16) ==> association_of(m) == (
                25u16,
                u32_at(m.options[25], 0),
            )
            &&& !names(3u16) && !names(4u16) && !names(25u16) ==> association_of(m) == (3u16, 0u32)
        }),
{
}

/// A packet of a client, which is named in option 1, is handled by its type: 1 for Solicit, 3 for
/// Request, 5 for Renew, 6 for Rebind, 8 for Release, 9 for Decline and 11 for Information-request.
/// Others are passed over, and a packet without the option is refused.
pub proof fn law_dispatch(data: Seq<u8>, m: DhcpModel)
    requires
        parse_message(data) == Ok::<DhcpModel, Seq<char>>(m),
    ensures
        !m.options.contains_key(1) ==> DhcpV6Server::dispatched(data) == Err::<
            Option<(Handler, DhcpModel)>,
            PacketFault,
        >(PacketFault::NoClient),
        m.options.contains_key(1) ==> DhcpV6Server::dispatched(data) == Ok::<
            Option<(Handler, DhcpModel)>,
            PacketFault,
        >(
            if m.message_type == 1 {
                Some((Handler::Solicit, m))
            } else if m.message_type == 3 {
                Some((Handler::Request, m))
            } else if m.message_type == 5 {
                Some((Handler::Renew, m))
            } else if m.message_type == 6 {
                Some((Handler::Rebind, m))
            } else if m.message_type == 8 {
                Some((Handler::Release, m))
            } else if m.message_type == 9 {
                Some((Handler::Decline, m))
            } else if m.message_type == 11 {
                Some((Handler::InformationRequest, m))
            } else {
                None
            },
        ),
        m.options.contains_key(1) ==> client_of(m) == m.options[1],
        !m.options.contains_key(1) ==> client_of(m).len() == 0,
{
}

/// Each fault of the pools has its error: the first names the interface, the second the address.
pub proof fn law_pool_errors(e: DhcpError, interface: Seq<char>, a: Ipv6Addr)
    ensures
        pool_error(e, PoolFault::NoPool, interface) <==> (e matches DhcpError::NoAddressPool(i) && i@
            == interface),
        pool_error(e, PoolFault::InUse(a), interface) <==> (e matches DhcpError::AddressInUse(b) && a
            == b),
        pool_error(e, PoolFault::NoAddress, interface) <==> e is NoAddressesAvailable,
        pool_error(e, PoolFault::NoPrefix, interface) <==> e is NoPrefixAvailable,
{
}

} // verus!
