//! Authoritative answers for configured zones.
use std::sync::Arc;
use vstd::prelude::*;
use crate::clock::{latest_reading, Timestamp};
use crate::dns::cache::{
    find, law_lookup_by_name, law_marks, law_use_counts, lemma_first, CacheEntry, CacheModel, DnsCache, EntryModel,
    KeyModel,
};
use crate::dns::message::{empty_message, DnsMessage, HeaderFlags, MessageModel};
use crate::dns::name::{
    ascii_chars, canon, is_suffix, law_text_labels, name_text, parse_name, valid_label, valid_name, wire_len, DomainName,
};
use crate::dns::record::{record_models, RData, RDataModel, RecordModel, ResourceRecord, CLASS_IN};
use crate::dns::reverse::{reverse_address, reverse_of};
use crate::error::{DnsError, DnsmasqError, Failure};
use crate::text::message_text;
use crate::types::{CacheFlags, IpAddr, IpNetwork, RecordType};

verus! {

/// The response code for a name that does not exist.
pub const RCODE_NXDOMAIN: u8 = 3;

/// The parameters of a start of authority record.
#[derive(Debug, Clone, Copy, PartialEq, Eq, Structural)]
pub struct SoaParams {
    /// The version of the zone.
    pub serial: u32,
    /// Seconds between checks by secondaries.
    pub refresh: u32,
    /// Seconds between retries of a failed check.
    pub retry: u32,
    /// Seconds after which secondaries stop answering.
    pub expire: u32,
    /// Seconds for which a negative answer is kept.
    pub minimum: u32,
}

impl SoaParams {
    /// The usual parameters, with a serial number.
    pub open spec fn usual(serial: u32) -> SoaParams {
        SoaParams { serial, refresh: 1200, retry: 180, expire: 1_209_600, minimum: 600 }
    }

    /// The serial number for a time in seconds: the time, as far as 32 bits hold it.
    pub open spec fn serial_at(secs: u64) -> u32 {
        if secs > 0xffff_ffff {
            0xffff_ffff
        } else {
            secs as u32
        }
    }

    /// The usual parameters at a time in seconds.
    pub fn at(secs: u64) -> (r: Self)
        ensures
            r == Self::usual(Self::serial_at(secs)),
    {
        let serial: u32 = if secs > 0xffff_ffff {
            0xffff_ffff
        } else {
            secs as u32
        };
        SoaParams { serial, refresh: 1200, retry: 180, expire: 1_209_600, minimum: 600 }
    }
}

impl Default for SoaParams {
    fn default() -> (r: Self)
        ensures
            r == Self::usual(r.serial),
    {
        Self::at(Timestamp::now().secs())
    }
}

/// A zone for which the server is authoritative.
#[derive(Debug, Clone)]
pub struct AuthoritativeZone {
    /// The apex.
    pub domain: DomainName,
    pub soa_params: SoaParams,
    /// The name servers.
    pub ns_records: Vec<DomainName>,
    /// The networks whose clients may ask; where there are none, all may.
    pub subnet_filters: Vec<IpNetwork>,
    /// The networks whose clients may not ask.
    pub exclude_filters: Vec<IpNetwork>,
}

impl AuthoritativeZone {
    /// True of the names in the zone.
    pub open spec fn covers(self, name: Seq<Seq<u8>>) -> bool {
        is_suffix(canon(self.domain@), canon(name))
    }

    /// True for the apex of the zone and the names below it.
    pub fn is_match(&self, name: &DomainName) -> (r: bool)
        ensures
            r == self.covers(name@),
    {
        if name.same_name(&self.domain) {
            assert(canon(name@).skip(0) =~= canon(name@));
            return true;
        }
        name.is_subdomain_of(&self.domain)
    }

    /// True for the names in the zone.
    pub fn contains_name(&self, name: &DomainName) -> (r: bool)
        ensures
            r == self.covers(name@),
    {
        self.is_match(name)
    }

    /// True of the clients that may ask: none of the excluded networks has them, and one of the
    /// allowed networks has, where there are any.
    pub open spec fn admits(self, client: IpAddr) -> bool {
        !in_some(self.exclude_filters@, client) && (self.subnet_filters@.len() == 0 || in_some(
            self.subnet_filters@,
            client,
        ))
    }
}

/// True when one of the networks has the address.
pub open spec fn in_some(networks: Seq<IpNetwork>, addr: IpAddr) -> bool {
    exists|i: int| 0 <= i < networks.len() && (#[trigger] networks[i]).spec_contains(addr)
}

fn any_contains(networks: &Vec<IpNetwork>, addr: &IpAddr) -> (r: bool)
    ensures
        r == in_some(networks@, *addr),
{
    let mut i: usize = 0;
    while i < networks.len()
        invariant
            i <= networks@.len(),
            forall|j: int| 0 <= j < i ==> !(#[trigger] networks@[j]).spec_contains(*addr),
        decreases networks@.len() - i,
    {
        if networks[i].contains(addr) {
            assert(networks@[i as int].spec_contains(*addr));
            return true;
        }
        i = i + 1;
    }
    false
}

/// The zone that a name belongs to: of the zones that cover it, one with the longest name, and of
/// several such the last.
pub open spec fn best_zone(zones: Seq<AuthoritativeZone>, name: Seq<Seq<u8>>) -> Option<int>
    decreases zones.len(),
{
    if zones.len() == 0 {
        None
    } else {
        let before = best_zone(zones.drop_last(), name);
        if zones.last().covers(name) && (before matches Some(i) ==> name_text(
            zones[i].domain@,
        ).len() <= name_text(zones.last().domain@).len()) {
            Some(zones.len() - 1)
        } else {
            before
        }
    }
}

/// A name is answered for by a zone that covers it whenever there is one, and no zone that covers
/// it has a longer name.
pub proof fn law_longest_match(zones: Seq<AuthoritativeZone>, name: Seq<Seq<u8>>)
    ensures
        match best_zone(zones, name) {
            Some(i) => 0 <= i < zones.len() && zones[i].covers(name) && forall|j: int|
                0 <= j < zones.len() && (#[trigger] zones[j]).covers(name) ==> name_text(
                    zones[j].domain@,
                ).len() <= name_text(zones[i].domain@).len(),
            None => forall|j: int| 0 <= j < zones.len() ==> !(#[trigger] zones[j]).covers(name),
        },
    decreases zones.len(),
{
    if zones.len() > 0 {
        let head = zones.drop_last();
        law_longest_match(head, name);
        assert forall|j: int| 0 <= j < zones.len() - 1 implies #[trigger] zones[j] == head[j] by {}
    }
}

/// The start of authority record of a zone; none where the mailbox name does not fit.
pub open spec fn soa_model(zone: AuthoritativeZone, ttl: u32) -> Option<RecordModel> {
    match parse_name("hostmaster."@ + name_text(zone.domain@) + ""@) {
        None => None,
        Some(rname) => Some(
            RecordModel {
                name: zone.domain@,
                rtype: RecordType::SOA,
                class: CLASS_IN,
                ttl,
                rdata: RDataModel::Soa {
                    mname: if zone.ns_records@.len() > 0 {
                        zone.ns_records@[0]@
                    } else {
                        zone.domain@
                    },
                    rname,
                    serial: zone.soa_params.serial,
                    refresh: zone.soa_params.refresh,
                    retry: zone.soa_params.retry,
                    expire: zone.soa_params.expire,
                    minimum: zone.soa_params.minimum,
                },
            },
        ),
    }
}

/// The failure where the mailbox name does not fit.
pub open spec fn soa_failure(zone: AuthoritativeZone) -> Failure {
    Failure::InvalidName {
        name: "hostmaster."@ + name_text(zone.domain@) + ""@,
        reason: "not a domain name"@,
    }
}

/// The name server records of a zone, in order.
pub open spec fn ns_models(zone: AuthoritativeZone, ttl: u32) -> Seq<RecordModel> {
    zone.ns_records@.map_values(
        |n: DomainName|
            RecordModel {
                name: zone.domain@,
                rtype: RecordType::NS,
                class: CLASS_IN,
                ttl,
                rdata: RDataModel::Ns { nsdname: n@ },
            },
    )
}

/// True of the entries that a zone serves: they stem from a lease or from the hosts file.
pub open spec fn local_entry(e: EntryModel) -> bool {
    CacheFlags::has(e.flags, CacheFlags::HOSTS) || CacheFlags::has(e.flags, CacheFlags::DHCP)
}

/// The records of the cache that belong to a zone, the most recently used first.
pub open spec fn zone_cache_records(cache: CacheModel, zone: AuthoritativeZone) -> Seq<RecordModel> {
    cache.entries.filter(|e: EntryModel| local_entry(e) && zone.covers(e.domain_name)).map_values(
        |e: EntryModel| e.record,
    )
}

/// An authoritative response to a query, without records.
pub open spec fn response_base(query: MessageModel, rd: bool, rcode: u8) -> MessageModel {
    MessageModel {
        id: query.id,
        flags: HeaderFlags {
            response: true,
            opcode: query.flags.opcode,
            authoritative: true,
            rd,
            rcode,
        },
        questions: if query.questions.len() > 0 {
            seq![query.questions[0]]
        } else {
            Seq::empty()
        },
        answers: Seq::empty(),
        authority: Seq::empty(),
    }
}

/// The record that points from the name of an address to a host.
pub open spec fn pointer_model(name: Seq<Seq<u8>>, host: Seq<Seq<u8>>, ttl: u32) -> RecordModel {
    RecordModel {
        name,
        rtype: RecordType::PTR,
        class: CLASS_IN,
        ttl,
        rdata: RDataModel::Ptr { ptrdname: host },
    }
}

/// The answer for a name and type in a zone, given what the cache has for them: for an address the
/// record of the entry, and for the name of an address a pointer to the name of the entry; none where
/// the start of authority record does not fit.
pub open spec fn auth_response(
    query: MessageModel,
    zone: AuthoritativeZone,
    ttl: u32,
    qname: Seq<Seq<u8>>,
    qtype: RecordType,
    cached: Option<EntryModel>,
) -> Option<MessageModel> {
    let base = response_base(query, query.flags.rd, 0);
    if qtype is SOA {
        match soa_model(zone, ttl) {
            Some(soa) => Some(MessageModel { answers: seq![soa], ..base }),
            None => None,
        }
    } else if qtype is NS {
        Some(MessageModel { answers: ns_models(zone, ttl), ..base })
    } else if (qtype is A || qtype is AAAA) && cached is Some && local_entry(cached->0) {
        Some(MessageModel { answers: seq![cached->0.record], ..base })
    } else if qtype is PTR && cached is Some && local_entry(cached->0) {
        Some(
            MessageModel {
                answers: seq![pointer_model(qname, cached->0.domain_name, ttl)],
                ..base
            },
        )
    } else {
        match soa_model(zone, ttl) {
            Some(soa) => Some(
                MessageModel {
                    authority: seq![soa],
                    ..response_base(query, query.flags.rd, RCODE_NXDOMAIN)
                },
            ),
            None => None,
        }
    }
}

/// The records of a full zone transfer: the start of authority, the name servers, the local
/// records of the cache, and the start of authority again.
pub open spec fn transfer_records(
    zone: AuthoritativeZone,
    ttl: u32,
    cache: CacheModel,
) -> Option<Seq<RecordModel>> {
    match soa_model(zone, ttl) {
        Some(soa) => Some(
            seq![soa] + ns_models(zone, ttl) + zone_cache_records(cache, zone) + seq![soa],
        ),
        None => None,
    }
}

/// The answer to a zone transfer query: the records of the transfer in one message; none where the
/// start of authority record does not fit.
pub open spec fn axfr_response(
    query: MessageModel,
    zone: AuthoritativeZone,
    ttl: u32,
    cache: CacheModel,
) -> Option<MessageModel> {
    match transfer_records(zone, ttl, cache) {
        Some(records) => Some(
            MessageModel { answers: records, ..response_base(query, false, 0) },
        ),
        None => None,
    }
}

/// The messages of a full zone transfer: the start of authority, then the name servers and the local
/// records of the cache, then the start of authority again.
pub open spec fn transfer_messages(
    id: u16,
    zone: AuthoritativeZone,
    ttl: u32,
    cache: CacheModel,
) -> Option<Seq<MessageModel>> {
    match soa_model(zone, ttl) {
        Some(soa) => Some(
            seq![
                axfr_message(id, seq![soa]),
                axfr_message(id, ns_models(zone, ttl) + zone_cache_records(cache, zone)),
                axfr_message(id, seq![soa]),
            ],
        ),
        None => None,
    }
}

/// The answers of messages, one after the other.
pub open spec fn all_answers(messages: Seq<MessageModel>) -> Seq<RecordModel>
    decreases messages.len(),
{
    if messages.len() == 0 {
        Seq::empty()
    } else {
        messages[0].answers + all_answers(messages.skip(1))
    }
}

/// A message with the given records as answers.
pub open spec fn axfr_message(id: u16, records: Seq<RecordModel>) -> MessageModel {
    MessageModel {
        flags: HeaderFlags {
            response: true,
            opcode: 0,
            authoritative: true,
            rd: false,
            rcode: 0,
        },
        answers: records,
        ..empty_message(id)
    }
}

/// True when a result is the wanted message or, where there is none, the failure of the start of
/// authority record.
pub open spec fn message_or_failure(
    r: Result<DnsMessage, DnsmasqError>,
    want: Option<MessageModel>,
    zone: AuthoritativeZone,
) -> bool {
    match (r, want) {
        (Ok(m), Some(w)) => m@ == w,
        (Err(e), None) => e@ == soa_failure(zone),
        _ => false,
    }
}

/// What a query is answered.
pub open spec fn query_outcome(
    service: AuthService,
    query: MessageModel,
    client: IpAddr,
    cached: Option<EntryModel>,
    cache: CacheModel,
    r: Result<Option<DnsMessage>, DnsmasqError>,
) -> bool {
    if query.questions.len() == 0 || best_zone(
        service.zones@,
        query.questions[0].qname,
    ) is None {
        r matches Ok(None)
    } else {
        let zone = service.zones@[best_zone(service.zones@, query.questions[0].qname)->0];
        let qtype = query.questions[0].qtype;
        if !zone.admits(client) {
            r matches Err(e) && e@ == (Failure::Auth {
                zone: name_text(zone.domain@),
                reason: "Client IP not allowed by zone subnet filters"@,
            })
        } else {
            let want = if qtype is AXFR {
                axfr_response(query, zone, service.auth_ttl, cache)
            } else {
                auth_response(
                    query,
                    zone,
                    service.auth_ttl,
                    query.questions[0].qname,
                    qtype,
                    cached,
                )
            };
            match (r, want) {
                (Ok(Some(m)), Some(w)) => m@ == w,
                (Err(e), None) => e@ == soa_failure(zone),
                _ => false,
            }
        }
    }
}

/// True of the queries for which the cache is asked: for the address of a name, or for the name of an
/// address, in a zone that admits the client.
pub open spec fn asks_cache(service: AuthService, query: MessageModel, client: IpAddr) -> bool {
    query.questions.len() > 0 && (query.questions[0].qtype is A || query.questions[0].qtype is AAAA
        || (query.questions[0].qtype is PTR && reverse_of(query.questions[0].qname) is Some))
        && best_zone(service.zones@, query.questions[0].qname) is Some
        && service.zones@[best_zone(service.zones@, query.questions[0].qname)->0].admits(client)
}

/// The position in the cache of what a query asks for at a time.
pub open spec fn asked_position(cache: CacheModel, query: MessageModel, now: Timestamp) -> Option<int> {
    if query.questions[0].qtype is PTR {
        cache.address_position(reverse_of(query.questions[0].qname)->0, now)
    } else {
        find(
            cache.entries,
            KeyModel {
                domain: canon(query.questions[0].qname),
                record_type: query.questions[0].qtype,
            },
        )
    }
}

/// Answers queries for the configured zones.
#[derive(Debug)]
pub struct AuthService {
    pub zones: Vec<AuthoritativeZone>,
    pub auth_ttl: u32,
}

impl AuthService {
    /// A service for some zones.
    pub fn new(zones: Vec<AuthoritativeZone>, auth_ttl: u32) -> (r: Self)
        ensures
            r.zones == zones,
            r.auth_ttl == auth_ttl,
    {
        AuthService { zones, auth_ttl }
    }

    /// The zones.
    pub fn get_zones(&self) -> (r: &[AuthoritativeZone])
        ensures
            r@ == self.zones@,
    {
        self.zones.as_slice()
    }

    /// The position of the zone that a name belongs to.
    fn zone_position(&self, query_name: &DomainName) -> (r: Option<usize>)
        ensures
            match (r, best_zone(self.zones@, query_name@)) {
                (Some(i), Some(k)) => i == k && i < self.zones@.len(),
                (None, None) => true,
                _ => false,
            },
    {
        let mut best: Option<usize> = None;
        let mut i: usize = 0;
        assert(self.zones@.take(0) =~= Seq::<AuthoritativeZone>::empty());
        while i < self.zones.len()
            invariant
                i <= self.zones@.len(),
                match (best, best_zone(self.zones@.take(i as int), query_name@)) {
                    (Some(b), Some(k)) => b == k && b < i,
                    (None, None) => true,
                    _ => false,
                },
            decreases self.zones@.len() - i,
        {
            proof {
                assert(self.zones@.take(i + 1).drop_last() =~= self.zones@.take(i as int));
            }
            if self.zones[i].is_match(query_name) {
                let longer = match best {
                    Some(b) => self.zones[b].domain.len() <= self.zones[i].domain.len(),
                    None => true,
                };
                if longer {
                    best = Some(i);
                }
            }
            i = i + 1;
        }
        assert(self.zones@.take(i as int) =~= self.zones@);
        best
    }

    /// The zone that a name belongs to.
    pub fn find_zone(&self, query_name: &DomainName) -> (r: Option<&AuthoritativeZone>)
        ensures
            match (r, best_zone(self.zones@, query_name@)) {
                (Some(z), Some(k)) => 0 <= k < self.zones@.len() && *z == self.zones@[k],
                (None, None) => true,
                _ => false,
            },
    {
        match self.zone_position(query_name) {
            Some(i) => Some(&self.zones[i]),
            None => None,
        }
    }

    /// Tells whether a client may ask about a zone.
    pub fn filter_by_subnet(&self, client_addr: IpAddr, zone: &AuthoritativeZone) -> (r: bool)
        ensures
            r == zone.admits(client_addr),
    {
        if any_contains(&zone.exclude_filters, &client_addr) {
            return false;
        }
        if zone.subnet_filters.len() == 0 {
            return true;
        }
        any_contains(&zone.subnet_filters, &client_addr)
    }

    /// The start of authority record of a zone.
    pub fn generate_soa_record(&self, zone: &AuthoritativeZone) -> (r: Result<
        ResourceRecord,
        DnsmasqError,
    >)
        ensures
            match (r, soa_model(*zone, self.auth_ttl)) {
                (Ok(rr), Some(m)) => rr@ == m,
                (Err(e), None) => e@ == soa_failure(*zone),
                _ => false,
            },
    {
        let mname = if zone.ns_records.len() > 0 {
            zone.ns_records[0].clone()
        } else {
            zone.domain.clone()
        };
        let text = zone.domain.as_str();
        let mailbox = message_text("hostmaster.", text.as_str(), "");
        let rname = match DomainName::new(mailbox.as_str()) {
            Ok(n) => n,
            Err(e) => {
                return Err(DnsmasqError::Dns(e));
            },
        };
        let rdata = RData::Soa {
            mname,
            rname,
            serial: zone.soa_params.serial,
            refresh: zone.soa_params.refresh,
            retry: zone.soa_params.retry,
            expire: zone.soa_params.expire,
            minimum: zone.soa_params.minimum,
        };
        Ok(
            ResourceRecord::new(
                zone.domain.clone(),
                RecordType::SOA,
                CLASS_IN,
                self.auth_ttl,
                rdata,
            ),
        )
    }

    /// The name server record of a zone at a position.
    fn ns_record(&self, zone: &AuthoritativeZone, i: usize) -> (r: ResourceRecord)
        requires
            i < zone.ns_records@.len(),
        ensures
            r@ == ns_models(*zone, self.auth_ttl)[i as int],
    {
        ResourceRecord::new(
            zone.domain.clone(),
            RecordType::NS,
            CLASS_IN,
            self.auth_ttl,
            RData::Ns { nsdname: zone.ns_records[i].clone() },
        )
    }

    /// Appends the name server records of a zone to the answers.
    fn add_ns_answers(&self, response: &mut DnsMessage, zone: &AuthoritativeZone)
        ensures
            final(response)@ == (MessageModel {
                answers: old(response)@.answers + ns_models(*zone, self.auth_ttl),
                ..old(response)@
            }),
    {
        let ghost start = response@;
        let ghost want = ns_models(*zone, self.auth_ttl);
        let mut i: usize = 0;
        assert(start.answers + want.take(0) =~= start.answers);
        while i < zone.ns_records.len()
            invariant
                want == ns_models(*zone, self.auth_ttl),
                i <= zone.ns_records@.len(),
                response@ == (MessageModel { answers: start.answers + want.take(i as int), ..start }),
            decreases zone.ns_records@.len() - i,
        {
            response.add_answer(self.ns_record(zone, i));
            i = i + 1;
            assert(response@.answers =~= start.answers + want.take(i as int));
        }
        assert(want.take(i as int) =~= want);
    }

    /// An authoritative response to a query, without records.
    fn base_response(query: &DnsMessage, rd: bool, rcode: u8) -> (r: DnsMessage)
        ensures
            r@ == response_base(query@, rd, rcode),
    {
        let mut response = DnsMessage::new(query.id);
        response.flags = HeaderFlags {
            response: true,
            opcode: query.flags.opcode,
            authoritative: true,
            rd,
            rcode,
        };
        if query.questions.len() > 0 {
            response.add_question(query.questions[0].clone());
            assert(response@.questions =~= seq![query@.questions[0]]);
        }
        assert(response@ =~= response_base(query@, rd, rcode));
        response
    }

    /// The answer for a name and type in a zone, given what the cache has for them.
    pub fn generate_auth_response(
        &self,
        query: &DnsMessage,
        zone: &AuthoritativeZone,
        query_name: &DomainName,
        query_type: RecordType,
        cached: Option<Arc<CacheEntry>>,
    ) -> (r: Result<DnsMessage, DnsmasqError>)
        ensures
            message_or_failure(
                r,
                auth_response(
                    query@,
                    *zone,
                    self.auth_ttl,
                    query_name@,
                    query_type,
                    match cached {
                        Some(e) => Some(e@),
                        None => None,
                    },
                ),
                *zone,
            ),
    {
        let mut response = Self::base_response(query, query.flags.rd, 0);
        if query_type == RecordType::SOA {
            match self.generate_soa_record(zone) {
                Ok(soa) => {
                    response.add_answer(soa);
                    assert(response@.answers =~= seq![soa@]);
                    return Ok(response);
                },
                Err(e) => {
                    return Err(e);
                },
            }
        }
        if query_type == RecordType::NS {
            self.add_ns_answers(&mut response, zone);
            assert(response@.answers =~= ns_models(*zone, self.auth_ttl));
            return Ok(response);
        }
        if query_type == RecordType::A || query_type == RecordType::AAAA || query_type
            == RecordType::PTR {
            if let Some(entry) = cached {
                if entry.is_hosts() || entry.is_dhcp() {
                    let answer = if query_type == RecordType::PTR {
                        ResourceRecord::new(
                            query_name.clone(),
                            RecordType::PTR,
                            CLASS_IN,
                            self.auth_ttl,
                            RData::Ptr { ptrdname: entry.domain_name.clone() },
                        )
                    } else {
                        entry.record.clone()
                    };
                    response.add_answer(answer);
                    assert(response@.answers =~= seq![answer@]);
                    return Ok(response);
                }
            }
        }
        match self.generate_soa_record(zone) {
            Ok(soa) => {
                let mut negative = Self::base_response(query, query.flags.rd, RCODE_NXDOMAIN);
                negative.add_authority(soa);
                assert(negative@.authority =~= seq![soa@]);
                Ok(negative)
            },
            Err(e) => Err(e),
        }
    }

    /// The answer to a zone transfer query.
    pub fn generate_axfr_response(
        &self,
        query: &DnsMessage,
        zone: &AuthoritativeZone,
        cache: &DnsCache,
    ) -> (r: Result<DnsMessage, DnsmasqError>)
        ensures
            message_or_failure(r, axfr_response(query@, *zone, self.auth_ttl, cache@), *zone),
    {
        let mut response = Self::base_response(query, false, 0);
        let first = match self.generate_soa_record(zone) {
            Ok(soa) => soa,
            Err(e) => {
                return Err(e);
            },
        };
        let last = first.clone();
        response.add_answer(first);
        self.add_ns_answers(&mut response, zone);
        let mut cached = self.get_zone_records_from_cache(cache, zone);
        let ghost local = record_models(cached@);
        let ghost start = response@;
        response.answers.append(&mut cached);
        assert(response@.answers =~= start.answers + local);
        response.add_answer(last);
        assert(response@.answers =~= seq![first@] + ns_models(*zone, self.auth_ttl) + local + seq![
            first@,
        ]);
        Ok(response)
    }

    /// Answers a query, now.
    pub fn answer_auth_query(&self, query: &DnsMessage, client_addr: IpAddr, cache: &mut DnsCache) -> (r:
        Result<Option<DnsMessage>, DnsmasqError>)
        requires
            old(cache).wf(),
        ensures
            final(cache).wf(),
            exists|now: Timestamp|
                now.nanos <= latest_reading() && #[trigger] answered(*self, query@, client_addr, old(cache)@, final(cache)@, now, r),
    {
        let now = Timestamp::now();
        let ghost before = cache@;
        let r = self.answer_auth_query_at(query, client_addr, cache, now);
        assert(answered(*self, query@, client_addr, before, cache@, now, r));
        r
    }

    /// Answers a query at a given time.
    pub fn answer_auth_query_at(
        &self,
        query: &DnsMessage,
        client_addr: IpAddr,
        cache: &mut DnsCache,
        now: Timestamp,
    ) -> (r: Result<Option<DnsMessage>, DnsmasqError>)
        requires
            old(cache).wf(),
        ensures
            final(cache).wf(),
            answered(*self, query@, client_addr, old(cache)@, final(cache)@, now, r),
    {
        if query.questions.len() == 0 {
            return Ok(None);
        }
        let question = &query.questions[0];
        assert(query@.questions[0] == question@);
        let zone = match self.zone_position(&question.qname) {
            Some(i) => &self.zones[i],
            None => {
                return Ok(None);
            },
        };
        if !self.filter_by_subnet(client_addr, zone) {
            return Err(
                DnsmasqError::Dns(
                    DnsError::AuthFailed {
                        zone: zone.domain.as_str(),
                        reason: String::from_str("Client IP not allowed by zone subnet filters"),
                    },
                ),
            );
        }
        let qtype = question.qtype;
        if qtype == RecordType::AXFR {
            return match self.generate_axfr_response(query, zone, cache) {
                Ok(m) => Ok(Some(m)),
                Err(e) => Err(e),
            };
        }
        let cached = if qtype == RecordType::A || qtype == RecordType::AAAA {
            cache.find_by_name_at(&question.qname, qtype, now)
        } else if qtype == RecordType::PTR {
            match reverse_address(&question.qname) {
                Some(addr) => cache.find_by_addr_at(&addr, now),
                None => None,
            }
        } else {
            None
        };
        let result = self.generate_auth_response(query, zone, &question.qname, qtype, cached);
        match result {
            Ok(m) => Ok(Some(m)),
            Err(e) => Err(e),
        }
    }

    /// The local records of the cache that belong to a zone.
    pub fn get_zone_records_from_cache(&self, cache: &DnsCache, zone: &AuthoritativeZone) -> (r: Vec<
        ResourceRecord,
    >)
        ensures
            record_models(r@) == zone_cache_records(cache@, *zone),
    {
        let ghost entries = cache@.entries;
        let ghost p = |e: EntryModel| local_entry(e) && zone.covers(e.domain_name);
        let ghost f = |e: EntryModel| e.record;
        let values = cache.entries();
        let mut r: Vec<ResourceRecord> = Vec::new();
        let mut i: usize = 0;
        proof {
            entries.take(0).lemma_filter_len(p);
            assert(record_models(r@) =~= entries.take(0).filter(p).map_values(f));
        }
        while i < values.len()
            invariant
                entries == cache@.entries,
                p == (|e: EntryModel| local_entry(e) && zone.covers(e.domain_name)),
                f == (|e: EntryModel| e.record),
                i <= values@.len() == entries.len(),
                forall|j: int| 0 <= j < values@.len() ==> (#[trigger] values@[j])@ == entries[j],
                record_models(r@) == entries.take(i as int).filter(p).map_values(f),
            decreases values@.len() - i,
        {
            let entry = &values[i];
            let ghost head = entries.take(i as int);
            let ghost before = record_models(r@);
            proof {
                assert(entry@ == entries[i as int]);
                assert(entries.take(i + 1) =~= head.push(entries[i as int]));
                head.lemma_filter_push(entries[i as int], p);
            }
            if (entry.is_hosts() || entry.is_dhcp()) && zone.contains_name(&entry.domain_name) {
                let copy = entry.record.clone();
                r.push(copy);
                proof {
                    assert(record_models(r@) =~= before.push(copy@));
                    assert(head.filter(p).push(entries[i as int]).map_values(f) =~= head.filter(
                        p,
                    ).map_values(f).push(entries[i as int].record));
                }
            }
            i = i + 1;
        }
        assert(entries.take(i as int) =~= entries);
        r
    }

    /// A message of a zone transfer, with the given records.
    fn create_axfr_message(id: u16, records: Vec<ResourceRecord>) -> (r: DnsMessage)
        ensures
            r@ == axfr_message(id, record_models(records@)),
    {
        let mut response = DnsMessage::new(id);
        response.flags = HeaderFlags {
            response: true,
            opcode: 0,
            authoritative: true,
            rd: false,
            rcode: 0,
        };
        response.answers = records;
        assert(response@ =~= axfr_message(id, record_models(records@)));
        response
    }

    /// The messages of a full zone transfer.
    pub fn handle_axfr_request(&self, query: &DnsMessage, zone: &AuthoritativeZone, cache: &DnsCache) -> (r:
        Result<Vec<DnsMessage>, DnsmasqError>)
        ensures
            match (r, transfer_messages(query@.id, *zone, self.auth_ttl, cache@)) {
                (Ok(v), Some(w)) => v@.map_values(|m: DnsMessage| m@) == w,
                (Err(e), None) => e@ == soa_failure(*zone),
                _ => false,
            },
    {
        let soa = match self.generate_soa_record(zone) {
            Ok(soa) => soa,
            Err(e) => {
                return Err(e);
            },
        };
        let mut first: Vec<ResourceRecord> = Vec::new();
        first.push(soa.clone());
        assert(record_models(first@) =~= seq![soa@]);
        let mut last: Vec<ResourceRecord> = Vec::new();
        last.push(soa);
        assert(record_models(last@) =~= seq![soa@]);
        let mut middle = DnsMessage::new(query.id);
        self.add_ns_answers(&mut middle, zone);
        let mut records = middle.answers;
        let ghost servers = record_models(records@);
        assert(servers =~= ns_models(*zone, self.auth_ttl));
        let mut cached = self.get_zone_records_from_cache(cache, zone);
        let ghost local = record_models(cached@);
        records.append(&mut cached);
        assert(record_models(records@) =~= servers + local);
        let mut messages: Vec<DnsMessage> = Vec::new();
        messages.push(Self::create_axfr_message(query.id, first));
        messages.push(Self::create_axfr_message(query.id, records));
        messages.push(Self::create_axfr_message(query.id, last));
        assert(messages@.map_values(|m: DnsMessage| m@) =~= transfer_messages(
            query@.id,
            *zone,
            self.auth_ttl,
            cache@,
        )->0);
        Ok(messages)
    }

    /// All records of the zone with a given apex: the start of authority where it fits, the name
    /// servers, and the local records of the cache; nothing where there is no such zone.
    pub fn get_zone_records(&self, zone_domain: &DomainName, cache: &DnsCache) -> (r: Vec<
        ResourceRecord,
    >)
        ensures
            record_models(r@) == match zone_with_apex(self.zones@, zone_domain@) {
                None => Seq::empty(),
                Some(i) => {
                    let zone = self.zones@[i];
                    (match soa_model(zone, self.auth_ttl) {
                        Some(soa) => seq![soa],
                        None => Seq::empty(),
                    }) + ns_models(zone, self.auth_ttl) + zone_cache_records(cache@, zone)
                },
            },
    {
        let mut records: Vec<ResourceRecord> = Vec::new();
        let mut i: usize = 0;
        proof {
            assert(self.zones@.skip(0) =~= self.zones@);
            lemma_apex_range(self.zones@, zone_domain@);
        }
        while i < self.zones.len() && !self.zones[i].domain.same_name(zone_domain)
            invariant
                i <= self.zones@.len(),
                match zone_with_apex(self.zones@.skip(i as int), zone_domain@) {
                    Some(k) => zone_with_apex(self.zones@, zone_domain@) == Some(i + k),
                    None => zone_with_apex(self.zones@, zone_domain@) is None,
                },
            decreases self.zones@.len() - i,
        {
            assert(self.zones@.skip(i as int)[0] == self.zones@[i as int]);
            assert(self.zones@.skip(i as int).skip(1) =~= self.zones@.skip(i + 1));
            i = i + 1;
        }
        if i == self.zones.len() {
            assert(record_models(records@) =~= Seq::<RecordModel>::empty());
            return records;
        }
        assert(self.zones@.skip(i as int)[0] == self.zones@[i as int]);
        let zone = &self.zones[i];
        if let Ok(soa) = self.generate_soa_record(zone) {
            records.push(soa);
        }
        let ghost start = record_models(records@);
        let ghost want = ns_models(*zone, self.auth_ttl);
        assert(start =~= match soa_model(*zone, self.auth_ttl) {
            Some(soa) => seq![soa],
            None => Seq::empty(),
        });
        let mut k: usize = 0;
        assert(start + want.take(0) =~= start);
        while k < zone.ns_records.len()
            invariant
                want == ns_models(*zone, self.auth_ttl),
                k <= zone.ns_records@.len(),
                record_models(records@) == start + want.take(k as int),
            decreases zone.ns_records@.len() - k,
        {
            let ghost before = record_models(records@);
            let record = self.ns_record(zone, k);
            records.push(record);
            k = k + 1;
            assert(record_models(records@) =~= before.push(record@));
            assert(record_models(records@) =~= start + want.take(k as int));
        }
        assert(want.take(k as int) =~= want);
        let mut cached = self.get_zone_records_from_cache(cache, zone);
        let ghost before = record_models(records@);
        let ghost local = record_models(cached@);
        records.append(&mut cached);
        assert(record_models(records@) =~= before + local);
        records
    }
}

/// The first zone with a given apex.
pub open spec fn zone_with_apex(zones: Seq<AuthoritativeZone>, apex: Seq<Seq<u8>>) -> Option<int>
    decreases zones.len(),
{
    if zones.len() == 0 {
        None
    } else if canon(zones[0].domain@) == canon(apex) {
        Some(0)
    } else {
        match zone_with_apex(zones.skip(1), apex) {
            Some(i) => Some(i + 1),
            None => None,
        }
    }
}

proof fn lemma_apex_range(zones: Seq<AuthoritativeZone>, apex: Seq<Seq<u8>>)
    ensures
        zone_with_apex(zones, apex) matches Some(i) ==> 0 <= i < zones.len(),
    decreases zones.len(),
{
    if zones.len() > 0 {
        lemma_apex_range(zones.skip(1), apex);
    }
}

/// What a query is answered at a time, and what the question leaves in the cache.
pub open spec fn answered(
    service: AuthService,
    query: MessageModel,
    client: IpAddr,
    before: CacheModel,
    after: CacheModel,
    now: Timestamp,
    r: Result<Option<DnsMessage>, DnsmasqError>,
) -> bool {
    let at = asked_position(before, query, now);
    let cached = if asks_cache(service, query, client) {
        before.answer(at, now)
    } else {
        None
    };
    &&& query_outcome(service, query, client, cached, before, r)
    &&& after == if asks_cache(service, query, client) {
        before.looked_up(at, now)
    } else {
        before
    }
}

/// Every answer is marked as a response and as authoritative, and bears the identifier of the
/// query; a name that does not exist is told so with the start of authority of the zone.
pub proof fn law_answers_are_authoritative(
    service: AuthService,
    query: MessageModel,
    client: IpAddr,
    cached: Option<EntryModel>,
    cache: CacheModel,
    r: Result<Option<DnsMessage>, DnsmasqError>,
)
    requires
        query_outcome(service, query, client, cached, cache, r),
    ensures
        r matches Ok(Some(m)) ==> {
            &&& m@.flags.response
            &&& m@.flags.authoritative
            &&& m@.id == query.id
            &&& m@.flags.rcode == 0 || m@.flags.rcode == RCODE_NXDOMAIN
            &&& m@.flags.rcode == RCODE_NXDOMAIN ==> m@.answers.len() == 0 && m@.authority.len()
                == 1 && m@.authority[0].rtype is SOA
        },
{
}

/// A client in an excluded network is refused whatever the allowed networks are, and where no
/// network is allowed explicitly every other client is admitted.
pub proof fn law_exclusion_wins(zone: AuthoritativeZone, client: IpAddr)
    ensures
        in_some(zone.exclude_filters@, client) ==> !zone.admits(client),
        !in_some(zone.exclude_filters@, client) && zone.subnet_filters@.len() == 0 ==> zone.admits(
            client,
        ),
{
}

/// The answers of the messages of a full zone transfer start and end with the same start of
/// authority record, and between them stand all records of the zone.
pub proof fn law_transfer_is_framed(id: u16, zone: AuthoritativeZone, ttl: u32, cache: CacheModel)
    ensures
        transfer_messages(id, zone, ttl, cache) matches Some(messages) ==> {
            let records = all_answers(messages);
            &&& Some(records) == transfer_records(zone, ttl, cache)
            &&& records.len() >= 2
            &&& Some(records[0]) == soa_model(zone, ttl)
            &&& records.last() == records[0]
            &&& forall|i: int| 0 <= i < messages.len() ==> (#[trigger] messages[i]).id == id
        },
{
    if let Some(messages) = transfer_messages(id, zone, ttl, cache) {
        reveal_with_fuel(all_answers, 4);
        assert(Some(all_answers(messages)) =~= transfer_records(zone, ttl, cache));
    }
}

/// True of a query with a question for a name and type, in a zone that answers for the name and admits the
/// client.
pub open spec fn served(
    service: AuthService,
    query: MessageModel,
    client: IpAddr,
    name: Seq<Seq<u8>>,
    qtype: RecordType,
    zone: AuthoritativeZone,
) -> bool {
    &&& query.questions.len() > 0
    &&& query.questions[0].qname == name
    &&& query.questions[0].qtype == qtype
    &&& best_zone(service.zones@, name) matches Some(i) && service.zones@[i] == zone
    &&& zone.admits(client)
}

/// True of the answer that a name or type does not exist in a zone: response code 3, no answers, and the start
/// of authority of the zone; or of the failure to make that record.
pub open spec fn denied(
    r: Result<Option<DnsMessage>, DnsmasqError>,
    zone: AuthoritativeZone,
    ttl: u32,
) -> bool {
    match soa_model(zone, ttl) {
        Some(soa) => r matches Ok(Some(m)) && m@.flags.rcode == 3 && m@.answers.len() == 0 && m@.authority
            == seq![soa],
        None => r is Err,
    }
}

/// A query for an address of a name is answered from the cache: where there is a live entry for the name and
/// the type that stems from a lease or from the hosts file, with its record alone and response code 0; in no
/// other case, which is answered with response code 3. A live entry that was found is then the most recently
/// used.
pub proof fn law_address_queries(
    service: AuthService,
    query: MessageModel,
    client: IpAddr,
    name: Seq<Seq<u8>>,
    qtype: RecordType,
    zone: AuthoritativeZone,
    before: CacheModel,
    after: CacheModel,
    now: Timestamp,
    r: Result<Option<DnsMessage>, DnsmasqError>,
)
    requires
        served(service, query, client, name, qtype, zone),
        qtype is A || qtype is AAAA,
        answered(service, query, client, before, after, now, r),
    ensures
        forall|i: int|
            0 <= i < before.entries.len() && canon((#[trigger] before.entries[i]).domain_name) == canon(name)
                && before.entries[i].record_type == qtype && now.nanos < before.entries[i].expiry.nanos && (
            before.entries[i].flags & 64 != 0 || before.entries[i].flags & 16 != 0) && before.well_kept()
                ==> (r matches Ok(Some(m)) && m@.flags.rcode == 0 && m@.answers == seq![
                before.entries[i].record,
            ] && m@.authority.len() == 0 && after.entries[0] == before.entries[i]),
        (forall|i: int|
            0 <= i < before.entries.len() ==> !(canon((#[trigger] before.entries[i]).domain_name) == canon(
                name,
            ) && before.entries[i].record_type == qtype && now.nanos < before.entries[i].expiry.nanos && (
            before.entries[i].flags & 64 != 0 || before.entries[i].flags & 16 != 0))) ==> denied(
            r,
            zone,
            service.auth_ttl,
        ),
{
    let key = KeyModel { domain: canon(name), record_type: qtype };
    let at = find(before.entries, key);
    let p = |e: EntryModel| e.key() == key;
    lemma_first(before.entries, p);
    assert forall|i: int|
        0 <= i < before.entries.len() && canon((#[trigger] before.entries[i]).domain_name) == canon(name)
            && before.entries[i].record_type == qtype && now.nanos < before.entries[i].expiry.nanos && (
        before.entries[i].flags & 64 != 0 || before.entries[i].flags & 16 != 0) && before.well_kept() implies (r
        matches Ok(Some(m)) && m@.flags.rcode == 0 && m@.answers == seq![before.entries[i].record]
        && m@.authority.len() == 0 && after.entries[0] == before.entries[i]) by {
        law_lookup_by_name(before, name, qtype, i, now);
        law_marks(before.entries[i].flags);
        law_use_counts(before, at, now);
    }
    if let Some(i) = at {
        law_marks(before.entries[i].flags);
        assert(p(before.entries[i]));
    }
}

/// A query for the name of an address is answered with a pointer to the name that a lease or the hosts file
/// gives the address, and the time to live of the service; where the cache finds none, or the asked name is
/// not that of an address, with response code 3.
pub proof fn law_pointer_queries(
    service: AuthService,
    query: MessageModel,
    client: IpAddr,
    name: Seq<Seq<u8>>,
    zone: AuthoritativeZone,
    before: CacheModel,
    after: CacheModel,
    now: Timestamp,
    r: Result<Option<DnsMessage>, DnsmasqError>,
)
    requires
        served(service, query, client, name, RecordType::PTR, zone),
        answered(service, query, client, before, after, now, r),
    ensures
        match reverse_of(name) {
            Some(addr) => match before.answer(before.address_position(addr, now), now) {
                Some(e) if e.flags & 64 != 0 || e.flags & 16 != 0 => r matches Ok(Some(m)) && m@.flags.rcode
                    == 0 && m@.answers.len() == 1 && m@.answers[0].name == name && m@.answers[0].rtype is PTR
                    && m@.answers[0].class == 1 && m@.answers[0].ttl == service.auth_ttl && m@.answers[0].rdata
                    == (RDataModel::Ptr { ptrdname: e.domain_name }),
                _ => denied(r, zone, service.auth_ttl),
            },
            None => denied(r, zone, service.auth_ttl),
        },
{
    if let Some(addr) = reverse_of(name) {
        if let Some(e) = before.answer(before.address_position(addr, now), now) {
            law_marks(e.flags);
        }
    }
}

/// A query for the start of authority is answered with it, one for name servers with one record for each of
/// them in order, and one for any other type but addresses, pointers and transfers with response code 3. None
/// of these changes the cache.
pub proof fn law_zone_queries(
    service: AuthService,
    query: MessageModel,
    client: IpAddr,
    name: Seq<Seq<u8>>,
    qtype: RecordType,
    zone: AuthoritativeZone,
    before: CacheModel,
    after: CacheModel,
    now: Timestamp,
    r: Result<Option<DnsMessage>, DnsmasqError>,
)
    requires
        served(service, query, client, name, qtype, zone),
        !(qtype is A || qtype is AAAA || qtype is PTR),
        answered(service, query, client, before, after, now, r),
    ensures
        after == before,
        qtype is SOA ==> match soa_model(zone, service.auth_ttl) {
            Some(soa) => r matches Ok(Some(m)) && m@.flags.rcode == 0 && m@.answers == seq![soa],
            None => r is Err,
        },
        qtype is NS ==> (r matches Ok(Some(m)) && m@.flags.rcode == 0 && m@.answers.len()
            == zone.ns_records@.len() && forall|i: int|
            0 <= i < zone.ns_records@.len() ==> (#[trigger] m@.answers[i]).name == zone.domain@
                && m@.answers[i].rtype is NS && m@.answers[i].ttl == service.auth_ttl && m@.answers[i].rdata
                == (RDataModel::Ns { nsdname: zone.ns_records@[i]@ })),
        qtype is AXFR ==> match soa_model(zone, service.auth_ttl) {
            Some(soa) => r matches Ok(Some(m)) && m@.flags.rcode == 0 && m@.answers == seq![soa] + ns_models(
                zone,
                service.auth_ttl,
            ) + zone_cache_records(before, zone) + seq![soa],
            None => r is Err,
        },
        !(qtype is SOA || qtype is NS || qtype is AXFR) ==> denied(r, zone, service.auth_ttl),
{
}

/// A query without a question, or for a name in none of the zones, is not answered; a client that the zone does
/// not admit is refused. In both cases the cache stays as it is.
pub proof fn law_unserved_queries(
    service: AuthService,
    query: MessageModel,
    client: IpAddr,
    before: CacheModel,
    after: CacheModel,
    now: Timestamp,
    r: Result<Option<DnsMessage>, DnsmasqError>,
)
    requires
        answered(service, query, client, before, after, now, r),
    ensures
        query.questions.len() == 0 ==> (r matches Ok(None)) && after == before,
        query.questions.len() > 0 && (forall|i: int|
            0 <= i < service.zones@.len() ==> !is_suffix(
                canon((#[trigger] service.zones@[i]).domain@),
                canon(query.questions[0].qname),
            )) ==> (r matches Ok(None)) && after == before,
        query.questions.len() > 0 && (best_zone(service.zones@, query.questions[0].qname) matches Some(i)
            && !service.zones@[i].admits(client)) ==> r is Err && after == before,
        r matches Ok(None) ==> query.questions.len() == 0 || best_zone(
            service.zones@,
            query.questions[0].qname,
        ) is None,
{
    if query.questions.len() > 0 {
        law_longest_match(service.zones@, query.questions[0].qname);
        if let Some(i) = best_zone(service.zones@, query.questions[0].qname) {
            assert(service.zones@[i].covers(query.questions[0].qname));
        }
    }
}

/// Every answer repeats the identifier, the kind of query and the question; whether recursion is desired is
/// repeated too, but for a transfer.
pub proof fn law_answers_repeat_the_question(
    service: AuthService,
    query: MessageModel,
    client: IpAddr,
    cached: Option<EntryModel>,
    cache: CacheModel,
    r: Result<Option<DnsMessage>, DnsmasqError>,
)
    requires
        query_outcome(service, query, client, cached, cache, r),
    ensures
        r matches Ok(Some(m)) ==> {
            &&& m@.id == query.id
            &&& m@.flags.response && m@.flags.authoritative
            &&& m@.flags.opcode == query.flags.opcode
            &&& m@.questions == seq![query.questions[0]]
            &&& query.questions[0].qtype is AXFR ==> !m@.flags.rd
            &&& !(query.questions[0].qtype is AXFR) ==> m@.flags.rd == query.flags.rd
        },
{
}

/// The start of authority record of a zone stands at its apex with the parameters of the zone; its primary
/// server is the first name server, or the zone itself where there is none, and its mailbox is `hostmaster` in
/// the zone.
pub proof fn law_start_of_authority(zone: AuthoritativeZone, ttl: u32)
    requires
        zone.domain@.len() > 0,
        valid_name(zone.domain@),
    ensures
        soa_model(zone, ttl) is Some <==> wire_len(zone.domain@) + 11 <= 255,
        soa_model(zone, ttl) matches Some(soa) ==> {
            &&& soa.name == zone.domain@ && soa.rtype is SOA && soa.class == 1 && soa.ttl == ttl
            &&& soa.rdata matches RDataModel::Soa {
                mname,
                rname,
                serial,
                refresh,
                retry,
                expire,
                minimum,
            } && {
                &&& mname == (if zone.ns_records@.len() > 0 {
                    zone.ns_records@[0]@
                } else {
                    zone.domain@
                })
                &&& rname == seq![hostmaster_label()] + zone.domain@
                &&& serial == zone.soa_params.serial && refresh == zone.soa_params.refresh && retry
                    == zone.soa_params.retry && expire == zone.soa_params.expire && minimum
                    == zone.soa_params.minimum
            }
        },
{
    let labels = seq![hostmaster_label()] + zone.domain@;
    let text = "hostmaster."@ + name_text(zone.domain@) + ""@;
    reveal_strlit("hostmaster.");
    reveal_strlit("");
    assert(labels.skip(1) =~= zone.domain@);
    assert(labels[0] == hostmaster_label());
    assert(wire_len(labels) == 11 + wire_len(zone.domain@));
    assert(ascii_chars(hostmaster_label()) + seq!['.'] =~= "hostmaster."@);
    assert(text =~= name_text(labels));
    assert forall|i: int| 0 <= i < labels.len() implies valid_label(#[trigger] labels[i]) by {
        if i > 0 {
            assert(labels[i] == zone.domain@[i - 1]);
            assert(valid_label(zone.domain@[i - 1]));
        }
    }
    law_text_labels(labels);
}

/// The label `hostmaster`.
pub open spec fn hostmaster_label() -> Seq<u8> {
    seq![104u8, 111, 115, 116, 109, 97, 115, 116, 101, 114]
}

/// The usual parameters of a zone: refreshed after 20 minutes, retried after 3, expired after 14 days, and
/// denials kept for 10 minutes; the serial number is the time in seconds, as far as it fits.
pub proof fn law_usual_parameters(serial: u32, secs: u64)
    ensures
        SoaParams::usual(serial).serial == serial,
        SoaParams::usual(serial).refresh == 20 * 60,
        SoaParams::usual(serial).retry == 3 * 60,
        SoaParams::usual(serial).expire == 14 * 24 * 60 * 60,
        SoaParams::usual(serial).minimum == 10 * 60,
        secs <= 0xffff_ffff ==> SoaParams::serial_at(secs) == secs,
        secs > 0xffff_ffff ==> SoaParams::serial_at(secs) == 0xffff_ffff,
{
}

/// A zone has the records of exactly those entries of the cache that stem from a lease or from the hosts file
/// and whose name is the apex or lies below it.
pub proof fn law_zone_records(cache: CacheModel, zone: AuthoritativeZone, i: int)
    requires
        0 <= i < cache.entries.len(),
    ensures
        ({
            let e = cache.entries[i];
            (e.flags & 64 != 0 || e.flags & 16 != 0) && is_suffix(canon(zone.domain@), canon(e.domain_name))
                ==> zone_cache_records(cache, zone).contains(e.record)
        }),
        forall|r: RecordModel| #[trigger]
            zone_cache_records(cache, zone).contains(r) ==> exists|j: int|
                0 <= j < cache.entries.len() && (#[trigger] cache.entries[j]).record == r && is_suffix(
                    canon(zone.domain@),
                    canon(cache.entries[j].domain_name),
                ) && (cache.entries[j].flags & 64 != 0 || cache.entries[j].flags & 16 != 0),
{
    let p = |e: EntryModel| local_entry(e) && zone.covers(e.domain_name);
    let f = |e: EntryModel| e.record;
    let kept = cache.entries.filter(p);
    let e = cache.entries[i];
    law_marks(e.flags);
    if local_entry(e) && zone.covers(e.domain_name) {
        cache.entries.lemma_filter_contains(p, i);
        let k = choose|k: int| 0 <= k < kept.len() && kept[k] == e;
        assert(zone_cache_records(cache, zone)[k] == e.record);
    }
    assert forall|r: RecordModel| #[trigger] zone_cache_records(cache, zone).contains(r) implies exists|j: int|
        0 <= j < cache.entries.len() && (#[trigger] cache.entries[j]).record == r && is_suffix(
            canon(zone.domain@),
            canon(cache.entries[j].domain_name),
        ) && (cache.entries[j].flags & 64 != 0 || cache.entries[j].flags & 16 != 0) by {
        let k = choose|k: int| 0 <= k < kept.len() && zone_cache_records(cache, zone)[k] == r;
        cache.entries.lemma_filter_pred(p, k);
        cache.entries.lemma_filter_contains_rev(p, kept[k]);
        let j = choose|j: int| 0 <= j < cache.entries.len() && cache.entries[j] == kept[k];
        law_marks(cache.entries[j].flags);
        assert(cache.entries[j].record == r);
    }
}

/// A client is admitted exactly where no excluded network has it and, if there are allowed networks, one of
/// them has it.
pub proof fn law_admission(zone: AuthoritativeZone, client: IpAddr)
    ensures
        zone.admits(client) <==> {
            &&& forall|i: int|
                0 <= i < zone.exclude_filters@.len() ==> !(#[trigger] zone.exclude_filters@[i]).spec_contains(
                    client,
                )
            &&& zone.subnet_filters@.len() > 0 ==> exists|i: int|
                0 <= i < zone.subnet_filters@.len() && (#[trigger] zone.subnet_filters@[i]).spec_contains(client)
        },
{
}

/// The zone with an apex is the first that has it, whatever the case of its letters.
pub proof fn law_zone_with_apex(zones: Seq<AuthoritativeZone>, apex: Seq<Seq<u8>>)
    ensures
        match zone_with_apex(zones, apex) {
            Some(i) => 0 <= i < zones.len() && canon(zones[i].domain@) == canon(apex) && forall|j: int|
                0 <= j < i ==> canon((#[trigger] zones[j]).domain@) != canon(apex),
            None => forall|j: int| 0 <= j < zones.len() ==> canon((#[trigger] zones[j]).domain@) != canon(apex),
        },
    decreases zones.len(),
{
    if zones.len() > 0 && canon(zones[0].domain@) != canon(apex) {
        let tail = zones.skip(1);
        law_zone_with_apex(tail, apex);
        assert forall|j: int| 0 < j < zones.len() implies #[trigger] zones[j] == tail[j - 1] by {}
        if let Some(k) = zone_with_apex(tail, apex) {
            assert(zones[k + 1] == tail[k]);
            assert forall|j: int| 0 <= j < k + 1 implies canon((#[trigger] zones[j]).domain@) != canon(apex) by {
                if j > 0 {
                    assert(zones[j] == tail[j - 1]);
                }
            }
        } else {
            assert forall|j: int| 0 <= j < zones.len() implies canon((#[trigger] zones[j]).domain@) != canon(
                apex,
            ) by {
                if j > 0 {
                    assert(zones[j] == tail[j - 1]);
                }
            }
        }
    }
}

/// The messages of a full transfer: the start of authority alone, then the name servers and the local records,
/// then the start of authority alone; each is an authoritative response without an error.
pub proof fn law_transfer_messages(id: u16, zone: AuthoritativeZone, ttl: u32, cache: CacheModel)
    ensures
        transfer_messages(id, zone, ttl, cache) is Some <==> soa_model(zone, ttl) is Some,
        transfer_messages(id, zone, ttl, cache) matches Some(m) ==> {
            &&& m.len() == 3
            &&& Some(m[0].answers[0]) == soa_model(zone, ttl) && m[0].answers.len() == 1
            &&& m[1].answers == ns_models(zone, ttl) + zone_cache_records(cache, zone)
            &&& m[2].answers == m[0].answers
            &&& forall|i: int|
                0 <= i < 3 ==> (#[trigger] m[i]).id == id && m[i].flags.response && m[i].flags.authoritative
                    && m[i].flags.rcode == 0 && m[i].flags.opcode == 0 && m[i].questions.len() == 0
                    && m[i].authority.len() == 0
        },
{
}

} // verus!
