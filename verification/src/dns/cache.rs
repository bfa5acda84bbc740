//! The DNS cache: records by name and type, the least recently used leaving first.
use std::sync::Arc;
use ahash::AHashMap;
use lru::LruCache;
use vstd::prelude::*;
use crate::clock::{latest_reading, Timestamp};
use crate::dns::name::{
    canon, lemma_name_wire_injective, lower_label, name_wire, parse_name, valid_label, valid_name, DomainName,
};
use crate::dns::record::{RData, RDataModel, RecordModel, ResourceRecord, CLASS_IN};
use crate::error::DnsmasqError;
use crate::text::{
    all_white, chars_of, deep, is_white, law_one_word, law_trimmed, law_trimmed_start,
    law_words_joined, string_of, trim_chars, trimmed, words, words_of,
};
use crate::types::{CacheFlags, IpAddr, Ipv4Addr, Ipv6Addr, RecordType};
use crate::wire::{be_bytes, put_u16};

verus! {

/// The number of entries of a cache for which none is configured.
pub const CACHESIZ: usize = 150;

/// The part of the configuration that concerns the cache.
#[derive(Debug, Clone, Copy)]
pub struct DnsConfig {
    /// The number of entries; zero stands for the default.
    pub cache_size: usize,
}

impl DnsConfig {
    /// The size of a cache; the usual one where none is configured.
    pub open spec fn size(self) -> usize {
        if self.cache_size == 0 {
            CACHESIZ
        } else {
            self.cache_size
        }
    }
}

/// A cache holds as many entries as are configured; where that is zero, a hundred and fifty.
pub proof fn law_configured_size(config: DnsConfig)
    ensures
        config.cache_size == 0 ==> CacheModel::empty(config.size()).capacity == 150,
        config.cache_size != 0 ==> CacheModel::empty(config.size()).capacity == config.cache_size,
        CacheModel::empty(config.size()).entries.len() == 0,
{
}

impl Default for DnsConfig {
    fn default() -> (r: Self)
        ensures
            r.cache_size == CACHESIZ,
    {
        DnsConfig { cache_size: CACHESIZ }
    }
}

/// What an entry is found by.
#[derive(Debug, Clone)]
pub struct CacheKey {
    pub domain: DomainName,
    pub record_type: RecordType,
}

/// What an entry is found by: the lower-case labels of its name, and its type.
#[verifier::ext_equal]
pub ghost struct KeyModel {
    pub domain: Seq<Seq<u8>>,
    pub record_type: RecordType,
}

impl View for CacheKey {
    type V = KeyModel;

    open spec fn view(&self) -> KeyModel {
        KeyModel { domain: canon(self.domain@), record_type: self.record_type }
    }
}

/// The bytes that stand for a key in the tables: the name on the wire and the type, with a mark
/// for the types that have no name here.
pub open spec fn key_bytes(k: KeyModel) -> Seq<u8> {
    name_wire(k.domain) + be_bytes(k.record_type.spec_code() as nat, 2) + seq![
        if k.record_type is Unknown {
            1u8
        } else {
            0u8
        },
    ]
}

/// True of a key whose labels are those of a name.
spec fn proper(k: KeyModel) -> bool {
    forall|i: int| 0 <= i < k.domain.len() ==> 1 <= (#[trigger] k.domain[i]).len() <= 63
}

proof fn lemma_canon_proper(labels: Seq<Seq<u8>>)
    requires
        valid_name(labels),
    ensures
        forall|i: int| 0 <= i < canon(labels).len() ==> 1 <= (#[trigger] canon(labels)[i]).len() <= 63,
{
    assert forall|i: int| 0 <= i < canon(labels).len() implies 1 <= (#[trigger] canon(
        labels,
    )[i]).len() <= 63 by {
        assert(valid_label(labels[i]));
        assert(canon(labels)[i] == lower_label(labels[i]));
    }
}

/// Different keys have different bytes.
proof fn lemma_key_bytes_injective(a: KeyModel, b: KeyModel)
    requires
        proper(a),
        proper(b),
        key_bytes(a) == key_bytes(b),
    ensures
        a == b,
{
    let x = be_bytes(a.record_type.spec_code() as nat, 2) + seq![
        if a.record_type is Unknown {
            1u8
        } else {
            0u8
        },
    ];
    let y = be_bytes(b.record_type.spec_code() as nat, 2) + seq![
        if b.record_type is Unknown {
            1u8
        } else {
            0u8
        },
    ];
    assert(key_bytes(a) =~= name_wire(a.domain) + x);
    assert(key_bytes(b) =~= name_wire(b.domain) + y);
    lemma_name_wire_injective(a.domain, x, b.domain, y);
    crate::wire::lemma_be2(a.record_type.spec_code());
    crate::wire::lemma_be2(b.record_type.spec_code());
    assert(x[0] == y[0] && x[1] == y[1] && x[2] == y[2]);
    let c = a.record_type.spec_code();
    let d = b.record_type.spec_code();
    assert(c == (c / 256) * 256 + c % 256);
    assert(d == (d / 256) * 256 + d % 256);
}

impl CacheKey {
    /// The key of a name and a type.
    pub fn new(domain: DomainName, record_type: RecordType) -> (r: Self)
        ensures
            r.domain == domain,
            r.record_type == record_type,
    {
        CacheKey { domain, record_type }
    }

    /// The bytes that stand for the key.
    fn bytes(&self) -> (r: Vec<u8>)
        ensures
            r@ == key_bytes(self@),
            proper(self@),
    {
        self.domain.check();
        proof {
            lemma_canon_proper(self.domain@);
        }
        let mut r = self.domain.to_canonical_wire();
        put_u16(&mut r, self.record_type.code());
        r.push(
            if matches!(self.record_type, RecordType::Unknown(_)) {
                1
            } else {
                0
            },
        );
        assert(r@ =~= key_bytes(self@));
        r
    }
}

/// A cached record.
#[derive(Debug, Clone)]
pub struct CacheEntry {
    pub domain_name: DomainName,
    pub record_type: RecordType,
    pub ip_addr: Option<IpAddr>,
    pub record: ResourceRecord,
    pub expiry: Timestamp,
    pub flags: u32,
    pub insert_time: Timestamp,
}

/// What a cached record says.
#[verifier::ext_equal]
pub ghost struct EntryModel {
    pub domain_name: Seq<Seq<u8>>,
    pub record_type: RecordType,
    pub ip_addr: Option<IpAddr>,
    pub record: RecordModel,
    pub expiry: Timestamp,
    pub flags: u32,
    pub insert_time: Timestamp,
}

impl View for CacheEntry {
    type V = EntryModel;

    open spec fn view(&self) -> EntryModel {
        EntryModel {
            domain_name: self.domain_name@,
            record_type: self.record_type,
            ip_addr: self.ip_addr,
            record: self.record@,
            expiry: self.expiry,
            flags: self.flags,
            insert_time: self.insert_time,
        }
    }
}

impl EntryModel {
    /// What the entry is found by.
    pub open spec fn key(self) -> KeyModel {
        KeyModel { domain: canon(self.domain_name), record_type: self.record_type }
    }

    /// True from the moment of expiry on.
    pub open spec fn expired(self, now: Timestamp) -> bool {
        now.nanos >= self.expiry.nanos
    }
}

/// The data of the record that an entry holds for an address: the address where it fits the type,
/// and no data otherwise.
pub open spec fn address_data(record_type: RecordType, ip_addr: Option<IpAddr>) -> RDataModel {
    match (record_type, ip_addr) {
        (RecordType::A, Some(IpAddr::V4(a))) => RDataModel::A(a),
        (RecordType::AAAA, Some(IpAddr::V6(a))) => RDataModel::AAAA(a),
        _ => RDataModel::Unknown { rtype: record_type.spec_code(), rdata: Seq::empty() },
    }
}

/// The entry for a name, type and address that is made at a time and lives for `ttl` seconds.
pub open spec fn new_entry(
    domain_name: Seq<Seq<u8>>,
    record_type: RecordType,
    ip_addr: Option<IpAddr>,
    ttl: u32,
    flags: u32,
    now: Timestamp,
) -> EntryModel {
    EntryModel {
        domain_name,
        record_type,
        ip_addr,
        record: RecordModel {
            name: domain_name,
            rtype: record_type,
            class: CLASS_IN,
            ttl,
            rdata: address_data(record_type, ip_addr),
        },
        expiry: Timestamp { nanos: (now.nanos + ttl * 1_000_000_000) as u128 },
        flags,
        insert_time: now,
    }
}

impl CacheEntry {
    /// An entry that is made now.
    pub fn new(
        domain_name: DomainName,
        record_type: RecordType,
        ip_addr: Option<IpAddr>,
        ttl: u32,
        flags: u32,
    ) -> (r: Self)
        ensures
            r@ == new_entry(domain_name@, record_type, ip_addr, ttl, flags, r.insert_time),
            r.insert_time.nanos <= latest_reading(),
    {
        Self::new_at(domain_name, record_type, ip_addr, ttl, flags, Timestamp::now())
    }

    /// An entry that is made at a given time.
    pub fn new_at(
        domain_name: DomainName,
        record_type: RecordType,
        ip_addr: Option<IpAddr>,
        ttl: u32,
        flags: u32,
        now: Timestamp,
    ) -> (r: Self)
        requires
            now.nanos <= latest_reading(),
        ensures
            r@ == new_entry(domain_name@, record_type, ip_addr, ttl, flags, now),
    {
        let empty: Vec<u8> = Vec::new();
        let rdata = match (record_type, ip_addr) {
            (RecordType::A, Some(IpAddr::V4(a))) => RData::A(a),
            (RecordType::AAAA, Some(IpAddr::V6(a))) => RData::AAAA(a),
            _ => RData::Unknown { rtype: record_type.code(), rdata: empty },
        };
        let record = ResourceRecord::new(domain_name.clone(), record_type, CLASS_IN, ttl, rdata);
        CacheEntry {
            domain_name,
            record_type,
            ip_addr,
            record,
            expiry: now.plus_secs(ttl),
            flags,
            insert_time: now,
        }
    }

    /// The name.
    pub fn domain_name(&self) -> (r: &DomainName)
        ensures
            *r == self.domain_name,
    {
        &self.domain_name
    }

    /// The type.
    pub fn record_type(&self) -> (r: RecordType)
        ensures
            r == self.record_type,
    {
        self.record_type
    }

    /// The address, where the entry has one.
    pub fn ip_addr(&self) -> (r: Option<IpAddr>)
        ensures
            r == self.ip_addr,
    {
        self.ip_addr
    }

    /// The record.
    pub fn record(&self) -> (r: &ResourceRecord)
        ensures
            *r == self.record,
    {
        &self.record
    }

    /// The whole seconds until expiry, now.
    pub fn ttl(&self) -> (r: u32)
        ensures
            exists|now: Timestamp|
                now.nanos <= latest_reading() && #[trigger] remaining_secs(self.expiry, now) == r,
    {
        let now = Timestamp::now();
        let r: u32 = self.ttl_at(now);
        assert(remaining_secs(self.expiry, now) == r);
        r
    }

    /// The whole seconds from a time until expiry.
    pub fn ttl_at(&self, now: Timestamp) -> (r: u32)
        ensures
            r == remaining_secs(self.expiry, now),
    {
        if self.expiry.nanos <= now.nanos {
            return 0;
        }
        let secs: u128 = (self.expiry.nanos - now.nanos) / 1_000_000_000;
        if secs > 0xffff_ffff {
            0xffff_ffff
        } else {
            secs as u32
        }
    }

    /// The time of expiry.
    pub fn expiry(&self) -> (r: Timestamp)
        ensures
            r == self.expiry,
    {
        self.expiry
    }

    /// The flags.
    pub fn flags(&self) -> (r: u32)
        ensures
            r == self.flags,
    {
        self.flags
    }

    /// True when the entry has expired by now.
    pub fn is_expired(&self) -> (r: bool)
        ensures
            exists|now: Timestamp|
                now.nanos <= latest_reading() && #[trigger] self@.expired(now) == r,
    {
        let now = Timestamp::now();
        let r = self.is_expired_at(now);
        assert(self@.expired(now) == r);
        r
    }

    /// True when the entry has expired at a time.
    pub fn is_expired_at(&self, now: Timestamp) -> (r: bool)
        ensures
            r == self@.expired(now),
    {
        now.nanos >= self.expiry.nanos
    }

    /// True for an entry from a DHCP lease.
    pub fn is_dhcp(&self) -> (r: bool)
        ensures
            r == CacheFlags::has(self.flags, CacheFlags::DHCP),
    {
        CacheFlags::contains(self.flags, CacheFlags::DHCP)
    }

    /// True for an entry from the hosts file.
    pub fn is_hosts(&self) -> (r: bool)
        ensures
            r == CacheFlags::has(self.flags, CacheFlags::HOSTS),
    {
        CacheFlags::contains(self.flags, CacheFlags::HOSTS)
    }

    /// True for an entry that answers forward lookups.
    pub fn is_forward(&self) -> (r: bool)
        ensures
            r == CacheFlags::has(self.flags, CacheFlags::FORWARD),
    {
        CacheFlags::contains(self.flags, CacheFlags::FORWARD)
    }

    /// True for an entry that answers reverse lookups.
    pub fn is_reverse(&self) -> (r: bool)
        ensures
            r == CacheFlags::has(self.flags, CacheFlags::REVERSE),
    {
        CacheFlags::contains(self.flags, CacheFlags::REVERSE)
    }
}

/// The whole seconds from `now` to `expiry`, at least zero and at most what 32 bits hold.
pub open spec fn remaining_secs(expiry: Timestamp, now: Timestamp) -> u32 {
    if expiry.nanos <= now.nanos {
        0
    } else if (expiry.nanos - now.nanos) / 1_000_000_000 > 0xffff_ffff {
        0xffff_ffff
    } else {
        ((expiry.nanos - now.nanos) / 1_000_000_000) as u32
    }
}

/// Statistics of a cache.
#[derive(Debug, Clone, Copy, PartialEq, Eq, Structural)]
pub struct CacheStats {
    /// Lookups.
    pub lookups: u64,
    /// Lookups that found an entry.
    pub hits: u64,
    /// Lookups that found none.
    pub misses: u64,
    /// Entries in the cache.
    pub current_size: usize,
    /// The number of entries that the cache was made for.
    pub capacity: usize,
    /// Entries that left to make room.
    pub evictions: u64,
    /// Entries that were removed because they had expired.
    pub expirations: u64,
    /// Insertions.
    pub insertions: u64,
}

impl Default for CacheStats {
    fn default() -> (r: Self)
        ensures
            r == (CacheStats {
                lookups: 0,
                hits: 0,
                misses: 0,
                current_size: 0,
                capacity: 0,
                evictions: 0,
                expirations: 0,
                insertions: 0,
            }),
    {
        CacheStats {
            lookups: 0,
            hits: 0,
            misses: 0,
            current_size: 0,
            capacity: 0,
            evictions: 0,
            expirations: 0,
            insertions: 0,
        }
    }
}

/// The counts of events in a cache; they wrap around.
#[derive(Debug, Clone, Copy, PartialEq, Eq, Structural)]
pub struct Counts {
    pub lookups: u64,
    pub hits: u64,
    pub misses: u64,
    pub evictions: u64,
    pub expirations: u64,
    pub insertions: u64,
}

/// The next count.
pub open spec fn up(n: u64) -> u64 {
    plus(n, 1)
}

/// A count after some more events.
pub open spec fn plus(n: u64, k: nat) -> u64 {
    ((n + k) % 0x1_0000_0000_0000_0000) as u64
}

// The tables.

/// `lru::LruCache`, a table that keeps the order in which its keys were last used.
#[verifier::external_type_specification]
#[verifier::external_body]
#[verifier::reject_recursive_types(K)]
#[verifier::reject_recursive_types(V)]
#[verifier::reject_recursive_types(S)]
pub struct ExLruCache<K, V, S>(lru::LruCache<K, V, S>);

/// `ahash::AHashMap`, a hash table.
#[verifier::external_type_specification]
#[verifier::external_body]
#[verifier::reject_recursive_types(K)]
#[verifier::reject_recursive_types(V)]
#[verifier::reject_recursive_types(S)]
pub struct ExAHashMap<K, V, S>(ahash::AHashMap<K, V, S>);

/// `ahash::RandomState`, the hash function of `AHashMap`.
#[verifier::external_type_specification]
#[verifier::external_body]
pub struct ExRandomState(ahash::RandomState);

/// `lru::DefaultHasher`, the hash function of `LruCache`.
#[verifier::external_type_specification]
#[verifier::external_body]
pub struct ExDefaultHasher(lru::DefaultHasher);

/// The keys and values of a recency table, the most recently used first.
pub uninterp spec fn lru_items(c: LruCache<Vec<u8>, Arc<CacheEntry>>) -> Seq<(Seq<u8>, CacheEntry)>;

/// The number of items at which a recency table makes room by itself.
pub uninterp spec fn lru_limit(c: LruCache<Vec<u8>, Arc<CacheEntry>>) -> nat;

/// The keys and values of a hash table.
pub uninterp spec fn table_items(t: AHashMap<Vec<u8>, Arc<CacheEntry>>) -> Map<Seq<u8>, CacheEntry>;

/// `LruCache::new` makes an empty table with a limit. It panics where the memory for the limit
/// cannot be described.
#[verifier::external_body]
fn lru_new(limit: usize) -> (r: LruCache<Vec<u8>, Arc<CacheEntry>>)
    requires
        0 < limit <= usize::MAX / 256,
    ensures
        lru_items(r) == Seq::<(Seq<u8>, CacheEntry)>::empty(),
        lru_limit(r) == limit,
{
    LruCache::new(std::num::NonZeroUsize::new(limit).unwrap())
}

/// `LruCache::get` gives the value of a key and makes the key the most recently used.
#[verifier::external_body]
fn lru_get(c: &mut LruCache<Vec<u8>, Arc<CacheEntry>>, key: &Vec<u8>) -> (r: Option<Arc<CacheEntry>>)
    ensures
        lru_limit(*final(c)) == lru_limit(*old(c)),
        forall|i: int|
            0 <= i < lru_items(*old(c)).len() && (#[trigger] lru_items(*old(c))[i]).0 == key@ ==> (r
                matches Some(v) && *v == lru_items(*old(c))[i].1) && lru_items(*final(c)) == seq![
                lru_items(*old(c))[i],
            ] + lru_items(*old(c)).remove(i),
        (forall|i: int|
            0 <= i < lru_items(*old(c)).len() ==> (#[trigger] lru_items(*old(c))[i]).0 != key@)
            ==> r is None && lru_items(*final(c)) == lru_items(*old(c)),
{
    c.get(key).cloned()
}

/// `LruCache::put` gives a key a value and makes it the most recently used. Where the key is new
/// and the table is full, the least recently used key leaves.
#[verifier::external_body]
fn lru_put(c: &mut LruCache<Vec<u8>, Arc<CacheEntry>>, key: Vec<u8>, value: Arc<CacheEntry>)
    ensures
        lru_limit(*final(c)) == lru_limit(*old(c)),
        forall|i: int|
            0 <= i < lru_items(*old(c)).len() && (#[trigger] lru_items(*old(c))[i]).0 == key@
                ==> lru_items(*final(c)) == seq![(key@, *value)] + lru_items(*old(c)).remove(i),
        (forall|i: int|
            0 <= i < lru_items(*old(c)).len() ==> (#[trigger] lru_items(*old(c))[i]).0 != key@)
            ==> lru_items(*final(c)) == seq![(key@, *value)] + if lru_items(*old(c)).len()
            == lru_limit(*old(c)) {
            lru_items(*old(c)).drop_last()
        } else {
            lru_items(*old(c))
        },
{
    c.put(key, value);
}

/// `LruCache::pop` removes a key.
#[verifier::external_body]
fn lru_pop(c: &mut LruCache<Vec<u8>, Arc<CacheEntry>>, key: &Vec<u8>)
    ensures
        lru_limit(*final(c)) == lru_limit(*old(c)),
        forall|i: int|
            0 <= i < lru_items(*old(c)).len() && (#[trigger] lru_items(*old(c))[i]).0 == key@
                ==> lru_items(*final(c)) == lru_items(*old(c)).remove(i),
        (forall|i: int|
            0 <= i < lru_items(*old(c)).len() ==> (#[trigger] lru_items(*old(c))[i]).0 != key@)
            ==> lru_items(*final(c)) == lru_items(*old(c)),
{
    c.pop(key);
}

/// `LruCache::pop_lru` removes the least recently used key and gives it with its value.
#[verifier::external_body]
fn lru_pop_last(c: &mut LruCache<Vec<u8>, Arc<CacheEntry>>) -> (r: Option<
    (Vec<u8>, Arc<CacheEntry>),
>)
    ensures
        lru_limit(*final(c)) == lru_limit(*old(c)),
        match r {
            Some(p) => lru_items(*old(c)).len() > 0 && p.0@ == lru_items(*old(c)).last().0 && *p.1
                == lru_items(*old(c)).last().1 && lru_items(*final(c)) == lru_items(
                *old(c),
            ).drop_last(),
            None => lru_items(*old(c)).len() == 0 && lru_items(*final(c)) == lru_items(*old(c)),
        },
{
    c.pop_lru()
}

/// `LruCache::iter` visits the items, the most recently used first.
#[verifier::external_body]
fn lru_values(c: &LruCache<Vec<u8>, Arc<CacheEntry>>) -> (r: Vec<Arc<CacheEntry>>)
    ensures
        r@.len() == lru_items(*c).len(),
        forall|i: int| 0 <= i < r@.len() ==> *#[trigger] r@[i] == lru_items(*c)[i].1,
{
    c.iter().map(|item| Arc::clone(item.1)).collect()
}

/// `LruCache::clear` removes every item.
#[verifier::external_body]
fn lru_clear(c: &mut LruCache<Vec<u8>, Arc<CacheEntry>>)
    ensures
        lru_limit(*final(c)) == lru_limit(*old(c)),
        lru_items(*final(c)) == Seq::<(Seq<u8>, CacheEntry)>::empty(),
{
    c.clear()
}

/// `AHashMap::with_capacity` makes an empty table with room for some items. It panics where the
/// memory for them cannot be described.
#[verifier::external_body]
fn table_new(capacity: usize) -> (r: AHashMap<Vec<u8>, Arc<CacheEntry>>)
    requires
        capacity <= usize::MAX / 256,
    ensures
        table_items(r) == (Map::<Seq<u8>, CacheEntry>::empty()),
{
    AHashMap::with_capacity(capacity)
}

/// `AHashMap::get` gives the value of a key.
#[verifier::external_body]
fn table_get(t: &AHashMap<Vec<u8>, Arc<CacheEntry>>, key: &Vec<u8>) -> (r: Option<Arc<CacheEntry>>)
    ensures
        match r {
            Some(v) => table_items(*t).contains_key(key@) && *v == table_items(*t)[key@],
            None => !table_items(*t).contains_key(key@),
        },
{
    t.get(key).cloned()
}

/// `AHashMap::insert` gives a key a value.
#[verifier::external_body]
fn table_insert(t: &mut AHashMap<Vec<u8>, Arc<CacheEntry>>, key: Vec<u8>, value: Arc<CacheEntry>)
    ensures
        table_items(*final(t)) == table_items(*old(t)).insert(key@, *value),
{
    t.insert(key, value);
}

/// `AHashMap::remove` removes a key.
#[verifier::external_body]
fn table_remove(t: &mut AHashMap<Vec<u8>, Arc<CacheEntry>>, key: &Vec<u8>)
    ensures
        table_items(*final(t)) == table_items(*old(t)).remove(key@),
{
    t.remove(key);
}

/// `HashMap::clear`, which `AHashMap` hands on, removes every item.
#[verifier::external_body]
fn table_clear(t: &mut AHashMap<Vec<u8>, Arc<CacheEntry>>)
    ensures
        table_items(*final(t)) == (Map::<Seq<u8>, CacheEntry>::empty()),
{
    t.clear()
}

/// `HashMap::len`, which `AHashMap` hands on, is the number of items.
#[verifier::external_body]
fn table_len(t: &AHashMap<Vec<u8>, Arc<CacheEntry>>) -> (r: usize)
    ensures
        r == table_items(*t).len(),
{
    t.len()
}

/// The entries of a cache: a hash table of them, and a table of the same entries that keeps the
/// order of their last uses.
#[derive(Debug)]
struct Tables {
    entries: AHashMap<Vec<u8>, Arc<CacheEntry>>,
    lru: LruCache<Vec<u8>, Arc<CacheEntry>>,
}

/// True when a list of items has each key once, each under the bytes of its key, and the table
/// holds the same items.
spec fn agree(items: Seq<(Seq<u8>, CacheEntry)>, table: Map<Seq<u8>, CacheEntry>) -> bool {
    &&& forall|i: int, j: int|
        0 <= i < j < items.len() ==> (#[trigger] items[i]).0 != (#[trigger] items[j]).0
    &&& forall|i: int|
        0 <= i < items.len() ==> (#[trigger] items[i]).0 == key_bytes(items[i].1@.key()) && proper(
            items[i].1@.key(),
        )
    &&& forall|i: int|
        0 <= i < items.len() ==> table.contains_key((#[trigger] items[i]).0) && table[items[i].0]
            == items[i].1
    &&& forall|k: Seq<u8>| #[trigger]
        table.contains_key(k) ==> exists|i: int| 0 <= i < items.len() && (#[trigger] items[i]).0 == k
    &&& table.dom().finite()
    &&& table.len() == items.len()
}

proof fn lemma_agree_remove(
    items: Seq<(Seq<u8>, CacheEntry)>,
    table: Map<Seq<u8>, CacheEntry>,
    i: int,
)
    requires
        agree(items, table),
        0 <= i < items.len(),
    ensures
        agree(items.remove(i), table.remove(items[i].0)),
{
    let small = items.remove(i);
    let rest = table.remove(items[i].0);
    assert forall|a: int, b: int| 0 <= a < b < small.len() implies (#[trigger] small[a]).0 != (
    #[trigger] small[b]).0 by {
        let x = if a < i {
            a
        } else {
            a + 1
        };
        let y = if b < i {
            b
        } else {
            b + 1
        };
        assert(small[a] == items[x] && small[b] == items[y]);
    }
    assert forall|a: int| 0 <= a < small.len() implies (#[trigger] small[a]).0 == key_bytes(
        small[a].1@.key(),
    ) && proper(small[a].1@.key()) && rest.contains_key(small[a].0) && rest[small[a].0]
        == small[a].1 by {
        let x = if a < i {
            a
        } else {
            a + 1
        };
        assert(small[a] == items[x]);
        assert(items[x].0 != items[i].0);
    }
    assert forall|k: Seq<u8>| #[trigger] rest.contains_key(k) implies exists|a: int|
        0 <= a < small.len() && (#[trigger] small[a]).0 == k by {
        assert(table.contains_key(k));
        let x = choose|x: int| 0 <= x < items.len() && (#[trigger] items[x]).0 == k;
        let a = if x < i {
            x
        } else {
            x - 1
        };
        assert(small[a].0 == k);
    }
}

proof fn lemma_agree_front(
    items: Seq<(Seq<u8>, CacheEntry)>,
    table: Map<Seq<u8>, CacheEntry>,
    key: Seq<u8>,
    entry: CacheEntry,
)
    requires
        agree(items, table),
        key == key_bytes(entry@.key()),
        proper(entry@.key()),
        !table.contains_key(key),
    ensures
        agree(seq![(key, entry)] + items, table.insert(key, entry)),
{
    let big = seq![(key, entry)] + items;
    let more = table.insert(key, entry);
    assert forall|a: int, b: int| 0 <= a < b < big.len() implies (#[trigger] big[a]).0 != (
    #[trigger] big[b]).0 by {
        assert(big[b] == items[b - 1]);
        if a > 0 {
            assert(big[a] == items[a - 1]);
        }
    }
    assert forall|a: int| 0 <= a < big.len() implies (#[trigger] big[a]).0 == key_bytes(
        big[a].1@.key(),
    ) && proper(big[a].1@.key()) && more.contains_key(big[a].0) && more[big[a].0] == big[a].1 by {
        if a > 0 {
            assert(big[a] == items[a - 1]);
        }
    }
    assert forall|k: Seq<u8>| #[trigger] more.contains_key(k) implies exists|a: int|
        0 <= a < big.len() && (#[trigger] big[a]).0 == k by {
        if k == key {
            assert(big[0].0 == k);
        } else {
            assert(table.contains_key(k));
            let x = choose|x: int| 0 <= x < items.len() && (#[trigger] items[x]).0 == k;
            assert(big[x + 1].0 == k);
        }
    }
}

/// The position of a key among items that have it once.
proof fn lemma_item_at(items: Seq<(Seq<u8>, CacheEntry)>, table: Map<Seq<u8>, CacheEntry>, key: KeyModel)
    requires
        agree(items, table),
        proper(key),
    ensures
        match find(entries_of(items), key) {
            Some(i) => 0 <= i < items.len() && items[i].0 == key_bytes(key) && items[i].1@.key()
                == key && table.contains_key(key_bytes(key)) && table[key_bytes(key)] == items[i].1,
            None => !table.contains_key(key_bytes(key)) && forall|i: int|
                0 <= i < items.len() ==> (#[trigger] items[i]).0 != key_bytes(key),
        },
{
    let entries = entries_of(items);
    lemma_first(entries, |e: EntryModel| e.key() == key);
    match find(entries, key) {
        Some(i) => {
            assert(entries[i] == items[i].1@);
        },
        None => {
            assert forall|i: int| 0 <= i < items.len() implies (#[trigger] items[i]).0 != key_bytes(
                key,
            ) by {
                assert(entries[i] == items[i].1@);
                if items[i].0 == key_bytes(key) {
                    lemma_key_bytes_injective(items[i].1@.key(), key);
                }
            }
        },
    }
}

/// The entry behind a handle.
spec fn held(a: Arc<CacheEntry>) -> CacheEntry {
    *a
}

/// What the items of a table say.
spec fn entries_of(items: Seq<(Seq<u8>, CacheEntry)>) -> Seq<EntryModel> {
    items.map_values(|p: (Seq<u8>, CacheEntry)| p.1@)
}

/// The first position at which a condition holds.
pub open spec fn first(entries: Seq<EntryModel>, p: spec_fn(EntryModel) -> bool) -> Option<int>
    decreases entries.len(),
{
    if entries.len() == 0 {
        None
    } else if p(entries[0]) {
        Some(0)
    } else {
        match first(entries.skip(1), p) {
            Some(i) => Some(i + 1),
            None => None,
        }
    }
}

/// The position of the entry with a key.
pub open spec fn find(entries: Seq<EntryModel>, key: KeyModel) -> Option<int> {
    first(entries, |e: EntryModel| e.key() == key)
}

pub proof fn lemma_first(entries: Seq<EntryModel>, p: spec_fn(EntryModel) -> bool)
    ensures
        match first(entries, p) {
            Some(i) => 0 <= i < entries.len() && p(entries[i]) && forall|j: int|
                0 <= j < i ==> !p(#[trigger] entries[j]),
            None => forall|j: int| 0 <= j < entries.len() ==> !p(#[trigger] entries[j]),
        },
    decreases entries.len(),
{
    if entries.len() > 0 && !p(entries[0]) {
        let tail = entries.skip(1);
        lemma_first(tail, p);
        match first(tail, p) {
            Some(i) => {
                assert(tail[i] == entries[i + 1]);
                assert forall|j: int| 0 <= j < i + 1 implies !p(#[trigger] entries[j]) by {
                    if j > 0 {
                        assert(tail[j - 1] == entries[j]);
                    }
                }
            },
            None => {
                assert forall|j: int| 0 <= j < entries.len() implies !p(#[trigger] entries[j]) by {
                    if j > 0 {
                        assert(tail[j - 1] == entries[j]);
                    }
                }
            },
        }
    }
}

/// A position that is the first at which a condition holds.
proof fn lemma_first_is(entries: Seq<EntryModel>, p: spec_fn(EntryModel) -> bool, i: int)
    requires
        0 <= i < entries.len(),
        p(entries[i]),
        forall|j: int| 0 <= j < i ==> !p(#[trigger] entries[j]),
    ensures
        first(entries, p) == Some(i),
{
    lemma_first(entries, p);
    let f = first(entries, p);
    if f is None {
        assert(!p(entries[i]));
    } else if f->0 < i {
        assert(!p(entries[f->0]));
    } else if f->0 > i {
        assert(!p(entries[i]));
    }
}

impl Tables {
    spec fn items(self) -> Seq<(Seq<u8>, CacheEntry)> {
        lru_items(self.lru)
    }

    spec fn wf(self) -> bool {
        agree(lru_items(self.lru), table_items(self.entries)) && self.items().len() <= lru_limit(
            self.lru,
        )
    }

    spec fn model(self) -> Seq<EntryModel> {
        entries_of(self.items())
    }

    fn new(capacity: usize, limit: usize) -> (r: Self)
        requires
            capacity <= usize::MAX / 256,
            0 < limit <= usize::MAX / 256,
        ensures
            r.wf(),
            r.model() == Seq::<EntryModel>::empty(),
            lru_limit(r.lru) == limit,
    {
        let r = Tables { entries: table_new(capacity), lru: lru_new(limit) };
        assert(r.model() =~= Seq::<EntryModel>::empty());
        r
    }

    fn len(&self) -> (r: usize)
        requires
            self.wf(),
        ensures
            r == self.model().len(),
    {
        table_len(&self.entries)
    }

    fn contains(&self, key: &CacheKey) -> (r: bool)
        requires
            self.wf(),
        ensures
            r == (find(self.model(), key@) is Some),
    {
        let bytes = key.bytes();
        proof {
            lemma_item_at(self.items(), table_items(self.entries), key@);
        }
        table_get(&self.entries, &bytes).is_some()
    }

    /// The entry with a key, from the hash table.
    fn peek(&self, key: &CacheKey) -> (r: Option<Arc<CacheEntry>>)
        requires
            self.wf(),
        ensures
            match (r, find(self.model(), key@)) {
                (Some(e), Some(i)) => e@ == self.model()[i],
                (None, None) => true,
                _ => false,
            },
    {
        let bytes = key.bytes();
        proof {
            lemma_item_at(self.items(), table_items(self.entries), key@);
        }
        table_get(&self.entries, &bytes)
    }

    /// The entry with a key, which becomes the most recently used.
    fn get(&mut self, key: &CacheKey) -> (r: Option<Arc<CacheEntry>>)
        requires
            old(self).wf(),
        ensures
            final(self).wf(),
            lru_limit(final(self).lru) == lru_limit(old(self).lru),
            match (r, find(old(self).model(), key@)) {
                (Some(e), Some(i)) => e@ == old(self).model()[i] && final(self).model() == seq![
                    old(self).model()[i],
                ] + old(self).model().remove(i),
                (None, None) => final(self).model() == old(self).model(),
                _ => false,
            },
    {
        let bytes = key.bytes();
        let ghost items = self.items();
        let ghost table = table_items(self.entries);
        proof {
            lemma_item_at(items, table, key@);
        }
        let r = lru_get(&mut self.lru, &bytes);
        proof {
            if let Some(i) = find(entries_of(items), key@) {
                assert(items[i].0 == bytes@);
                lemma_agree_remove(items, table, i);
                lemma_agree_front(items.remove(i), table.remove(bytes@), bytes@, items[i].1);
                assert(seq![(bytes@, items[i].1)] =~= seq![items[i]]);
                assert(table.remove(bytes@).insert(bytes@, items[i].1) =~= table);
                assert(entries_of(seq![items[i]] + items.remove(i)) =~= seq![entries_of(items)[i]]
                    + entries_of(items).remove(i));
            }
        }
        r
    }

    /// Removes the entry with a key.
    fn remove(&mut self, key: &CacheKey)
        requires
            old(self).wf(),
            find(old(self).model(), key@) is Some,
        ensures
            final(self).wf(),
            lru_limit(final(self).lru) == lru_limit(old(self).lru),
            final(self).model() == old(self).model().remove(find(old(self).model(), key@)->0),
    {
        let bytes = key.bytes();
        let ghost items = self.items();
        let ghost table = table_items(self.entries);
        let ghost i = find(entries_of(items), key@)->0;
        proof {
            lemma_item_at(items, table, key@);
            lemma_agree_remove(items, table, i);
            assert(items[i].0 == bytes@);
        }
        lru_pop(&mut self.lru, &bytes);
        table_remove(&mut self.entries, &bytes);
        assert(entries_of(items.remove(i)) =~= entries_of(items).remove(i));
    }

    /// Puts an entry in front, in place of one with the same key if there is one. There must be
    /// room for it.
    fn put(&mut self, entry: Arc<CacheEntry>)
        requires
            old(self).wf(),
            find(old(self).model(), entry@.key()) is Some || old(self).model().len() < lru_limit(
                old(self).lru,
            ),
        ensures
            final(self).wf(),
            lru_limit(final(self).lru) == lru_limit(old(self).lru),
            final(self).model() == seq![entry@] + match find(old(self).model(), entry@.key()) {
                Some(i) => old(self).model().remove(i),
                None => old(self).model(),
            },
    {
        let key = CacheKey::new(entry.domain_name.clone(), entry.record_type);
        let bytes = key.bytes();
        let copy = vstd::slice::slice_to_vec(bytes.as_slice());
        let ghost items = self.items();
        let ghost table = table_items(self.entries);
        let ghost e = held(entry);
        proof {
            lemma_item_at(items, table, key@);
        }
        table_insert(&mut self.entries, copy, share(&entry));
        lru_put(&mut self.lru, bytes, entry);
        proof {
            match find(entries_of(items), key@) {
                Some(i) => {
                    assert(items[i].0 == bytes@);
                    lemma_agree_remove(items, table, i);
                    lemma_agree_front(items.remove(i), table.remove(bytes@), bytes@, e);
                    assert(table.remove(bytes@).insert(bytes@, e) =~= table.insert(bytes@, e));
                    assert(entries_of(seq![(bytes@, e)] + items.remove(i)) =~= seq![e@]
                        + entries_of(items).remove(i));
                },
                None => {
                    lemma_agree_front(items, table, bytes@, e);
                    assert(entries_of(seq![(bytes@, e)] + items) =~= seq![e@] + entries_of(items));
                },
            }
        }
    }

    /// Removes the least recently used entry.
    fn pop_last(&mut self) -> (r: Option<Arc<CacheEntry>>)
        requires
            old(self).wf(),
        ensures
            final(self).wf(),
            lru_limit(final(self).lru) == lru_limit(old(self).lru),
            match r {
                Some(e) => old(self).model().len() > 0 && e@ == old(self).model().last()
                    && final(self).model() == old(self).model().drop_last(),
                None => old(self).model().len() == 0 && final(self).model() == old(self).model(),
            },
    {
        let ghost items = self.items();
        let ghost table = table_items(self.entries);
        match lru_pop_last(&mut self.lru) {
            Some(pair) => {
                table_remove(&mut self.entries, &pair.0);
                proof {
                    lemma_agree_remove(items, table, items.len() - 1);
                    assert(items.remove(items.len() - 1) =~= items.drop_last());
                    assert(entries_of(items.drop_last()) =~= entries_of(items).drop_last());
                }
                Some(pair.1)
            },
            None => None,
        }
    }

    /// The entries, the most recently used first.
    fn values(&self) -> (r: Vec<Arc<CacheEntry>>)
        ensures
            r@.len() == self.model().len(),
            forall|i: int| 0 <= i < r@.len() ==> (#[trigger] r@[i])@ == self.model()[i],
    {
        lru_values(&self.lru)
    }

    fn clear(&mut self)
        requires
            old(self).wf(),
        ensures
            final(self).wf(),
            lru_limit(final(self).lru) == lru_limit(old(self).lru),
            final(self).model() == Seq::<EntryModel>::empty(),
    {
        table_clear(&mut self.entries);
        lru_clear(&mut self.lru);
        assert(self.model() =~= Seq::<EntryModel>::empty());
    }
}

/// `Arc::clone` gives another handle on the same value.
#[verifier::external_body]
fn share(a: &Arc<CacheEntry>) -> (r: Arc<CacheEntry>)
    ensures
        *r == **a,
{
    Arc::clone(a)
}

/// What a cache holds, the most recently used entry first, and what happened to it.
#[verifier::ext_equal]
pub ghost struct CacheModel {
    pub entries: Seq<EntryModel>,
    pub capacity: usize,
    pub counts: Counts,
}

impl CacheModel {
    /// A cache without entries.
    pub open spec fn empty(capacity: usize) -> CacheModel {
        CacheModel {
            entries: Seq::empty(),
            capacity,
            counts: Counts {
                lookups: 0,
                hits: 0,
                misses: 0,
                evictions: 0,
                expirations: 0,
                insertions: 0,
            },
        }
    }

    /// True of a cache in which every key occurs once and which is not over its capacity; a
    /// capacity of zero leaves room for one entry.
    pub open spec fn well_kept(self) -> bool {
        &&& forall|i: int, j: int|
            0 <= i < j < self.entries.len() ==> (#[trigger] self.entries[i]).key() != (
            #[trigger] self.entries[j]).key()
        &&& self.entries.len() <= self.capacity || self.entries.len() <= 1
    }

    /// The entry at a position becomes the most recently used.
    pub open spec fn promoted(self, i: int) -> Seq<EntryModel> {
        seq![self.entries[i]] + self.entries.remove(i)
    }

    /// What a lookup that ended at a position leaves: a live entry is promoted and counted as a
    /// hit, an expired one is removed and counted as expired and missed.
    pub open spec fn looked_up(self, at: Option<int>, now: Timestamp) -> CacheModel {
        let c = Counts { lookups: up(self.counts.lookups), ..self.counts };
        match at {
            None => CacheModel { counts: Counts { misses: up(c.misses), ..c }, ..self },
            Some(i) => if self.entries[i].expired(now) {
                CacheModel {
                    entries: self.entries.remove(i),
                    counts: Counts {
                        misses: up(c.misses),
                        expirations: up(c.expirations),
                        ..c
                    },
                    ..self
                }
            } else {
                CacheModel {
                    entries: self.promoted(i),
                    counts: Counts { hits: up(c.hits), ..c },
                    ..self
                }
            },
        }
    }

    /// What a lookup that ended at a position gives.
    pub open spec fn answer(self, at: Option<int>, now: Timestamp) -> Option<EntryModel> {
        match at {
            Some(i) if !self.entries[i].expired(now) => Some(self.entries[i]),
            _ => None,
        }
    }

    /// Where a lookup by address ends: at the most recently used live entry with the address, or
    /// at the most recently used expired one where no live one has it.
    pub open spec fn address_position(self, addr: IpAddr, now: Timestamp) -> Option<int> {
        match first(self.entries, |e: EntryModel| e.ip_addr == Some(addr) && !e.expired(now)) {
            Some(i) => Some(i),
            None => first(self.entries, |e: EntryModel| e.ip_addr == Some(addr)),
        }
    }

    /// The least recently used entry leaves, if there is one.
    pub open spec fn evicted(self) -> CacheModel {
        if self.entries.len() == 0 {
            self
        } else {
            CacheModel {
                entries: self.entries.drop_last(),
                counts: Counts { evictions: up(self.counts.evictions), ..self.counts },
                ..self
            }
        }
    }

    /// An entry comes in as the most recently used: in place of the entry with its key, or after
    /// the least recently used entry has left where the cache is full.
    pub open spec fn inserted(self, entry: EntryModel) -> CacheModel {
        let ready = if self.entries.len() >= self.capacity && find(self.entries, entry.key()) is None {
            self.evicted()
        } else {
            self
        };
        CacheModel {
            entries: seq![entry] + match find(ready.entries, entry.key()) {
                Some(i) => ready.entries.remove(i),
                None => ready.entries,
            },
            counts: Counts { insertions: up(ready.counts.insertions), ..ready.counts },
            ..ready
        }
    }

    /// The entry at a position leaves because it has expired.
    pub open spec fn expired_at(self, i: int) -> CacheModel {
        CacheModel {
            entries: self.entries.remove(i),
            counts: Counts { expirations: up(self.counts.expirations), ..self.counts },
            ..self
        }
    }

    /// The position of the entry of a lease for a name and type; none where the entry stems from
    /// another source.
    pub open spec fn lease_position(self, hostname: Seq<Seq<u8>>, record_type: RecordType) -> Option<int> {
        match find(self.entries, KeyModel { domain: canon(hostname), record_type }) {
            Some(i) if CacheFlags::has(self.entries[i].flags, CacheFlags::DHCP) => Some(i),
            _ => None,
        }
    }

    /// The entry of a lease for a name and type leaves, if there is one.
    pub open spec fn lease_removed(self, hostname: Seq<Seq<u8>>, record_type: RecordType) -> CacheModel {
        match self.lease_position(hostname, record_type) {
            Some(i) => CacheModel { entries: self.entries.remove(i), ..self },
            None => self,
        }
    }

    /// The entries that have not expired.
    pub open spec fn live(self, now: Timestamp) -> Seq<EntryModel> {
        self.entries.filter(|e: EntryModel| !e.expired(now))
    }

    /// The statistics.
    pub open spec fn stats(self) -> CacheStats {
        CacheStats {
            lookups: self.counts.lookups,
            hits: self.counts.hits,
            misses: self.counts.misses,
            current_size: self.entries.len() as usize,
            capacity: self.capacity,
            evictions: self.counts.evictions,
            expirations: self.counts.expirations,
            insertions: self.counts.insertions,
        }
    }
}

/// The type of the records for an address.
pub open spec fn address_type(addr: IpAddr) -> RecordType {
    if addr is V4 {
        RecordType::A
    } else {
        RecordType::AAAA
    }
}

/// True when a handle is on the wanted entry.
pub open spec fn gives(r: Option<Arc<CacheEntry>>, want: Option<EntryModel>) -> bool {
    match (r, want) {
        (Some(e), Some(w)) => e@ == w,
        (None, None) => true,
        _ => false,
    }
}

/// The DNS cache.
#[derive(Debug)]
pub struct DnsCache {
    tables: Tables,
    capacity: usize,
    counts: Counts,
}

impl View for DnsCache {
    type V = CacheModel;

    closed spec fn view(&self) -> CacheModel {
        CacheModel { entries: self.tables.model(), capacity: self.capacity, counts: self.counts }
    }
}

impl DnsCache {
    /// What holds of every cache between operations: the two tables agree and there is room as
    /// the capacity says.
    pub closed spec fn wf(self) -> bool {
        &&& self.tables.wf()
        &&& self.tables.model().len() <= self.capacity || self.tables.model().len() <= 1
        &&& lru_limit(self.tables.lru) == if self.capacity == 0 {
            150
        } else {
            self.capacity as int
        }
    }

    /// Every key occurs once and the cache is not over its capacity.
    pub proof fn lemma_well_kept(self)
        requires
            self.wf(),
        ensures
            self@.well_kept(),
    {
        let items = self.tables.items();
        assert forall|i: int, j: int| 0 <= i < j < self@.entries.len() implies (
        #[trigger] self@.entries[i]).key() != (#[trigger] self@.entries[j]).key() by {
            assert(items[i].0 != items[j].0);
        }
    }

    /// A cache of the configured size.
    pub fn new(config: &DnsConfig) -> (r: Self)
        requires
            config.cache_size <= usize::MAX / 256,
        ensures
            r.wf(),
            r@ == CacheModel::empty(config.size()),
    {
        let capacity: usize = if config.cache_size == 0 {
            CACHESIZ
        } else {
            config.cache_size
        };
        Self::with_capacity(capacity)
    }

    /// A cache of a given size.
    pub fn with_capacity(capacity: usize) -> (r: Self)
        requires
            capacity <= usize::MAX / 256,
        ensures
            r.wf(),
            r@ == CacheModel::empty(capacity),
    {
        let limit: usize = if capacity == 0 {
            150
        } else {
            capacity
        };
        DnsCache {
            tables: Tables::new(capacity, limit),
            capacity,
            counts: Counts {
                lookups: 0,
                hits: 0,
                misses: 0,
                evictions: 0,
                expirations: 0,
                insertions: 0,
            },
        }
    }

    /// Looks up an entry by name and type, now.
    pub fn find_by_name(&mut self, domain: &DomainName, record_type: RecordType) -> (r: Option<
        Arc<CacheEntry>,
    >)
        requires
            old(self).wf(),
        ensures
            final(self).wf(),
            ({
                let at = find(
                    old(self)@.entries,
                    KeyModel { domain: canon(domain@), record_type },
                );
                exists|now: Timestamp|
                now.nanos <= latest_reading() && #[trigger]
                    old(self)@.looked_up(at, now) == final(self)@ && gives(
                        r,
                        old(self)@.answer(at, now),
                    )
            }),
    {
        let now = Timestamp::now();
        let ghost before = self@;
        let r = self.find_by_name_at(domain, record_type, now);
        assert(before.looked_up(
            find(before.entries, KeyModel { domain: canon(domain@), record_type }),
            now,
        ) == self@);
        r
    }

    /// Looks up an entry by name and type at a given time.
    pub fn find_by_name_at(&mut self, domain: &DomainName, record_type: RecordType, now: Timestamp) -> (r:
        Option<Arc<CacheEntry>>)
        requires
            old(self).wf(),
        ensures
            final(self).wf(),
            ({
                let at = find(
                    old(self)@.entries,
                    KeyModel { domain: canon(domain@), record_type },
                );
                final(self)@ == old(self)@.looked_up(at, now) && gives(
                    r,
                    old(self)@.answer(at, now),
                )
            }),
    {
        let key = CacheKey::new(domain.clone(), record_type);
        self.lookup(&key, now)
    }

    /// Looks up the entry with a key.
    fn lookup(&mut self, key: &CacheKey, now: Timestamp) -> (r: Option<Arc<CacheEntry>>)
        requires
            old(self).wf(),
        ensures
            final(self).wf(),
            final(self)@ == old(self)@.looked_up(find(old(self)@.entries, key@), now),
            gives(r, old(self)@.answer(find(old(self)@.entries, key@), now)),
    {
        let ghost entries = self@.entries;
        proof {
            lemma_first(entries, |e: EntryModel| e.key() == key@);
        }
        self.counts.lookups = self.counts.lookups.wrapping_add(1);
        match self.tables.get(key) {
            Some(entry) => {
                if entry.is_expired_at(now) {
                    proof {
                        let i = find(entries, key@)->0;
                        let moved = self.tables.model();
                        assert(moved =~= seq![entries[i]] + entries.remove(i));
                        lemma_first_is(moved, |e: EntryModel| e.key() == key@, 0);
                        assert(moved.remove(0) =~= entries.remove(i));
                    }
                    self.tables.remove(key);
                    self.counts.expirations = self.counts.expirations.wrapping_add(1);
                    self.counts.misses = self.counts.misses.wrapping_add(1);
                    return None;
                }
                self.counts.hits = self.counts.hits.wrapping_add(1);
                Some(entry)
            },
            None => {
                self.counts.misses = self.counts.misses.wrapping_add(1);
                None
            },
        }
    }

    /// Looks up an entry by address, now.
    pub fn find_by_addr(&mut self, addr: &IpAddr) -> (r: Option<Arc<CacheEntry>>)
        requires
            old(self).wf(),
        ensures
            final(self).wf(),
            exists|now: Timestamp|
                now.nanos <= latest_reading() && #[trigger]
                old(self)@.looked_up(old(self)@.address_position(*addr, now), now) == final(self)@
                    && gives(
                    r,
                    old(self)@.answer(old(self)@.address_position(*addr, now), now),
                ),
    {
        let now = Timestamp::now();
        let ghost before = self@;
        let r = self.find_by_addr_at(addr, now);
        assert(before.looked_up(before.address_position(*addr, now), now) == self@);
        r
    }

    /// Looks up an entry by address at a given time.
    pub fn find_by_addr_at(&mut self, addr: &IpAddr, now: Timestamp) -> (r: Option<Arc<CacheEntry>>)
        requires
            old(self).wf(),
        ensures
            final(self).wf(),
            final(self)@ == old(self)@.looked_up(old(self)@.address_position(*addr, now), now),
            gives(r, old(self)@.answer(old(self)@.address_position(*addr, now), now)),
    {
        let ghost entries = self@.entries;
        let ghost same = |e: EntryModel| e.ip_addr == Some(*addr);
        let ghost good = |e: EntryModel| e.ip_addr == Some(*addr) && !e.expired(now);
        let values = self.tables.values();
        let mut stale: Option<usize> = None;
        let mut found: Option<usize> = None;
        let mut i: usize = 0;
        while i < values.len() && found.is_none()
            invariant
                self.wf(),
                entries == self@.entries,
                same == (|e: EntryModel| e.ip_addr == Some(*addr)),
                good == (|e: EntryModel| e.ip_addr == Some(*addr) && !e.expired(now)),
                i <= values@.len() == entries.len(),
                forall|j: int| 0 <= j < values@.len() ==> (#[trigger] values@[j])@ == entries[j],
                match found {
                    Some(k) => k < entries.len() && good(entries[k as int]) && forall|j: int|
                        0 <= j < k ==> !good(#[trigger] entries[j]),
                    None => forall|j: int| 0 <= j < i ==> !good(#[trigger] entries[j]),
                },
                match stale {
                    Some(k) => k < entries.len() && same(entries[k as int]) && forall|j: int|
                        0 <= j < k ==> !same(#[trigger] entries[j]),
                    None => found is None ==> forall|j: int|
                        0 <= j < i ==> !same(#[trigger] entries[j]),
                },
            decreases values@.len() - i,
        {
            let entry = &values[i];
            assert(entry@ == entries[i as int]);
            if same_address(&entry.ip_addr, addr) {
                if entry.is_expired_at(now) {
                    if stale.is_none() {
                        stale = Some(i);
                    }
                } else {
                    found = Some(i);
                }
            }
            i = i + 1;
        }
        let position: Option<usize> = if found.is_some() {
            found
        } else {
            stale
        };
        proof {
            lemma_first(entries, good);
            lemma_first(entries, same);
            if let Some(k) = found {
                lemma_first_is(entries, good, k as int);
            } else if let Some(k) = stale {
                lemma_first_is(entries, same, k as int);
            }
        }
        match position {
            Some(k) => {
                let entry = &values[k];
                let key = CacheKey::new(entry.domain_name.clone(), entry.record_type);
                proof {
                    self.lemma_well_kept();
                    assert(entry@ == entries[k as int]);
                    assert(key@ == entries[k as int].key());
                    lemma_first_is(entries, |e: EntryModel| e.key() == key@, k as int);
                }
                self.lookup(&key, now)
            },
            None => {
                self.counts.lookups = self.counts.lookups.wrapping_add(1);
                self.counts.misses = self.counts.misses.wrapping_add(1);
                None
            },
        }
    }

    /// Puts an entry into the cache.
    pub fn insert(&mut self, entry: CacheEntry) -> (r: Result<(), DnsmasqError>)
        requires
            old(self).wf(),
        ensures
            final(self).wf(),
            r is Ok,
            final(self)@ == old(self)@.inserted(entry@),
    {
        let key = CacheKey::new(entry.domain_name.clone(), entry.record_type);
        let ghost before = self@;
        proof {
            lemma_first(before.entries, |e: EntryModel| e.key() == key@);
        }
        if self.tables.len() >= self.capacity && !self.tables.contains(&key) {
            self.evict_lru();
            proof {
                let left = self@.entries;
                lemma_first(left, |e: EntryModel| e.key() == key@);
                if let Some(i) = find(left, key@) {
                    assert(left[i] == before.entries[i]);
                }
            }
        }
        proof {
            lemma_first(self@.entries, |e: EntryModel| e.key() == key@);
        }
        self.tables.put(Arc::new(entry));
        self.counts.insertions = self.counts.insertions.wrapping_add(1);
        Ok(())
    }

    /// Removes the least recently used entry.
    pub fn evict_lru(&mut self) -> (r: Option<Arc<CacheEntry>>)
        requires
            old(self).wf(),
        ensures
            final(self).wf(),
            final(self)@ == old(self)@.evicted(),
            gives(
                r,
                if old(self)@.entries.len() == 0 {
                    None
                } else {
                    Some(old(self)@.entries.last())
                },
            ),
    {
        match self.tables.pop_last() {
            Some(entry) => {
                self.counts.evictions = self.counts.evictions.wrapping_add(1);
                Some(entry)
            },
            None => None,
        }
    }

    /// Removes one entry that has expired by now, if there is one.
    pub fn evict_expired(&mut self) -> (r: Option<Arc<CacheEntry>>)
        requires
            old(self).wf(),
        ensures
            final(self).wf(),
            exists|now: Timestamp|
                now.nanos <= latest_reading() && #[trigger] expiry_outcome(old(self)@, final(self)@, r, now),
    {
        let now = Timestamp::now();
        let ghost before = self@;
        let r = self.evict_expired_at(now);
        assert(expiry_outcome(before, self@, r, now));
        r
    }

    /// Removes the most recently used of the entries that have expired at a time.
    pub fn evict_expired_at(&mut self, now: Timestamp) -> (r: Option<Arc<CacheEntry>>)
        requires
            old(self).wf(),
        ensures
            final(self).wf(),
            expiry_outcome(old(self)@, final(self)@, r, now),
    {
        let ghost entries = self@.entries;
        let ghost old_one = |e: EntryModel| e.expired(now);
        let values = self.tables.values();
        proof {
            lemma_first(entries, old_one);
        }
        let mut i: usize = 0;
        while i < values.len()
            invariant
                self.wf(),
                self@ == old(self)@,
                entries == self@.entries,
                old_one == (|e: EntryModel| e.expired(now)),
                i <= values@.len() == entries.len(),
                forall|j: int| 0 <= j < values@.len() ==> (#[trigger] values@[j])@ == entries[j],
                forall|j: int| 0 <= j < i ==> !old_one(#[trigger] entries[j]),
            decreases values@.len() - i,
        {
            let entry = &values[i];
            assert(entry@ == entries[i as int]);
            if entry.is_expired_at(now) {
                let key = CacheKey::new(entry.domain_name.clone(), entry.record_type);
                proof {
                    self.lemma_well_kept();
                    lemma_first_is(entries, old_one, i as int);
                    lemma_first_is(entries, |e: EntryModel| e.key() == key@, i as int);
                }
                self.tables.remove(&key);
                self.counts.expirations = self.counts.expirations.wrapping_add(1);
                return Some(share(entry));
            }
            i = i + 1;
        }
        None
    }

    /// Removes the entries that have expired by now and gives their number.
    pub fn prune_expired(&mut self) -> (r: usize)
        requires
            old(self).wf(),
        ensures
            final(self).wf(),
            exists|now: Timestamp|
                now.nanos <= latest_reading() && #[trigger] prune_outcome(old(self)@, final(self)@, r as nat, now),
    {
        let now = Timestamp::now();
        let ghost before = self@;
        let r: usize = self.prune_expired_at(now);
        assert(prune_outcome(before, self@, r as nat, now));
        r
    }

    /// Removes the entries that have expired at a time and gives their number.
    pub fn prune_expired_at(&mut self, now: Timestamp) -> (r: usize)
        requires
            old(self).wf(),
        ensures
            final(self).wf(),
            prune_outcome(old(self)@, final(self)@, r as nat, now),
    {
        let ghost start = self@;
        let ghost entries = self@.entries;
        let ghost p = |e: EntryModel| !e.expired(now);
        let values = self.tables.values();
        let mut removed: usize = 0;
        let mut i: usize = 0;
        proof {
            self.lemma_well_kept();
            entries.take(0).lemma_filter_len(p);
            assert(entries.take(0).filter(p) =~= Seq::<EntryModel>::empty());
            assert(self@.entries =~= entries.take(0).filter(p) + entries.skip(0));
            assert(plus(start.counts.expirations, 0) == start.counts.expirations);
        }
        while i < values.len()
            invariant
                self.wf(),
                start == old(self)@,
                entries == start.entries,
                start.well_kept(),
                p == (|e: EntryModel| !e.expired(now)),
                i <= values@.len() == entries.len(),
                forall|j: int| 0 <= j < values@.len() ==> (#[trigger] values@[j])@ == entries[j],
                self@.entries == entries.take(i as int).filter(p) + entries.skip(i as int),
                removed + entries.take(i as int).filter(p).len() == i,
                self@ == (CacheModel {
                    entries: self@.entries,
                    counts: Counts {
                        expirations: plus(start.counts.expirations, removed as nat),
                        ..start.counts
                    },
                    ..start
                }),
            decreases values@.len() - i,
        {
            let entry = &values[i];
            let ghost head = entries.take(i as int);
            let ghost kept = head.filter(p);
            let ghost now_held = self@.entries;
            proof {
                assert(entry@ == entries[i as int]);
                assert(entries.take(i + 1) =~= head.push(entries[i as int]));
                head.lemma_filter_push(entries[i as int], p);
                assert(now_held[kept.len() as int] == entries[i as int]);
            }
            if entry.is_expired_at(now) {
                let key = CacheKey::new(entry.domain_name.clone(), entry.record_type);
                proof {
                    self.lemma_well_kept();
                    assert(now_held[kept.len() as int].key() == key@);
                    lemma_first_is(
                        now_held,
                        |e: EntryModel| e.key() == key@,
                        kept.len() as int,
                    );
                    assert(now_held.remove(kept.len() as int) =~= kept + entries.skip(i + 1));
                    lemma_plus_one(start.counts.expirations, removed as nat);
                }
                self.tables.remove(&key);
                self.counts.expirations = self.counts.expirations.wrapping_add(1);
                removed = removed + 1;
            } else {
                proof {
                    assert(now_held =~= kept.push(entries[i as int]) + entries.skip(i + 1));
                }
            }
            i = i + 1;
        }
        proof {
            assert(entries.take(i as int) =~= entries);
            assert(entries.filter(p) + entries.skip(i as int) =~= entries.filter(p));
        }
        removed
    }

    /// Puts an entry for a DHCP lease into the cache, now.
    pub fn add_dhcp_entry(&mut self, hostname: DomainName, addr: IpAddr, ttl: u32) -> (r: Result<
        (),
        DnsmasqError,
    >)
        requires
            old(self).wf(),
        ensures
            final(self).wf(),
            r is Ok,
            exists|now: Timestamp|
                now.nanos <= latest_reading() && #[trigger] dhcp_inserted(
                    old(self)@,
                    hostname@,
                    addr,
                    ttl,
                    now,
                ) == final(self)@,
    {
        let now = Timestamp::now();
        let ghost before = self@;
        let r = self.add_dhcp_entry_at(hostname, addr, ttl, now);
        assert(dhcp_inserted(before, hostname@, addr, ttl, now) == self@);
        r
    }

    /// Puts an entry for a DHCP lease into the cache at a given time.
    pub fn add_dhcp_entry_at(&mut self, hostname: DomainName, addr: IpAddr, ttl: u32, now: Timestamp) -> (r:
        Result<(), DnsmasqError>)
        requires
            old(self).wf(),
            now.nanos <= latest_reading(),
        ensures
            final(self).wf(),
            r is Ok,
            final(self)@ == dhcp_inserted(old(self)@, hostname@, addr, ttl, now),
    {
        let record_type = if addr.is_ipv4() {
            RecordType::A
        } else {
            RecordType::AAAA
        };
        let flags: u32 = CacheFlags::DHCP | CacheFlags::FORWARD;
        let entry = CacheEntry::new_at(hostname, record_type, Some(addr), ttl, flags, now);
        self.insert(entry)
    }

    /// Removes the entry of a DHCP lease. An entry from another source stays.
    pub fn remove_dhcp_entry(&mut self, hostname: &DomainName, record_type: RecordType) -> (r: bool)
        requires
            old(self).wf(),
        ensures
            final(self).wf(),
            r == old(self)@.lease_position(hostname@, record_type) is Some,
            final(self)@ == old(self)@.lease_removed(hostname@, record_type),
    {
        let key = CacheKey::new(hostname.clone(), record_type);
        proof {
            lemma_first(self@.entries, |e: EntryModel| e.key() == key@);
        }
        if let Some(entry) = self.tables.peek(&key) {
            if entry.is_dhcp() {
                self.tables.remove(&key);
                return true;
            }
        }
        false
    }

    /// Puts the host names of one line of a hosts file into the cache, in order. Names that are
    /// not domain names are passed over; the number of the others is returned.
    pub fn add_hosts_at(&mut self, addr: IpAddr, hostnames: &Vec<String>, now: Timestamp) -> (r: usize)
        requires
            old(self).wf(),
            now.nanos <= latest_reading(),
        ensures
            final(self).wf(),
            final(self)@ == hosts_inserted(old(self)@, addr, texts(hostnames@), now),
            r == host_count(texts(hostnames@)),
    {
        let ghost start = self@;
        let ghost names = texts(hostnames@);
        let mut count: usize = 0;
        let mut i: usize = 0;
        assert(names.take(0) =~= Seq::<Seq<char>>::empty());
        while i < hostnames.len()
            invariant
                self.wf(),
                now.nanos <= latest_reading(),
                names == texts(hostnames@),
                i <= hostnames@.len(),
                count <= i,
                self@ == hosts_inserted(start, addr, names.take(i as int), now),
                count == host_count(names.take(i as int)),
            decreases hostnames@.len() - i,
        {
            proof {
                assert(names.take(i + 1).drop_last() =~= names.take(i as int));
                assert(names[i as int] == hostnames@[i as int]@);
            }
            if let Ok(domain) = DomainName::new(hostnames[i].as_str()) {
                let record_type = if addr.is_ipv4() {
                    RecordType::A
                } else {
                    RecordType::AAAA
                };
                let flags: u32 = CacheFlags::HOSTS | CacheFlags::FORWARD;
                let entry = CacheEntry::new_at(
                    domain,
                    record_type,
                    Some(addr),
                    0xffff_ffff,
                    flags,
                    now,
                );
                let _ = self.insert(entry);
                count = count + 1;
            }
            i = i + 1;
        }
        assert(names.take(i as int) =~= names);
        count
    }

    /// The entries, the most recently used first.
    pub fn entries(&self) -> (r: Vec<Arc<CacheEntry>>)
        ensures
            r@.len() == self@.entries.len(),
            forall|i: int| 0 <= i < r@.len() ==> (#[trigger] r@[i])@ == self@.entries[i],
    {
        self.tables.values()
    }

    /// Removes every entry; the counts stay.
    pub fn clear(&mut self)
        requires
            old(self).wf(),
        ensures
            final(self).wf(),
            final(self)@ == (CacheModel { entries: Seq::empty(), ..old(self)@ }),
    {
        self.tables.clear();
    }

    /// The number of entries.
    pub fn len(&self) -> (r: usize)
        requires
            self.wf(),
        ensures
            r == self@.entries.len(),
    {
        self.tables.len()
    }

    /// True when there are no entries.
    pub fn is_empty(&self) -> (r: bool)
        requires
            self.wf(),
        ensures
            r == (self@.entries.len() == 0),
    {
        self.tables.len() == 0
    }

    /// The number of entries that the cache was made for.
    pub fn capacity(&self) -> (r: usize)
        ensures
            r == self@.capacity,
    {
        self.capacity
    }

    /// The statistics.
    pub fn get_stats(&self) -> (r: CacheStats)
        requires
            self.wf(),
        ensures
            r == self@.stats(),
    {
        CacheStats {
            lookups: self.counts.lookups,
            hits: self.counts.hits,
            misses: self.counts.misses,
            current_size: self.tables.len(),
            capacity: self.capacity,
            evictions: self.counts.evictions,
            expirations: self.counts.expirations,
            insertions: self.counts.insertions,
        }
    }
}

/// True when an entry has the given address.
fn same_address(a: &Option<IpAddr>, b: &IpAddr) -> (r: bool)
    ensures
        r == (*a == Some(*b)),
{
    match a {
        Some(x) => *x == *b,
        None => false,
    }
}

proof fn lemma_plus_one(n: u64, k: nat)
    ensures
        up(plus(n, k)) == plus(n, k + 1),
{
}

/// The cache after an entry for a lease has come in.
pub open spec fn dhcp_inserted(
    cache: CacheModel,
    hostname: Seq<Seq<u8>>,
    addr: IpAddr,
    ttl: u32,
    now: Timestamp,
) -> CacheModel {
    cache.inserted(
        new_entry(
            hostname,
            address_type(addr),
            Some(addr),
            ttl,
            CacheFlags::DHCP | CacheFlags::FORWARD,
            now,
        ),
    )
}

/// What the strings of a list hold.
pub open spec fn texts(v: Seq<String>) -> Seq<Seq<char>> {
    v.map_values(|s: String| s@)
}

/// The address and the host names of a line of a hosts file; none for blank lines, comments and
/// lines without a host name.
pub open spec fn hosts_line(line: Seq<char>) -> Option<(Seq<char>, Seq<Seq<char>>)> {
    let body = trimmed(line);
    if body.len() == 0 || body[0] == '#' || words(body).len() < 2 {
        None
    } else {
        Some((words(body)[0], words(body).skip(1)))
    }
}

/// A line of a hosts file is an address and then host names, with white space between them; that at
/// the ends of the line does not matter.
pub proof fn law_hosts_line(
    before: Seq<char>,
    address: Seq<char>,
    c: char,
    names: Seq<char>,
    after: Seq<char>,
)
    requires
        all_white(before),
        all_white(after),
        address.len() > 0,
        address[0] != '#',
        forall|i: int| 0 <= i < address.len() ==> !is_white(#[trigger] address[i]),
        is_white(c),
        names.len() > 0,
        !is_white(names.last()),
    ensures
        hosts_line(before + (address + seq![c] + names) + after) == Some((address, words(names))),
{
    let body = address + seq![c] + names;
    assert(body[0] == address[0] && !is_white(address[0]));
    assert(body.last() == names.last());
    law_trimmed(before, body, after);
    law_one_word(address);
    law_words_joined(address, c, names);
    assert(words(names).len() > 0);
    assert(words(body)[0] == address);
    assert(words(body).skip(1) =~= words(names));
}

/// Nothing is read from a line of white space, from a comment, and from an address without a host
/// name.
pub proof fn law_no_hosts_line(white: Seq<char>, rest: Seq<char>, address: Seq<char>)
    requires
        all_white(white),
        forall|i: int| 0 <= i < address.len() ==> !is_white(#[trigger] address[i]),
    ensures
        hosts_line(white) is None,
        hosts_line(white + seq!['#'] + rest) is None,
        hosts_line(white + address + white) is None,
{
    law_trimmed(white, Seq::empty(), Seq::empty());
    assert(white + Seq::<char>::empty() + Seq::<char>::empty() =~= white);
    law_trimmed_start(white, '#', rest);
    if address.len() > 0 {
        assert(!is_white(address[0]) && !is_white(address[address.len() - 1]));
        law_one_word(address);
    }
    law_trimmed(white, address, white);
}

/// The address and the host names of a line of a hosts file, as texts.
pub fn parse_hosts_line(line: &str) -> (r: Option<(String, Vec<String>)>)
    ensures
        match (r, hosts_line(line@)) {
            (Some(p), Some(w)) => p.0@ == w.0 && texts(p.1@) == w.1,
            (None, None) => true,
            _ => false,
        },
{
    let chars = chars_of(line);
    let body = trim_chars(chars.as_slice());
    if body.len() == 0 || body[0] == '#' {
        return None;
    }
    let parts = words_of(body.as_slice());
    if parts.len() < 2 {
        return None;
    }
    assert(deep(parts@)[0] == parts@[0]@);
    let address = string_of(parts[0].as_slice());
    let mut names: Vec<String> = Vec::new();
    let mut i: usize = 1;
    while i < parts.len()
        invariant
            1 <= i <= parts@.len(),
            names@.len() == i - 1,
            forall|j: int| 0 <= j < names@.len() ==> (#[trigger] names@[j])@ == parts@[j + 1]@,
        decreases parts@.len() - i,
    {
        names.push(string_of(parts[i].as_slice()));
        i = i + 1;
    }
    proof {
        let want = words(body@).skip(1);
        assert forall|j: int| 0 <= j < want.len() implies #[trigger] texts(names@)[j] == want[j] by {
            assert(deep(parts@)[j + 1] == parts@[j + 1]@);
            assert(names@[j]@ == parts@[j + 1]@);
        }
        assert(texts(names@) =~= want);
    }
    Some((address, names))
}

/// The cache after the host names of a line have come in, in order; such entries get the longest
/// lifetime there is.
pub open spec fn hosts_inserted(
    cache: CacheModel,
    addr: IpAddr,
    names: Seq<Seq<char>>,
    now: Timestamp,
) -> CacheModel
    decreases names.len(),
{
    if names.len() == 0 {
        cache
    } else {
        let before = hosts_inserted(cache, addr, names.drop_last(), now);
        match parse_name(names.last()) {
            Some(domain) => before.inserted(
                new_entry(
                    domain,
                    address_type(addr),
                    Some(addr),
                    0xffff_ffff,
                    CacheFlags::HOSTS | CacheFlags::FORWARD,
                    now,
                ),
            ),
            None => before,
        }
    }
}

/// The number of texts that are domain names.
pub open spec fn host_count(names: Seq<Seq<char>>) -> nat
    decreases names.len(),
{
    if names.len() == 0 {
        0
    } else {
        host_count(names.drop_last()) + if parse_name(names.last()) is Some {
            1nat
        } else {
            0nat
        }
    }
}

/// The outcome of removing one expired entry: the first there is leaves and is given.
pub open spec fn expiry_outcome(
    before: CacheModel,
    after: CacheModel,
    r: Option<Arc<CacheEntry>>,
    now: Timestamp,
) -> bool {
    match first(before.entries, |e: EntryModel| e.expired(now)) {
        Some(i) => after == before.expired_at(i) && gives(r, Some(before.entries[i])),
        None => after == before && r is None,
    }
}

/// The outcome of removing all expired entries: the others stay in their order, and those removed
/// are counted.
pub open spec fn prune_outcome(
    before: CacheModel,
    after: CacheModel,
    removed: nat,
    now: Timestamp,
) -> bool {
    &&& removed == before.entries.len() - before.live(now).len()
    &&& after == (CacheModel {
        entries: before.live(now),
        counts: Counts {
            expirations: plus(before.counts.expirations, removed),
            ..before.counts
        },
        ..before
    })
}

/// An insertion keeps every key once and the cache within its capacity.
pub proof fn law_insert_keeps(cache: CacheModel, entry: EntryModel)
    requires
        cache.well_kept(),
    ensures
        cache.inserted(entry).well_kept(),
{
    let key = entry.key();
    let p = |e: EntryModel| e.key() == key;
    lemma_first(cache.entries, p);
    let ready = if cache.entries.len() >= cache.capacity && find(cache.entries, key) is None {
        cache.evicted()
    } else {
        cache
    };
    lemma_first(ready.entries, p);
    assert forall|i: int, j: int| 0 <= i < j < ready.entries.len() implies (
    #[trigger] ready.entries[i]).key() != (#[trigger] ready.entries[j]).key() by {
        assert(ready.entries[i] == cache.entries[i] && ready.entries[j] == cache.entries[j]);
    }
    if let Some(i) = find(ready.entries, key) {
        if ready.entries.len() < cache.entries.len() {
            assert(ready.entries[i] == cache.entries[i]);
        }
    }
    let after = cache.inserted(entry).entries;
    assert forall|i: int, j: int| 0 <= i < j < after.len() implies (#[trigger] after[i]).key() != (
    #[trigger] after[j]).key() by {
        match find(ready.entries, key) {
            Some(k) => {
                let rest = ready.entries.remove(k);
                assert(after[j] == rest[j - 1]);
                let y = if j - 1 < k {
                    j - 1
                } else {
                    j
                };
                assert(rest[j - 1] == ready.entries[y]);
                if i == 0 {
                    assert(ready.entries[k].key() == key);
                } else {
                    let x = if i - 1 < k {
                        i - 1
                    } else {
                        i
                    };
                    assert(rest[i - 1] == ready.entries[x]);
                    assert(after[i] == rest[i - 1]);
                }
            },
            None => {
                assert(after[j] == ready.entries[j - 1]);
                if i > 0 {
                    assert(after[i] == ready.entries[i - 1]);
                }
            },
        }
    }
}

/// A lookup keeps every key once and the cache within its capacity.
pub proof fn law_lookup_keeps(cache: CacheModel, at: Option<int>, now: Timestamp)
    requires
        cache.well_kept(),
        at matches Some(i) ==> 0 <= i < cache.entries.len(),
    ensures
        cache.looked_up(at, now).well_kept(),
{
    if let Some(k) = at {
        let rest = cache.entries.remove(k);
        let moved = cache.promoted(k);
        assert forall|i: int, j: int| 0 <= i < j < rest.len() implies (#[trigger] rest[i]).key() != (
        #[trigger] rest[j]).key() by {
            let x = if i < k {
                i
            } else {
                i + 1
            };
            let y = if j < k {
                j
            } else {
                j + 1
            };
            assert(rest[i] == cache.entries[x] && rest[j] == cache.entries[y]);
        }
        assert forall|i: int, j: int| 0 <= i < j < moved.len() implies (#[trigger] moved[i]).key()
            != (#[trigger] moved[j]).key() by {
            assert(moved[j] == rest[j - 1]);
            if i > 0 {
                assert(moved[i] == rest[i - 1]);
            } else {
                let y = if j - 1 < k {
                    j - 1
                } else {
                    j
                };
                assert(rest[j - 1] == cache.entries[y]);
                assert(cache.entries[k].key() != cache.entries[y].key());
            }
        }
    }
}

/// What was put into the cache is found under its name and type, as long as it has not expired.
pub proof fn law_find_after_insert(cache: CacheModel, entry: EntryModel, now: Timestamp)
    requires
        !entry.expired(now),
    ensures
        find(cache.inserted(entry).entries, entry.key()) == Some(0int),
        cache.inserted(entry).answer(find(cache.inserted(entry).entries, entry.key()), now) == Some(
            entry,
        ),
{
    let after = cache.inserted(entry).entries;
    assert(after[0] == entry);
    lemma_first_is(after, |e: EntryModel| e.key() == entry.key(), 0);
}

/// An insertion drives out no entry but the least recently used, and that only where the cache is
/// full and the key is new.
pub proof fn law_insert_spares(cache: CacheModel, entry: EntryModel, i: int)
    requires
        cache.well_kept(),
        0 <= i < cache.entries.len(),
        cache.entries[i].key() != entry.key(),
        i + 1 < cache.entries.len() || cache.entries.len() < cache.capacity || find(
            cache.entries,
            entry.key(),
        ) is Some,
    ensures
        cache.inserted(entry).entries.contains(cache.entries[i]),
{
    let key = entry.key();
    let p = |e: EntryModel| e.key() == key;
    lemma_first(cache.entries, p);
    let ready = if cache.entries.len() >= cache.capacity && find(cache.entries, key) is None {
        cache.evicted()
    } else {
        cache
    };
    lemma_first(ready.entries, p);
    assert(ready.entries[i] == cache.entries[i]);
    let after = cache.inserted(entry).entries;
    match find(ready.entries, key) {
        Some(k) => {
            let x = if i < k {
                i
            } else {
                i - 1
            };
            assert(ready.entries.remove(k)[x] == cache.entries[i]);
            assert(after[x + 1] == cache.entries[i]);
        },
        None => {
            assert(after[i + 1] == cache.entries[i]);
        },
    }
}

/// Every lookup is counted once, and either as a hit or as a miss; it is a hit exactly when it
/// gives an entry.
pub proof fn law_lookup_counts(cache: CacheModel, at: Option<int>, now: Timestamp)
    ensures
        ({
            let before = cache.counts;
            let after = cache.looked_up(at, now).counts;
            let hit = cache.answer(at, now) is Some;
            &&& after.lookups == up(before.lookups)
            &&& hit ==> after.hits == up(before.hits) && after.misses == before.misses
            &&& !hit ==> after.misses == up(before.misses) && after.hits == before.hits
            &&& after.insertions == before.insertions && after.evictions == before.evictions
        }),
{
}

/// A lookup never gives an entry that has expired, and an expired entry that it meets is gone
/// afterwards.
pub proof fn law_no_stale_answer(cache: CacheModel, key: KeyModel, now: Timestamp)
    requires
        cache.well_kept(),
    ensures
        ({
            let at = find(cache.entries, key);
            &&& cache.answer(at, now) matches Some(e) ==> !e.expired(now) && e.key() == key
            &&& at is Some && cache.entries[at->0].expired(now) ==> find(
                cache.looked_up(at, now).entries,
                key,
            ) is None
        }),
{
    let p = |e: EntryModel| e.key() == key;
    lemma_first(cache.entries, p);
    if let Some(i) = find(cache.entries, key) {
        if cache.entries[i].expired(now) {
            let rest = cache.entries.remove(i);
            lemma_first(rest, p);
            if let Some(j) = find(rest, key) {
                let y = if j < i {
                    j
                } else {
                    j + 1
                };
                assert(rest[j] == cache.entries[y]);
            }
        }
    }
}

/// An entry lives for its time to live: it is not expired before that many seconds are over, and is from
/// then on. When it comes in all of them are left.
pub proof fn law_entry_lifetime(
    name: Seq<Seq<u8>>,
    record_type: RecordType,
    ip_addr: Option<IpAddr>,
    ttl: u32,
    flags: u32,
    made: Timestamp,
    now: Timestamp,
)
    requires
        made.nanos <= latest_reading(),
    ensures
        ({
            let e = new_entry(name, record_type, ip_addr, ttl, flags, made);
            &&& e.expired(now) <==> now.nanos >= made.nanos + ttl * 1_000_000_000
            &&& remaining_secs(e.expiry, made) == ttl
            &&& e.expired(now) ==> remaining_secs(e.expiry, now) == 0
            &&& e.record.ttl == ttl && e.record.name == name && e.record.rtype == record_type && e.record.class
                == 1
            &&& e.domain_name == name && e.record_type == record_type && e.ip_addr == ip_addr && e.flags
                == flags && e.insert_time == made
        }),
{
}

/// The time that is left is counted in whole seconds.
pub proof fn law_remaining_time(now: Timestamp, expiry: Timestamp, seconds: u32, nanos: u32)
    requires
        nanos < 1_000_000_000,
        expiry.nanos == now.nanos + seconds * 1_000_000_000 + nanos,
    ensures
        remaining_secs(expiry, now) == seconds,
{
}

/// From its expiry on an entry has no time left, and no entry has more than 0xffff_ffff seconds.
pub proof fn law_remaining_time_bounds(now: Timestamp, expiry: Timestamp)
    ensures
        expiry.nanos <= now.nanos ==> remaining_secs(expiry, now) == 0,
        now.nanos + 0xffff_ffff * 1_000_000_000 <= expiry.nanos ==> remaining_secs(expiry, now)
            == 0xffff_ffff,
{
}

/// The record for an address holds the address: an A record that of IPv4, an AAAA record that of IPv6.
pub proof fn law_address_records(a: Ipv4Addr, b: Ipv6Addr)
    ensures
        address_type(IpAddr::V4(a)) == RecordType::A,
        address_type(IpAddr::V6(b)) == RecordType::AAAA,
        address_data(RecordType::A, Some(IpAddr::V4(a))) == RDataModel::A(a),
        address_data(RecordType::AAAA, Some(IpAddr::V6(b))) == RDataModel::AAAA(b),
        address_data(RecordType::A, Some(IpAddr::V6(b))) is Unknown,
        address_data(RecordType::AAAA, Some(IpAddr::V4(a))) is Unknown,
        address_data(RecordType::A, None) is Unknown,
{
}

/// The name of a lease is found under its name, whatever the case of its letters, and the type of its
/// address, for as long as the lease lasts, and not from then on. What is found has the address, is marked
/// as a lease and not as a line of the hosts file, and tells the time that is left.
pub proof fn law_lease_names(
    cache: CacheModel,
    hostname: Seq<Seq<u8>>,
    addr: IpAddr,
    ttl: u32,
    added: Timestamp,
    asked: Seq<Seq<u8>>,
    now: Timestamp,
)
    requires
        added.nanos <= latest_reading(),
        canon(asked) == canon(hostname),
    ensures
        ({
            let after = dhcp_inserted(cache, hostname, addr, ttl, added);
            let record_type = if addr is V4 {
                RecordType::A
            } else {
                RecordType::AAAA
            };
            let found = after.answer(
                find(after.entries, KeyModel { domain: canon(asked), record_type }),
                now,
            );
            &&& found is Some <==> now.nanos < added.nanos + ttl * 1_000_000_000
            &&& found matches Some(e) ==> {
                &&& e.ip_addr == Some(addr)
                &&& e.domain_name == hostname
                &&& e.record.ttl == ttl
                &&& e.record.rdata == match addr {
                    IpAddr::V4(a) => RDataModel::A(a),
                    IpAddr::V6(a) => RDataModel::AAAA(a),
                }
                &&& e.flags == 16 | 8
                &&& now.nanos >= added.nanos ==> remaining_secs(e.expiry, now) == (added.nanos + ttl
                    * 1_000_000_000 - now.nanos) / 1_000_000_000
            }
        }),
{
    let e = new_entry(hostname, address_type(addr), Some(addr), ttl, CacheFlags::DHCP | CacheFlags::FORWARD, added);
    let after = cache.inserted(e);
    assert(after.entries[0] == e);
    lemma_first_is(after.entries, |x: EntryModel| x.key() == e.key(), 0);
}

/// A name of the hosts file is found under its name and the type of its address for more than a hundred
/// years. What is found has the address and is marked as a line of the hosts file. A text that is no name
/// changes nothing.
pub proof fn law_hosts_names(
    cache: CacheModel,
    addr: IpAddr,
    names: Seq<Seq<char>>,
    text: Seq<char>,
    added: Timestamp,
    now: Timestamp,
)
    requires
        added.nanos <= latest_reading(),
    ensures
        match parse_name(text) {
            Some(name) => {
                let after = hosts_inserted(cache, addr, names.push(text), added);
                let record_type = if addr is V4 {
                    RecordType::A
                } else {
                    RecordType::AAAA
                };
                let found = after.answer(
                    find(after.entries, KeyModel { domain: canon(name), record_type }),
                    now,
                );
                &&& found is Some <==> now.nanos < added.nanos + 0xffff_ffff * 1_000_000_000
                &&& found matches Some(e) ==> e.ip_addr == Some(addr) && e.domain_name == name && e.flags
                    == 64 | 8 && e.record.rdata == match addr {
                    IpAddr::V4(a) => RDataModel::A(a),
                    IpAddr::V6(a) => RDataModel::AAAA(a),
                }
                &&& host_count(names.push(text)) == host_count(names) + 1
            },
            None => hosts_inserted(cache, addr, names.push(text), added) == hosts_inserted(
                cache,
                addr,
                names,
                added,
            ) && host_count(names.push(text)) == host_count(names),
        },
        hosts_inserted(cache, addr, Seq::empty(), added) == cache,
        host_count(Seq::empty()) == 0,
{
    assert(names.push(text).drop_last() =~= names);
    if let Some(name) = parse_name(text) {
        let before = hosts_inserted(cache, addr, names, added);
        let e = new_entry(
            name,
            address_type(addr),
            Some(addr),
            0xffff_ffff,
            CacheFlags::HOSTS | CacheFlags::FORWARD,
            added,
        );
        let after = before.inserted(e);
        assert(after.entries[0] == e);
        lemma_first_is(after.entries, |x: EntryModel| x.key() == e.key(), 0);
    }
}

/// The marks of entries are different bits: reverse 4, forward 8, lease 16, hosts file 64, validated 0x8000.
/// A set has a mark exactly where the bit of the mark is set in it.
pub proof fn law_marks(set: u32)
    ensures
        CacheFlags::REVERSE == 4 && CacheFlags::FORWARD == 8 && CacheFlags::DHCP == 16 && CacheFlags::HOSTS
            == 64 && CacheFlags::DNSSECOK == 0x8000,
        CacheFlags::has(set, CacheFlags::REVERSE) <==> set & 4 != 0,
        CacheFlags::has(set, CacheFlags::FORWARD) <==> set & 8 != 0,
        CacheFlags::has(set, CacheFlags::DHCP) <==> set & 16 != 0,
        CacheFlags::has(set, CacheFlags::HOSTS) <==> set & 64 != 0,
        CacheFlags::has(set, CacheFlags::DNSSECOK) <==> set & 0x8000 != 0,
{
    assert(set & 4 == 4 <==> set & 4 != 0) by (bit_vector);
    assert(set & 8 == 8 <==> set & 8 != 0) by (bit_vector);
    assert(set & 16 == 16 <==> set & 16 != 0) by (bit_vector);
    assert(set & 64 == 64 <==> set & 64 != 0) by (bit_vector);
    assert(set & 0x8000 == 0x8000 <==> set & 0x8000 != 0) by (bit_vector);
}

/// What a lookup by name finds is the entry with that name and type, and nothing where there is none.
pub proof fn law_lookup_by_name(cache: CacheModel, domain: Seq<Seq<u8>>, record_type: RecordType, i: int, now: Timestamp)
    requires
        cache.well_kept(),
        0 <= i < cache.entries.len(),
    ensures
        ({
            let at = find(cache.entries, KeyModel { domain: canon(domain), record_type });
            let fits = canon(cache.entries[i].domain_name) == canon(domain) && cache.entries[i].record_type
                == record_type;
            &&& fits ==> at == Some(i)
            &&& fits ==> (cache.answer(at, now) is Some <==> now.nanos < cache.entries[i].expiry.nanos)
            &&& cache.answer(at, now) == Some(cache.entries[i]) ==> fits
        }),
{
    let key = KeyModel { domain: canon(domain), record_type };
    let p = |e: EntryModel| e.key() == key;
    lemma_first(cache.entries, p);
    let fits = canon(cache.entries[i].domain_name) == canon(domain) && cache.entries[i].record_type
        == record_type;
    if fits {
        assert(p(cache.entries[i]));
        assert forall|j: int| 0 <= j < i implies !p(#[trigger] cache.entries[j]) by {
            assert(cache.entries[j].key() != cache.entries[i].key());
        }
        lemma_first_is(cache.entries, p, i);
    } else {
        assert(!p(cache.entries[i]));
    }
}

/// What a lookup by address finds has the address; it is live where any entry with the address is, and then
/// the most recently used of these.
pub proof fn law_lookup_by_address(cache: CacheModel, addr: IpAddr, now: Timestamp, i: int)
    requires
        0 <= i < cache.entries.len(),
    ensures
        ({
            let at = cache.address_position(addr, now);
            let fits = cache.entries[i].ip_addr == Some(addr) && now.nanos < cache.entries[i].expiry.nanos;
            &&& at matches Some(k) ==> 0 <= k < cache.entries.len() && cache.entries[k].ip_addr == Some(addr)
            &&& fits ==> (at matches Some(k) && k <= i && now.nanos < cache.entries[k].expiry.nanos)
            &&& fits ==> cache.answer(at, now) is Some
            &&& at is None ==> cache.entries[i].ip_addr != Some(addr)
            &&& cache.answer(at, now) matches Some(e) ==> e.ip_addr == Some(addr) && now.nanos < e.expiry.nanos
        }),
{
    let good = |e: EntryModel| e.ip_addr == Some(addr) && !e.expired(now);
    let same = |e: EntryModel| e.ip_addr == Some(addr);
    lemma_first(cache.entries, good);
    lemma_first(cache.entries, same);
    let fits = cache.entries[i].ip_addr == Some(addr) && now.nanos < cache.entries[i].expiry.nanos;
    if fits {
        assert(good(cache.entries[i]));
    }
    if cache.address_position(addr, now) is None {
        assert(!same(cache.entries[i]));
    }
}

/// A new key in a full cache drives out the entry that was used longest ago, and no other; in a cache with
/// room nothing leaves; and an entry with the same key is replaced. The new entry is then the most recently
/// used, and the others keep their order.
pub proof fn law_least_recently_used_leaves(cache: CacheModel, entry: EntryModel)
    requires
        cache.well_kept(),
    ensures
        ({
            let after = cache.inserted(entry);
            let known = exists|i: int| 0 <= i < cache.entries.len() && (#[trigger] cache.entries[i]).key()
                == entry.key();
            &&& after.entries[0] == entry
            &&& !known && cache.entries.len() < cache.capacity ==> after.entries.skip(1) == cache.entries
            &&& !known && cache.entries.len() >= cache.capacity && cache.entries.len() > 0
                ==> after.entries.skip(1) == cache.entries.take(cache.entries.len() - 1)
                && after.counts.evictions == up(cache.counts.evictions)
            &&& known || cache.entries.len() < cache.capacity ==> after.counts.evictions
                == cache.counts.evictions
            &&& after.counts.insertions == up(cache.counts.insertions)
            &&& after.capacity == cache.capacity
        }),
        forall|i: int|
            0 <= i < cache.entries.len() && (#[trigger] cache.entries[i]).key() == entry.key()
                ==> cache.inserted(entry).entries.skip(1) == cache.entries.remove(i),
{
    let key = entry.key();
    let p = |e: EntryModel| e.key() == key;
    lemma_first(cache.entries, p);
    let after = cache.inserted(entry).entries;
    match find(cache.entries, key) {
        Some(k) => {
            assert(cache.entries[k].key() == key);
            assert(after.skip(1) =~= cache.entries.remove(k));
            assert forall|i: int|
                0 <= i < cache.entries.len() && (#[trigger] cache.entries[i]).key() == key implies after.skip(
                1,
            ) == cache.entries.remove(i) by {
                if i < k {
                    assert(cache.entries[i].key() != cache.entries[k].key());
                } else if k < i {
                    assert(cache.entries[k].key() != cache.entries[i].key());
                }
            }
        },
        None => {
            assert forall|i: int| 0 <= i < cache.entries.len() implies (#[trigger] cache.entries[i]).key()
                != key by {
                assert(!p(cache.entries[i]));
            }
            if cache.entries.len() >= cache.capacity && cache.entries.len() > 0 {
                let rest = cache.entries.drop_last();
                lemma_first(rest, p);
                if let Some(k) = find(rest, key) {
                    assert(rest[k] == cache.entries[k]);
                }
                assert(after.skip(1) =~= cache.entries.take(cache.entries.len() - 1));
            } else {
                assert(after.skip(1) =~= cache.entries);
            }
        },
    }
}

/// A live entry that is looked up becomes the most recently used; the others keep their order, so the next
/// insertion does not drive it out while there is another. Any other lookup changes no entry but an expired
/// one, which leaves.
pub proof fn law_use_counts(cache: CacheModel, at: Option<int>, now: Timestamp)
    requires
        at matches Some(i) ==> 0 <= i < cache.entries.len(),
    ensures
        ({
            let after = cache.looked_up(at, now);
            &&& at matches Some(i) ==> if now.nanos < cache.entries[i].expiry.nanos {
                after.entries[0] == cache.entries[i] && after.entries.skip(1) == cache.entries.remove(i)
            } else {
                after.entries == cache.entries.remove(i) && after.counts.expirations == up(
                    cache.counts.expirations,
                )
            }
            &&& at is None ==> after.entries == cache.entries
            &&& after.capacity == cache.capacity
            &&& cache.answer(at, now) is Some <==> (at matches Some(i) && now.nanos
                < cache.entries[i].expiry.nanos)
        }),
{
    if let Some(i) = at {
        assert(cache.promoted(i).skip(1) =~= cache.entries.remove(i));
    }
}

/// Removing the least recently used entry removes the last, and leaves an empty cache as it is.
pub proof fn law_evict(cache: CacheModel)
    ensures
        cache.entries.len() > 0 ==> cache.evicted().entries == cache.entries.take(cache.entries.len() - 1)
            && cache.evicted().counts.evictions == up(cache.counts.evictions),
        cache.entries.len() == 0 ==> cache.evicted() == cache,
{
    assert(cache.entries.drop_last() =~= cache.entries.take(cache.entries.len() - 1));
}

/// After the expired entries have been removed, exactly those are there that were there and have not
/// expired, in their order, and those removed are counted.
pub proof fn law_prune(before: CacheModel, after: CacheModel, removed: nat, now: Timestamp, e: EntryModel)
    requires
        prune_outcome(before, after, removed, now),
    ensures
        after.entries.contains(e) <==> before.entries.contains(e) && now.nanos < e.expiry.nanos,
        after.entries.len() + removed == before.entries.len(),
        after.counts.expirations == plus(before.counts.expirations, removed),
        after.counts.hits == before.counts.hits && after.counts.misses == before.counts.misses
            && after.counts.lookups == before.counts.lookups && after.counts.evictions
            == before.counts.evictions,
        after.capacity == before.capacity,
{
    let p = |x: EntryModel| !x.expired(now);
    if before.live(now).contains(e) {
        before.entries.lemma_filter_contains_rev(p, e);
        let k = choose|k: int| 0 <= k < before.live(now).len() && before.live(now)[k] == e;
        before.entries.lemma_filter_pred(p, k);
    }
    if before.entries.contains(e) && now.nanos < e.expiry.nanos {
        let k = choose|k: int| 0 <= k < before.entries.len() && before.entries[k] == e;
        before.entries.lemma_filter_contains(p, k);
    }
}

/// Removing one expired entry removes and gives an expired entry where there is one, and changes nothing
/// else.
pub proof fn law_evict_expired(before: CacheModel, after: CacheModel, r: Option<Arc<CacheEntry>>, now: Timestamp, i: int)
    requires
        expiry_outcome(before, after, r, now),
        0 <= i < before.entries.len(),
    ensures
        now.nanos >= before.entries[i].expiry.nanos ==> r is Some,
        r matches Some(e) ==> now.nanos >= e@.expiry.nanos && before.entries.contains(e@) && after.entries.len()
            == before.entries.len() - 1 && after.counts.expirations == up(before.counts.expirations),
        r is None ==> after == before,
{
    let p = |x: EntryModel| x.expired(now);
    lemma_first(before.entries, p);
    if now.nanos >= before.entries[i].expiry.nanos {
        assert(p(before.entries[i]));
    }
}

/// The entry of a lease that has been removed is not found any more. Entries with other names or types, and
/// entries that stem from another source than a lease, stay.
pub proof fn law_lease_removal(cache: CacheModel, hostname: Seq<Seq<u8>>, record_type: RecordType, i: int)
    requires
        cache.well_kept(),
        0 <= i < cache.entries.len(),
    ensures
        ({
            let after = cache.lease_removed(hostname, record_type);
            let e = cache.entries[i];
            let named = canon(e.domain_name) == canon(hostname) && e.record_type == record_type;
            &&& named && e.flags & 16 != 0 ==> cache.lease_position(hostname, record_type) is Some && find(
                after.entries,
                KeyModel { domain: canon(hostname), record_type },
            ) is None
            &&& named && e.flags & 16 == 0 ==> after == cache && cache.lease_position(hostname, record_type)
                is None
            &&& !named ==> after.entries.contains(e)
            &&& after.counts == cache.counts && after.capacity == cache.capacity
        }),
{
    let key = KeyModel { domain: canon(hostname), record_type };
    let p = |x: EntryModel| x.key() == key;
    let e = cache.entries[i];
    lemma_first(cache.entries, p);
    law_marks(e.flags);
    let named = canon(e.domain_name) == canon(hostname) && e.record_type == record_type;
    if named {
        assert(p(e));
        assert forall|j: int| 0 <= j < i implies !p(#[trigger] cache.entries[j]) by {
            assert(cache.entries[j].key() != e.key());
        }
        lemma_first_is(cache.entries, p, i);
        let rest = cache.entries.remove(i);
        lemma_first(rest, p);
        if let Some(k) = find(rest, key) {
            let y = if k < i {
                k
            } else {
                k + 1
            };
            assert(rest[k] == cache.entries[y]);
            assert(p(cache.entries[y]));
        }
    } else {
        let after = cache.lease_removed(hostname, record_type);
        if let Some(k) = cache.lease_position(hostname, record_type) {
            assert(p(cache.entries[k]));
            let x = if i < k {
                i
            } else {
                i - 1
            };
            assert(after.entries[x] == e);
        } else {
            assert(after.entries[i] == e);
        }
    }
}

/// The statistics tell the counts and the number of entries that there are and that the cache is made for.
/// A cache for which no size is configured is made for 150.
pub proof fn law_statistics(cache: CacheModel, capacity: usize)
    requires
        cache.entries.len() <= usize::MAX,
    ensures
        cache.stats().lookups == cache.counts.lookups && cache.stats().hits == cache.counts.hits
            && cache.stats().misses == cache.counts.misses && cache.stats().evictions
            == cache.counts.evictions && cache.stats().expirations == cache.counts.expirations
            && cache.stats().insertions == cache.counts.insertions && cache.stats().current_size
            == cache.entries.len() && cache.stats().capacity == cache.capacity,
        CacheModel::empty(capacity).entries.len() == 0 && CacheModel::empty(capacity).capacity == capacity
            && CacheModel::empty(capacity).counts.lookups == 0 && CacheModel::empty(capacity).counts.hits == 0
            && CacheModel::empty(capacity).counts.misses == 0,
        CACHESIZ == 150,
{
}

} // verus!
