use dnsmasq::clock::{ClockReading, Timestamp};
use dnsmasq::dns::cache::{CacheEntry, DnsCache};
use dnsmasq::dns::dnssec::canonical::{key_tag, signed_data};
use dnsmasq::dns::dnssec::crypto::CryptoError;
use dnsmasq::dns::dnssec::trust_anchors::{Rfc5011State, TrustAnchor, TrustAnchorStore};
use dnsmasq::dns::dnssec::validator::{
    DnssecValidator, ValidationCounter, ValidationResult, ValidationStatus, DNSSEC_LIMIT_CRYPTO,
    DNSSEC_LIMIT_SIG_FAIL, DNSSEC_LIMIT_WORK,
};
use dnsmasq::dns::message::{DnsMessage, Question};
use dnsmasq::dns::name::DomainName;
use dnsmasq::dns::record::{RData, ResourceRecord, CLASS_IN};
use dnsmasq::error::{DnsmasqError, DnssecError};
use dnsmasq::types::{CacheFlags, Ipv4Addr, RecordType};
use ring::signature::KeyPair;

fn name(text: &str) -> DomainName {
    DomainName::new(text).unwrap()
}

fn record(owner: &str, rtype: RecordType, rdata: RData) -> ResourceRecord {
    ResourceRecord::new(name(owner), rtype, CLASS_IN, 300, rdata)
}

fn address(owner: &str, last: u8) -> ResourceRecord {
    record(owner, RecordType::A, RData::A(Ipv4Addr::new(10, 0, 0, last)))
}

fn reading(secs: u128) -> ClockReading {
    ClockReading::Time(Timestamp { nanos: secs * 1_000_000_000 })
}

fn pair() -> ring::signature::Ed25519KeyPair {
    ring::signature::Ed25519KeyPair::from_seed_unchecked(&[3; 32]).unwrap()
}

fn key_data() -> RData {
    RData::Dnskey {
        flags: 256,
        protocol: 3,
        algorithm: 15,
        public_key: pair().public_key().as_ref().to_vec(),
    }
}

fn key_record(owner: &str) -> ResourceRecord {
    record(owner, RecordType::DNSKEY, key_data())
}

fn signature_record(owner: &str, signature: Vec<u8>) -> ResourceRecord {
    record(
        owner,
        RecordType::RRSIG,
        RData::Rrsig {
            type_covered: 1,
            algorithm: 15,
            labels: 2,
            original_ttl: 300,
            expiration: 2000,
            inception: 1000,
            key_tag: key_tag(&key_data().canonical()),
            signer: name("example.org"),
            signature,
        },
    )
}

fn sign(rrset: &Vec<&ResourceRecord>, owner: &str) -> ResourceRecord {
    let blank = signature_record(owner, vec![]);
    let data = signed_data(rrset, &blank).unwrap();
    signature_record(owner, pair().sign(&data).as_ref().to_vec())
}

fn sha256(data: &[u8]) -> Vec<u8> {
    ring::digest::digest(&ring::digest::SHA256, data).as_ref().to_vec()
}

fn delegation(owner: &str, digest_type: u8, digest: Vec<u8>) -> ResourceRecord {
    record(
        owner,
        RecordType::DS,
        RData::Ds { key_tag: 1, algorithm: 15, digest_type, digest },
    )
}

fn key_digest(owner: &str) -> Vec<u8> {
    let mut data = name(owner).to_canonical_wire();
    data.extend_from_slice(&key_data().canonical());
    sha256(&data)
}

#[test]
fn a_signed_record_set_validates() {
    let validator = DnssecValidator::new();
    let (a, b) = (address("www.example.org", 2), address("WWW.example.org", 1));
    let rrset = vec![&a, &b];
    let rrsig = sign(&rrset, "www.example.org");
    let key = key_record("example.org");
    let mut counter = ValidationCounter::new();
    let check = |set: &Vec<&ResourceRecord>, keys: &Vec<&ResourceRecord>, at: u128, c: &mut ValidationCounter| {
        validator.validate_rrset_at(set, &rrsig, keys, c, &reading(at)).unwrap()
    };
    assert!(check(&rrset, &vec![&key], 1500, &mut counter));
    assert!(check(&vec![&b, &a], &vec![&key], 1500, &mut counter));
    assert_eq!(counter.crypto_count, 2);
    assert_eq!(counter.sig_fail_count, 0);

    let c = address("www.example.org", 9);
    assert!(!check(&vec![&a, &c], &vec![&key], 1500, &mut counter));
    assert!(!check(&rrset, &vec![], 1500, &mut counter));
    assert!(!check(&rrset, &vec![&key], 999, &mut counter));
    assert!(!check(&rrset, &vec![&key], 2000, &mut counter));
    assert_eq!(counter.sig_fail_count, 4);
}

#[test]
fn signed_data_is_exact() {
    let a = address("WWW.Example.org", 2);
    let b = address("www.example.org", 1);
    let rrsig = signature_record("www.example.org", vec![1, 2, 3]);
    let data = signed_data(&vec![&a, &b], &rrsig).unwrap();
    let mut want = vec![0, 1, 15, 2, 0, 0, 1, 44, 0, 0, 7, 208, 0, 0, 3, 232];
    want.extend_from_slice(&key_tag(&key_data().canonical()).to_be_bytes());
    want.extend_from_slice(b"\x07example\x03org\x00");
    for last in [1, 2] {
        want.extend_from_slice(b"\x03www\x07example\x03org\x00");
        want.extend_from_slice(&[0, 1, 0, 1, 0, 0, 1, 44, 0, 4, 10, 0, 0, last]);
    }
    // The owner has three labels and the signature counts two: the name below is a wildcard's.
    let wild = b"\x01*\x07example\x03org\x00";
    let mut wild_want = want[..16 + 2 + 13].to_vec();
    for last in [1, 2] {
        wild_want.extend_from_slice(wild);
        wild_want.extend_from_slice(&[0, 1, 0, 1, 0, 0, 1, 44, 0, 4, 10, 0, 0, last]);
    }
    assert_eq!(data, wild_want);
}

#[test]
fn key_tags_are_exact() {
    assert_eq!(key_tag(&[]), 0);
    assert_eq!(key_tag(&[1, 2, 3]), 0x0102 + 0x0300);
    assert_eq!(key_tag(&[0xff; 4]), 0xffff);
}

#[test]
fn signatures_are_valid_in_their_window() {
    let validator = DnssecValidator::new();
    let rrsig = signature_record("a", vec![]);
    let at = |secs: u128| validator.validate_rrsig_timing_at(&rrsig, &reading(secs)).unwrap();
    assert!(!at(999));
    assert!(at(1000));
    assert!(at(1999));
    assert!(!at(2000));
    assert!(at(0x1_0000_0000 + 1500));
    let other = address("a", 1);
    assert!(!validator.validate_rrsig_timing_at(&other, &reading(1500)).unwrap());
    let broken = ClockReading::BeforeEpoch("second time".to_string());
    match validator.validate_rrsig_timing_at(&rrsig, &broken) {
        Err(DnsmasqError::Dnssec(DnssecError::Indeterminate { name, reason })) => {
            assert_eq!(name, "time_validation");
            assert_eq!(reason, "Time error: second time");
        }
        _ => panic!("expected an error"),
    }
    assert!(!validator.validate_rrsig_timing(&rrsig).unwrap());
}

#[test]
fn keys_are_checked_against_delegations() {
    let validator = DnssecValidator::new();
    let key = key_record("Example.org");
    let mut counter = ValidationCounter::new();
    let good = delegation("example.org", 2, key_digest("example.org"));
    let bad = delegation("example.org", 2, vec![0; 32]);
    let odd = delegation("example.org", 9, vec![0; 32]);
    let mut check = |ds: Vec<&ResourceRecord>| validator.validate_dnskey_by_ds(&key, &ds, &mut counter);
    assert!(check(vec![&bad, &good]).unwrap());
    assert!(!check(vec![&bad]).unwrap());
    assert!(!check(vec![]).unwrap());
    assert!(matches!(
        check(vec![&odd, &good]),
        Err(DnsmasqError::Dnssec(DnssecError::NoDsSupported { digest_algorithm_id: 9 }))
    ));
    let other = address("a", 1);
    assert!(!validator.validate_dnskey_by_ds(&other, &vec![&good], &mut counter).unwrap());
}

fn nsec(owner: &str, next: &str, bitmap: &[u8]) -> ResourceRecord {
    record(
        owner,
        RecordType::NSEC,
        RData::Nsec { next_domain: name(next), type_bitmap: bitmap.to_vec() },
    )
}

#[test]
fn nsec_records_deny() {
    let validator = DnssecValidator::new();
    // A (1) and AAAA (28).
    let n = nsec("b.example", "d.example", &[0, 4, 0x40, 0, 0, 0x08]);
    let deny = |q: &str, t: u16| validator.prove_non_existence_nsec(&name(q), t, &vec![&n]).unwrap();
    assert!(!deny("b.example", 1));
    assert!(!deny("c.example", 28));
    assert!(deny("b.example", 2));
    assert!(deny("C.example", 15));
    assert!(!deny("d.example", 2));
    assert!(!deny("a.example", 2));
    let last = nsec("x.example", "example", &[]);
    assert!(validator.prove_non_existence_nsec(&name("z.example"), 1, &vec![&last]).unwrap());
    assert!(!validator.prove_non_existence_nsec(&name("y.example"), 1, &vec![]).unwrap());
}

const OWNER: &str = "0P9MHAVEQVM6T7VBL5LOP2U3T2RP3TOM.example";

fn hash_of_example() -> Vec<u8> {
    vec![
        0x06, 0x53, 0x68, 0xab, 0xee, 0xd7, 0xec, 0x6e, 0x9f, 0xeb, 0xa9, 0x6b, 0x8c, 0x8b, 0xc3,
        0xe8, 0xb7, 0x91, 0xf7, 0x16,
    ]
}

fn nsec3(owner: &str, hash_algorithm: u8, iterations: u16, next: Vec<u8>) -> ResourceRecord {
    record(
        owner,
        RecordType::NSEC3,
        RData::Nsec3 {
            hash_algorithm,
            flags: 0,
            iterations,
            salt: vec![0xaa, 0xbb, 0xcc, 0xdd],
            next_hashed: next,
            type_bitmap: vec![0, 1, 0x40],
        },
    )
}

#[test]
fn names_are_hashed() {
    let validator = DnssecValidator::new();
    let salt = [0xaa, 0xbb, 0xcc, 0xdd];
    assert_eq!(validator.compute_nsec3_hash(&name("Example"), &salt, 12), hash_of_example());
    assert_eq!(DnssecValidator::extract_nsec3_owner_hash(&name(OWNER)).unwrap(), hash_of_example());
    for bad in ["0p9mhave.example", "ZZ.example", "A.example", "."] {
        assert!(matches!(
            DnssecValidator::extract_nsec3_owner_hash(&name(bad)),
            Err(DnsmasqError::Dnssec(DnssecError::BadPacket { .. }))
        ));
    }
}

#[test]
fn nsec3_records_deny() {
    let validator = DnssecValidator::new();
    let mut next = hash_of_example();
    next[0] = 0xff;
    let n = nsec3(OWNER, 1, 12, next.clone());
    let deny = |t: u16, n: &ResourceRecord| {
        validator.prove_non_existence_nsec3(&name("example"), t, &vec![n])
    };
    assert!(!deny(1, &n).unwrap());
    assert!(deny(2, &n).unwrap());
    assert!(matches!(
        deny(2, &nsec3(OWNER, 1, 151, next.clone())),
        Err(DnsmasqError::Dnssec(DnssecError::TooManyIterations {
            iterations: 151,
            max_iterations: 150
        }))
    ));
    assert!(matches!(
        deny(2, &nsec3(OWNER, 2, 12, next.clone())),
        Err(DnsmasqError::Dnssec(DnssecError::NoKeysSupported { algorithm_id: 2 }))
    ));
    assert!(matches!(
        deny(2, &nsec3("ZZ.example", 1, 12, next.clone())),
        Err(DnsmasqError::Dnssec(DnssecError::BadPacket { .. }))
    ));
    assert!(!validator.prove_non_existence_nsec3(&name("a"), 1, &vec![]).unwrap());
    assert!(!DnssecValidator::denies_hash(&[0; 20], 2, &vec![&n]).unwrap());
}

/// A key of a zone.
struct Key {
    zone: &'static str,
    seed: u8,
}

const ROOT: Key = Key { zone: ".", seed: 11 };
const ORG: Key = Key { zone: "org", seed: 12 };
const ORG_ZSK: Key = Key { zone: "org", seed: 13 };
const EXAMPLE: Key = Key { zone: "example.org", seed: 14 };
const FORGED: Key = Key { zone: "example.org", seed: 99 };
const OTHER: Key = Key { zone: "other.net", seed: 15 };

impl Key {
    fn pair(&self) -> ring::signature::Ed25519KeyPair {
        ring::signature::Ed25519KeyPair::from_seed_unchecked(&[self.seed; 32]).unwrap()
    }

    fn data(&self) -> RData {
        self.data_with(256)
    }

    fn data_with(&self, flags: u16) -> RData {
        RData::Dnskey {
            flags,
            protocol: 3,
            algorithm: 15,
            public_key: self.pair().public_key().as_ref().to_vec(),
        }
    }

    fn record(&self) -> ResourceRecord {
        record(self.zone, RecordType::DNSKEY, self.data())
    }

    fn tag(&self) -> u16 {
        key_tag(&self.data().canonical())
    }

    fn digest(&self) -> Vec<u8> {
        let mut data = name(self.zone).to_canonical_wire();
        data.extend_from_slice(&self.data().canonical());
        sha256(&data)
    }

    fn ds(&self) -> ResourceRecord {
        record(
            self.zone,
            RecordType::DS,
            RData::Ds { key_tag: self.tag(), algorithm: 15, digest_type: 2, digest: self.digest() },
        )
    }

    fn anchor(&self) -> TrustAnchor {
        TrustAnchor::new(name(self.zone), 1, self.tag(), 15, 2, self.digest()).unwrap()
    }

    fn signature(&self, set: &[&ResourceRecord]) -> ResourceRecord {
        self.signature_for(set, set[0].name().label_count() as u8)
    }

    fn signature_for(&self, set: &[&ResourceRecord], labels: u8) -> ResourceRecord {
        let owner = set[0].name().as_str();
        let make = |signature: Vec<u8>| {
            record(
                &owner,
                RecordType::RRSIG,
                RData::Rrsig {
                    type_covered: set[0].rtype().code(),
                    algorithm: 15,
                    labels,
                    original_ttl: 300,
                    expiration: 2000,
                    inception: 1000,
                    key_tag: self.tag(),
                    signer: name(self.zone),
                    signature,
                },
            )
        };
        let data = signed_data(&set.to_vec(), &make(vec![])).unwrap();
        make(self.pair().sign(&data).as_ref().to_vec())
    }
}

fn store(anchors: Vec<TrustAnchor>) -> TrustAnchorStore {
    let mut store = TrustAnchorStore::new();
    for a in anchors {
        store.add_anchor(a).unwrap();
    }
    store
}

fn message_with(answers: Vec<ResourceRecord>, authority: Vec<ResourceRecord>) -> DnsMessage {
    let mut m = DnsMessage::new(1);
    m.flags.response = true;
    m.add_question(Question { qname: name("www.example.org"), qtype: RecordType::A, qclass: 1 });
    for r in answers {
        m.add_answer(r);
    }
    for r in authority {
        m.add_authority(r);
    }
    m
}

fn www() -> ResourceRecord {
    address("www.example.org", 1)
}

fn signed_answer(key: &Key) -> Vec<ResourceRecord> {
    let signature = key.signature(&[&www()]);
    vec![www(), signature]
}

/// The records of a chain from example.org to the root.
fn links() -> Vec<ResourceRecord> {
    let org_set = [ORG.record(), ORG_ZSK.record()];
    vec![
        EXAMPLE.record(),
        EXAMPLE.ds(),
        ORG_ZSK.signature(&[&EXAMPLE.ds()]),
        ORG.record(),
        ORG_ZSK.record(),
        ORG.signature(&[&org_set[0], &org_set[1]]),
        ORG.ds(),
        ROOT.signature(&[&ORG.ds()]),
        ROOT.record(),
    ]
}

fn validate_in(
    m: &DnsMessage,
    anchors: &TrustAnchorStore,
    cache: &mut DnsCache,
    at: u128,
) -> ValidationResult {
    DnssecValidator::new().validate_response_at(m, &name("www.example.org"), anchors, cache, &reading(at))
}

fn validate(m: &DnsMessage, anchors: &TrustAnchorStore) -> ValidationResult {
    validate_in(m, anchors, &mut DnsCache::with_capacity(10), 1500)
}

fn check(m: &DnsMessage, anchors: Vec<TrustAnchor>, status: ValidationStatus, why: &str) {
    let r = validate(m, &store(anchors));
    assert_eq!(r.status, status, "{:?}", r.error_details);
    assert!(r.error_details.unwrap_or_default().contains(why));
}

#[test]
fn a_signed_answer_under_an_anchor_is_secure() {
    let m = message_with(signed_answer(&EXAMPLE), vec![EXAMPLE.record()]);
    let result = validate(&m, &store(vec![EXAMPLE.anchor()]));
    assert_eq!(result.status, ValidationStatus::Secure);
    assert_eq!(result.trust_chain_path.len(), 1);
    assert_eq!(result.trust_chain_path[0].as_str(), "example.org");
}

#[test]
fn a_chain_leads_to_the_root() {
    let m = message_with(signed_answer(&EXAMPLE), links());
    let result = validate(&m, &store(vec![ROOT.anchor()]));
    assert_eq!(result.status, ValidationStatus::Secure, "{:?}", result.error_details);
    let zones: Vec<String> = result.trust_chain_path.iter().map(|z| z.as_str()).collect();
    assert_eq!(zones, vec!["example.org", "org", "."]);
}

#[test]
fn every_link_of_a_chain_is_needed() {
    for i in 0..links().len() {
        let mut some = links();
        some.remove(i);
        let m = message_with(signed_answer(&EXAMPLE), some);
        let result = validate(&m, &store(vec![ROOT.anchor()]));
        assert_ne!(result.status, ValidationStatus::Secure, "without link {}", i);
    }
}

#[test]
fn a_key_must_have_the_digest_of_its_anchor() {
    let m = message_with(signed_answer(&EXAMPLE), vec![EXAMPLE.record()]);
    let mut digest = EXAMPLE.anchor();
    digest.digest = vec![0; 32];
    let mut tag = EXAMPLE.anchor();
    tag.keytag ^= 1;
    let mut algorithm = EXAMPLE.anchor();
    algorithm.algorithm = 13;
    for a in [digest, tag, algorithm] {
        check(&m, vec![a], ValidationStatus::Bogus, "DNSKEY validation against trust anchor failed");
    }
    check(&m, vec![], ValidationStatus::Insecure, "");
}

#[test]
fn keys_that_nothing_vouches_for_are_not_trusted() {
    let alone = message_with(signed_answer(&FORGED), vec![FORGED.record()]);
    check(&alone, vec![EXAMPLE.anchor()], ValidationStatus::Bogus, "trust anchor");
    let mut beside = links();
    beside.push(FORGED.record());
    let m = message_with(signed_answer(&FORGED), beside);
    check(&m, vec![ROOT.anchor()], ValidationStatus::Bogus, "DNSKEY validation against DS failed");
    // A delegation signer record of one's own is not signed by the zone above.
    let unsigned = vec![FORGED.record(), FORGED.ds(), ORG.record(), ORG.ds(), ROOT.record()];
    let m = message_with(signed_answer(&FORGED), unsigned);
    check(&m, vec![ROOT.anchor()], ValidationStatus::Bogus, "DS records are not signed");
    // Nor does it help to sign it oneself.
    let own = vec![FORGED.record(), FORGED.ds(), FORGED.signature(&[&FORGED.ds()]), ROOT.record()];
    let m = message_with(signed_answer(&FORGED), own);
    check(&m, vec![ROOT.anchor()], ValidationStatus::Bogus, "DS records are not signed");
}

#[test]
fn zones_sign_their_own_names_only() {
    let m = message_with(signed_answer(&OTHER), vec![OTHER.record()]);
    check(&m, vec![OTHER.anchor()], ValidationStatus::Bogus, "RRSIG signature verification failed");
}

#[test]
fn revoked_keys_do_not_sign() {
    let key = record("example.org", RecordType::DNSKEY, EXAMPLE.data_with(256 + 128));
    let m = message_with(signed_answer(&EXAMPLE), vec![key]);
    check(&m, vec![EXAMPLE.anchor()], ValidationStatus::Bogus, "verification failed");
}

#[test]
fn every_answer_must_be_signed() {
    let anchors = || vec![EXAMPLE.anchor()];
    let mut extra = signed_answer(&EXAMPLE);
    extra.push(address("mail.example.org", 5));
    let m = message_with(extra, vec![EXAMPLE.record()]);
    check(&m, anchors(), ValidationStatus::Bogus, "not covered by a signature");

    // A signature that covers nothing does not make the answer good.
    let stray = EXAMPLE.signature(&[&address("mail.example.org", 5)]);
    let m = message_with(vec![www(), stray.clone()], vec![EXAMPLE.record()]);
    check(&m, anchors(), ValidationStatus::Bogus, "not covered by a signature");
    let m = message_with(vec![stray], vec![EXAMPLE.record()]);
    check(&m, anchors(), ValidationStatus::Bogus, "No signed records");

    let mut malformed = signed_answer(&EXAMPLE);
    malformed.push(record(
        "www.example.org",
        RecordType::RRSIG,
        RData::Unknown { rtype: 46, rdata: vec![] },
    ));
    let m = message_with(malformed, vec![EXAMPLE.record()]);
    check(&m, anchors(), ValidationStatus::Bogus, "malformed");

    let mut class = signed_answer(&EXAMPLE);
    class[0].class = 3;
    let m = message_with(class, vec![EXAMPLE.record()]);
    check(&m, anchors(), ValidationStatus::Bogus, "not covered by a signature");
}

#[test]
fn answers_can_fail_to_be_secure() {
    let anchors = store(vec![EXAMPLE.anchor()]);
    let mut query = message_with(signed_answer(&EXAMPLE), vec![EXAMPLE.record()]);
    query.flags.response = false;
    let r = validate(&query, &anchors);
    assert_eq!(r.status, ValidationStatus::Indeterminate);
    assert_eq!(r.error_details.unwrap(), "Not a DNS response");

    let plain = message_with(vec![www()], vec![EXAMPLE.record()]);
    assert_eq!(validate(&plain, &anchors).status, ValidationStatus::Insecure);

    let m = message_with(signed_answer(&EXAMPLE), vec![EXAMPLE.record()]);
    for at in [999, 2000] {
        let late = validate_in(&m, &anchors, &mut DnsCache::with_capacity(1), at);
        assert_eq!(late.status, ValidationStatus::Bogus);
        assert_eq!(late.error_details.unwrap(), "RRSIG signature verification failed");
    }
}

#[test]
fn anchors_count_in_trusted_states_only() {
    let m = message_with(signed_answer(&EXAMPLE), vec![EXAMPLE.record()]);
    let states = [
        (None, true),
        (Some(Rfc5011State::Valid), true),
        (Some(Rfc5011State::Hold), true),
        (Some(Rfc5011State::AddHold), false),
        (Some(Rfc5011State::Removed), false),
    ];
    for (state, trusted) in states {
        let mut anchor = EXAMPLE.anchor();
        anchor.set_rfc5011_state(state);
        assert_eq!(anchor.is_trusted(), trusted);
        let r = validate(&m, &store(vec![anchor]));
        assert_eq!(r.status == ValidationStatus::Secure, trusted);
    }
}

fn cached(r: ResourceRecord, flags: u32) -> CacheEntry {
    let mut entry = CacheEntry::new_at(
        r.name().clone(),
        r.rtype(),
        None,
        1_000_000,
        flags,
        Timestamp { nanos: 0 },
    );
    entry.record = r;
    entry
}

#[test]
fn keys_are_taken_from_the_cache() {
    let m = message_with(signed_answer(&EXAMPLE), vec![]);
    let anchors = store(vec![EXAMPLE.anchor()]);
    let mut cache = DnsCache::with_capacity(10);
    assert_eq!(validate_in(&m, &anchors, &mut cache, 1500).status, ValidationStatus::Bogus);
    cache.insert(cached(EXAMPLE.record(), CacheFlags::FORWARD)).unwrap();
    assert_eq!(validate_in(&m, &anchors, &mut cache, 1500).status, ValidationStatus::Secure);

    // A key from the cache needs its anchor like any other.
    let forged = message_with(signed_answer(&FORGED), vec![]);
    cache.insert(cached(FORGED.record(), CacheFlags::FORWARD | CacheFlags::DNSSECOK)).unwrap();
    assert_eq!(validate_in(&forged, &anchors, &mut cache, 1500).status, ValidationStatus::Bogus);
}

#[test]
fn validated_delegations_are_taken_from_the_cache() {
    let m = message_with(
        signed_answer(&EXAMPLE),
        vec![EXAMPLE.record(), ORG.record(), ORG.ds(), ROOT.signature(&[&ORG.ds()]), ROOT.record()],
    );
    let anchors = store(vec![ROOT.anchor()]);
    let with = |entry: CacheEntry| {
        let mut cache = DnsCache::with_capacity(10);
        cache.insert(entry).unwrap();
        validate_in(&m, &anchors, &mut cache, 1500).status
    };
    let good = CacheFlags::FORWARD | CacheFlags::DNSSECOK;
    assert_eq!(with(cached(EXAMPLE.ds(), good)), ValidationStatus::Secure);
    assert_eq!(with(cached(EXAMPLE.ds(), CacheFlags::FORWARD)), ValidationStatus::Insecure);
    assert_eq!(with(cached(FORGED.ds(), good)), ValidationStatus::Bogus);
}

#[test]
fn validated_answers_are_taken_from_the_cache() {
    let m = message_with(vec![www()], vec![]);
    let anchors = TrustAnchorStore::new();
    let mut cache = DnsCache::with_capacity(10);
    cache.insert(cached(www(), CacheFlags::FORWARD)).unwrap();
    assert_eq!(validate_in(&m, &anchors, &mut cache, 1500).status, ValidationStatus::Insecure);
    cache.insert(cached(www(), CacheFlags::FORWARD | CacheFlags::DNSSECOK)).unwrap();
    assert_eq!(validate_in(&m, &anchors, &mut cache, 1500).status, ValidationStatus::Secure);
    let other = message_with(vec![address("www.example.org", 66)], vec![]);
    assert_eq!(validate_in(&other, &anchors, &mut cache, 1500).status, ValidationStatus::Insecure);
    let both = message_with(vec![www(), address("www.example.org", 66)], vec![]);
    assert_eq!(validate_in(&both, &anchors, &mut cache, 1500).status, ValidationStatus::Insecure);
    let late = validate_in(&m, &anchors, &mut cache, 1_000_000);
    assert_eq!(late.status, ValidationStatus::Insecure);
}

#[test]
fn denials_must_be_proven() {
    let anchors = || vec![EXAMPLE.anchor()];
    // www.example.org has AAAA records only.
    let proof = nsec("www.example.org", "z.example.org", &[0, 4, 0, 0, 0, 0x08]);
    let good = |n: &ResourceRecord, key: &Key| {
        message_with(vec![], vec![n.clone(), key.signature(&[n]), key.record()])
    };
    check(&good(&proof, &EXAMPLE), anchors(), ValidationStatus::Secure, "");

    let has_a = nsec("www.example.org", "z.example.org", &[0, 1, 0x40]);
    check(&good(&has_a, &EXAMPLE), anchors(), ValidationStatus::Bogus, "not proven");
    let elsewhere = nsec("a.example.org", "b.example.org", &[]);
    check(&good(&elsewhere, &EXAMPLE), anchors(), ValidationStatus::Bogus, "not proven");

    let unsigned = message_with(vec![], vec![proof.clone(), EXAMPLE.record()]);
    check(&unsigned, anchors(), ValidationStatus::Insecure, "");
    let stray = message_with(
        vec![],
        vec![proof.clone(), EXAMPLE.signature(&[&elsewhere]), EXAMPLE.record()],
    );
    check(&stray, anchors(), ValidationStatus::Bogus, "not covered by a signature");
    check(&good(&proof, &FORGED), anchors(), ValidationStatus::Bogus, "trust anchor");

    // The last record of another zone spans all names outside that zone.
    let foreign = nsec("z.other.net", "other.net", &[]);
    check(&good(&foreign, &OTHER), vec![OTHER.anchor()], ValidationStatus::Bogus, "another zone");

    let alone = EXAMPLE.signature(&[&address("x.example.org", 1)]);
    let no_denial = message_with(vec![], vec![alone.clone(), EXAMPLE.record()]);
    check(&no_denial, anchors(), ValidationStatus::Insecure, "");
    let nothing = message_with(vec![alone], vec![EXAMPLE.record()]);
    check(&nothing, anchors(), ValidationStatus::Bogus, "No signed records");
    let mut no_question = good(&proof, &EXAMPLE);
    no_question.questions.clear();
    check(&no_question, anchors(), ValidationStatus::Indeterminate, "No question");
}

#[test]
fn wildcards_need_a_proof() {
    // The signature is that of *.example.org.
    let rrsig = EXAMPLE.signature_for(&[&www()], 2);
    let answers = || vec![www(), rrsig.clone()];
    let anchors = || vec![EXAMPLE.anchor()];
    let with = |n: &ResourceRecord| {
        message_with(answers(), vec![EXAMPLE.record(), n.clone(), EXAMPLE.signature(&[n])])
    };
    let bare = message_with(answers(), vec![EXAMPLE.record()]);
    check(&bare, anchors(), ValidationStatus::Indeterminate, "Wildcard expansion is not proven");
    let proof = nsec("a.example.org", "z.example.org", &[]);
    check(&with(&proof), anchors(), ValidationStatus::Secure, "");
    let itself = nsec("www.example.org", "z.example.org", &[]);
    check(&with(&itself), anchors(), ValidationStatus::Indeterminate, "Wildcard");
    let apart = nsec("x.example.org", "z.example.org", &[]);
    check(&with(&apart), anchors(), ValidationStatus::Indeterminate, "Wildcard");
    let unsigned = message_with(answers(), vec![EXAMPLE.record(), proof]);
    check(&unsigned, anchors(), ValidationStatus::Indeterminate, "Wildcard");
}

#[test]
fn hashed_denials_must_be_proven() {
    let hash = DnssecValidator::new().compute_nsec3_hash(
        &name("www.example.org"),
        &[0xaa, 0xbb, 0xcc, 0xdd],
        3,
    );
    let mut from = hash.clone();
    from[0] = 0;
    let mut to = hash.clone();
    to[0] = 0xff;
    let owner = format!("{}.example.org", base32(&from));
    let proof = |iterations: u16| nsec3(&owner, 1, iterations, to.clone());
    let good = |n: &ResourceRecord| {
        message_with(vec![], vec![n.clone(), EXAMPLE.signature(&[n]), EXAMPLE.record()])
    };
    // The bitmap of the record has type A, so ask for another.
    let mut m = good(&proof(3));
    m.questions[0].qtype = RecordType::AAAA;
    check(&m, vec![EXAMPLE.anchor()], ValidationStatus::Secure, "");
    check(&good(&proof(3)), vec![EXAMPLE.anchor()], ValidationStatus::Bogus, "not proven");
    check(&good(&proof(151)), vec![EXAMPLE.anchor()], ValidationStatus::Indeterminate, "151");
}

fn base32(data: &[u8]) -> String {
    data_encoding::BASE32HEX_NOPAD.encode(data)
}

#[test]
fn a_chain_is_walked_to_its_anchor() {
    let validator = DnssecValidator::new();
    let walk = |start: &str, authority: Vec<ResourceRecord>, anchors: Vec<TrustAnchor>| {
        let mut cache = DnsCache::with_capacity(10);
        let mut counter = ValidationCounter::new();
        validator.walk_trust_chain_at(
            &name(start),
            &message_with(vec![], authority),
            &mut counter,
            &store(anchors),
            &mut cache,
            &reading(1500),
        )
    };
    let zones = walk("www.example.org", links(), vec![ROOT.anchor()]).unwrap();
    assert_eq!(zones.len(), 3);
    let zones = walk("www.example.org", links(), vec![ORG.anchor()]).unwrap();
    assert_eq!(zones.len(), 2);
    match walk("www.example.org", vec![], vec![ROOT.anchor()]) {
        Err(DnsmasqError::Dnssec(DnssecError::NoKey { name })) => assert_eq!(name, "www.example.org"),
        _ => panic!("expected a missing key"),
    }
    match walk("www.example.org", vec![EXAMPLE.record()], vec![ROOT.anchor()]) {
        Err(DnsmasqError::Dnssec(DnssecError::NonSecure { name })) => assert_eq!(name, "example.org"),
        _ => panic!("expected an unsigned zone"),
    }
    match walk("www.example.org", links(), vec![OTHER.anchor()]) {
        Err(DnsmasqError::Dnssec(DnssecError::ChainOfTrustBroken { name, reason })) => {
            assert_eq!(name, ".");
            assert_eq!(reason, "No trust anchor reached");
        }
        _ => panic!("expected a chain without an anchor"),
    }
    assert!(matches!(
        walk("www.example.org", vec![EXAMPLE.record(), FORGED.ds()], vec![ROOT.anchor()]),
        Err(DnsmasqError::Dnssec(DnssecError::ChainOfTrustBroken { .. }))
    ));
}

#[test]
fn work_on_a_walk_is_limited() {
    let mut counter = ValidationCounter::new();
    counter.work_count = DNSSEC_LIMIT_WORK;
    let r = DnssecValidator::new().walk_trust_chain(
        &name("example.org"),
        &message_with(vec![], vec![EXAMPLE.record()]),
        &mut counter,
        &store(vec![EXAMPLE.anchor()]),
        &mut DnsCache::with_capacity(1),
    );
    assert!(matches!(r, Err(DnsmasqError::Dnssec(DnssecError::TooMuchWork { .. }))));
    let m = message_with(signed_answer(&EXAMPLE), vec![EXAMPLE.record()]);
    let now = DnssecValidator::new().validate_response(
        &m,
        &name("www.example.org"),
        &store(vec![EXAMPLE.anchor()]),
        &mut DnsCache::with_capacity(1),
    );
    assert_eq!(now.status, ValidationStatus::Bogus);
}

#[test]
fn ecdsa_record_sets_validate() {
    let random = ring::rand::SystemRandom::new();
    let cases: [(u8, &'static ring::signature::EcdsaSigningAlgorithm); 2] = [
        (13, &ring::signature::ECDSA_P256_SHA256_FIXED_SIGNING),
        (14, &ring::signature::ECDSA_P384_SHA384_FIXED_SIGNING),
    ];
    for (algorithm, scheme) in cases {
        let document = ring::signature::EcdsaKeyPair::generate_pkcs8(scheme, &random).unwrap();
        let pair =
            ring::signature::EcdsaKeyPair::from_pkcs8(scheme, document.as_ref(), &random).unwrap();
        let data = RData::Dnskey {
            flags: 257,
            protocol: 3,
            algorithm,
            public_key: pair.public_key().as_ref()[1..].to_vec(),
        };
        let tag = key_tag(&data.canonical());
        let key = record("example.org", RecordType::DNSKEY, data);
        let make = |signature: Vec<u8>| {
            record(
                "www.example.org",
                RecordType::RRSIG,
                RData::Rrsig {
                    type_covered: 1,
                    algorithm,
                    labels: 3,
                    original_ttl: 300,
                    expiration: 2000,
                    inception: 1000,
                    key_tag: tag,
                    signer: name("example.org"),
                    signature,
                },
            )
        };
        let (set, other) = (www(), address("www.example.org", 2));
        let bytes = signed_data(&vec![&set], &make(vec![])).unwrap();
        let rrsig = make(pair.sign(&random, &bytes).unwrap().as_ref().to_vec());
        let mut counter = ValidationCounter::new();
        let validator = DnssecValidator::new();
        let mut check = |r: &ResourceRecord| {
            validator
                .validate_rrset_at(&vec![r], &rrsig, &vec![&key], &mut counter, &reading(1500))
                .unwrap()
        };
        assert!(check(&set));
        assert!(!check(&other));
    }
}

#[test]
fn failed_walks_are_judged() {
    let judge = |e: DnssecError| {
        DnssecValidator::judge_walk_error(DnsmasqError::Dnssec(e), &name("a.b"))
    };
    let limit = judge(DnssecError::TooMuchWork { work_units: 1 });
    assert_eq!(limit.status, ValidationStatus::Indeterminate);
    assert_eq!(limit.error_details.unwrap(), "Resource limit exceeded");
    let open = judge(DnssecError::NonSecure { name: "a".to_string() });
    assert_eq!(open.status, ValidationStatus::Insecure);
    let bad = judge(DnssecError::NoKey { name: "a".to_string() });
    assert_eq!(bad.status, ValidationStatus::Bogus);
    assert!(bad.error_details.unwrap().starts_with("Trust chain validation failed: "));
}

#[test]
fn work_is_limited() {
    let mut c = ValidationCounter::default();
    for _ in 1..DNSSEC_LIMIT_WORK {
        assert!(c.increment_work().is_ok());
    }
    assert!(!c.check_work_limit());
    assert!(matches!(
        c.increment_work(),
        Err(DnsmasqError::Dnssec(DnssecError::TooMuchWork { work_units: 40 }))
    ));
    assert!(c.check_work_limit());
    for _ in 1..DNSSEC_LIMIT_CRYPTO {
        assert!(c.increment_crypto().is_ok());
    }
    assert!(c.increment_crypto().is_err() && c.check_crypto_limit());
    for _ in 1..DNSSEC_LIMIT_SIG_FAIL {
        assert!(c.increment_sig_fail().is_ok());
    }
    assert!(c.increment_sig_fail().is_err() && c.check_sig_fail_limit());
}

#[test]
fn signature_checks_are_concluded() {
    let mut c = ValidationCounter::new();
    assert!(DnssecValidator::conclude_signature(Ok(true), &mut c).unwrap());
    assert_eq!(c.sig_fail_count, 0);
    assert!(!DnssecValidator::conclude_signature(Ok(false), &mut c).unwrap());
    assert_eq!(c.sig_fail_count, 1);
    let e = Err(CryptoError::UnsupportedAlgorithm { algorithm: 1 });
    assert!(matches!(
        DnssecValidator::conclude_signature(e, &mut c),
        Err(DnsmasqError::Dnssec(DnssecError::SignatureVerificationFailed { .. }))
    ));
}

#[test]
fn outcomes_have_codes_and_words() {
    assert_eq!(ValidationStatus::Secure.to_text(), "SECURE");
    let codes: Vec<u16> = [
        ValidationStatus::Secure,
        ValidationStatus::Insecure,
        ValidationStatus::Bogus,
        ValidationStatus::Indeterminate,
    ]
    .iter()
    .map(|s| s.to_extended_error_code())
    .collect();
    assert_eq!(codes[0], 0);
    assert_eq!(codes[2], 6);
    let bogus = ValidationResult::bogus("why".to_string(), Some(name("a")));
    assert_eq!(bogus.status, ValidationStatus::Bogus);
    assert_eq!(bogus.error_details.unwrap(), "why");
}

#[test]
fn referrals_are_not_denials() {
    let proof = nsec("www.example.org", "z.example.org", &[0, 4, 0, 0, 0, 0x08]);
    let servers = ResourceRecord::new(
        name("sub.example.org"),
        RecordType::NS,
        1,
        300,
        RData::Ns { nsdname: name("ns.sub.example.org") },
    );
    let signed = || vec![proof.clone(), EXAMPLE.signature(&[&proof]), EXAMPLE.record()];
    let mut authority = vec![servers];
    authority.extend(signed());
    let referral = message_with(vec![], authority);
    check(&referral, vec![EXAMPLE.anchor()], ValidationStatus::Insecure, "");
    // Without the name servers it is a denial, and has to be proven.
    let denial = message_with(vec![], signed());
    check(&denial, vec![EXAMPLE.anchor()], ValidationStatus::Secure, "");
}
