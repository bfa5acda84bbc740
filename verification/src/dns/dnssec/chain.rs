//! The chain of trust: from a key up, zone by zone, to a key that an anchor vouches for.
use vstd::prelude::*;
use crate::clock::ClockReading;
use crate::dns::dnssec::canonical::{key_tag, key_tag_of, set_models, MAX_RECORDS};
use crate::dns::dnssec::crypto::{digest_of, HashAlgorithm};
use crate::dns::dnssec::trust_anchors::{anchor_models, anchors_at, AnchorModel, Listing, TrustAnchorStore};
use crate::dns::dnssec::validator::{
    comes_to, dnskey_outcome, ds_hash, ds_matches, key_bytes, law_signed_validates, law_validated_is_signed, lemma_signing_key,
    name_models, records_of, rrset_outcome, select, signing_key, signs, usable, Counted, DnssecValidator,
    ValidationCounter, MAX_CHAIN_DEPTH,
};
use crate::dns::name::{canon, is_suffix, name_text, name_wire, DomainName};
use crate::dns::record::{RData, RDataModel, RecordModel, ResourceRecord};
use crate::error::{DnsmasqError, DnssecError, Failure};
use crate::types::RecordType;
use crate::wire::{be_bytes, same_bytes};

verus! {

/// What a chain of trust is built from: the key records that are known, those of them that the
/// message itself has, its signature and delegation signer records, the delegation signer records
/// that were validated before, and the anchors.
#[verifier::ext_equal]
pub ghost struct EvidenceModel {
    pub keys: Seq<RecordModel>,
    pub message_keys: Seq<RecordModel>,
    pub sigs: Seq<RecordModel>,
    pub ds: Seq<RecordModel>,
    pub vouched: Seq<RecordModel>,
    pub anchors: Listing,
}

/// What a chain of trust is built from.
pub struct Evidence<'a> {
    pub keys: Vec<&'a ResourceRecord>,
    pub message_keys: Vec<&'a ResourceRecord>,
    pub sigs: Vec<&'a ResourceRecord>,
    pub ds: Vec<&'a ResourceRecord>,
    pub vouched: Vec<&'a ResourceRecord>,
    pub anchors: &'a TrustAnchorStore,
}

/// True of records whose data has lengths that the wire format can express.
pub open spec fn all_fit(records: Seq<&ResourceRecord>) -> bool {
    forall|i: int| 0 <= i < records.len() ==> (#[trigger] records[i]).rdata@.fits()
}

impl<'a> Evidence<'a> {
    /// What the evidence says.
    pub open spec fn model(self) -> EvidenceModel {
        EvidenceModel {
            keys: set_models(self.keys@),
            message_keys: set_models(self.message_keys@),
            sigs: set_models(self.sigs@),
            ds: set_models(self.ds@),
            vouched: set_models(self.vouched@),
            anchors: self.anchors@,
        }
    }

    /// True of evidence whose records have lengths that the wire format can express.
    pub open spec fn wf(self) -> bool {
        &&& all_fit(self.keys@)
        &&& all_fit(self.message_keys@)
        &&& all_fit(self.sigs@)
        &&& all_fit(self.ds@)
        &&& all_fit(self.vouched@)
        &&& self.message_keys@.len() <= MAX_RECORDS
        &&& self.ds@.len() <= MAX_RECORDS
    }
}

/// True when an anchor vouches for a key: it may be used, and the key has its class, algorithm, key
/// tag and digest.
pub open spec fn anchor_matches(a: AnchorModel, key: RecordModel) -> bool {
    &&& a.trusted()
    &&& a.class == key.class
    &&& key.rdata matches RDataModel::Dnskey { algorithm, .. } && algorithm == a.algorithm
    &&& key_tag_of(key.rdata.canonical()) == a.keytag
    &&& ds_hash(a.digest_type) matches Some(h) && digest_of(h, key_bytes(key)) == a.digest
}

/// True when an anchor of a key's own zone vouches for the key.
pub open spec fn anchored(anchors: Listing, key: RecordModel) -> bool {
    usable(key) && exists|i: int|
        0 <= i < anchors_at(anchors, canon(key.name)).len() && anchor_matches(
            #[trigger] anchors_at(anchors, canon(key.name))[i],
            key,
        )
}

/// Whether an anchor vouches for a usable key. Where its zone has anchors, the comparison is a
/// cryptographic operation.
pub open spec fn anchor_outcome(anchors: Listing, key: RecordModel, c: ValidationCounter) -> Counted<
    bool,
> {
    let c1 = c.computed();
    if anchors_at(anchors, canon(key.name)).len() == 0 {
        Counted { result: Ok(false), counter: c }
    } else if c1.crypto_count >= c1.max_crypto {
        Counted {
            result: Err(Failure::TooMuchWork { work_units: c1.crypto_count as nat }),
            counter: c1,
        }
    } else {
        Counted { result: Ok(anchored(anchors, key)), counter: c1 }
    }
}

/// What vouches for a key from outside its zone.
#[derive(Debug, Clone, Copy, PartialEq, Eq, Structural)]
pub enum Footing {
    /// An anchor of the zone.
    Anchor,
    /// A delegation signer record of the zone.
    Delegation,
}

/// The delegation signer records of a zone: those of the message, else those that were validated
/// before.
pub open spec fn ds_of(e: EvidenceModel, zone: Seq<Seq<u8>>) -> Seq<RecordModel> {
    if records_of(e.ds, RecordType::DS, zone).len() > 0 {
        records_of(e.ds, RecordType::DS, zone)
    } else {
        records_of(e.vouched, RecordType::DS, zone)
    }
}

/// What vouches for a key from outside its zone, if anything does.
pub open spec fn footing(e: EvidenceModel, key: RecordModel, c: ValidationCounter) -> Counted<
    Option<Footing>,
> {
    if !usable(key) {
        Counted { result: Ok(None), counter: c }
    } else {
        let a = anchor_outcome(e.anchors, key, c);
        let ds = ds_of(e, key.name);
        match a.result {
            Err(f) => Counted { result: Err(f), counter: a.counter },
            Ok(true) => Counted { result: Ok(Some(Footing::Anchor)), counter: a.counter },
            Ok(false) => if ds.len() == 0 {
                Counted { result: Ok(None), counter: a.counter }
            } else {
                let d = dnskey_outcome(key, ds, a.counter);
                Counted {
                    result: match d.result {
                        Err(f) => Err(f),
                        Ok(true) => Ok(Some(Footing::Delegation)),
                        Ok(false) => Ok(None),
                    },
                    counter: d.counter,
                }
            },
        }
    }
}

/// True of the signature records for the records of a type with a name.
pub open spec fn signature_for(s: RecordModel, rtype: RecordType, name: Seq<Seq<u8>>) -> bool {
    s.rdata matches RDataModel::Rrsig { type_covered, .. } && RecordType::of_code(type_covered)
        == rtype && canon(s.name) == canon(name)
}

/// True when a record set has the data of a record.
pub open spec fn holds(set: Seq<RecordModel>, r: RecordModel) -> bool {
    exists|i: int| 0 <= i < set.len() && (#[trigger] set[i]).rdata.canonical() == r.rdata.canonical()
}

/// The key records of the message for the zone of a key.
pub open spec fn key_set(e: EvidenceModel, key: RecordModel) -> Seq<RecordModel> {
    records_of(e.message_keys, RecordType::DNSKEY, key.name)
}

/// The first key that is vouched for from outside and whose signature of the key set, among the
/// given signature records, is good.
pub open spec fn key_signer(
    e: EvidenceModel,
    key: RecordModel,
    rest: Seq<RecordModel>,
    c: ValidationCounter,
    clock: ClockReading,
) -> Counted<Option<(RecordModel, Footing)>>
    decreases rest.len(),
{
    if rest.len() == 0 {
        Counted { result: Ok(None), counter: c }
    } else {
        let s = rest[0];
        match signing_key(e.keys, s.rdata) {
            Some(signer) if signature_for(s, RecordType::DNSKEY, key.name) && canon(signer.name)
                == canon(key.name) => {
                let f = footing(e, signer, c);
                match f.result {
                    Err(x) => Counted { result: Err(x), counter: f.counter },
                    Ok(None) => key_signer(e, key, rest.skip(1), f.counter, clock),
                    Ok(Some(kind)) => {
                        let o = rrset_outcome(key_set(e, key), s, e.keys, f.counter, clock);
                        match o.result {
                            Err(x) => Counted { result: Err(x), counter: o.counter },
                            Ok(true) => Counted {
                                result: Ok(Some((signer, kind))),
                                counter: o.counter,
                            },
                            Ok(false) => key_signer(e, key, rest.skip(1), o.counter, clock),
                        }
                    },
                }
            },
            _ => key_signer(e, key, rest.skip(1), c, clock),
        }
    }
}

/// The key of a key's zone by which the zone is entered from outside: the key itself, or one that
/// signs the key set that holds it.
pub open spec fn entry(
    e: EvidenceModel,
    key: RecordModel,
    c: ValidationCounter,
    clock: ClockReading,
) -> Counted<Option<(RecordModel, Footing)>> {
    let f = footing(e, key, c);
    match f.result {
        Err(x) => Counted { result: Err(x), counter: f.counter },
        Ok(Some(kind)) => Counted { result: Ok(Some((key, kind))), counter: f.counter },
        Ok(None) => if holds(key_set(e, key), key) {
            key_signer(e, key, e.sigs, f.counter, clock)
        } else {
            Counted { result: Ok(None), counter: f.counter }
        },
    }
}

/// True of a signature record whose signer is a zone above its owner.
pub open spec fn signed_from_above(s: RecordModel) -> bool {
    s.rdata matches RDataModel::Rrsig { signer, .. } && signer.len() < s.name.len()
}

/// A signature is made from above where its signer has fewer labels than its owner; a zone does not
/// stand above itself.
pub proof fn law_signed_from_above(s: RecordModel)
    ensures
        s.rdata matches RDataModel::Rrsig { signer, .. } ==> (signed_from_above(s) <==> signer.len() + 1
            <= s.name.len()),
        !(s.rdata is Rrsig) ==> !signed_from_above(s),
{
}

/// The first key of a zone above whose signature of the delegation signer records of a zone, among
/// the given signature records, is good.
pub open spec fn ds_signer(
    e: EvidenceModel,
    zone: Seq<Seq<u8>>,
    rest: Seq<RecordModel>,
    c: ValidationCounter,
    clock: ClockReading,
) -> Counted<Option<RecordModel>>
    decreases rest.len(),
{
    if rest.len() == 0 {
        Counted { result: Ok(None), counter: c }
    } else {
        let s = rest[0];
        if signature_for(s, RecordType::DS, zone) && signed_from_above(s) {
            let o = rrset_outcome(
                records_of(e.ds, RecordType::DS, zone),
                s,
                e.keys,
                c,
                clock,
            );
            match o.result {
                Err(x) => Counted { result: Err(x), counter: o.counter },
                Ok(true) => Counted {
                    result: Ok(signing_key(e.keys, s.rdata)),
                    counter: o.counter,
                },
                Ok(false) => ds_signer(e, zone, rest.skip(1), o.counter, clock),
            }
        } else {
            ds_signer(e, zone, rest.skip(1), c, clock)
        }
    }
}

/// The first usable key of a zone.
pub open spec fn first_usable(keys: Seq<RecordModel>, zone: Seq<Seq<u8>>) -> Option<RecordModel>
    decreases keys.len(),
{
    if keys.len() == 0 {
        None
    } else if usable(keys[0]) && canon(keys[0].name) == canon(zone) {
        Some(keys[0])
    } else {
        first_usable(keys.skip(1), zone)
    }
}

/// The first usable key of the closest zone, at or above a name, that has one.
pub open spec fn closest_key(keys: Seq<RecordModel>, name: Seq<Seq<u8>>) -> Option<RecordModel>
    decreases name.len(),
{
    match first_usable(keys, name) {
        Some(k) => Some(k),
        None => if name.len() == 0 {
            None
        } else {
            closest_key(keys, name.skip(1))
        },
    }
}

/// The key of a zone above that answers for the delegation signer records of a zone: the one that
/// signs them or, where they were validated before, a key of the zone above.
pub open spec fn key_above(
    e: EvidenceModel,
    zone: Seq<Seq<u8>>,
    c: ValidationCounter,
    clock: ClockReading,
) -> Counted<RecordModel> {
    if zone.len() == 0 {
        Counted { result: Err(broken(zone, "No trust anchor reached"@)), counter: c }
    } else if records_of(e.ds, RecordType::DS, zone).len() > 0 {
        let o = ds_signer(e, zone, e.sigs, c, clock);
        Counted {
            result: match o.result {
                Err(f) => Err(f),
                Ok(Some(k)) => Ok(k),
                Ok(None) => Err(broken(zone, "DS records are not signed by a zone above"@)),
            },
            counter: o.counter,
        }
    } else {
        Counted {
            result: match closest_key(e.keys, zone.skip(1)) {
                Some(k) => Ok(k),
                None => Err(Failure::NoKey { name: name_text(zone.skip(1)) }),
            },
            counter: c,
        }
    }
}

/// The failure of a chain at a zone.
pub open spec fn broken(zone: Seq<Seq<u8>>, reason: Seq<char>) -> Failure {
    Failure::ChainOfTrustBroken { name: name_text(zone), reason }
}

/// Why a zone cannot be entered from outside: it has anchors that do not fit, it is the root, it has
/// no delegation signer records and so is not signed, or they do not fit.
pub open spec fn no_entry(e: EvidenceModel, zone: Seq<Seq<u8>>) -> Failure {
    if anchors_at(e.anchors, canon(zone)).len() > 0 {
        broken(zone, "DNSKEY validation against trust anchor failed"@)
    } else if zone.len() == 0 {
        broken(zone, "No trust anchor reached"@)
    } else if ds_of(e, zone).len() == 0 {
        Failure::NonSecure { name: name_text(zone) }
    } else {
        broken(zone, "DNSKEY validation against DS failed"@)
    }
}

/// The walk from a key up to an anchor, after some zones have been passed: the zones on the way, or
/// why it ended.
pub open spec fn walk(
    e: EvidenceModel,
    key: RecordModel,
    passed: nat,
    c: ValidationCounter,
    clock: ClockReading,
) -> Counted<Seq<Seq<Seq<u8>>>>
    decreases MAX_CHAIN_DEPTH - passed,
{
    let c1 = c.worked();
    if passed >= MAX_CHAIN_DEPTH {
        Counted { result: Err(Failure::TooMuchWork { work_units: passed + 1 }), counter: c }
    } else if c1.work_count >= c1.max_work {
        Counted {
            result: Err(Failure::TooMuchWork { work_units: c1.work_count as nat }),
            counter: c1,
        }
    } else {
        let way_in = entry(e, key, c1, clock);
        match way_in.result {
            Err(f) => Counted { result: Err(f), counter: way_in.counter },
            Ok(None) => Counted { result: Err(no_entry(e, key.name)), counter: way_in.counter },
            Ok(Some((_, Footing::Anchor))) => Counted {
                result: Ok(seq![key.name]),
                counter: way_in.counter,
            },
            Ok(Some((_, Footing::Delegation))) => {
                let next = key_above(e, key.name, way_in.counter, clock);
                match next.result {
                    Err(f) => Counted { result: Err(f), counter: next.counter },
                    Ok(k) => {
                        let rest = walk(e, k, passed + 1, next.counter, clock);
                        Counted {
                            result: match rest.result {
                                Ok(path) => Ok(seq![key.name] + path),
                                Err(f) => Err(f),
                            },
                            counter: rest.counter,
                        }
                    },
                }
            },
        }
    }
}

/// The walk from the zone of a name.
pub open spec fn name_walk(
    e: EvidenceModel,
    name: Seq<Seq<u8>>,
    c: ValidationCounter,
    clock: ClockReading,
) -> Counted<Seq<Seq<Seq<u8>>>> {
    match closest_key(e.keys, name) {
        Some(key) => walk(e, key, 0, c, clock),
        None => Counted { result: Err(Failure::NoKey { name: name_text(name) }), counter: c },
    }
}

/// True of what a walk gives and the counter that it leaves.
pub open spec fn walked(
    r: Result<Vec<DomainName>, DnsmasqError>,
    counter: ValidationCounter,
    want: Counted<Seq<Seq<Seq<u8>>>>,
) -> bool {
    &&& match (r, want.result) {
        (Ok(path), Ok(w)) => name_models(path@) == w,
        (Err(e), Err(w)) => e@ == w,
        _ => false,
    }
    &&& counter == want.counter
}

// What a walk shows.

/// True when trust in the second key gives trust in the first: it signs the key set of their zone,
/// which holds the first; or the delegation signer records of the first key's zone match the first
/// key, and the second, of a zone above, signs them; or those records were validated before, and
/// the second key is of a zone above.
pub open spec fn linked(
    e: EvidenceModel,
    key: RecordModel,
    next: RecordModel,
    clock: ClockReading,
) -> bool {
    let own = records_of(e.ds, RecordType::DS, key.name);
    let vouched = records_of(e.vouched, RecordType::DS, key.name);
    ||| {
        &&& canon(next.name) == canon(key.name)
        &&& holds(key_set(e, key), key)
        &&& exists|i: int|
            0 <= i < e.sigs.len() && signature_for(
                #[trigger] e.sigs[i],
                RecordType::DNSKEY,
                key.name,
            ) && signs(key_set(e, key), e.sigs[i], next, clock)
    }
    ||| {
        &&& own.len() > 0
        &&& ds_matches(key, own) == Ok::<bool, Failure>(true)
        &&& exists|i: int|
            0 <= i < e.sigs.len() && signature_for(#[trigger] e.sigs[i], RecordType::DS, key.name)
                && signed_from_above(e.sigs[i]) && signs(own, e.sigs[i], next, clock)
    }
    ||| {
        &&& own.len() == 0
        &&& ds_matches(key, vouched) == Ok::<bool, Failure>(true)
        &&& next.name.len() < key.name.len()
        &&& is_suffix(canon(next.name), canon(key.name))
    }
}

/// True of a row of known keys in which each is linked to the next, and an anchor vouches for the
/// last.
pub open spec fn is_chain(e: EvidenceModel, chain: Seq<RecordModel>, clock: ClockReading) -> bool {
    &&& chain.len() > 0
    &&& anchored(e.anchors, chain.last())
    &&& forall|i: int| 0 <= i < chain.len() ==> e.keys.contains(#[trigger] chain[i])
    &&& forall|i: int|
        0 <= i < chain.len() - 1 ==> linked(e, #[trigger] chain[i], chain[i + 1], clock)
}

/// True of a key from which a chain leads to an anchor.
pub open spec fn trusted_key(e: EvidenceModel, key: RecordModel, clock: ClockReading) -> bool {
    exists|chain: Seq<RecordModel>| #[trigger] is_chain(e, chain, clock) && chain[0] == key
}

proof fn lemma_extend(e: EvidenceModel, key: RecordModel, next: RecordModel, clock: ClockReading)
    requires
        e.keys.contains(key),
        linked(e, key, next, clock),
        trusted_key(e, next, clock),
    ensures
        trusted_key(e, key, clock),
{
    let chain = choose|chain: Seq<RecordModel>| #[trigger]
        is_chain(e, chain, clock) && chain[0] == next;
    let longer = seq![key] + chain;
    assert(longer.last() == chain.last());
    assert forall|i: int| 0 <= i < longer.len() implies e.keys.contains(#[trigger] longer[i]) by {
        if i > 0 {
            assert(longer[i] == chain[i - 1]);
        }
    }
    assert forall|i: int| 0 <= i < longer.len() - 1 implies linked(
        e,
        #[trigger] longer[i],
        longer[i + 1],
        clock,
    ) by {
        if i > 0 {
            assert(longer[i] == chain[i - 1]);
            assert(longer[i + 1] == chain[i]);
        }
    }
    assert(is_chain(e, longer, clock) && longer[0] == key);
}

proof fn lemma_footing(e: EvidenceModel, key: RecordModel, c: ValidationCounter)
    ensures
        match footing(e, key, c).result {
            Ok(Some(Footing::Anchor)) => anchored(e.anchors, key),
            Ok(Some(Footing::Delegation)) => usable(key) && ds_of(e, key.name).len() > 0 && ds_matches(
                key,
                ds_of(e, key.name),
            ) == Ok::<bool, Failure>(true),
            _ => true,
        },
{
}

proof fn lemma_key_signer(
    e: EvidenceModel,
    key: RecordModel,
    rest: Seq<RecordModel>,
    c: ValidationCounter,
    clock: ClockReading,
)
    requires
        holds(key_set(e, key), key),
        forall|i: int| 0 <= i < rest.len() ==> e.sigs.contains(#[trigger] rest[i]),
    ensures
        key_signer(e, key, rest, c, clock).result matches Ok(Some((k, kind))) ==> {
            &&& e.keys.contains(k)
            &&& canon(k.name) == canon(key.name)
            &&& linked(e, key, k, clock)
            &&& exists|d: ValidationCounter| (#[trigger] footing(e, k, d)).result == Ok::<
                Option<Footing>,
                Failure,
            >(Some(kind))
        },
    decreases rest.len(),
{
    if rest.len() > 0 {
        let s = rest[0];
        let tail = rest.skip(1);
        assert forall|i: int| 0 <= i < tail.len() implies e.sigs.contains(#[trigger] tail[i]) by {
            assert(tail[i] == rest[i + 1]);
        }
        lemma_signing_key(e.keys, s.rdata);
        if let Some(signer) = signing_key(e.keys, s.rdata) {
            let f = footing(e, signer, c);
            let o = rrset_outcome(key_set(e, key), s, e.keys, f.counter, clock);
            law_validated_is_signed(key_set(e, key), s, e.keys, f.counter, clock);
            lemma_key_signer(e, key, tail, f.counter, clock);
            lemma_key_signer(e, key, tail, o.counter, clock);
            assert(e.sigs.contains(rest[0]));
            let i = choose|i: int| 0 <= i < e.sigs.len() && e.sigs[i] == s;
            assert(e.sigs[i] == s);
        }
        lemma_key_signer(e, key, tail, c, clock);
    }
}

proof fn lemma_ds_signer(
    e: EvidenceModel,
    key: RecordModel,
    rest: Seq<RecordModel>,
    c: ValidationCounter,
    clock: ClockReading,
)
    requires
        records_of(e.ds, RecordType::DS, key.name).len() > 0,
        ds_matches(key, records_of(e.ds, RecordType::DS, key.name)) == Ok::<bool, Failure>(true),
        forall|i: int| 0 <= i < rest.len() ==> e.sigs.contains(#[trigger] rest[i]),
    ensures
        ds_signer(e, key.name, rest, c, clock).result matches Ok(Some(k)) ==> e.keys.contains(k)
            && linked(e, key, k, clock),
    decreases rest.len(),
{
    if rest.len() > 0 {
        let s = rest[0];
        let tail = rest.skip(1);
        assert forall|i: int| 0 <= i < tail.len() implies e.sigs.contains(#[trigger] tail[i]) by {
            assert(tail[i] == rest[i + 1]);
        }
        let own = records_of(e.ds, RecordType::DS, key.name);
        let o = rrset_outcome(own, s, e.keys, c, clock);
        law_validated_is_signed(own, s, e.keys, c, clock);
        lemma_ds_signer(e, key, tail, c, clock);
        lemma_ds_signer(e, key, tail, o.counter, clock);
        assert(e.sigs.contains(rest[0]));
        let i = choose|i: int| 0 <= i < e.sigs.len() && e.sigs[i] == s;
        assert(e.sigs[i] == s);
    }
}

proof fn lemma_first_usable(keys: Seq<RecordModel>, zone: Seq<Seq<u8>>)
    ensures
        first_usable(keys, zone) matches Some(k) ==> keys.contains(k) && usable(k) && canon(k.name)
            == canon(zone),
    decreases keys.len(),
{
    if keys.len() > 0 {
        if usable(keys[0]) && canon(keys[0].name) == canon(zone) {
            assert(keys.contains(keys[0]));
        } else {
            let tail = keys.skip(1);
            lemma_first_usable(tail, zone);
            if let Some(k) = first_usable(tail, zone) {
                let i = choose|i: int| 0 <= i < tail.len() && tail[i] == k;
                assert(keys[i + 1] == k);
            }
        }
    }
}

pub proof fn lemma_closest_key(keys: Seq<RecordModel>, name: Seq<Seq<u8>>)
    ensures
        closest_key(keys, name) matches Some(k) ==> keys.contains(k) && usable(k) && is_suffix(
            canon(k.name),
            canon(name),
        ),
    decreases name.len(),
{
    lemma_first_usable(keys, name);
    assert(canon(name).skip(0) =~= canon(name));
    if first_usable(keys, name) is None && name.len() > 0 {
        lemma_closest_key(keys, name.skip(1));
        if let Some(k) = closest_key(keys, name.skip(1)) {
            let z = canon(k.name);
            assert(canon(name.skip(1)) =~= canon(name).skip(1));
            assert(canon(name).skip(1).skip(canon(name).len() - 1 - z.len()) =~= canon(name).skip(
                canon(name).len() - z.len(),
            ));
        }
    }
}

/// A walk that succeeds shows a chain of keys from the key up to one that an anchor vouches for, and
/// the zones that it gives start with that of the key.
pub proof fn law_walk_is_a_chain(
    e: EvidenceModel,
    key: RecordModel,
    passed: nat,
    c: ValidationCounter,
    clock: ClockReading,
)
    requires
        e.keys.contains(key),
    ensures
        walk(e, key, passed, c, clock).result matches Ok(path) ==> {
            &&& path.len() > 0
            &&& path[0] == key.name
            &&& trusted_key(e, key, clock)
        },
    decreases MAX_CHAIN_DEPTH - passed,
{
    let w = walk(e, key, passed, c, clock);
    let way_in = entry(e, key, c.worked(), clock);
    if w.result is Ok {
        let f = footing(e, key, c.worked());
        lemma_footing(e, key, c.worked());
        assert forall|i: int| 0 <= i < e.sigs.len() implies e.sigs.contains(#[trigger] e.sigs[i]) by {}
        if holds(key_set(e, key), key) {
            lemma_key_signer(e, key, e.sigs, f.counter, clock);
        }
        let (door, kind) = way_in.result->Ok_0->0;
        let d = if f.result == Ok::<Option<Footing>, Failure>(Some(kind)) && door == key {
            c.worked()
        } else {
            choose|d: ValidationCounter| (#[trigger] footing(e, door, d)).result == Ok::<
                Option<Footing>,
                Failure,
            >(Some(kind))
        };
        lemma_footing(e, door, d);
        match kind {
            Footing::Anchor => {
                let single = seq![door];
                assert(is_chain(e, single, clock) && single[0] == door);
                assert(trusted_key(e, door, clock));
            },
            Footing::Delegation => {
                let next = key_above(e, key.name, way_in.counter, clock);
                let k = next.result->Ok_0;
                lemma_same_zone(e, key, door);
                if records_of(e.ds, RecordType::DS, key.name).len() > 0 {
                    lemma_ds_signer(e, door, e.sigs, way_in.counter, clock);
                    lemma_same_zone_signer(e, key.name, door.name, e.sigs, way_in.counter, clock);
                } else {
                    lemma_closest_key(e.keys, key.name.skip(1));
                    let z = canon(k.name);
                    let full = canon(key.name);
                    assert(canon(key.name.skip(1)) =~= full.skip(1));
                    assert(full.skip(1).skip(full.len() - 1 - z.len()) =~= full.skip(
                        full.len() - z.len(),
                    ));
                    assert(canon(door.name).len() == full.len());
                    assert(linked(e, door, k, clock));
                }
                law_walk_is_a_chain(e, k, passed + 1, next.counter, clock);
                lemma_extend(e, door, k, clock);
            },
        }
        if door != key {
            lemma_extend(e, key, door, clock);
        }
    }
}

/// An anchor of its own zone vouches for a key exactly where the key may sign, the anchor may be used, and the
/// anchor has the class, the algorithm and the tag of the key and the digest of its owner and its data: with
/// SHA-1, SHA-256 or SHA-384, by the digest types 1, 2 and 4.
pub proof fn law_anchor_vouches(
    anchors: Listing,
    key: RecordModel,
    flags: u16,
    protocol: u8,
    algorithm: u8,
    public_key: Seq<u8>,
)
    requires
        key.rdata == (RDataModel::Dnskey { flags, protocol, algorithm, public_key }),
    ensures
        ({
            let data = be_bytes(flags as nat, 2) + seq![protocol, algorithm] + public_key;
            let signed = name_wire(canon(key.name)) + data;
            let own = anchors_at(anchors, canon(key.name));
            anchored(anchors, key) <==> usable(key) && exists|i: int|
                0 <= i < own.len() && (#[trigger] own[i]).trusted() && own[i].class == key.class
                    && own[i].algorithm == algorithm && own[i].keytag == key_tag_of(data) && {
                    ||| own[i].digest_type == 1 && own[i].digest == digest_of(HashAlgorithm::Sha1, signed)
                    ||| own[i].digest_type == 2 && own[i].digest == digest_of(HashAlgorithm::Sha256, signed)
                    ||| own[i].digest_type == 4 && own[i].digest == digest_of(HashAlgorithm::Sha384, signed)
                }
        }),
{
    let own = anchors_at(anchors, canon(key.name));
    if anchored(anchors, key) {
        let i = choose|i: int| 0 <= i < own.len() && anchor_matches(#[trigger] own[i], key);
        assert(own[i].trusted());
    }
    assert forall|i: int|
        0 <= i < own.len() && (#[trigger] own[i]).trusted() && own[i].class == key.class && own[i].algorithm
            == algorithm && own[i].keytag == key_tag_of(key.rdata.canonical()) && ds_hash(own[i].digest_type)
            is Some && own[i].digest == digest_of(ds_hash(own[i].digest_type)->0, key_bytes(key)) implies
        anchor_matches(own[i], key) by {}
}

/// A chain ends at a key that an anchor of its zone vouches for.
pub proof fn law_walk_ends_at_anchor(
    e: EvidenceModel,
    key: RecordModel,
    passed: nat,
    c: ValidationCounter,
    clock: ClockReading,
)
    requires
        anchored(e.anchors, key),
        passed < 10,
        c.work_count + 1 < c.max_work,
        c.crypto_count + 1 < c.max_crypto,
    ensures
        ({
            let w = walk(e, key, passed, c, clock);
            &&& w.result == Ok::<Seq<Seq<Seq<u8>>>, Failure>(seq![key.name])
            &&& w.counter.work_count == c.work_count + 1
            &&& w.counter.crypto_count == c.crypto_count + 1
            &&& w.counter.sig_fail_count == c.sig_fail_count
        }),
{
}

/// A key that is not vouched for itself, but stands in the key set of its zone that a key signs for which an
/// anchor vouches, leads to that anchor.
pub proof fn law_walk_by_key_set(
    e: EvidenceModel,
    key: RecordModel,
    signer: RecordModel,
    i: int,
    passed: nat,
    c: ValidationCounter,
    clock: ClockReading,
)
    requires
        passed < 10,
        c.work_count + 1 < c.max_work,
        c.crypto_count + 4 < c.max_crypto,
        c.sig_fail_count < usize::MAX,
        anchors_at(e.anchors, canon(key.name)).len() > 0,
        !anchored(e.anchors, key),
        ds_of(e, key.name).len() == 0,
        holds(key_set(e, key), key),
        anchored(e.anchors, signer),
        canon(signer.name) == canon(key.name),
        0 <= i < e.sigs.len(),
        forall|j: int| 0 <= j < i ==> !signature_for(#[trigger] e.sigs[j], RecordType::DNSKEY, key.name),
        signature_for(e.sigs[i], RecordType::DNSKEY, key.name),
        signing_key(e.keys, e.sigs[i].rdata) == Some(signer),
        signs(key_set(e, key), e.sigs[i], signer, clock),
    ensures
        walk(e, key, passed, c, clock).result == Ok::<Seq<Seq<Seq<u8>>>, Failure>(seq![key.name]),
{
    let c1 = c.worked();
    let f = footing(e, key, c1);
    lemma_first_key_signer(e, key, signer, e.sigs, i, f.counter, clock);
}

proof fn lemma_first_key_signer(
    e: EvidenceModel,
    key: RecordModel,
    signer: RecordModel,
    rest: Seq<RecordModel>,
    i: int,
    c: ValidationCounter,
    clock: ClockReading,
)
    requires
        c.crypto_count + 3 < c.max_crypto,
        c.sig_fail_count < usize::MAX,
        anchored(e.anchors, signer),
        canon(signer.name) == canon(key.name),
        0 <= i < rest.len(),
        forall|j: int| 0 <= j < i ==> !signature_for(#[trigger] rest[j], RecordType::DNSKEY, key.name),
        signature_for(rest[i], RecordType::DNSKEY, key.name),
        signing_key(e.keys, rest[i].rdata) == Some(signer),
        signs(key_set(e, key), rest[i], signer, clock),
    ensures
        key_signer(e, key, rest, c, clock).result == Ok::<Option<(RecordModel, Footing)>, Failure>(
            Some((signer, Footing::Anchor)),
        ),
    decreases i,
{
    if i == 0 {
        let f = footing(e, signer, c);
        law_signed_validates(key_set(e, key), rest[0], e.keys, signer, f.counter, clock);
    } else {
        let tail = rest.skip(1);
        assert(!signature_for(rest[0], RecordType::DNSKEY, key.name));
        assert forall|j: int| 0 <= j < i - 1 implies !signature_for(
            #[trigger] tail[j],
            RecordType::DNSKEY,
            key.name,
        ) by {
            assert(tail[j] == rest[j + 1]);
        }
        assert(tail[i - 1] == rest[i]);
        lemma_first_key_signer(e, key, signer, tail, i - 1, c, clock);
    }
}

/// From a key whose digest a delegation signer record of the message holds, in a zone without anchors, the
/// chain goes on with the key of a zone above that signs these records, and the zone is one of the chain.
pub proof fn law_walk_over_delegation(
    e: EvidenceModel,
    key: RecordModel,
    above: RecordModel,
    i: int,
    passed: nat,
    c: ValidationCounter,
    clock: ClockReading,
) -> (d: ValidationCounter)
    requires
        passed < 10,
        c.work_count + 1 < c.max_work,
        c.crypto_count + 2 < c.max_crypto,
        c.sig_fail_count < usize::MAX,
        key.name.len() > 0,
        key.rdata is Dnskey,
        usable(key),
        anchors_at(e.anchors, canon(key.name)).len() == 0,
        records_of(e.ds, RecordType::DS, key.name).len() > 0,
        ds_matches(key, records_of(e.ds, RecordType::DS, key.name)) == Ok::<bool, Failure>(true),
        0 <= i < e.sigs.len(),
        forall|j: int|
            0 <= j < i ==> !(signature_for(#[trigger] e.sigs[j], RecordType::DS, key.name)
                && signed_from_above(e.sigs[j])),
        signature_for(e.sigs[i], RecordType::DS, key.name),
        signed_from_above(e.sigs[i]),
        signing_key(e.keys, e.sigs[i].rdata) == Some(above),
        signs(records_of(e.ds, RecordType::DS, key.name), e.sigs[i], above, clock),
    ensures
        d.work_count == c.work_count + 1,
        d.crypto_count == c.crypto_count + 2,
        d.sig_fail_count == c.sig_fail_count,
        d.max_work == c.max_work && d.max_crypto == c.max_crypto && d.max_sig_fail == c.max_sig_fail,
        walk(e, key, passed, c, clock).result == match walk(e, above, passed + 1, d, clock).result {
            Ok(path) => Ok::<Seq<Seq<Seq<u8>>>, Failure>(seq![key.name] + path),
            Err(f) => Err(f),
        },
{
    let c1 = c.worked();
    let f = footing(e, key, c1);
    assert(f.result == Ok::<Option<Footing>, Failure>(Some(Footing::Delegation)));
    lemma_first_ds_signer(e, key.name, above, e.sigs, i, f.counter, clock);
    key_above(e, key.name, f.counter, clock).counter
}

proof fn lemma_first_ds_signer(
    e: EvidenceModel,
    zone: Seq<Seq<u8>>,
    above: RecordModel,
    rest: Seq<RecordModel>,
    i: int,
    c: ValidationCounter,
    clock: ClockReading,
)
    requires
        c.crypto_count + 1 < c.max_crypto,
        c.sig_fail_count < usize::MAX,
        0 <= i < rest.len(),
        forall|j: int|
            0 <= j < i ==> !(signature_for(#[trigger] rest[j], RecordType::DS, zone) && signed_from_above(
                rest[j],
            )),
        signature_for(rest[i], RecordType::DS, zone),
        signed_from_above(rest[i]),
        signing_key(e.keys, rest[i].rdata) == Some(above),
        signs(records_of(e.ds, RecordType::DS, zone), rest[i], above, clock),
    ensures
        ({
            let o = ds_signer(e, zone, rest, c, clock);
            &&& o.result == Ok::<Option<RecordModel>, Failure>(Some(above))
            &&& o.counter == c.computed()
        }),
    decreases i,
{
    if i == 0 {
        law_signed_validates(records_of(e.ds, RecordType::DS, zone), rest[0], e.keys, above, c, clock);
    } else {
        let tail = rest.skip(1);
        assert(!(signature_for(rest[0], RecordType::DS, zone) && signed_from_above(rest[0])));
        assert forall|j: int| 0 <= j < i - 1 implies !(signature_for(#[trigger] tail[j], RecordType::DS, zone)
            && signed_from_above(tail[j])) by {
            assert(tail[j] == rest[j + 1]);
        }
        assert(tail[i - 1] == rest[i]);
        lemma_first_ds_signer(e, zone, above, tail, i - 1, c, clock);
    }
}

/// Where nothing vouches for a key, the chain ends: a zone with anchors is broken, so is the root, a zone
/// without delegation signer records is not signed, and one whose records do not fit is broken. After ten zones
/// the walk is given up.
pub proof fn law_walk_without_entry(
    e: EvidenceModel,
    key: RecordModel,
    passed: nat,
    c: ValidationCounter,
    clock: ClockReading,
)
    requires
        c.work_count + 1 < c.max_work,
    ensures
        passed >= 10 ==> (walk(e, key, passed, c, clock).result matches Err(Failure::TooMuchWork { .. })),
        passed < 10 && entry(e, key, c.worked(), clock).result == Ok::<
            Option<(RecordModel, Footing)>,
            Failure,
        >(None) ==> ({
            let r = walk(e, key, passed, c, clock).result;
            if anchors_at(e.anchors, canon(key.name)).len() == 0 && key.name.len() > 0 && records_of(
                e.ds,
                RecordType::DS,
                key.name,
            ).len() == 0 && records_of(e.vouched, RecordType::DS, key.name).len() == 0 {
                r matches Err(Failure::NonSecure { .. })
            } else {
                r matches Err(Failure::ChainOfTrustBroken { .. })
            }
        }),
        !usable(key) && !holds(key_set(e, key), key) ==> entry(e, key, c.worked(), clock).result == Ok::<
            Option<(RecordModel, Footing)>,
            Failure,
        >(None),
{
}

/// A signature record is for the records of the type that its first field names and of its own owner.
pub proof fn law_signature_for(s: RecordModel, rtype: RecordType, name: Seq<Seq<u8>>, code: u16)
    requires
        s.rdata matches RDataModel::Rrsig { type_covered, .. } && type_covered == code,
    ensures
        signature_for(s, rtype, name) <==> canon(s.name) == canon(name) && RecordType::of_code(code) == rtype,
        signature_for(s, RecordType::DNSKEY, name) <==> code == 48 && canon(s.name) == canon(name),
        signature_for(s, RecordType::DS, name) <==> code == 43 && canon(s.name) == canon(name),
{
}

/// The walk for a name starts at the closest zone at or above it that has a key: not below that of any usable
/// key of a zone that the name is in.
pub proof fn law_closest_key(keys: Seq<RecordModel>, name: Seq<Seq<u8>>, i: int)
    requires
        0 <= i < keys.len(),
        usable(keys[i]),
        is_suffix(canon(keys[i].name), canon(name)),
    ensures
        closest_key(keys, name) matches Some(k) && usable(k) && is_suffix(canon(k.name), canon(name))
            && k.name.len() >= keys[i].name.len(),
    decreases name.len(),
{
    lemma_closest_key(keys, name);
    lemma_first_usable(keys, name);
    if first_usable(keys, name) is None {
        let z = canon(keys[i].name);
        let n = canon(name);
        if z.len() == n.len() {
            assert(n.skip(0) =~= n);
            lemma_some_usable(keys, name, i);
        } else {
            assert(canon(name.skip(1)) =~= n.skip(1));
            assert(n.skip(1).skip(n.len() - 1 - z.len()) =~= n.skip(n.len() - z.len()));
            law_closest_key(keys, name.skip(1), i);
        }
    }
}

proof fn lemma_some_usable(keys: Seq<RecordModel>, zone: Seq<Seq<u8>>, i: int)
    requires
        0 <= i < keys.len(),
        usable(keys[i]),
        canon(keys[i].name) == canon(zone),
    ensures
        first_usable(keys, zone) is Some,
    decreases keys.len(),
{
    if i > 0 {
        let tail = keys.skip(1);
        assert(tail[i - 1] == keys[i]);
        lemma_some_usable(tail, zone, i - 1);
    }
}

/// Names that differ in case only have the same records.
proof fn lemma_same_zone(e: EvidenceModel, a: RecordModel, b: RecordModel)
    requires
        canon(a.name) == canon(b.name),
    ensures
        records_of(e.ds, RecordType::DS, a.name) == records_of(e.ds, RecordType::DS, b.name),
        records_of(e.vouched, RecordType::DS, a.name) == records_of(
            e.vouched,
            RecordType::DS,
            b.name,
        ),
        a.name.len() == b.name.len(),
{
    assert(canon(a.name).len() == a.name.len());
    assert(canon(b.name).len() == b.name.len());
    let p = |r: RecordModel| r.rtype == RecordType::DS && canon(r.name) == canon(a.name);
    let q = |r: RecordModel| r.rtype == RecordType::DS && canon(r.name) == canon(b.name);
    assert(p =~= q);
}

proof fn lemma_same_zone_signer(
    e: EvidenceModel,
    a: Seq<Seq<u8>>,
    b: Seq<Seq<u8>>,
    rest: Seq<RecordModel>,
    c: ValidationCounter,
    clock: ClockReading,
)
    requires
        canon(a) == canon(b),
        records_of(e.ds, RecordType::DS, a) == records_of(e.ds, RecordType::DS, b),
    ensures
        ds_signer(e, a, rest, c, clock) == ds_signer(e, b, rest, c, clock),
    decreases rest.len(),
{
    if rest.len() > 0 {
        let o = rrset_outcome(
            records_of(e.ds, RecordType::DS, a),
            rest[0],
            e.keys,
            c,
            clock,
        );
        lemma_same_zone_signer(e, a, b, rest.skip(1), c, clock);
        lemma_same_zone_signer(e, a, b, rest.skip(1), o.counter, clock);
    }
}

// Walking.

fn chain_broken(zone: &DomainName, reason: &str) -> (e: DnsmasqError)
    ensures
        e@ == broken(zone@, reason@),
{
    DnsmasqError::Dnssec(
        DnssecError::ChainOfTrustBroken { name: zone.as_str(), reason: String::from_str(reason) },
    )
}

/// True of the signature records for the records of a type with a name.
fn is_signature_for(s: &ResourceRecord, rtype: RecordType, name: &DomainName) -> (r: bool)
    ensures
        r == signature_for(s@, rtype, name@),
{
    match &s.rdata {
        RData::Rrsig { type_covered, .. } => RecordType::from_code(*type_covered) == rtype
            && s.name.same_name(name),
        _ => false,
    }
}

/// True of a signature record whose signer is a zone above its owner.
fn is_signed_from_above(s: &ResourceRecord) -> (r: bool)
    ensures
        r == signed_from_above(s@),
{
    match &s.rdata {
        RData::Rrsig { signer, .. } => signer.label_count() < s.name.label_count(),
        _ => false,
    }
}

/// True when a record set has the data of a record.
fn set_holds(set: &Vec<&ResourceRecord>, record: &ResourceRecord) -> (r: bool)
    ensures
        r == holds(set_models(set@), record@),
{
    let ghost all = set_models(set@);
    let data = record.rdata.canonical();
    let mut i: usize = 0;
    while i < set.len()
        invariant
            i <= set@.len(),
            all == set_models(set@),
            data@ == record@.rdata.canonical(),
            forall|j: int|
                0 <= j < i ==> (#[trigger] all[j]).rdata.canonical() != record@.rdata.canonical(),
        decreases set@.len() - i,
    {
        assert(all[i as int] == set@[i as int]@);
        let other = set[i].rdata.canonical();
        if same_bytes(other.as_slice(), data.as_slice()) {
            return true;
        }
        i = i + 1;
    }
    false
}

/// The position of the first usable key of a zone.
fn find_usable(keys: &Vec<&ResourceRecord>, zone: &DomainName) -> (r: Option<usize>)
    ensures
        match (r, first_usable(set_models(keys@), zone@)) {
            (Some(i), Some(w)) => i < keys@.len() && keys@[i as int]@ == w,
            (None, None) => true,
            _ => false,
        },
{
    let ghost all = set_models(keys@);
    let mut i: usize = 0;
    assert(all.skip(0) =~= all);
    while i < keys.len()
        invariant
            i <= keys@.len(),
            all == set_models(keys@),
            first_usable(all.skip(i as int), zone@) == first_usable(all, zone@),
        decreases keys@.len() - i,
    {
        proof {
            assert(all.skip(i as int)[0] == all[i as int]);
            assert(all[i as int] == keys@[i as int]@);
            assert(all.skip(i as int).skip(1) =~= all.skip(i + 1));
        }
        if DnssecValidator::is_usable(keys[i]) && keys[i].name.same_name(zone) {
            return Some(i);
        }
        i = i + 1;
    }
    None
}

/// The position of the first usable key of the closest zone, at or above a name, that has one.
fn find_closest_key(keys: &Vec<&ResourceRecord>, name: &DomainName) -> (r: Option<usize>)
    ensures
        match (r, closest_key(set_models(keys@), name@)) {
            (Some(i), Some(w)) => i < keys@.len() && keys@[i as int]@ == w,
            (None, None) => true,
            _ => false,
        },
{
    let ghost all = set_models(keys@);
    let mut zone = name.clone();
    while zone.label_count() > 0
        invariant
            all == set_models(keys@),
            closest_key(all, zone@) == closest_key(all, name@),
        decreases zone@.len(),
    {
        if let Some(i) = find_usable(keys, &zone) {
            return Some(i);
        }
        zone = zone.parent();
    }
    find_usable(keys, &zone)
}

impl<'a> Evidence<'a> {
    /// The delegation signer records of a zone.
    fn ds_records(&self, zone: &DomainName) -> (r: Vec<&'a ResourceRecord>)
        requires
            self.wf(),
        ensures
            set_models(r@) == ds_of(self.model(), zone@),
            all_fit(r@),
    {
        let own = select(&self.ds, RecordType::DS, zone);
        assert(set_models(own@).len() == own@.len());
        if own.len() > 0 {
            own
        } else {
            select(&self.vouched, RecordType::DS, zone)
        }
    }
}

impl DnssecValidator {
    /// Tells whether an anchor vouches for a usable key.
    fn meets_anchor(
        &self,
        anchors: &TrustAnchorStore,
        key: &ResourceRecord,
        counter: &mut ValidationCounter,
    ) -> (r: Result<bool, DnsmasqError>)
        requires
            key.rdata@.fits(),
            usable(key@),
            old(counter).room(),
        ensures
            ({
                let o = anchor_outcome(anchors@, key@, *old(counter));
                comes_to(r, o.result) && *final(counter) == o.counter
            }),
            r is Ok ==> final(counter).room(),
    {
        let list = match anchors.anchors_of(&key.name) {
            Some(a) => a,
            None => {
                return Ok(false);
            },
        };
        if let Err(e) = counter.increment_crypto() {
            return Err(e);
        }
        let ghost all = anchors_at(anchors@, canon(key@.name));
        let rdata = key.rdata.canonical();
        let tag: u16 = key_tag(rdata.as_slice());
        let algorithm: u8 = match &key.rdata {
            RData::Dnskey { algorithm, .. } => *algorithm,
            _ => 0,
        };
        let mut i: usize = 0;
        while i < list.len()
            invariant
                i <= list@.len(),
                anchor_models(list@) == all,
                all == anchors_at(anchors@, canon(key@.name)),
                key.rdata@.fits(),
                usable(key@),
                key@.rdata matches RDataModel::Dnskey { algorithm: a, .. } && a == algorithm,
                tag == key_tag_of(key@.rdata.canonical()),
                *counter == old(counter).computed(),
                counter.crypto_count < counter.max_crypto,
                counter.room(),
                all.len() > 0,
                forall|j: int| 0 <= j < i ==> !anchor_matches(#[trigger] all[j], key@),
            decreases list@.len() - i,
        {
            let anchor = &list[i];
            assert(all[i as int] == anchor@);
            if anchor.is_trusted() && anchor.class == key.class && anchor.algorithm == algorithm
                && anchor.keytag == tag {
                if let Ok(d) = self.compute_dnskey_digest(key, anchor.digest_type) {
                    if same_bytes(d.as_slice(), anchor.digest.as_slice()) {
                        assert(anchor_matches(all[i as int], key@));
                        return Ok(true);
                    }
                }
            }
            i = i + 1;
        }
        assert(all.len() == list@.len());
        Ok(false)
    }

    /// Tells what vouches for a key from outside its zone.
    fn find_footing(&self, e: &Evidence, key: &ResourceRecord, counter: &mut ValidationCounter) -> (r:
        Result<Option<Footing>, DnsmasqError>)
        requires
            e.wf(),
            key.rdata@.fits(),
            old(counter).room(),
        ensures
            ({
                let o = footing(e.model(), key@, *old(counter));
                comes_to(r, o.result) && *final(counter) == o.counter
            }),
            r is Ok ==> final(counter).room(),
    {
        if !Self::is_usable(key) {
            return Ok(None);
        }
        match self.meets_anchor(e.anchors, key, counter) {
            Err(x) => {
                return Err(x);
            },
            Ok(true) => {
                return Ok(Some(Footing::Anchor));
            },
            Ok(false) => {},
        }
        let ds = e.ds_records(&key.name);
        assert(set_models(ds@).len() == ds@.len());
        if ds.len() == 0 {
            return Ok(None);
        }
        match self.validate_dnskey_by_ds(key, &ds, counter) {
            Err(x) => Err(x),
            Ok(true) => Ok(Some(Footing::Delegation)),
            Ok(false) => Ok(None),
        }
    }

    /// Finds a key that is vouched for from outside and signs the key set of a key's zone.
    fn find_key_signer(
        &self,
        e: &Evidence,
        key: &ResourceRecord,
        set: &Vec<&ResourceRecord>,
        counter: &mut ValidationCounter,
        clock: &ClockReading,
    ) -> (r: Result<Option<Footing>, DnsmasqError>)
        requires
            e.wf(),
            set_models(set@) == key_set(e.model(), key@),
            all_fit(set@),
            set@.len() <= MAX_RECORDS,
            old(counter).room(),
        ensures
            ({
                let o = key_signer(e.model(), key@, e.model().sigs, *old(counter), *clock);
                &&& match (r, o.result) {
                    (Ok(x), Ok(w)) => x == match w {
                        Some((_, kind)) => Some(kind),
                        None => None,
                    },
                    (Err(x), Err(w)) => x@ == w,
                    _ => false,
                }
                &&& *final(counter) == o.counter
            }),
            r is Ok ==> final(counter).room(),
    {
        let ghost m = e.model();
        let ghost want = key_signer(m, key@, m.sigs, *counter, *clock);
        let mut i: usize = 0;
        assert(m.sigs.skip(0) =~= m.sigs);
        while i < e.sigs.len()
            invariant
                e.wf(),
                m == e.model(),
                set_models(set@) == key_set(m, key@),
                all_fit(set@),
                set@.len() <= MAX_RECORDS,
                counter.room(),
                i <= e.sigs@.len(),
                key_signer(m, key@, m.sigs.skip(i as int), *counter, *clock) == want,
                want == key_signer(m, key@, m.sigs, *old(counter), *clock),
            decreases e.sigs@.len() - i,
        {
            let s = e.sigs[i];
            proof {
                assert(m.sigs.skip(i as int)[0] == m.sigs[i as int]);
                assert(m.sigs[i as int] == s@);
                assert(m.sigs.skip(i as int).skip(1) =~= m.sigs.skip(i + 1));
            }
            if is_signature_for(s, RecordType::DNSKEY, &key.name) {
                if let Some(k) = Self::find_signing_key(&e.keys, s) {
                    let signer = e.keys[k];
                    if signer.name.same_name(&key.name) {
                        match self.find_footing(e, signer, counter) {
                            Err(x) => {
                                return Err(x);
                            },
                            Ok(None) => {},
                            Ok(Some(kind)) => match self.validate_rrset_at(
                                set,
                                s,
                                &e.keys,
                                counter,
                                clock,
                            ) {
                                Err(x) => {
                                    return Err(x);
                                },
                                Ok(true) => {
                                    return Ok(Some(kind));
                                },
                                Ok(false) => {},
                            },
                        }
                    }
                }
            }
            i = i + 1;
        }
        Ok(None)
    }

    /// Tells by what the zone of a key is entered from outside.
    fn find_entry(
        &self,
        e: &Evidence,
        key: &ResourceRecord,
        counter: &mut ValidationCounter,
        clock: &ClockReading,
    ) -> (r: Result<Option<Footing>, DnsmasqError>)
        requires
            e.wf(),
            key.rdata@.fits(),
            old(counter).room(),
        ensures
            ({
                let o = entry(e.model(), key@, *old(counter), *clock);
                &&& match (r, o.result) {
                    (Ok(x), Ok(w)) => x == match w {
                        Some((_, kind)) => Some(kind),
                        None => None,
                    },
                    (Err(x), Err(w)) => x@ == w,
                    _ => false,
                }
                &&& *final(counter) == o.counter
            }),
            r is Ok ==> final(counter).room(),
    {
        match self.find_footing(e, key, counter) {
            Err(x) => {
                return Err(x);
            },
            Ok(Some(kind)) => {
                return Ok(Some(kind));
            },
            Ok(None) => {},
        }
        let set = select(&e.message_keys, RecordType::DNSKEY, &key.name);
        if !set_holds(&set, key) {
            return Ok(None);
        }
        self.find_key_signer(e, key, &set, counter, clock)
    }

    /// Finds the key of a zone above that signs the delegation signer records of a zone.
    fn find_ds_signer(
        &self,
        e: &Evidence,
        zone: &DomainName,
        set: &Vec<&ResourceRecord>,
        counter: &mut ValidationCounter,
        clock: &ClockReading,
    ) -> (r: Result<Option<usize>, DnsmasqError>)
        requires
            e.wf(),
            set_models(set@) == records_of(e.model().ds, RecordType::DS, zone@),
            all_fit(set@),
            set@.len() <= MAX_RECORDS,
            old(counter).room(),
        ensures
            ({
                let o = ds_signer(e.model(), zone@, e.model().sigs, *old(counter), *clock);
                &&& match (r, o.result) {
                    (Ok(Some(k)), Ok(Some(w))) => k < e.keys@.len() && e.keys@[k as int]@ == w,
                    (Ok(None), Ok(None)) => true,
                    (Err(x), Err(w)) => x@ == w,
                    _ => false,
                }
                &&& *final(counter) == o.counter
            }),
            r is Ok ==> final(counter).room(),
    {
        let ghost m = e.model();
        let ghost want = ds_signer(m, zone@, m.sigs, *counter, *clock);
        let mut i: usize = 0;
        assert(m.sigs.skip(0) =~= m.sigs);
        while i < e.sigs.len()
            invariant
                e.wf(),
                m == e.model(),
                set_models(set@) == records_of(m.ds, RecordType::DS, zone@),
                all_fit(set@),
                set@.len() <= MAX_RECORDS,
                counter.room(),
                i <= e.sigs@.len(),
                ds_signer(m, zone@, m.sigs.skip(i as int), *counter, *clock) == want,
                want == ds_signer(m, zone@, m.sigs, *old(counter), *clock),
            decreases e.sigs@.len() - i,
        {
            let s = e.sigs[i];
            proof {
                assert(m.sigs.skip(i as int)[0] == m.sigs[i as int]);
                assert(m.sigs[i as int] == s@);
                assert(m.sigs.skip(i as int).skip(1) =~= m.sigs.skip(i + 1));
            }
            if is_signature_for(s, RecordType::DS, zone) && is_signed_from_above(s) {
                match self.validate_rrset_at(set, s, &e.keys, counter, clock) {
                    Err(x) => {
                        return Err(x);
                    },
                    Ok(true) => {
                        return Ok(Self::find_signing_key(&e.keys, s));
                    },
                    Ok(false) => {},
                }
            }
            i = i + 1;
        }
        Ok(None)
    }

    /// Finds the key of a zone above that answers for the delegation signer records of a zone.
    fn find_key_above(
        &self,
        e: &Evidence,
        zone: &DomainName,
        counter: &mut ValidationCounter,
        clock: &ClockReading,
    ) -> (r: Result<usize, DnsmasqError>)
        requires
            e.wf(),
            old(counter).room(),
        ensures
            ({
                let o = key_above(e.model(), zone@, *old(counter), *clock);
                &&& match (r, o.result) {
                    (Ok(k), Ok(w)) => k < e.keys@.len() && e.keys@[k as int]@ == w,
                    (Err(x), Err(w)) => x@ == w,
                    _ => false,
                }
                &&& *final(counter) == o.counter
            }),
            r is Ok ==> final(counter).room(),
    {
        if zone.label_count() == 0 {
            return Err(chain_broken(zone, "No trust anchor reached"));
        }
        let own = select(&e.ds, RecordType::DS, zone);
        assert(set_models(own@).len() == own@.len());
        if own.len() > 0 {
            match self.find_ds_signer(e, zone, &own, counter, clock) {
                Err(x) => Err(x),
                Ok(Some(k)) => Ok(k),
                Ok(None) => Err(chain_broken(zone, "DS records are not signed by a zone above")),
            }
        } else {
            let parent = zone.parent();
            match find_closest_key(&e.keys, &parent) {
                Some(k) => Ok(k),
                None => Err(DnsmasqError::Dnssec(DnssecError::NoKey { name: parent.as_str() })),
            }
        }
    }

    /// Tells why a zone cannot be entered from outside.
    fn refuse_entry(e: &Evidence, zone: &DomainName) -> (x: DnsmasqError)
        requires
            e.wf(),
        ensures
            x@ == no_entry(e.model(), zone@),
    {
        if e.anchors.anchors_of(zone).is_some() {
            return chain_broken(zone, "DNSKEY validation against trust anchor failed");
        }
        if zone.label_count() == 0 {
            return chain_broken(zone, "No trust anchor reached");
        }
        let ds = e.ds_records(zone);
        assert(set_models(ds@).len() == ds@.len());
        if ds.len() == 0 {
            DnsmasqError::Dnssec(DnssecError::NonSecure { name: zone.as_str() })
        } else {
            chain_broken(zone, "DNSKEY validation against DS failed")
        }
    }

    /// Walks from a key up to an anchor, after some zones have been passed.
    pub fn walk_from_key(
        &self,
        e: &Evidence,
        key: &ResourceRecord,
        passed: u64,
        counter: &mut ValidationCounter,
        clock: &ClockReading,
    ) -> (r: Result<Vec<DomainName>, DnsmasqError>)
        requires
            e.wf(),
            key.rdata@.fits(),
            passed <= MAX_CHAIN_DEPTH,
            old(counter).room(),
        ensures
            walked(r, *final(counter), walk(e.model(), key@, passed as nat, *old(counter), *clock)),
            r is Ok ==> final(counter).room(),
        decreases MAX_CHAIN_DEPTH - passed,
    {
        if passed >= MAX_CHAIN_DEPTH {
            return Err(
                DnsmasqError::Dnssec(DnssecError::TooMuchWork { work_units: passed + 1 }),
            );
        }
        if let Err(x) = counter.increment_work() {
            return Err(x);
        }
        match self.find_entry(e, key, counter, clock) {
            Err(x) => Err(x),
            Ok(None) => Err(Self::refuse_entry(e, &key.name)),
            Ok(Some(Footing::Anchor)) => {
                let mut path: Vec<DomainName> = Vec::new();
                path.push(key.name.clone());
                assert(name_models(path@) =~= seq![key@.name]);
                Ok(path)
            },
            Ok(Some(Footing::Delegation)) => match self.find_key_above(
                e,
                &key.name,
                counter,
                clock,
            ) {
                Err(x) => Err(x),
                Ok(k) => match self.walk_from_key(e, e.keys[k], passed + 1, counter, clock) {
                    Err(x) => Err(x),
                    Ok(rest) => {
                        let mut path = rest;
                        let ghost tail = name_models(path@);
                        path.insert(0, key.name.clone());
                        assert(name_models(path@) =~= seq![key@.name] + tail);
                        Ok(path)
                    },
                },
            },
        }
    }

    /// Walks from the zone of a name up to an anchor.
    pub fn walk_from_name(
        &self,
        e: &Evidence,
        name: &DomainName,
        counter: &mut ValidationCounter,
        clock: &ClockReading,
    ) -> (r: Result<Vec<DomainName>, DnsmasqError>)
        requires
            e.wf(),
            old(counter).room(),
        ensures
            walked(r, *final(counter), name_walk(e.model(), name@, *old(counter), *clock)),
    {
        match find_closest_key(&e.keys, name) {
            Some(k) => self.walk_from_key(e, e.keys[k], 0, counter, clock),
            None => Err(DnsmasqError::Dnssec(DnssecError::NoKey { name: name.as_str() })),
        }
    }
}

/// A walk ends after ten zones, and where its steps reach their limit; the failure tells the count. A
/// comparison with anchors counts as one cryptographic operation and ends where those reach theirs;
/// in a zone without anchors there is none.
pub proof fn law_walk_limits(
    e: EvidenceModel,
    key: RecordModel,
    passed: nat,
    c: ValidationCounter,
    clock: ClockReading,
)
    requires
        c.work_count < usize::MAX,
        c.crypto_count < usize::MAX,
    ensures
        passed >= 10 ==> walk(e, key, passed, c, clock).result == Err::<Seq<Seq<Seq<u8>>>, Failure>(
            Failure::TooMuchWork { work_units: passed + 1 },
        ) && walk(e, key, passed, c, clock).counter == c,
        passed < 10 && c.work_count + 1 >= c.max_work ==> walk(e, key, passed, c, clock).result == Err::<
            Seq<Seq<Seq<u8>>>,
            Failure,
        >(Failure::TooMuchWork { work_units: (c.work_count + 1) as nat }),
        anchors_at(e.anchors, canon(key.name)).len() == 0 ==> anchor_outcome(e.anchors, key, c).result
            == Ok::<bool, Failure>(false) && anchor_outcome(e.anchors, key, c).counter == c,
        anchors_at(e.anchors, canon(key.name)).len() > 0 && c.crypto_count + 1 >= c.max_crypto
            ==> anchor_outcome(e.anchors, key, c).result == Err::<bool, Failure>(
            Failure::TooMuchWork { work_units: (c.crypto_count + 1) as nat },
        ),
        anchors_at(e.anchors, canon(key.name)).len() > 0 && c.crypto_count + 1 < c.max_crypto
            ==> anchor_outcome(e.anchors, key, c).result == Ok::<bool, Failure>(
            anchored(e.anchors, key),
        ) && anchor_outcome(e.anchors, key, c).counter.crypto_count == c.crypto_count + 1,
{
}

} // verus!
