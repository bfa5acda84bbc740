//! The validation of whole answers: every record is signed, and every signature leads to an anchor.
use vstd::prelude::*;
use crate::clock::{ClockReading, Timestamp};
use crate::dns::cache::{
    find, law_lookup_by_name, law_lookup_keeps, law_marks, lemma_first, CacheModel, DnsCache, EntryModel, KeyModel,
};
use crate::dns::dnssec::canonical::{set_models, MAX_RECORDS};
use crate::dns::dnssec::chain::{
    all_fit, anchored, law_walk_ends_at_anchor, law_walk_is_a_chain, name_walk, signature_for, trusted_key, walk,
    walked, Evidence, EvidenceModel,
};
use crate::dns::dnssec::trust_anchors::{Listing, TrustAnchorStore};
use crate::dns::dnssec::validator::{
    law_signed_validates, law_validated_is_signed, lemma_signing_key, name_in_span, name_models, nsec3_outcome, nsec_denies, rrset_outcome,
    signing_key, signs, Counted, DnssecValidator, ResultModel, ValidationCounter, ValidationResult,
};
use crate::dns::message::{DnsMessage, MessageModel};
use crate::dns::name::{canon, is_suffix, DomainName};
use crate::dns::record::{record_models, RData, RDataModel, RecordModel, ResourceRecord};
use crate::error::{DnsmasqError, DnssecError, Failure};
use crate::text::message_text;
use crate::types::{CacheFlags, RecordType};
use crate::wire::same_bytes;

verus! {

/// The number of records that a section of a message can have.
pub const MAX_SECTION: usize = 0xffff;

/// True of a message whose sections and record data have lengths that the wire format can express.
pub open spec fn wire_sized(m: MessageModel) -> bool {
    &&& m.answers.len() <= MAX_SECTION
    &&& m.authority.len() <= MAX_SECTION
    &&& forall|i: int| 0 <= i < m.answers.len() ==> (#[trigger] m.answers[i]).rdata.fits()
    &&& forall|i: int| 0 <= i < m.authority.len() ==> (#[trigger] m.authority[i]).rdata.fits()
}

// What is known.

/// The records of a type in a message.
pub open spec fn message_records(m: MessageModel, rtype: RecordType) -> Seq<RecordModel> {
    (m.answers + m.authority).filter(|r: RecordModel| r.rtype == rtype)
}

/// The keys and the validated delegation signer records that a cache has for some zones, and the
/// cache after the lookups.
#[verifier::ext_equal]
pub ghost struct Gathered {
    pub keys: Seq<RecordModel>,
    pub ds: Seq<RecordModel>,
    pub cache: CacheModel,
}

/// The position of the entry of a name and type.
pub open spec fn position(cache: CacheModel, name: Seq<Seq<u8>>, record_type: RecordType) -> Option<int> {
    find(cache.entries, KeyModel { domain: canon(name), record_type })
}

/// The record of an entry, where there is one and its data is not oversized.
pub open spec fn entry_record(entry: Option<EntryModel>) -> Seq<RecordModel> {
    match entry {
        Some(x) if x.record.rdata.fits() => seq![x.record],
        _ => Seq::empty(),
    }
}

/// The record of an entry that was validated.
pub open spec fn validated_record(entry: Option<EntryModel>) -> Seq<RecordModel> {
    match entry {
        Some(x) if CacheFlags::has(x.flags, CacheFlags::DNSSECOK) => entry_record(entry),
        _ => Seq::empty(),
    }
}

/// The keys and the validated delegation signer records that a cache has for a name and the names
/// above it.
pub open spec fn gather(cache: CacheModel, name: Seq<Seq<u8>>, now: Timestamp) -> Gathered
    decreases name.len(),
{
    let key_at = position(cache, name, RecordType::DNSKEY);
    let keys = entry_record(cache.answer(key_at, now));
    let cache1 = cache.looked_up(key_at, now);
    let ds_at = position(cache1, name, RecordType::DS);
    let ds = validated_record(cache1.answer(ds_at, now));
    let cache2 = cache1.looked_up(ds_at, now);
    if name.len() == 0 {
        Gathered { keys, ds, cache: cache2 }
    } else {
        let rest = gather(cache2, name.skip(1), now);
        Gathered { keys: keys + rest.keys, ds: ds + rest.ds, cache: rest.cache }
    }
}

/// What a message, a cache and the anchors give to build chains of trust from.
pub open spec fn evidence_of(m: MessageModel, g: Gathered, anchors: Listing) -> EvidenceModel {
    EvidenceModel {
        keys: message_records(m, RecordType::DNSKEY) + g.keys,
        message_keys: message_records(m, RecordType::DNSKEY),
        sigs: message_records(m, RecordType::RRSIG),
        ds: message_records(m, RecordType::DS),
        vouched: g.ds,
        anchors,
    }
}

// Signed sections.

/// True when a signature record is for a record.
pub open spec fn covers(s: RecordModel, r: RecordModel) -> bool {
    s.rtype is RRSIG && signature_for(s, r.rtype, r.name) && s.class == r.class
}

/// The records of a section that a signature record is for.
pub open spec fn covered_set(section: Seq<RecordModel>, s: RecordModel) -> Seq<RecordModel> {
    section.filter(|r: RecordModel| covers(s, r))
}

/// What the signatures of a section come to: an outcome that ends the validation, if there is one,
/// and the counter that they leave.
pub ghost struct Signatures {
    pub ended: Option<ResultModel>,
    pub counter: ValidationCounter,
}

/// One signature record: it is a step of work; one without signature data is not to be believed, one
/// that covers nothing is passed over, and any other must check.
pub open spec fn signature_step(
    keys: Seq<RecordModel>,
    section: Seq<RecordModel>,
    s: RecordModel,
    c: ValidationCounter,
    clock: ClockReading,
) -> Signatures {
    let c1 = c.worked();
    let set = covered_set(section, s);
    if c1.work_count >= c1.max_work {
        Signatures {
            ended: Some(ResultModel::indeterminate("Resource limit exceeded"@)),
            counter: c1,
        }
    } else if !(s.rdata is Rrsig) {
        Signatures {
            ended: Some(ResultModel::bogus("RRSIG record is malformed"@, Some(s.name))),
            counter: c1,
        }
    } else if set.len() == 0 {
        Signatures { ended: None, counter: c1 }
    } else {
        let checked = rrset_outcome(set, s, keys, c1, clock);
        Signatures {
            ended: match checked.result {
                Ok(true) => None,
                Ok(false) => Some(
                    ResultModel::bogus("RRSIG signature verification failed"@, Some(s.name)),
                ),
                Err(f) => Some(ResultModel::indeterminate("Validation error: "@ + f.text() + ""@)),
            },
            counter: checked.counter,
        }
    }
}

/// The signatures of `rest`, which is the end of a section, one after the other.
pub open spec fn check_signatures(
    keys: Seq<RecordModel>,
    section: Seq<RecordModel>,
    rest: Seq<RecordModel>,
    c: ValidationCounter,
    clock: ClockReading,
) -> Signatures
    decreases rest.len(),
{
    if rest.len() == 0 {
        Signatures { ended: None, counter: c }
    } else if !(rest[0].rtype is RRSIG) {
        check_signatures(keys, section, rest.skip(1), c, clock)
    } else {
        let step = signature_step(keys, section, rest[0], c, clock);
        if step.ended is Some {
            step
        } else {
            check_signatures(keys, section, rest.skip(1), step.counter, clock)
        }
    }
}

/// True when a signature record of a section is for a record.
pub open spec fn is_covered(section: Seq<RecordModel>, r: RecordModel) -> bool {
    exists|i: int| 0 <= i < section.len() && covers(#[trigger] section[i], r)
}

/// The first of some records, other than signature records, that no signature record of a section
/// is for.
pub open spec fn first_uncovered(section: Seq<RecordModel>, rest: Seq<RecordModel>) -> Option<
    RecordModel,
>
    decreases rest.len(),
{
    if rest.len() == 0 {
        None
    } else if !(rest[0].rtype is RRSIG) && !is_covered(section, rest[0]) {
        Some(rest[0])
    } else {
        first_uncovered(section, rest.skip(1))
    }
}

/// The walks from the keys of the signatures in `rest`, which is the end of a section, as far as the
/// signatures cover anything: the zones of the first, where there is one.
pub open spec fn walk_signatures(
    e: EvidenceModel,
    section: Seq<RecordModel>,
    rest: Seq<RecordModel>,
    c: ValidationCounter,
    clock: ClockReading,
) -> Counted<Option<Seq<Seq<Seq<u8>>>>>
    decreases rest.len(),
{
    if rest.len() == 0 {
        Counted { result: Ok(None), counter: c }
    } else if covered_set(section, rest[0]).len() == 0 {
        walk_signatures(e, section, rest.skip(1), c, clock)
    } else {
        match signing_key(e.keys, rest[0].rdata) {
            None => Counted {
                result: Err(Failure::NoKey { name: crate::dns::name::name_text(rest[0].name) }),
                counter: c,
            },
            Some(key) => {
                let w = walk(e, key, 0, c, clock);
                let others = walk_signatures(e, section, rest.skip(1), w.counter, clock);
                match (w.result, others.result) {
                    (Err(f), _) => Counted { result: Err(f), counter: w.counter },
                    (Ok(_), Err(f)) => Counted { result: Err(f), counter: others.counter },
                    (Ok(path), Ok(_)) => Counted {
                        result: Ok(Some(path)),
                        counter: others.counter,
                    },
                }
            },
        }
    }
}

/// What a failed walk makes of an answer: a limit leaves it undecided, a zone without delegation
/// signer records is not signed, and anything else is not to be believed.
pub open spec fn walk_verdict(f: Failure, query_name: Seq<Seq<u8>>) -> ResultModel {
    match f {
        Failure::TooMuchWork { .. } => ResultModel::indeterminate("Resource limit exceeded"@),
        Failure::NonSecure { .. } => ResultModel::insecure(),
        _ => ResultModel::bogus(
            "Trust chain validation failed: "@ + f.text() + ""@,
            Some(query_name),
        ),
    }
}

/// What the validation of a section comes to: its signatures must check, they must cover every
/// record, and each key must lead to an anchor. It gives the zones on the way, or the outcome where
/// the section is not verified.
pub open spec fn section_outcome(
    e: EvidenceModel,
    section: Seq<RecordModel>,
    query_name: Seq<Seq<u8>>,
    clock: ClockReading,
) -> Result<Seq<Seq<Seq<u8>>>, ResultModel> {
    let signatures = check_signatures(
        e.keys,
        section,
        section,
        ValidationCounter::fresh(),
        clock,
    );
    match (signatures.ended, first_uncovered(section, section)) {
        (Some(r), _) => Err(r),
        (None, Some(r)) => Err(
            ResultModel::bogus("Record is not covered by a signature"@, Some(r.name)),
        ),
        (None, None) => match walk_signatures(
            e,
            section,
            section,
            signatures.counter,
            clock,
        ).result {
            Err(f) => Err(walk_verdict(f, query_name)),
            Ok(None) => Err(ResultModel::bogus("No signed records"@, Some(query_name))),
            Ok(Some(path)) => Ok(path),
        },
    }
}

// Whole answers.

/// True when there is a record of a type among the records.
pub open spec fn has_type(records: Seq<RecordModel>, rtype: RecordType) -> bool {
    exists|i: int| 0 <= i < records.len() && (#[trigger] records[i]).rtype == rtype
}

/// True of a message that points to the name servers of another zone: it has their records, and no
/// start of authority.
pub open spec fn is_referral(m: MessageModel) -> bool {
    has_type(m.authority, RecordType::NS) && !has_type(m.authority, RecordType::SOA)
}

/// True of a message without answers that offers a signed proof that something does not exist.
pub open spec fn offers_denial(m: MessageModel) -> bool {
    !is_referral(m) && has_type(m.authority, RecordType::RRSIG) && (has_type(
        m.authority,
        RecordType::NSEC,
    ) || has_type(m.authority, RecordType::NSEC3))
}

/// True of records that say the same.
pub open spec fn same_data(a: RecordModel, b: RecordModel) -> bool {
    canon(a.name) == canon(b.name) && a.rtype == b.rtype && a.class == b.class && a.rdata.canonical()
        == b.rdata.canonical()
}

/// True when an entry that was validated says the same as every answer that is not a signature
/// record, and there is such an answer.
pub open spec fn validated_before(answers: Seq<RecordModel>, entry: Option<EntryModel>) -> bool {
    &&& entry matches Some(x) && CacheFlags::has(x.flags, CacheFlags::DNSSECOK) && forall|i: int|
        0 <= i < answers.len() && !((#[trigger] answers[i]).rtype is RRSIG) ==> same_data(
            answers[i],
            x.record,
        )
    &&& exists|i: int| 0 <= i < answers.len() && !((#[trigger] answers[i]).rtype is RRSIG)
}

/// True of the records that a denial of existence consists of: NSEC and NSEC3 records and their
/// signatures. A signature record without signature data counts as one of these.
pub open spec fn in_denial(r: RecordModel) -> bool {
    r.rtype is NSEC || r.rtype is NSEC3 || (r.rtype is RRSIG && (r.rdata matches RDataModel::Rrsig {
        type_covered,
        ..
    } ==> RecordType::of_code(type_covered) is NSEC || RecordType::of_code(type_covered) is NSEC3))
}

/// The records of a message with which it denies that something exists.
pub open spec fn denial_section(m: MessageModel) -> Seq<RecordModel> {
    m.authority.filter(|r: RecordModel| in_denial(r))
}

/// True when the signatures of a section stem from zones that a name is in.
pub open spec fn from_zones_of(section: Seq<RecordModel>, name: Seq<Seq<u8>>) -> bool {
    forall|i: int|
        0 <= i < section.len() ==> ((#[trigger] section[i]).rdata matches RDataModel::Rrsig {
            signer,
            ..
        } ==> is_suffix(canon(signer), canon(name)))
}

/// Whether the NSEC records of a section, or the NSEC3 records where there are none, prove that a
/// name has no records of a type.
pub open spec fn denies(section: Seq<RecordModel>, name: Seq<Seq<u8>>, qtype: u16) -> Result<
    bool,
    Failure,
> {
    let nsec = section.filter(|r: RecordModel| r.rtype == RecordType::NSEC);
    if nsec.len() > 0 {
        Ok(nsec_denies(nsec, name, qtype))
    } else {
        nsec3_outcome(section.filter(|r: RecordModel| r.rtype == RecordType::NSEC3), name, qtype)
    }
}

/// What a message without answers comes to, given what is known.
pub open spec fn negative_outcome(
    e: EvidenceModel,
    m: MessageModel,
    query_name: Seq<Seq<u8>>,
    clock: ClockReading,
) -> ResultModel {
    let section = denial_section(m);
    match section_outcome(e, section, query_name, clock) {
        Err(r) => r,
        Ok(path) => if !from_zones_of(section, query_name) {
            ResultModel::bogus("Denial of existence is from another zone"@, Some(query_name))
        } else {
            match denies(section, query_name, m.questions[0].qtype.spec_code()) {
                Err(f) => ResultModel::indeterminate("Validation error: "@ + f.text() + ""@),
                Ok(false) => ResultModel::bogus(
                    "Denial of existence is not proven"@,
                    Some(query_name),
                ),
                Ok(true) => ResultModel::secure(path),
            }
        },
    }
}

/// True of a signature record of a section that covers something and was made for a wildcard: it
/// counts fewer labels than its owner has.
pub open spec fn expanded(section: Seq<RecordModel>, s: RecordModel) -> bool {
    covered_set(section, s).len() > 0 && (s.rdata matches RDataModel::Rrsig { labels, .. } && labels
        < s.name.len())
}

/// True when an NSEC record spans a name that is not its own.
pub open spec fn no_such_name(r: RecordModel, name: Seq<Seq<u8>>) -> bool {
    r.rtype is NSEC && canon(r.name) != canon(name) && (r.rdata matches RDataModel::Nsec {
        next_domain,
        ..
    } && name_in_span(canon(r.name), canon(next_domain), canon(name)))
}

/// True when a denial section, from zones that a name is in, proves that there is no such name.
pub open spec fn name_denied(denial: Seq<RecordModel>, name: Seq<Seq<u8>>) -> bool {
    from_zones_of(denial, name) && exists|i: int|
        0 <= i < denial.len() && no_such_name(#[trigger] denial[i], name)
}

/// True when a denial section proves of every wildcard signature of a section that its owner is not
/// there itself.
pub open spec fn wildcards_proven(section: Seq<RecordModel>, denial: Seq<RecordModel>) -> bool {
    forall|i: int|
        0 <= i < section.len() && expanded(section, #[trigger] section[i]) ==> name_denied(
            denial,
            section[i].name,
        )
}

/// True when a section has a wildcard signature.
pub open spec fn has_wildcards(section: Seq<RecordModel>) -> bool {
    exists|i: int| 0 <= i < section.len() && expanded(section, #[trigger] section[i])
}

/// What a message with answers comes to, given what is known. Records that were made from a wildcard
/// need a proof that their name is not there itself.
pub open spec fn positive_outcome(
    e: EvidenceModel,
    m: MessageModel,
    query_name: Seq<Seq<u8>>,
    clock: ClockReading,
) -> ResultModel {
    match section_outcome(e, m.answers, query_name, clock) {
        Err(r) => r,
        Ok(path) => if !has_wildcards(m.answers) || (section_outcome(
            e,
            denial_section(m),
            query_name,
            clock,
        ) is Ok && wildcards_proven(m.answers, denial_section(m))) {
            ResultModel::secure(path)
        } else {
            ResultModel::indeterminate("Wildcard expansion is not proven"@)
        },
    }
}

/// The entry that a cache has for a question, and the cache after the lookup.
pub open spec fn asked_entry(
    m: MessageModel,
    query_name: Seq<Seq<u8>>,
    cache: CacheModel,
    now: Timestamp,
) -> (Option<EntryModel>, CacheModel) {
    if m.questions.len() == 0 {
        (None, cache)
    } else {
        let at = position(cache, query_name, m.questions[0].qtype);
        (cache.answer(at, now), cache.looked_up(at, now))
    }
}

/// What the validation of a message comes to, and the cache that it leaves.
pub open spec fn response_outcome(
    message: MessageModel,
    query_name: Seq<Seq<u8>>,
    anchors: Listing,
    cache: CacheModel,
    clock: ClockReading,
) -> (ResultModel, CacheModel) {
    if !message.flags.response {
        (ResultModel::indeterminate("Not a DNS response"@), cache)
    } else if message.answers.len() == 0 {
        if !offers_denial(message) {
            (ResultModel::insecure(), cache)
        } else if message.questions.len() == 0 {
            (ResultModel::indeterminate("No question"@), cache)
        } else {
            let g = gather(cache, query_name, clock.time());
            (
                negative_outcome(evidence_of(message, g, anchors), message, query_name, clock),
                g.cache,
            )
        }
    } else {
        let (entry, cache1) = asked_entry(message, query_name, cache, clock.time());
        if validated_before(message.answers, entry) {
            (ResultModel::secure(Seq::empty()), cache1)
        } else if !has_type(message.answers, RecordType::RRSIG) {
            (ResultModel::insecure(), cache1)
        } else {
            let g = gather(cache1, query_name, clock.time());
            (
                positive_outcome(evidence_of(message, g, anchors), message, query_name, clock),
                g.cache,
            )
        }
    }
}

/// True of what the walk from the zone of a name gives, and of the counter and the cache that it
/// leaves.
pub open spec fn chain_walked(
    m: MessageModel,
    name: Seq<Seq<u8>>,
    anchors: Listing,
    counter: ValidationCounter,
    cache: CacheModel,
    clock: ClockReading,
    r: Result<Vec<DomainName>, DnsmasqError>,
    counter_after: ValidationCounter,
    cache_after: CacheModel,
) -> bool {
    let g = gather(cache, name, clock.time());
    &&& walked(r, counter_after, name_walk(evidence_of(m, g, anchors), name, counter, clock))
    &&& cache_after == g.cache
}

// Laws.

/// True of a record of a section that is good: a signature record of the section is for it and makes
/// its set good under a known key, from which a chain leads to an anchor.
pub open spec fn verified(
    e: EvidenceModel,
    section: Seq<RecordModel>,
    r: RecordModel,
    clock: ClockReading,
) -> bool {
    exists|s: RecordModel, k: RecordModel| #[trigger]
        good_under(e, section, r, s, k, clock)
}

/// True when a signature record of a section is for a record and makes its set good under a known
/// key, from which a chain leads to an anchor.
pub open spec fn good_under(
    e: EvidenceModel,
    section: Seq<RecordModel>,
    r: RecordModel,
    s: RecordModel,
    k: RecordModel,
    clock: ClockReading,
) -> bool {
    &&& section.contains(s)
    &&& covers(s, r)
    &&& covered_set(section, s).contains(r)
    &&& e.keys.contains(k)
    &&& signs(covered_set(section, s), s, k, clock)
    &&& trusted_key(e, k, clock)
}

/// True when a cache holds what a record says as validated, and not expired.
pub open spec fn held_validated(cache: CacheModel, r: RecordModel, now: Timestamp) -> bool {
    exists|i: int|
        0 <= i < cache.entries.len() && CacheFlags::has(
            (#[trigger] cache.entries[i]).flags,
            CacheFlags::DNSSECOK,
        ) && !cache.entries[i].expired(now) && same_data(r, cache.entries[i].record)
}

proof fn lemma_signatures(
    keys: Seq<RecordModel>,
    section: Seq<RecordModel>,
    rest: Seq<RecordModel>,
    c: ValidationCounter,
    clock: ClockReading,
    i: int,
)
    requires
        check_signatures(keys, section, rest, c, clock).ended is None,
        0 <= i < rest.len(),
        rest[i].rtype is RRSIG,
        covered_set(section, rest[i]).len() > 0,
    ensures
        signing_key(keys, rest[i].rdata) matches Some(k) && keys.contains(k) && signs(
            covered_set(section, rest[i]),
            rest[i],
            k,
            clock,
        ),
    decreases rest.len(),
{
    let step = signature_step(keys, section, rest[0], c, clock);
    if i == 0 {
        law_validated_is_signed(covered_set(section, rest[0]), rest[0], keys, c.worked(), clock);
    } else {
        assert(rest.skip(1)[i - 1] == rest[i]);
        if rest[0].rtype is RRSIG {
            lemma_signatures(keys, section, rest.skip(1), step.counter, clock, i - 1);
        } else {
            lemma_signatures(keys, section, rest.skip(1), c, clock, i - 1);
        }
    }
}

proof fn lemma_walks(
    e: EvidenceModel,
    section: Seq<RecordModel>,
    rest: Seq<RecordModel>,
    c: ValidationCounter,
    clock: ClockReading,
    i: int,
)
    requires
        walk_signatures(e, section, rest, c, clock).result is Ok,
        0 <= i < rest.len(),
        covered_set(section, rest[i]).len() > 0,
    ensures
        signing_key(e.keys, rest[i].rdata) matches Some(k) && trusted_key(e, k, clock),
    decreases rest.len(),
{
    lemma_signing_key(e.keys, rest[0].rdata);
    if covered_set(section, rest[0]).len() == 0 {
        assert(rest.skip(1)[i - 1] == rest[i]);
        lemma_walks(e, section, rest.skip(1), c, clock, i - 1);
    } else {
        let key = signing_key(e.keys, rest[0].rdata)->0;
        let w = walk(e, key, 0, c, clock);
        law_walk_is_a_chain(e, key, 0, c, clock);
        if i > 0 {
            assert(rest.skip(1)[i - 1] == rest[i]);
            lemma_walks(e, section, rest.skip(1), w.counter, clock, i - 1);
        }
    }
}

proof fn lemma_uncovered(section: Seq<RecordModel>, rest: Seq<RecordModel>, i: int)
    requires
        first_uncovered(section, rest) is None,
        0 <= i < rest.len(),
        !(rest[i].rtype is RRSIG),
    ensures
        is_covered(section, rest[i]),
    decreases rest.len(),
{
    if i > 0 {
        assert(rest.skip(1)[i - 1] == rest[i]);
        lemma_uncovered(section, rest.skip(1), i - 1);
    }
}

/// Every record of a section that validates, other than its signature records, is verified.
pub proof fn law_section_is_verified(
    e: EvidenceModel,
    section: Seq<RecordModel>,
    query_name: Seq<Seq<u8>>,
    clock: ClockReading,
)
    requires
        section_outcome(e, section, query_name, clock) is Ok,
    ensures
        forall|i: int|
            0 <= i < section.len() && !((#[trigger] section[i]).rtype is RRSIG) ==> verified(
                e,
                section,
                section[i],
                clock,
            ),
{
    let signatures = check_signatures(
        e.keys,
        section,
        section,
        ValidationCounter::fresh(),
        clock,
    );
    assert forall|i: int| 0 <= i < section.len() && !((#[trigger] section[i]).rtype is RRSIG) implies
        verified(e, section, section[i], clock) by {
        let r = section[i];
        lemma_uncovered(section, section, i);
        let j = choose|j: int| 0 <= j < section.len() && covers(#[trigger] section[j], r);
        let s = section[j];
        let set = covered_set(section, s);
        section.lemma_filter_contains(|x: RecordModel| covers(s, x), i);
        assert(set.contains(r));
        lemma_signatures(e.keys, section, section, ValidationCounter::fresh(), clock, j);
        lemma_walks(e, section, section, signatures.counter, clock, j);
        let k = signing_key(e.keys, s.rdata)->0;
        assert(section.contains(s));
        assert(good_under(e, section, r, s, k, clock));
    }
}

/// An answer is secure only where each of its records, other than the signature records, is
/// verified: a signature record of the answer that is in time and from a zone that the record can be
/// in checks under a known key, and from that key a chain of keys, each vouched for by the next,
/// leads to one with the class, algorithm, key tag and digest of a trusted anchor of its zone. Or
/// the cache holds what the records say, as validated before.
pub proof fn law_secure_is_verified(
    message: MessageModel,
    query_name: Seq<Seq<u8>>,
    anchors: Listing,
    cache: CacheModel,
    clock: ClockReading,
)
    requires
        message.answers.len() > 0,
        response_outcome(message, query_name, anchors, cache, clock).0.status is Secure,
    ensures
        message.flags.response,
        ({
            let cache1 = asked_entry(message, query_name, cache, clock.time()).1;
            let e = evidence_of(message, gather(cache1, query_name, clock.time()), anchors);
            forall|i: int|
                0 <= i < message.answers.len() && !((#[trigger] message.answers[i]).rtype is RRSIG)
                    ==> verified(e, message.answers, message.answers[i], clock) || held_validated(
                    cache,
                    message.answers[i],
                    clock.time(),
                )
        }),
{
    let now = clock.time();
    let (entry, cache1) = asked_entry(message, query_name, cache, now);
    if validated_before(message.answers, entry) {
        let at = position(cache, query_name, message.questions[0].qtype);
        let key = KeyModel { domain: canon(query_name), record_type: message.questions[0].qtype };
        lemma_first(cache.entries, |x: EntryModel| x.key() == key);
        assert(cache.entries[at->0] == entry->0);
    } else {
        let e = evidence_of(message, gather(cache1, query_name, now), anchors);
        lemma_section_not_secure(e, message.answers, query_name, clock);
        law_section_is_verified(e, message.answers, query_name, clock);
    }
}

/// An answer that is secure, other than by the cache, proves of each of its records that were made
/// from a wildcard that the name is not there itself, by records that are verified.
pub proof fn law_secure_wildcards_are_proven(
    message: MessageModel,
    query_name: Seq<Seq<u8>>,
    anchors: Listing,
    cache: CacheModel,
    clock: ClockReading,
)
    requires
        message.answers.len() > 0,
        has_wildcards(message.answers),
        response_outcome(message, query_name, anchors, cache, clock).0.status is Secure,
        !validated_before(
            message.answers,
            asked_entry(message, query_name, cache, clock.time()).0,
        ),
    ensures
        ({
            let cache1 = asked_entry(message, query_name, cache, clock.time()).1;
            let e = evidence_of(message, gather(cache1, query_name, clock.time()), anchors);
            let denial = denial_section(message);
            &&& wildcards_proven(message.answers, denial)
            &&& forall|i: int|
                0 <= i < denial.len() && !((#[trigger] denial[i]).rtype is RRSIG) ==> verified(
                    e,
                    denial,
                    denial[i],
                    clock,
                )
        }),
{
    let cache1 = asked_entry(message, query_name, cache, clock.time()).1;
    let e = evidence_of(message, gather(cache1, query_name, clock.time()), anchors);
    lemma_section_not_secure(e, message.answers, query_name, clock);
    law_section_is_verified(e, denial_section(message), query_name, clock);
}

/// A message without answers is secure only where it proves that the name has no records of the
/// type, by records that are verified and stem from zones that the name is in.
pub proof fn law_secure_denial_is_proven(
    message: MessageModel,
    query_name: Seq<Seq<u8>>,
    anchors: Listing,
    cache: CacheModel,
    clock: ClockReading,
)
    requires
        message.answers.len() == 0,
        response_outcome(message, query_name, anchors, cache, clock).0.status is Secure,
    ensures
        ({
            let e = evidence_of(message, gather(cache, query_name, clock.time()), anchors);
            let section = denial_section(message);
            &&& message.questions.len() > 0
            &&& denies(section, query_name, message.questions[0].qtype.spec_code()) == Ok::<
                bool,
                Failure,
            >(true)
            &&& from_zones_of(section, query_name)
            &&& forall|i: int|
                0 <= i < section.len() && !((#[trigger] section[i]).rtype is RRSIG) ==> verified(
                    e,
                    section,
                    section[i],
                    clock,
                )
        }),
{
    let e = evidence_of(message, gather(cache, query_name, clock.time()), anchors);
    lemma_section_not_secure(e, denial_section(message), query_name, clock);
    law_section_is_verified(e, denial_section(message), query_name, clock);
}

proof fn lemma_ended(
    keys: Seq<RecordModel>,
    section: Seq<RecordModel>,
    rest: Seq<RecordModel>,
    c: ValidationCounter,
    clock: ClockReading,
)
    ensures
        check_signatures(keys, section, rest, c, clock).ended matches Some(r) ==> !(
        r.status is Secure) && r.extended_error_code == r.status.code(),
    decreases rest.len(),
{
    if rest.len() > 0 {
        let step = signature_step(keys, section, rest[0], c, clock);
        lemma_ended(keys, section, rest.skip(1), c, clock);
        lemma_ended(keys, section, rest.skip(1), step.counter, clock);
    }
}

proof fn lemma_section_not_secure(
    e: EvidenceModel,
    section: Seq<RecordModel>,
    query_name: Seq<Seq<u8>>,
    clock: ClockReading,
)
    ensures
        section_outcome(e, section, query_name, clock) matches Err(r) ==> !(r.status is Secure)
            && r.extended_error_code == r.status.code(),
{
    lemma_ended(e.keys, section, section, ValidationCounter::fresh(), clock);
}

/// The extended error code of every outcome is that of its status.
pub proof fn law_codes_match(
    message: MessageModel,
    query_name: Seq<Seq<u8>>,
    anchors: Listing,
    cache: CacheModel,
    clock: ClockReading,
)
    ensures
        ({
            let r = response_outcome(message, query_name, anchors, cache, clock).0;
            r.extended_error_code == r.status.code()
        }),
{
    let now = clock.time();
    let cache1 = asked_entry(message, query_name, cache, now).1;
    lemma_section_not_secure(
        evidence_of(message, gather(cache, query_name, now), anchors),
        denial_section(message),
        query_name,
        clock,
    );
    lemma_section_not_secure(
        evidence_of(message, gather(cache1, query_name, now), anchors),
        message.answers,
        query_name,
        clock,
    );
}

/// True of a section in which the signature record at a position is the only one, is for every other record,
/// and for at least one.
pub open spec fn signed_by_one(section: Seq<RecordModel>, j: int) -> bool {
    &&& 0 <= j < section.len()
    &&& section.len() >= 2
    &&& section[j].rtype is RRSIG
    &&& forall|i: int| 0 <= i < section.len() && i != j ==> !((#[trigger] section[i]).rtype is RRSIG)
    &&& forall|i: int| 0 <= i < section.len() && i != j ==> covers(section[j], #[trigger] section[i])
}

/// A signature record is for the records of its own owner and class whose type its first field names.
pub proof fn law_covers(s: RecordModel, r: RecordModel, code: u16)
    requires
        s.rdata matches RDataModel::Rrsig { type_covered, .. } && type_covered == code,
    ensures
        covers(s, r) <==> s.rtype is RRSIG && canon(s.name) == canon(r.name) && s.class == r.class
            && RecordType::of_code(code) == r.rtype,
{
}

proof fn lemma_covers_nothing(section: Seq<RecordModel>, s: RecordModel)
    requires
        !(s.rtype is RRSIG),
    ensures
        covered_set(section, s).len() == 0,
{
    let p = |r: RecordModel| covers(s, r);
    if covered_set(section, s).len() > 0 {
        section.lemma_filter_pred(p, 0);
    }
}

proof fn lemma_covers_some(section: Seq<RecordModel>, j: int)
    requires
        signed_by_one(section, j),
    ensures
        covered_set(section, section[j]).len() > 0,
{
    let s = section[j];
    let i = if j == 0 {
        1int
    } else {
        0int
    };
    assert(covers(s, section[i]));
    section.lemma_filter_contains(|r: RecordModel| covers(s, r), i);
}

proof fn lemma_no_more_signatures(
    keys: Seq<RecordModel>,
    section: Seq<RecordModel>,
    rest: Seq<RecordModel>,
    c: ValidationCounter,
    clock: ClockReading,
)
    requires
        forall|i: int| 0 <= i < rest.len() ==> !((#[trigger] rest[i]).rtype is RRSIG),
    ensures
        check_signatures(keys, section, rest, c, clock) == (Signatures { ended: None, counter: c }),
    decreases rest.len(),
{
    if rest.len() > 0 {
        assert(!(rest[0].rtype is RRSIG));
        let tail = rest.skip(1);
        assert forall|i: int| 0 <= i < tail.len() implies !((#[trigger] tail[i]).rtype is RRSIG) by {
            assert(tail[i] == rest[i + 1]);
        }
        lemma_no_more_signatures(keys, section, tail, c, clock);
    }
}

proof fn lemma_one_signature(
    keys: Seq<RecordModel>,
    section: Seq<RecordModel>,
    rest: Seq<RecordModel>,
    j: int,
    c: ValidationCounter,
    clock: ClockReading,
)
    requires
        0 <= j < rest.len(),
        rest[j].rtype is RRSIG,
        forall|i: int| 0 <= i < rest.len() && i != j ==> !((#[trigger] rest[i]).rtype is RRSIG),
    ensures
        check_signatures(keys, section, rest, c, clock) == signature_step(keys, section, rest[j], c, clock),
    decreases rest.len(),
{
    let tail = rest.skip(1);
    if j == 0 {
        assert forall|i: int| 0 <= i < tail.len() implies !((#[trigger] tail[i]).rtype is RRSIG) by {
            assert(tail[i] == rest[i + 1]);
        }
        lemma_no_more_signatures(keys, section, tail, signature_step(keys, section, rest[0], c, clock).counter, clock);
    } else {
        assert(!(rest[0].rtype is RRSIG));
        assert forall|i: int| 0 <= i < tail.len() && i != j - 1 implies !((#[trigger] tail[i]).rtype is RRSIG) by {
            assert(tail[i] == rest[i + 1]);
        }
        assert(tail[j - 1] == rest[j]);
        lemma_one_signature(keys, section, tail, j - 1, c, clock);
    }
}

proof fn lemma_all_covered(section: Seq<RecordModel>, rest: Seq<RecordModel>)
    requires
        forall|i: int|
            0 <= i < rest.len() ==> (#[trigger] rest[i]).rtype is RRSIG || is_covered(section, rest[i]),
    ensures
        first_uncovered(section, rest) is None,
    decreases rest.len(),
{
    if rest.len() > 0 {
        assert(rest[0].rtype is RRSIG || is_covered(section, rest[0]));
        let tail = rest.skip(1);
        assert forall|i: int| 0 <= i < tail.len() implies (#[trigger] tail[i]).rtype is RRSIG || is_covered(
            section,
            tail[i],
        ) by {
            assert(tail[i] == rest[i + 1]);
        }
        lemma_all_covered(section, tail);
    }
}

proof fn lemma_one_walk(
    e: EvidenceModel,
    section: Seq<RecordModel>,
    rest: Seq<RecordModel>,
    j: int,
    key: RecordModel,
    c: ValidationCounter,
    clock: ClockReading,
)
    requires
        -1 <= j < rest.len(),
        forall|i: int| 0 <= i < rest.len() && i != j ==> !((#[trigger] rest[i]).rtype is RRSIG),
        j >= 0 ==> covered_set(section, rest[j]).len() > 0,
        j >= 0 ==> signing_key(e.keys, rest[j].rdata) == Some(key),
    ensures
        walk_signatures(e, section, rest, c, clock).result == if j < 0 {
            Ok::<Option<Seq<Seq<Seq<u8>>>>, Failure>(None)
        } else {
            match walk(e, key, 0, c, clock).result {
                Ok(path) => Ok(Some(path)),
                Err(f) => Err(f),
            }
        },
    decreases rest.len(),
{
    if rest.len() > 0 {
        let tail = rest.skip(1);
        if j == 0 {
            assert forall|i: int| 0 <= i < tail.len() && i != -1 implies !((#[trigger] tail[i]).rtype is RRSIG) by {
                assert(tail[i] == rest[i + 1]);
            }
            lemma_one_walk(e, section, tail, -1, key, walk(e, key, 0, c, clock).counter, clock);
        } else {
            assert(!(rest[0].rtype is RRSIG));
            lemma_covers_nothing(section, rest[0]);
            let k = if j > 0 {
                j - 1
            } else {
                -1
            };
            assert forall|i: int| 0 <= i < tail.len() && i != k implies !((#[trigger] tail[i]).rtype is RRSIG) by {
                assert(tail[i] == rest[i + 1]);
            }
            if j > 0 {
                assert(tail[j - 1] == rest[j]);
            }
            lemma_one_walk(e, section, tail, k, key, c, clock);
        }
    }
}

/// A section whose one signature record is for all its other records is verified exactly where the named key
/// makes them good and leads to an anchor. Where an anchor vouches for the key itself, the chain is its zone.
pub proof fn law_section_with_one_signature(
    e: EvidenceModel,
    section: Seq<RecordModel>,
    j: int,
    key: RecordModel,
    query_name: Seq<Seq<u8>>,
    clock: ClockReading,
)
    requires
        signed_by_one(section, j),
        signing_key(e.keys, section[j].rdata) == Some(key),
    ensures
        signs(covered_set(section, section[j]), section[j], key, clock) && anchored(e.anchors, key)
            ==> section_outcome(e, section, query_name, clock) == Ok::<Seq<Seq<Seq<u8>>>, ResultModel>(
            seq![key.name],
        ),
        !signs(covered_set(section, section[j]), section[j], key, clock) ==> section_outcome(
            e,
            section,
            query_name,
            clock,
        ) is Err,
        signs(covered_set(section, section[j]), section[j], key, clock) ==> match walk(
            e,
            key,
            0,
            ValidationCounter::fresh().worked().computed(),
            clock,
        ).result {
            Ok(path) => section_outcome(e, section, query_name, clock) == Ok::<
                Seq<Seq<Seq<u8>>>,
                ResultModel,
            >(path),
            Err(f) => section_outcome(e, section, query_name, clock) == Err::<
                Seq<Seq<Seq<u8>>>,
                ResultModel,
            >(walk_verdict(f, query_name)),
        },
{
    let s = section[j];
    let set = covered_set(section, s);
    let fresh = ValidationCounter::fresh();
    lemma_covers_some(section, j);
    lemma_one_signature(e.keys, section, section, j, fresh, clock);
    lemma_signing_key(e.keys, s.rdata);
    law_signed_validates(set, s, e.keys, key, fresh.worked(), clock);
    assert forall|i: int| 0 <= i < section.len() implies (#[trigger] section[i]).rtype is RRSIG || is_covered(
        section,
        section[i],
    ) by {
        if i != j {
            assert(covers(section[j], section[i]));
        }
    }
    lemma_all_covered(section, section);
    if signs(set, s, key, clock) {
        let c = fresh.worked().computed();
        assert(rrset_outcome(set, s, e.keys, fresh.worked(), clock).counter == c);
        lemma_one_walk(e, section, section, j, key, c, clock);
        if anchored(e.anchors, key) {
            law_walk_ends_at_anchor(e, key, 0, c, clock);
        }
    } else {
        let o = rrset_outcome(set, s, e.keys, fresh.worked(), clock);
        if o.result is Ok {
            let b = o.result->Ok_0;
            assert(o.result == Ok::<bool, Failure>(b));
            assert(!b);
        }
    }
}

/// A record that no signature record is for makes a section not believable, where the signatures that there are
/// check.
pub proof fn law_unsigned_records_are_bogus(
    e: EvidenceModel,
    section: Seq<RecordModel>,
    i: int,
    query_name: Seq<Seq<u8>>,
    clock: ClockReading,
)
    requires
        0 <= i < section.len(),
        !(section[i].rtype is RRSIG),
        forall|j: int| 0 <= j < section.len() ==> !covers(#[trigger] section[j], section[i]),
    ensures
        section_outcome(e, section, query_name, clock) is Err,
        check_signatures(e.keys, section, section, ValidationCounter::fresh(), clock).ended is None ==> (
        section_outcome(e, section, query_name, clock) matches Err(r) && r.status is Bogus),
{
    if first_uncovered(section, section) is None {
        lemma_uncovered(section, section, i);
    }
}

/// A signature that does not check makes a section not believable; one that cannot be checked leaves it
/// undecided. A signature record without signature data makes it not believable.
pub proof fn law_bad_signatures(
    e: EvidenceModel,
    section: Seq<RecordModel>,
    j: int,
    query_name: Seq<Seq<u8>>,
    clock: ClockReading,
)
    requires
        0 <= j < section.len(),
        section[j].rtype is RRSIG,
        forall|i: int| 0 <= i < section.len() && i != j ==> !((#[trigger] section[i]).rtype is RRSIG),
    ensures
        !(section[j].rdata is Rrsig) ==> (section_outcome(e, section, query_name, clock) matches Err(r) && r.status
            is Bogus),
        section[j].rdata is Rrsig && covered_set(section, section[j]).len() > 0 ==> match rrset_outcome(
            covered_set(section, section[j]),
            section[j],
            e.keys,
            ValidationCounter::fresh().worked(),
            clock,
        ).result {
            Ok(true) => true,
            Ok(false) => section_outcome(e, section, query_name, clock) matches Err(r) && r.status is Bogus
                && r.failing_record_name == Some(section[j].name),
            Err(_) => section_outcome(e, section, query_name, clock) matches Err(r) && r.status is Indeterminate,
        },
{
    lemma_one_signature(e.keys, section, section, j, ValidationCounter::fresh(), clock);
}

/// What a failed chain makes of an answer: a limit leaves it undecided, a zone that is not signed makes it
/// insecure, and everything else makes it not believable.
pub proof fn law_walk_verdicts(f: Failure, query_name: Seq<Seq<u8>>)
    ensures
        f is TooMuchWork ==> walk_verdict(f, query_name).status is Indeterminate,
        f is NonSecure ==> walk_verdict(f, query_name).status is Insecure,
        !(f is TooMuchWork || f is NonSecure) ==> walk_verdict(f, query_name).status is Bogus,
{
}

/// An answer whose one signature record is for all its other records, was made for their own name and checks
/// under a key for which an anchor vouches is secure, with the zone of the key as its chain.
pub proof fn law_signed_answer_is_secure(
    message: MessageModel,
    query_name: Seq<Seq<u8>>,
    anchors: Listing,
    cache: CacheModel,
    clock: ClockReading,
    j: int,
    key: RecordModel,
)
    requires
        message.flags.response,
        signed_by_one(message.answers, j),
        message.answers[j].rdata matches RDataModel::Rrsig { labels, .. } && labels
            >= message.answers[j].name.len(),
        !validated_before(message.answers, asked_entry(message, query_name, cache, clock.time()).0),
        signing_key(
            evidence_of(
                message,
                gather(asked_entry(message, query_name, cache, clock.time()).1, query_name, clock.time()),
                anchors,
            ).keys,
            message.answers[j].rdata,
        ) == Some(key),
        signs(covered_set(message.answers, message.answers[j]), message.answers[j], key, clock),
        anchored(anchors, key),
    ensures
        ({
            let r = response_outcome(message, query_name, anchors, cache, clock).0;
            r.status is Secure && r.trust_chain_path == seq![key.name] && r.error_details is None
        }),
{
    let cache1 = asked_entry(message, query_name, cache, clock.time()).1;
    let e = evidence_of(message, gather(cache1, query_name, clock.time()), anchors);
    law_section_with_one_signature(e, message.answers, j, key, query_name, clock);
    assert(message.answers[j].rtype == RecordType::RRSIG);
    assert forall|i: int| 0 <= i < message.answers.len() implies !expanded(
        message.answers,
        #[trigger] message.answers[i],
    ) by {
        if i != j {
            lemma_covers_nothing(message.answers, message.answers[i]);
        }
    }
}

/// A message without answers whose denial is signed in this way, from zones that the name is in, is secure
/// where it proves that the name has no records of the type, and not believable where it does not.
pub proof fn law_signed_denial(
    message: MessageModel,
    query_name: Seq<Seq<u8>>,
    anchors: Listing,
    cache: CacheModel,
    clock: ClockReading,
    j: int,
    key: RecordModel,
)
    requires
        message.flags.response,
        message.answers.len() == 0,
        message.questions.len() > 0,
        offers_denial(message),
        signed_by_one(denial_section(message), j),
        signing_key(
            evidence_of(message, gather(cache, query_name, clock.time()), anchors).keys,
            denial_section(message)[j].rdata,
        ) == Some(key),
        signs(covered_set(denial_section(message), denial_section(message)[j]), denial_section(message)[j], key, clock),
        anchored(anchors, key),
        from_zones_of(denial_section(message), query_name),
    ensures
        ({
            let r = response_outcome(message, query_name, anchors, cache, clock).0;
            let proof_of = denies(
                denial_section(message),
                query_name,
                message.questions[0].qtype.spec_code(),
            );
            &&& proof_of == Ok::<bool, Failure>(true) ==> r.status is Secure && r.trust_chain_path == seq![
                key.name,
            ]
            &&& proof_of == Ok::<bool, Failure>(false) ==> r.status is Bogus
            &&& proof_of is Err ==> r.status is Indeterminate
        }),
{
    let e = evidence_of(message, gather(cache, query_name, clock.time()), anchors);
    law_section_with_one_signature(e, denial_section(message), j, key, query_name, clock);
}

/// What is settled without any signature: a message that is no response is undecided. An answer without
/// signatures is insecure, unless the cache holds it as validated: then it is secure. A message without answers
/// that refers to other name servers, or has no signatures, or no denial records, is insecure.
pub proof fn law_unsigned_responses(
    message: MessageModel,
    query_name: Seq<Seq<u8>>,
    anchors: Listing,
    cache: CacheModel,
    clock: ClockReading,
)
    ensures
        ({
            let r = response_outcome(message, query_name, anchors, cache, clock).0;
            let known = validated_before(
                message.answers,
                asked_entry(message, query_name, cache, clock.time()).0,
            );
            let authority = message.authority;
            let signed = exists|i: int| 0 <= i < authority.len() && (#[trigger] authority[i]).rtype is RRSIG;
            let denial = exists|i: int|
                0 <= i < authority.len() && ((#[trigger] authority[i]).rtype is NSEC || authority[i].rtype
                    is NSEC3);
            let refers = (exists|i: int| 0 <= i < authority.len() && (#[trigger] authority[i]).rtype is NS) && !(
            exists|i: int| 0 <= i < authority.len() && (#[trigger] authority[i]).rtype is SOA);
            &&& !message.flags.response ==> r.status is Indeterminate
            &&& message.flags.response && message.answers.len() > 0 && known ==> r.status is Secure
            &&& message.flags.response && message.answers.len() > 0 && !known && !(exists|i: int|
                0 <= i < message.answers.len() && (#[trigger] message.answers[i]).rtype is RRSIG) ==> r.status
                is Insecure
            &&& message.flags.response && message.answers.len() == 0 && (!signed || !denial || refers) ==> r.status
                is Insecure
            &&& message.flags.response && message.answers.len() == 0 && signed && denial && !refers
                && message.questions.len() == 0 ==> r.status is Indeterminate
        }),
{
    let authority = message.authority;
    assert forall|i: int| 0 <= i < authority.len() && (#[trigger] authority[i]).rtype is RRSIG implies
        authority[i].rtype == RecordType::RRSIG by {}
    assert forall|i: int| 0 <= i < authority.len() && (#[trigger] authority[i]).rtype is NS implies authority[i].rtype
        == RecordType::NS by {}
    if exists|i: int| 0 <= i < authority.len() && (#[trigger] authority[i]).rtype is RRSIG {
        let i = choose|i: int| 0 <= i < authority.len() && (#[trigger] authority[i]).rtype is RRSIG;
        assert(authority[i].rtype == RecordType::RRSIG);
        assert(has_type(authority, RecordType::RRSIG));
    }
    if exists|i: int| 0 <= i < authority.len() && (#[trigger] authority[i]).rtype is NS {
        let i = choose|i: int| 0 <= i < authority.len() && (#[trigger] authority[i]).rtype is NS;
        assert(authority[i].rtype == RecordType::NS);
        assert(has_type(authority, RecordType::NS));
    }
    let denial = exists|i: int|
        0 <= i < authority.len() && ((#[trigger] authority[i]).rtype is NSEC || authority[i].rtype is NSEC3);
    if denial {
        let i = choose|i: int|
            0 <= i < authority.len() && ((#[trigger] authority[i]).rtype is NSEC || authority[i].rtype is NSEC3);
        assert(authority[i].rtype == RecordType::NSEC || authority[i].rtype == RecordType::NSEC3);
        assert(has_type(authority, RecordType::NSEC) || has_type(authority, RecordType::NSEC3));
    }
}

/// The cache holds an answer as validated where the entry for the asked name and type is marked so (0x8000) and
/// every answer but signatures has its owner, type, class and data.
pub proof fn law_validated_before(answers: Seq<RecordModel>, entry: EntryModel, i: int)
    requires
        0 <= i < answers.len(),
        !(answers[i].rtype is RRSIG),
    ensures
        entry.flags & 0x8000 == 0 ==> !validated_before(answers, Some(entry)),
        !validated_before(answers, None),
        validated_before(answers, Some(entry)) ==> canon(answers[i].name) == canon(entry.record.name)
            && answers[i].rtype == entry.record.rtype && answers[i].class == entry.record.class
            && answers[i].rdata.canonical() == entry.record.rdata.canonical(),
        entry.flags & 0x8000 != 0 && (forall|k: int|
            0 <= k < answers.len() ==> (#[trigger] answers[k]).rtype is RRSIG || answers[k] == entry.record)
            ==> validated_before(answers, Some(entry)),
{
    law_marks(entry.flags);
}

/// A denial consists of the NSEC (47) and NSEC3 (50) records of the authority section and their signatures.
pub proof fn law_denial_section(r: RecordModel)
    ensures
        r.rtype is NSEC || r.rtype is NSEC3 ==> in_denial(r),
        r.rtype is RRSIG && (r.rdata matches RDataModel::Rrsig { type_covered, .. } && (type_covered == 47
            || type_covered == 50)) ==> in_denial(r),
        r.rtype is RRSIG && (r.rdata matches RDataModel::Rrsig { type_covered, .. } && type_covered != 47
            && type_covered != 50) ==> !in_denial(r),
        in_denial(r) ==> r.rtype is NSEC || r.rtype is NSEC3 || r.rtype is RRSIG,
{
}

/// A wildcard signature is one that counts fewer labels than its owner has. An answer with one is secure only
/// with a proof that the name itself is not there: an NSEC record of another name that spans it.
pub proof fn law_wildcards(
    e: EvidenceModel,
    m: MessageModel,
    query_name: Seq<Seq<u8>>,
    clock: ClockReading,
    j: int,
)
    requires
        0 <= j < m.answers.len(),
        covered_set(m.answers, m.answers[j]).len() > 0,
        m.answers[j].rdata matches RDataModel::Rrsig { labels, .. } && labels < m.answers[j].name.len(),
        section_outcome(e, m.answers, query_name, clock) is Ok,
    ensures
        !(exists|i: int|
            0 <= i < denial_section(m).len() && (#[trigger] denial_section(m)[i]).rtype is NSEC && canon(
                denial_section(m)[i].name,
            ) != canon(m.answers[j].name) && (denial_section(m)[i].rdata matches RDataModel::Nsec {
                next_domain,
                ..
            } && name_in_span(
                canon(denial_section(m)[i].name),
                canon(next_domain),
                canon(m.answers[j].name),
            ))) ==> positive_outcome(e, m, query_name, clock).status is Indeterminate,
        section_outcome(e, denial_section(m), query_name, clock) is Err ==> positive_outcome(
            e,
            m,
            query_name,
            clock,
        ).status is Indeterminate,
        section_outcome(e, denial_section(m), query_name, clock) is Ok && wildcards_proven(
            m.answers,
            denial_section(m),
        ) ==> positive_outcome(e, m, query_name, clock).status is Secure,
{
    assert(expanded(m.answers, m.answers[j]));
    if wildcards_proven(m.answers, denial_section(m)) {
        assert(name_denied(denial_section(m), m.answers[j].name));
    }
}

proof fn lemma_live_stay(cache: CacheModel, name: Seq<Seq<u8>>, rtype: RecordType, now: Timestamp, x: EntryModel)
    requires
        cache.well_kept(),
        cache.entries.contains(x),
        !x.expired(now),
    ensures
        cache.looked_up(position(cache, name, rtype), now).well_kept(),
        cache.looked_up(position(cache, name, rtype), now).entries.contains(x),
{
    let at = position(cache, name, rtype);
    let key = KeyModel { domain: canon(name), record_type: rtype };
    let after = cache.looked_up(at, now).entries;
    lemma_first(cache.entries, |y: EntryModel| y.key() == key);
    law_lookup_keeps(cache, at, now);
    let i = choose|i: int| 0 <= i < cache.entries.len() && cache.entries[i] == x;
    if let Some(k) = at {
        if cache.entries[k].expired(now) {
            let y = if i < k {
                i
            } else {
                i - 1
            };
            assert(after[y] == x);
        } else if i == k {
            assert(after[0] == x);
        } else {
            let y = if i < k {
                i
            } else {
                i - 1
            };
            assert(cache.entries.remove(k)[y] == x);
            assert(after[y + 1] == x);
        }
    }
}

/// A key that the cache holds for a name or for a zone above it, and that has not expired, is among what the
/// validation of the name starts from; so is a delegation signer record that was validated (0x8000).
pub proof fn law_cached_keys_are_used(
    cache: CacheModel,
    name: Seq<Seq<u8>>,
    now: Timestamp,
    x: EntryModel,
    up: nat,
)
    requires
        cache.well_kept(),
        cache.entries.contains(x),
        now.nanos < x.expiry.nanos,
        x.record.rdata.fits(),
        up <= name.len(),
        canon(x.domain_name) == canon(name.skip(up as int)),
    ensures
        x.record_type is DNSKEY ==> gather(cache, name, now).keys.contains(x.record),
        x.record_type is DS && x.flags & 0x8000 != 0 ==> gather(cache, name, now).ds.contains(x.record),
    decreases name.len(),
{
    law_marks(x.flags);
    let key_at = position(cache, name, RecordType::DNSKEY);
    let keys = entry_record(cache.answer(key_at, now));
    let cache1 = cache.looked_up(key_at, now);
    let ds_at = position(cache1, name, RecordType::DS);
    let ds = validated_record(cache1.answer(ds_at, now));
    let cache2 = cache1.looked_up(ds_at, now);
    lemma_live_stay(cache, name, RecordType::DNSKEY, now, x);
    lemma_live_stay(cache1, name, RecordType::DS, now, x);
    let all = gather(cache, name, now);
    if up == 0 {
        assert(name.skip(0) =~= name);
        if x.record_type is DNSKEY {
            let i = choose|i: int| 0 <= i < cache.entries.len() && cache.entries[i] == x;
            law_lookup_by_name(cache, name, RecordType::DNSKEY, i, now);
            assert(keys[0] == x.record);
            assert(all.keys[0] == x.record);
        }
        if x.record_type is DS && x.flags & 0x8000 != 0 {
            let i = choose|i: int| 0 <= i < cache1.entries.len() && cache1.entries[i] == x;
            law_lookup_by_name(cache1, name, RecordType::DS, i, now);
            assert(ds[0] == x.record);
            assert(all.ds[0] == x.record);
        }
    } else {
        let rest = gather(cache2, name.skip(1), now);
        assert(name.skip(1).skip(up - 1) =~= name.skip(up as int));
        law_cached_keys_are_used(cache2, name.skip(1), now, x, (up - 1) as nat);
        if rest.keys.contains(x.record) {
            let i = choose|i: int| 0 <= i < rest.keys.len() && rest.keys[i] == x.record;
            assert(all.keys[keys.len() + i] == x.record);
        }
        if rest.ds.contains(x.record) {
            let i = choose|i: int| 0 <= i < rest.ds.len() && rest.ds[i] == x.record;
            assert(all.ds[ds.len() + i] == x.record);
        }
    }
}

/// The evidence of a message: its keys in both sections first, then those of the cache; its signatures and
/// delegation signer records in both sections; and the validated delegation signer records of the cache.
pub proof fn law_evidence(m: MessageModel, g: Gathered, anchors: Listing, r: RecordModel)
    requires
        m.answers.contains(r) || m.authority.contains(r),
    ensures
        r.rtype is DNSKEY ==> evidence_of(m, g, anchors).keys.contains(r) && evidence_of(
            m,
            g,
            anchors,
        ).message_keys.contains(r),
        r.rtype is RRSIG ==> evidence_of(m, g, anchors).sigs.contains(r),
        r.rtype is DS ==> evidence_of(m, g, anchors).ds.contains(r),
        evidence_of(m, g, anchors).vouched == g.ds,
        evidence_of(m, g, anchors).anchors == anchors,
        evidence_of(m, g, anchors).keys == evidence_of(m, g, anchors).message_keys + g.keys,
{
    let all = m.answers + m.authority;
    let i = if m.answers.contains(r) {
        choose|i: int| 0 <= i < m.answers.len() && m.answers[i] == r
    } else {
        m.answers.len() + choose|i: int| 0 <= i < m.authority.len() && m.authority[i] == r
    };
    assert(all[i] == r);
    let e = evidence_of(m, g, anchors);
    if r.rtype is DNSKEY {
        all.lemma_filter_contains(|x: RecordModel| x.rtype == RecordType::DNSKEY, i);
        let k = choose|k: int| 0 <= k < e.message_keys.len() && e.message_keys[k] == r;
        assert(e.keys[k] == r);
    } else if r.rtype is RRSIG {
        all.lemma_filter_contains(|x: RecordModel| x.rtype == RecordType::RRSIG, i);
    } else if r.rtype is DS {
        all.lemma_filter_contains(|x: RecordModel| x.rtype == RecordType::DS, i);
    }
}

proof fn lemma_looked_up(cache: CacheModel, name: Seq<Seq<u8>>, rtype: RecordType, now: Timestamp)
    ensures
        ({
            let at = position(cache, name, rtype);
            &&& cache.answer(at, now) matches Some(x) ==> cache.entries.contains(x)
                && !x.expired(now)
            &&& forall|x: EntryModel| #[trigger]
                cache.looked_up(at, now).entries.contains(x) ==> cache.entries.contains(x)
        }),
{
    let at = position(cache, name, rtype);
    let key = KeyModel { domain: canon(name), record_type: rtype };
    let after = cache.looked_up(at, now).entries;
    lemma_first(cache.entries, |x: EntryModel| x.key() == key);
    assert forall|x: EntryModel| #[trigger] after.contains(x) implies cache.entries.contains(x) by {
        let i = choose|i: int| 0 <= i < after.len() && after[i] == x;
        if let Some(k) = at {
            if cache.entries[k].expired(now) {
                assert(after[i] == if i < k {
                    cache.entries[i]
                } else {
                    cache.entries[i + 1]
                });
            } else if i == 0 {
                assert(after[i] == cache.entries[k]);
            } else {
                assert(after[i] == cache.entries.remove(k)[i - 1]);
                assert(after[i] == if i - 1 < k {
                    cache.entries[i - 1]
                } else {
                    cache.entries[i]
                });
            }
        }
    }
}

/// Every delegation signer record that is taken as validated before is the record of an entry of the
/// cache that is marked so and has not expired.
pub proof fn law_vouched_is_validated(cache: CacheModel, name: Seq<Seq<u8>>, now: Timestamp)
    ensures
        forall|r: RecordModel| #[trigger]
            gather(cache, name, now).ds.contains(r) ==> exists|x: EntryModel|
                #![trigger cache.entries.contains(x)]
                cache.entries.contains(x) && CacheFlags::has(x.flags, CacheFlags::DNSSECOK)
                    && !x.expired(now) && x.record == r,
    decreases name.len(),
{
    let key_at = position(cache, name, RecordType::DNSKEY);
    let cache1 = cache.looked_up(key_at, now);
    let ds_at = position(cache1, name, RecordType::DS);
    let found = cache1.answer(ds_at, now);
    let cache2 = cache1.looked_up(ds_at, now);
    let here = validated_record(found);
    lemma_looked_up(cache, name, RecordType::DNSKEY, now);
    lemma_looked_up(cache1, name, RecordType::DS, now);
    let all = gather(cache, name, now).ds;
    let rest = if name.len() == 0 {
        Seq::empty()
    } else {
        law_vouched_is_validated(cache2, name.skip(1), now);
        gather(cache2, name.skip(1), now).ds
    };
    assert(all =~= here + rest);
    assert forall|r: RecordModel| #[trigger] all.contains(r) implies exists|x: EntryModel|
        #![trigger cache.entries.contains(x)]
        cache.entries.contains(x) && CacheFlags::has(x.flags, CacheFlags::DNSSECOK) && !x.expired(now)
            && x.record == r by {
        let i = choose|i: int| 0 <= i < all.len() && all[i] == r;
        if i < here.len() {
            let x = found->0;
            assert(cache1.entries.contains(x));
            assert(cache.entries.contains(x));
        } else {
            assert(rest[i - here.len()] == r);
            assert(rest.contains(r));
            let x = choose|x: EntryModel|
                #![trigger cache2.entries.contains(x)]
                cache2.entries.contains(x) && CacheFlags::has(x.flags, CacheFlags::DNSSECOK)
                    && !x.expired(now) && x.record == r;
            assert(cache1.entries.contains(x));
            assert(cache.entries.contains(x));
        }
    }
}

// Validating.

/// References to the records of a list.
fn refs<'a>(records: &'a Vec<ResourceRecord>) -> (r: Vec<&'a ResourceRecord>)
    ensures
        set_models(r@) == record_models(records@),
        r@.len() == records@.len(),
        (forall|i: int| 0 <= i < records@.len() ==> (#[trigger] records@[i]).rdata@.fits())
            ==> all_fit(r@),
{
    let mut r: Vec<&ResourceRecord> = Vec::new();
    let mut i: usize = 0;
    while i < records.len()
        invariant
            i <= records@.len(),
            r@.len() == i,
            forall|j: int| 0 <= j < i ==> *(#[trigger] r@[j]) == records@[j],
        decreases records@.len() - i,
    {
        r.push(&records[i]);
        i = i + 1;
    }
    assert(set_models(r@) =~= record_models(records@));
    r
}

/// The records of a type in a message.
fn of_type<'a>(message: &'a DnsMessage, rtype: RecordType) -> (r: Vec<&'a ResourceRecord>)
    requires
        wire_sized(message@),
    ensures
        set_models(r@) == message_records(message@, rtype),
        all_fit(r@),
        r@.len() <= MAX_RECORDS,
{
    let ghost answers = record_models(message.answers@);
    let ghost authority = record_models(message.authority@);
    let ghost all = answers + authority;
    let ghost p = |m: RecordModel| m.rtype == rtype;
    let n: usize = message.answers.len();
    let m: usize = message.authority.len();
    let mut r: Vec<&ResourceRecord> = Vec::new();
    let mut i: usize = 0;
    proof {
        all.take(0).lemma_filter_len(p);
        assert(set_models(r@) =~= all.take(0).filter(p));
    }
    while i < n + m
        invariant
            wire_sized(message@),
            n == message.answers@.len() <= MAX_SECTION,
            m == message.authority@.len() <= MAX_SECTION,
            i <= n + m,
            r@.len() <= i,
            answers == record_models(message.answers@),
            authority == record_models(message.authority@),
            all == answers + authority,
            p == (|m: RecordModel| m.rtype == rtype),
            set_models(r@) == all.take(i as int).filter(p),
            all_fit(r@),
        decreases n + m - i,
    {
        let ghost before = set_models(r@);
        let ghost head = all.take(i as int);
        let record = if i < n {
            &message.answers[i]
        } else {
            &message.authority[i - n]
        };
        proof {
            assert(all.take(i + 1) =~= head.push(all[i as int]));
            if i < n {
                assert(all[i as int] == answers[i as int]);
                assert(message@.answers[i as int] == record@);
            } else {
                assert(all[i as int] == authority[i - n]);
                assert(message@.authority[i - n] == record@);
            }
            assert(all[i as int] == record@);
            head.lemma_filter_push(all[i as int], p);
        }
        if record.rtype == rtype {
            r.push(record);
            assert(set_models(r@) =~= before.push(record@));
        }
        i = i + 1;
    }
    assert(all.take(i as int) =~= all);
    r
}

/// Adds the keys and the validated delegation signer records that a cache has for a name and the
/// names above it.
fn gather_into(
    cache: &mut DnsCache,
    name: &DomainName,
    now: Timestamp,
    keys: &mut Vec<ResourceRecord>,
    ds: &mut Vec<ResourceRecord>,
)
    requires
        old(cache).wf(),
        forall|i: int| 0 <= i < old(keys)@.len() ==> (#[trigger] old(keys)@[i]).rdata@.fits(),
        forall|i: int| 0 <= i < old(ds)@.len() ==> (#[trigger] old(ds)@[i]).rdata@.fits(),
    ensures
        final(cache).wf(),
        ({
            let g = gather(old(cache)@, name@, now);
            &&& final(cache)@ == g.cache
            &&& record_models(final(keys)@) == record_models(old(keys)@) + g.keys
            &&& record_models(final(ds)@) == record_models(old(ds)@) + g.ds
        }),
        forall|i: int| 0 <= i < final(keys)@.len() ==> (#[trigger] final(keys)@[i]).rdata@.fits(),
        forall|i: int| 0 <= i < final(ds)@.len() ==> (#[trigger] final(ds)@[i]).rdata@.fits(),
    decreases name@.len(),
{
    let ghost k0 = record_models(keys@);
    let ghost d0 = record_models(ds@);
    let ghost cache0 = cache@;
    let ghost key_found = cache0.answer(position(cache0, name@, RecordType::DNSKEY), now);
    if let Some(entry) = cache.find_by_name_at(name, RecordType::DNSKEY, now) {
        if entry.record.rdata.fits_wire() {
            let copy = entry.record.clone();
            keys.push(copy);
            assert(record_models(keys@) =~= k0.push(copy@));
        }
    }
    assert(record_models(keys@) =~= k0 + entry_record(key_found));
    let ghost cache1 = cache@;
    let ghost ds_found = cache1.answer(position(cache1, name@, RecordType::DS), now);
    if let Some(entry) = cache.find_by_name_at(name, RecordType::DS, now) {
        if CacheFlags::contains(entry.flags, CacheFlags::DNSSECOK)
            && entry.record.rdata.fits_wire() {
            let copy = entry.record.clone();
            ds.push(copy);
            assert(record_models(ds@) =~= d0.push(copy@));
        }
    }
    assert(record_models(ds@) =~= d0 + validated_record(ds_found));
    if name.label_count() > 0 {
        let parent = name.parent();
        let ghost g = gather(cache@, parent@, now);
        gather_into(cache, &parent, now, keys, ds);
        proof {
            assert(k0 + entry_record(key_found) + g.keys =~= k0 + (entry_record(key_found)
                + g.keys));
            assert(d0 + validated_record(ds_found) + g.ds =~= d0 + (validated_record(ds_found)
                + g.ds));
        }
    }
}

/// Puts together what chains of trust are built from.
fn assemble<'a>(
    message: &'a DnsMessage,
    cached_keys: &'a Vec<ResourceRecord>,
    cached_ds: &'a Vec<ResourceRecord>,
    anchors: &'a TrustAnchorStore,
) -> (r: Evidence<'a>)
    requires
        wire_sized(message@),
        forall|i: int| 0 <= i < cached_keys@.len() ==> (#[trigger] cached_keys@[i]).rdata@.fits(),
        forall|i: int| 0 <= i < cached_ds@.len() ==> (#[trigger] cached_ds@[i]).rdata@.fits(),
    ensures
        r.wf(),
        forall|g: Gathered|
            g.keys == record_models(cached_keys@) && g.ds == record_models(cached_ds@) ==> r.model()
                == #[trigger] evidence_of(message@, g, anchors@),
{
    let message_keys = of_type(message, RecordType::DNSKEY);
    let mut keys = of_type(message, RecordType::DNSKEY);
    let mut more = refs(cached_keys);
    let ghost first = keys@;
    let ghost second = more@;
    keys.append(&mut more);
    proof {
        assert(set_models(keys@) =~= set_models(first) + set_models(second));
        assert forall|i: int| 0 <= i < keys@.len() implies (#[trigger] keys@[i]).rdata@.fits() by {
            if i < first.len() {
                assert(keys@[i] == first[i]);
            } else {
                assert(keys@[i] == second[i - first.len()]);
            }
        }
    }
    Evidence {
        keys,
        message_keys,
        sigs: of_type(message, RecordType::RRSIG),
        ds: of_type(message, RecordType::DS),
        vouched: refs(cached_ds),
        anchors,
    }
}

/// True when a signature record is for a record.
fn is_cover(s: &ResourceRecord, r: &ResourceRecord) -> (b: bool)
    ensures
        b == covers(s@, r@),
{
    s.rtype == RecordType::RRSIG && s.class == r.class && match &s.rdata {
        RData::Rrsig { type_covered, .. } => RecordType::from_code(*type_covered) == r.rtype
            && s.name.same_name(&r.name),
        _ => false,
    }
}

/// The records of a section that a signature record is for.
fn select_covered<'a>(section: &Vec<&'a ResourceRecord>, s: &ResourceRecord) -> (r: Vec<
    &'a ResourceRecord,
>)
    requires
        all_fit(section@),
    ensures
        set_models(r@) == covered_set(set_models(section@), s@),
        r@.len() <= section@.len(),
        all_fit(r@),
{
    let ghost all = set_models(section@);
    let ghost p = |m: RecordModel| covers(s@, m);
    let mut r: Vec<&ResourceRecord> = Vec::new();
    let mut i: usize = 0;
    proof {
        all.take(0).lemma_filter_len(p);
        assert(set_models(r@) =~= all.take(0).filter(p));
    }
    while i < section.len()
        invariant
            i <= section@.len(),
            all_fit(section@),
            all == set_models(section@),
            p == (|m: RecordModel| covers(s@, m)),
            set_models(r@) == all.take(i as int).filter(p),
            r@.len() <= i,
            all_fit(r@),
        decreases section@.len() - i,
    {
        let ghost before = set_models(r@);
        let ghost head = all.take(i as int);
        let record = section[i];
        proof {
            assert(all.take(i + 1) =~= head.push(all[i as int]));
            assert(all[i as int] == record@);
            head.lemma_filter_push(all[i as int], p);
        }
        if is_cover(s, record) {
            r.push(record);
            assert(set_models(r@) =~= before.push(record@));
        }
        i = i + 1;
    }
    assert(all.take(i as int) =~= all);
    r
}

/// True when a signature record of a section is for a record.
fn has_cover(section: &Vec<&ResourceRecord>, r: &ResourceRecord) -> (b: bool)
    ensures
        b == is_covered(set_models(section@), r@),
{
    let ghost all = set_models(section@);
    let mut i: usize = 0;
    while i < section.len()
        invariant
            i <= section@.len(),
            all == set_models(section@),
            forall|j: int| 0 <= j < i ==> !covers(#[trigger] all[j], r@),
        decreases section@.len() - i,
    {
        assert(all[i as int] == section@[i as int]@);
        if is_cover(section[i], r) {
            return true;
        }
        i = i + 1;
    }
    false
}

/// The position of the first record of a section, other than signature records, that no signature
/// record of the section is for.
fn find_uncovered(section: &Vec<&ResourceRecord>) -> (r: Option<usize>)
    ensures
        match (r, first_uncovered(set_models(section@), set_models(section@))) {
            (Some(i), Some(w)) => i < section@.len() && section@[i as int]@ == w,
            (None, None) => true,
            _ => false,
        },
{
    let ghost all = set_models(section@);
    let mut i: usize = 0;
    assert(all.skip(0) =~= all);
    while i < section.len()
        invariant
            i <= section@.len(),
            all == set_models(section@),
            first_uncovered(all, all.skip(i as int)) == first_uncovered(all, all),
        decreases section@.len() - i,
    {
        proof {
            assert(all.skip(i as int)[0] == all[i as int]);
            assert(all[i as int] == section@[i as int]@);
            assert(all.skip(i as int).skip(1) =~= all.skip(i + 1));
        }
        if section[i].rtype != RecordType::RRSIG && !has_cover(section, section[i]) {
            return Some(i);
        }
        i = i + 1;
    }
    None
}

/// True when there is a record of a type among the records.
fn any_of_type(records: &Vec<ResourceRecord>, rtype: RecordType) -> (r: bool)
    ensures
        r == has_type(record_models(records@), rtype),
{
    let ghost all = record_models(records@);
    let mut i: usize = 0;
    while i < records.len()
        invariant
            i <= records@.len(),
            all == record_models(records@),
            forall|j: int| 0 <= j < i ==> (#[trigger] all[j]).rtype != rtype,
        decreases records@.len() - i,
    {
        assert(all[i as int] == records@[i as int]@);
        if records[i].rtype == rtype {
            return true;
        }
        i = i + 1;
    }
    false
}

/// True of records that say the same.
fn say_the_same(a: &ResourceRecord, b: &ResourceRecord) -> (r: bool)
    ensures
        r == same_data(a@, b@),
{
    if a.rtype != b.rtype || a.class != b.class || !a.name.same_name(&b.name) {
        return false;
    }
    let x = a.rdata.canonical();
    let y = b.rdata.canonical();
    same_bytes(x.as_slice(), y.as_slice())
}

/// True when a record says the same as every answer that is not a signature record, and there is
/// such an answer.
fn says_all(record: &ResourceRecord, answers: &Vec<ResourceRecord>) -> (r: bool)
    ensures
        r == ((forall|i: int|
            0 <= i < answers@.len() && !((#[trigger] record_models(answers@)[i]).rtype is RRSIG)
                ==> same_data(record_models(answers@)[i], record@)) && exists|i: int|
            0 <= i < answers@.len() && !((#[trigger] record_models(answers@)[i]).rtype is RRSIG)),
{
    let ghost all = record_models(answers@);
    let mut some: bool = false;
    let mut i: usize = 0;
    while i < answers.len()
        invariant
            i <= answers@.len(),
            all == record_models(answers@),
            forall|j: int|
                0 <= j < i && !((#[trigger] all[j]).rtype is RRSIG) ==> same_data(all[j], record@),
            some == exists|j: int| 0 <= j < i && !((#[trigger] all[j]).rtype is RRSIG),
        decreases answers@.len() - i,
    {
        assert(all[i as int] == answers@[i as int]@);
        if answers[i].rtype != RecordType::RRSIG {
            if !say_the_same(&answers[i], record) {
                return false;
            }
            some = true;
        }
        i = i + 1;
    }
    some
}

/// The records of a message with which it denies that something exists.
fn select_denial<'a>(message: &'a DnsMessage) -> (r: Vec<&'a ResourceRecord>)
    requires
        wire_sized(message@),
    ensures
        set_models(r@) == denial_section(message@),
        all_fit(r@),
        r@.len() <= MAX_SECTION,
{
    let ghost all = record_models(message.authority@);
    let ghost p = |m: RecordModel| in_denial(m);
    let mut r: Vec<&ResourceRecord> = Vec::new();
    let mut i: usize = 0;
    proof {
        all.take(0).lemma_filter_len(p);
        assert(set_models(r@) =~= all.take(0).filter(p));
    }
    while i < message.authority.len()
        invariant
            wire_sized(message@),
            i <= message.authority@.len() <= MAX_SECTION,
            all == record_models(message.authority@),
            p == (|m: RecordModel| in_denial(m)),
            set_models(r@) == all.take(i as int).filter(p),
            r@.len() <= i,
            all_fit(r@),
        decreases message.authority@.len() - i,
    {
        let ghost before = set_models(r@);
        let ghost head = all.take(i as int);
        let record = &message.authority[i];
        proof {
            assert(all.take(i + 1) =~= head.push(all[i as int]));
            assert(all[i as int] == record@);
            assert(message@.authority[i as int] == record@);
            head.lemma_filter_push(all[i as int], p);
        }
        let wanted = match record.rtype {
            RecordType::NSEC => true,
            RecordType::NSEC3 => true,
            RecordType::RRSIG => match &record.rdata {
                RData::Rrsig { type_covered, .. } => {
                    let covered = RecordType::from_code(*type_covered);
                    covered == RecordType::NSEC || covered == RecordType::NSEC3
                },
                _ => true,
            },
            _ => false,
        };
        if wanted {
            r.push(record);
            assert(set_models(r@) =~= before.push(record@));
        }
        i = i + 1;
    }
    assert(all.take(i as int) =~= all);
    r
}

/// True when the signatures of a section stem from zones that a name is in.
fn all_from_zones_of(section: &Vec<&ResourceRecord>, name: &DomainName) -> (r: bool)
    ensures
        r == from_zones_of(set_models(section@), name@),
{
    let ghost all = set_models(section@);
    let mut i: usize = 0;
    while i < section.len()
        invariant
            i <= section@.len(),
            all == set_models(section@),
            forall|j: int|
                0 <= j < i ==> ((#[trigger] all[j]).rdata matches RDataModel::Rrsig { signer, .. }
                    ==> is_suffix(canon(signer), canon(name@))),
        decreases section@.len() - i,
    {
        assert(all[i as int] == section@[i as int]@);
        if let RData::Rrsig { signer, .. } = &section[i].rdata {
            if !name.is_subdomain_of(signer) {
                return false;
            }
        }
        i = i + 1;
    }
    true
}

/// The records of a type in a section.
fn select_type<'a>(section: &Vec<&'a ResourceRecord>, rtype: RecordType) -> (r: Vec<
    &'a ResourceRecord,
>)
    requires
        all_fit(section@),
    ensures
        set_models(r@) == set_models(section@).filter(|m: RecordModel| m.rtype == rtype),
        all_fit(r@),
{
    let ghost all = set_models(section@);
    let ghost p = |m: RecordModel| m.rtype == rtype;
    let mut r: Vec<&ResourceRecord> = Vec::new();
    let mut i: usize = 0;
    proof {
        all.take(0).lemma_filter_len(p);
        assert(set_models(r@) =~= all.take(0).filter(p));
    }
    while i < section.len()
        invariant
            i <= section@.len(),
            all_fit(section@),
            all == set_models(section@),
            p == (|m: RecordModel| m.rtype == rtype),
            set_models(r@) == all.take(i as int).filter(p),
            all_fit(r@),
        decreases section@.len() - i,
    {
        let ghost before = set_models(r@);
        let ghost head = all.take(i as int);
        let record = section[i];
        proof {
            assert(all.take(i + 1) =~= head.push(all[i as int]));
            assert(all[i as int] == record@);
            head.lemma_filter_push(all[i as int], p);
        }
        if record.rtype == rtype {
            r.push(record);
            assert(set_models(r@) =~= before.push(record@));
        }
        i = i + 1;
    }
    assert(all.take(i as int) =~= all);
    r
}

/// True of a signature record of a section that covers something and was made for a wildcard.
fn is_expanded(section: &Vec<&ResourceRecord>, s: &ResourceRecord) -> (r: bool)
    requires
        all_fit(section@),
    ensures
        r == expanded(set_models(section@), s@),
{
    match &s.rdata {
        RData::Rrsig { labels, .. } => if (*labels as usize) < s.name.label_count() {
            let set = select_covered(section, s);
            assert(set_models(set@).len() == set@.len());
            set.len() > 0
        } else {
            false
        },
        _ => false,
    }
}

/// True when a denial section, from zones that a name is in, proves that there is no such name.
fn is_name_denied(denial: &Vec<&ResourceRecord>, name: &DomainName) -> (r: bool)
    ensures
        r == name_denied(set_models(denial@), name@),
{
    if !all_from_zones_of(denial, name) {
        return false;
    }
    let ghost all = set_models(denial@);
    let mut i: usize = 0;
    while i < denial.len()
        invariant
            i <= denial@.len(),
            all == set_models(denial@),
            from_zones_of(all, name@),
            forall|j: int| 0 <= j < i ==> !no_such_name(#[trigger] all[j], name@),
        decreases denial@.len() - i,
    {
        let record = denial[i];
        assert(all[i as int] == record@);
        if record.rtype == RecordType::NSEC && !record.name.same_name(name) {
            if let RData::Nsec { next_domain, .. } = &record.rdata {
                if DnssecValidator::spans(&record.name, next_domain, name) {
                    assert(no_such_name(all[i as int], name@));
                    return true;
                }
            }
        }
        i = i + 1;
    }
    false
}

/// True when a section has a wildcard signature.
fn any_wildcard(section: &Vec<&ResourceRecord>) -> (r: bool)
    requires
        all_fit(section@),
    ensures
        r == has_wildcards(set_models(section@)),
{
    let ghost all = set_models(section@);
    let mut i: usize = 0;
    while i < section.len()
        invariant
            i <= section@.len(),
            all_fit(section@),
            all == set_models(section@),
            forall|j: int| 0 <= j < i ==> !expanded(all, #[trigger] all[j]),
        decreases section@.len() - i,
    {
        assert(all[i as int] == section@[i as int]@);
        if is_expanded(section, section[i]) {
            return true;
        }
        i = i + 1;
    }
    false
}

/// True when a denial section proves of every wildcard signature of a section that its owner is not
/// there itself.
fn all_wildcards_proven(section: &Vec<&ResourceRecord>, denial: &Vec<&ResourceRecord>) -> (r: bool)
    requires
        all_fit(section@),
    ensures
        r == wildcards_proven(set_models(section@), set_models(denial@)),
{
    let ghost all = set_models(section@);
    let mut i: usize = 0;
    while i < section.len()
        invariant
            i <= section@.len(),
            all_fit(section@),
            all == set_models(section@),
            forall|j: int|
                0 <= j < i && expanded(all, #[trigger] all[j]) ==> name_denied(
                    set_models(denial@),
                    all[j].name,
                ),
        decreases section@.len() - i,
    {
        assert(all[i as int] == section@[i as int]@);
        if is_expanded(section, section[i]) && !is_name_denied(denial, &section[i].name) {
            return false;
        }
        i = i + 1;
    }
    true
}

impl DnssecValidator {
    /// Checks one signature record of a section; gives the outcome where it ends the validation.
    fn signature_result(
        &self,
        keys: &Vec<&ResourceRecord>,
        section: &Vec<&ResourceRecord>,
        s: &ResourceRecord,
        counter: &mut ValidationCounter,
        clock: &ClockReading,
    ) -> (r: Option<ValidationResult>)
        requires
            all_fit(keys@),
            all_fit(section@),
            section@.len() <= MAX_SECTION,
            old(counter).room(),
        ensures
            ({
                let o = signature_step(
                    set_models(keys@),
                    set_models(section@),
                    s@,
                    *old(counter),
                    *clock,
                );
                &&& *final(counter) == o.counter
                &&& match (r, o.ended) {
                    (Some(x), Some(w)) => x@ == w,
                    (None, None) => true,
                    _ => false,
                }
            }),
            r is None ==> final(counter).room(),
    {
        if counter.increment_work().is_err() {
            return Some(
                ValidationResult::indeterminate(String::from_str("Resource limit exceeded")),
            );
        }
        if !matches!(&s.rdata, RData::Rrsig { .. }) {
            return Some(
                ValidationResult::bogus(
                    String::from_str("RRSIG record is malformed"),
                    Some(s.name.clone()),
                ),
            );
        }
        let set = select_covered(section, s);
        assert(set_models(set@).len() == set@.len());
        if set.len() == 0 {
            return None;
        }
        match self.validate_rrset_at(&set, s, keys, counter, clock) {
            Ok(true) => None,
            Ok(false) => Some(
                ValidationResult::bogus(
                    String::from_str("RRSIG signature verification failed"),
                    Some(s.name.clone()),
                ),
            ),
            Err(e) => {
                let text = e.to_text();
                Some(
                    ValidationResult::indeterminate(
                        message_text("Validation error: ", text.as_str(), ""),
                    ),
                )
            },
        }
    }

    /// Checks the signatures of a section; gives the outcome where they end the validation.
    fn validate_signatures(
        &self,
        keys: &Vec<&ResourceRecord>,
        section: &Vec<&ResourceRecord>,
        counter: &mut ValidationCounter,
        clock: &ClockReading,
    ) -> (r: Option<ValidationResult>)
        requires
            all_fit(keys@),
            all_fit(section@),
            section@.len() <= MAX_SECTION,
            old(counter).room(),
        ensures
            ({
                let o = check_signatures(
                    set_models(keys@),
                    set_models(section@),
                    set_models(section@),
                    *old(counter),
                    *clock,
                );
                &&& *final(counter) == o.counter
                &&& match (r, o.ended) {
                    (Some(x), Some(w)) => x@ == w,
                    (None, None) => true,
                    _ => false,
                }
            }),
            r is None ==> final(counter).room(),
    {
        let ghost all = set_models(section@);
        let ghost known = set_models(keys@);
        let ghost whole = check_signatures(known, all, all, *counter, *clock);
        let mut i: usize = 0;
        assert(all.skip(0) =~= all);
        while i < section.len()
            invariant
                all_fit(keys@),
                all_fit(section@),
                section@.len() <= MAX_SECTION,
                all == set_models(section@),
                known == set_models(keys@),
                i <= section@.len(),
                counter.room(),
                check_signatures(known, all, all.skip(i as int), *counter, *clock) == whole,
                whole == check_signatures(known, all, all, *old(counter), *clock),
            decreases section@.len() - i,
        {
            let s = section[i];
            let ghost c0 = *counter;
            proof {
                assert(all.skip(i as int)[0] == all[i as int]);
                assert(all[i as int] == s@);
                assert(all.skip(i as int).skip(1) =~= all.skip(i + 1));
            }
            if s.rtype == RecordType::RRSIG {
                let ended = self.signature_result(keys, section, s, counter, clock);
                assert(*counter == signature_step(known, all, s@, c0, *clock).counter);
                if ended.is_some() {
                    return ended;
                }
            }
            i = i + 1;
        }
        None
    }

    /// Walks from the keys of the signatures of a section, from a position on, as far as they cover
    /// anything; gives the zones of the first walk.
    fn walk_section(
        &self,
        e: &Evidence,
        section: &Vec<&ResourceRecord>,
        from: usize,
        counter: &mut ValidationCounter,
        clock: &ClockReading,
    ) -> (r: Result<Option<Vec<DomainName>>, DnsmasqError>)
        requires
            e.wf(),
            all_fit(section@),
            from <= section@.len(),
            old(counter).room(),
        ensures
            ({
                let o = walk_signatures(
                    e.model(),
                    set_models(section@),
                    set_models(section@).skip(from as int),
                    *old(counter),
                    *clock,
                );
                &&& match (r, o.result) {
                    (Ok(Some(path)), Ok(Some(w))) => name_models(path@) == w,
                    (Ok(None), Ok(None)) => true,
                    (Err(x), Err(w)) => x@ == w,
                    _ => false,
                }
                &&& *final(counter) == o.counter
            }),
            r is Ok ==> final(counter).room(),
    {
        let ghost m = e.model();
        let ghost all = set_models(section@);
        let ghost whole = walk_signatures(m, all, all.skip(from as int), *counter, *clock);
        let mut path: Option<Vec<DomainName>> = None;
        let mut i: usize = from;
        while i < section.len()
            invariant
                e.wf(),
                m == e.model(),
                all_fit(section@),
                all == set_models(section@),
                from <= i <= section@.len(),
                counter.room(),
                whole == walk_signatures(m, all, all.skip(from as int), *old(counter), *clock),
                ({
                    let rest = walk_signatures(m, all, all.skip(i as int), *counter, *clock);
                    match path {
                        None => whole == rest,
                        Some(p) => whole == (Counted {
                            result: match rest.result {
                                Ok(_) => Ok(Some(name_models(p@))),
                                Err(f) => Err(f),
                            },
                            counter: rest.counter,
                        }),
                    }
                }),
            decreases section@.len() - i,
        {
            let s = section[i];
            proof {
                assert(all.skip(i as int)[0] == all[i as int]);
                assert(all[i as int] == s@);
                assert(all.skip(i as int).skip(1) =~= all.skip(i + 1));
            }
            let set = select_covered(section, s);
            assert(set_models(set@).len() == set@.len());
            if set.len() > 0 {
                match Self::find_signing_key(&e.keys, s) {
                    None => {
                        return Err(
                            DnsmasqError::Dnssec(DnssecError::NoKey { name: s.name.as_str() }),
                        );
                    },
                    Some(k) => match self.walk_from_key(e, e.keys[k], 0, counter, clock) {
                        Err(x) => {
                            return Err(x);
                        },
                        Ok(zones) => {
                            if path.is_none() {
                                path = Some(zones);
                            }
                        },
                    },
                }
            }
            i = i + 1;
        }
        assert(all.skip(i as int) =~= Seq::<RecordModel>::empty());
        Ok(path)
    }

    /// What a failed walk makes of an answer.
    pub fn judge_walk_error(e: DnsmasqError, query_name: &DomainName) -> (r: ValidationResult)
        ensures
            r@ == walk_verdict(e@, query_name@),
    {
        match &e {
            DnsmasqError::Dnssec(DnssecError::TooMuchWork { .. }) => ValidationResult::indeterminate(
                String::from_str("Resource limit exceeded"),
            ),
            DnsmasqError::Dnssec(DnssecError::NonSecure { .. }) => ValidationResult::insecure(),
            _ => {
                let text = e.to_text();
                ValidationResult::bogus(
                    message_text("Trust chain validation failed: ", text.as_str(), ""),
                    Some(query_name.clone()),
                )
            },
        }
    }

    /// Validates a section; gives the zones on the way to an anchor, or the outcome where it is not
    /// verified.
    fn validate_section(
        &self,
        e: &Evidence,
        section: &Vec<&ResourceRecord>,
        query_name: &DomainName,
        clock: &ClockReading,
    ) -> (r: Result<Vec<DomainName>, ValidationResult>)
        requires
            e.wf(),
            all_fit(section@),
            section@.len() <= MAX_SECTION,
        ensures
            match (r, section_outcome(e.model(), set_models(section@), query_name@, *clock)) {
                (Ok(path), Ok(w)) => name_models(path@) == w,
                (Err(x), Err(w)) => x@ == w,
                _ => false,
            },
    {
        let mut counter = ValidationCounter::new();
        if let Some(ended) = self.validate_signatures(&e.keys, section, &mut counter, clock) {
            return Err(ended);
        }
        if let Some(i) = find_uncovered(section) {
            return Err(
                ValidationResult::bogus(
                    String::from_str("Record is not covered by a signature"),
                    Some(section[i].name.clone()),
                ),
            );
        }
        assert(set_models(section@).skip(0) =~= set_models(section@));
        match self.walk_section(e, section, 0, &mut counter, clock) {
            Err(x) => Err(Self::judge_walk_error(x, query_name)),
            Ok(None) => Err(
                ValidationResult::bogus(
                    String::from_str("No signed records"),
                    Some(query_name.clone()),
                ),
            ),
            Ok(Some(path)) => Ok(path),
        }
    }

    /// A secure answer with the zones on the way to an anchor.
    fn secure_with(path: Vec<DomainName>) -> (r: ValidationResult)
        ensures
            r@ == ResultModel::secure(name_models(path@)),
    {
        let mut result = ValidationResult::secure();
        result.trust_chain_path = path;
        assert(result@ =~= ResultModel::secure(name_models(path@)));
        result
    }

    /// Tells whether a denial section proves that a name has no records of a type.
    fn prove_denial(&self, section: &Vec<&ResourceRecord>, name: &DomainName, qtype: u16) -> (r:
        Result<bool, DnsmasqError>)
        requires
            all_fit(section@),
        ensures
            match (r, denies(set_models(section@), name@, qtype)) {
                (Ok(b), Ok(w)) => b == w,
                (Err(x), Err(w)) => x@ == w,
                _ => false,
            },
    {
        let nsec = select_type(section, RecordType::NSEC);
        assert(set_models(nsec@).len() == nsec@.len());
        if nsec.len() > 0 {
            self.prove_non_existence_nsec(name, qtype, &nsec)
        } else {
            let nsec3 = select_type(section, RecordType::NSEC3);
            self.prove_non_existence_nsec3(name, qtype, &nsec3)
        }
    }

    /// Validates a message without answers.
    fn validate_denial(
        &self,
        e: &Evidence,
        message: &DnsMessage,
        query_name: &DomainName,
        clock: &ClockReading,
    ) -> (r: ValidationResult)
        requires
            e.wf(),
            wire_sized(message@),
            message.questions@.len() > 0,
        ensures
            r@ == negative_outcome(e.model(), message@, query_name@, *clock),
    {
        let section = select_denial(message);
        let path = match self.validate_section(e, &section, query_name, clock) {
            Ok(path) => path,
            Err(result) => {
                return result;
            },
        };
        if !all_from_zones_of(&section, query_name) {
            return ValidationResult::bogus(
                String::from_str("Denial of existence is from another zone"),
                Some(query_name.clone()),
            );
        }
        assert(message@.questions[0] == message.questions@[0]@);
        let qtype: u16 = message.questions[0].qtype.code();
        match self.prove_denial(&section, query_name, qtype) {
            Err(x) => {
                let text = x.to_text();
                ValidationResult::indeterminate(message_text("Validation error: ", text.as_str(), ""))
            },
            Ok(false) => ValidationResult::bogus(
                String::from_str("Denial of existence is not proven"),
                Some(query_name.clone()),
            ),
            Ok(true) => Self::secure_with(path),
        }
    }

    /// Validates a message with answers.
    fn validate_answers(
        &self,
        e: &Evidence,
        message: &DnsMessage,
        query_name: &DomainName,
        clock: &ClockReading,
    ) -> (r: ValidationResult)
        requires
            e.wf(),
            wire_sized(message@),
        ensures
            r@ == positive_outcome(e.model(), message@, query_name@, *clock),
    {
        proof {
            assert forall|i: int| 0 <= i < message.answers@.len() implies (
            #[trigger] message.answers@[i]).rdata@.fits() by {
                assert(message@.answers[i].rdata.fits());
            }
        }
        let section = refs(&message.answers);
        let path = match self.validate_section(e, &section, query_name, clock) {
            Ok(path) => path,
            Err(result) => {
                return result;
            },
        };
        if any_wildcard(&section) {
            let denial = select_denial(message);
            if self.validate_section(e, &denial, query_name, clock).is_err()
                || !all_wildcards_proven(&section, &denial) {
                return ValidationResult::indeterminate(
                    String::from_str("Wildcard expansion is not proven"),
                );
            }
        }
        Self::secure_with(path)
    }

    /// Tells whether the cache holds what the answers say as validated before.
    fn is_validated_before(
        message: &DnsMessage,
        query_name: &DomainName,
        cache: &mut DnsCache,
        now: Timestamp,
    ) -> (r: bool)
        requires
            old(cache).wf(),
        ensures
            final(cache).wf(),
            ({
                let (found, after) = asked_entry(message@, query_name@, old(cache)@, now);
                final(cache)@ == after && r == validated_before(message@.answers, found)
            }),
    {
        if message.questions.len() == 0 {
            return false;
        }
        assert(message@.questions[0] == message.questions@[0]@);
        let qtype = message.questions[0].qtype;
        match cache.find_by_name_at(query_name, qtype, now) {
            Some(entry) => CacheFlags::contains(entry.flags, CacheFlags::DNSSECOK) && says_all(
                &entry.record,
                &message.answers,
            ),
            None => false,
        }
    }

    /// Validates a message as the answer to a query, now.
    pub fn validate_response(
        &self,
        message: &DnsMessage,
        query_name: &DomainName,
        anchors: &TrustAnchorStore,
        cache: &mut DnsCache,
    ) -> (r: ValidationResult)
        requires
            wire_sized(message@),
            old(cache).wf(),
        ensures
            final(cache).wf(),
            exists|clock: ClockReading|
                clock.wf() && #[trigger] response_outcome(
                    message@,
                    query_name@,
                    anchors@,
                    old(cache)@,
                    clock,
                ) == (r@, final(cache)@),
    {
        let clock = ClockReading::now();
        let ghost before = cache@;
        let r = self.validate_response_at(message, query_name, anchors, cache, &clock);
        assert(response_outcome(message@, query_name@, anchors@, before, clock) == (r@, cache@));
        r
    }

    /// Validates a message as the answer to a query at the time of a reading.
    pub fn validate_response_at(
        &self,
        message: &DnsMessage,
        query_name: &DomainName,
        anchors: &TrustAnchorStore,
        cache: &mut DnsCache,
        clock: &ClockReading,
    ) -> (r: ValidationResult)
        requires
            wire_sized(message@),
            old(cache).wf(),
        ensures
            final(cache).wf(),
            response_outcome(message@, query_name@, anchors@, old(cache)@, *clock) == (
                r@,
                final(cache)@,
            ),
    {
        if !message.is_response() {
            return ValidationResult::indeterminate(String::from_str("Not a DNS response"));
        }
        let now = clock.timestamp();
        let negative = message.answers.len() == 0;
        assert(negative == (message@.answers.len() == 0));
        if negative {
            let section = &message.authority;
            let referral = any_of_type(section, RecordType::NS) && !any_of_type(
                section,
                RecordType::SOA,
            );
            if referral || !any_of_type(section, RecordType::RRSIG) || !(any_of_type(
                section,
                RecordType::NSEC,
            ) || any_of_type(section, RecordType::NSEC3)) {
                return ValidationResult::insecure();
            }
            if message.questions.len() == 0 {
                return ValidationResult::indeterminate(String::from_str("No question"));
            }
        } else {
            if Self::is_validated_before(message, query_name, cache, now) {
                return ValidationResult::secure();
            }
            if !any_of_type(&message.answers, RecordType::RRSIG) {
                return ValidationResult::insecure();
            }
        }
        let ghost g = gather(cache@, query_name@, now);
        let mut keys: Vec<ResourceRecord> = Vec::new();
        let mut ds: Vec<ResourceRecord> = Vec::new();
        gather_into(cache, query_name, now, &mut keys, &mut ds);
        proof {
            assert(record_models(keys@) =~= g.keys);
            assert(record_models(ds@) =~= g.ds);
        }
        let e = assemble(message, &keys, &ds, anchors);
        assert(e.model() == evidence_of(message@, g, anchors@));
        if negative {
            self.validate_denial(&e, message, query_name, clock)
        } else {
            self.validate_answers(&e, message, query_name, clock)
        }
    }

    /// Walks the chain of trust from the zone of a name up to an anchor, now.
    pub fn walk_trust_chain(
        &self,
        name: &DomainName,
        message: &DnsMessage,
        counter: &mut ValidationCounter,
        anchors: &TrustAnchorStore,
        cache: &mut DnsCache,
    ) -> (r: Result<Vec<DomainName>, DnsmasqError>)
        requires
            wire_sized(message@),
            old(counter).room(),
            old(cache).wf(),
        ensures
            final(cache).wf(),
            exists|clock: ClockReading|
                clock.wf() && #[trigger] chain_walked(
                    message@,
                    name@,
                    anchors@,
                    *old(counter),
                    old(cache)@,
                    clock,
                    r,
                    *final(counter),
                    final(cache)@,
                ),
    {
        let clock = ClockReading::now();
        let ghost before = *counter;
        let ghost cache_before = cache@;
        let r = self.walk_trust_chain_at(name, message, counter, anchors, cache, &clock);
        assert(chain_walked(
            message@,
            name@,
            anchors@,
            before,
            cache_before,
            clock,
            r,
            *counter,
            cache@,
        ));
        r
    }

    /// Walks the chain of trust from the zone of a name up to an anchor at the time of a reading.
    pub fn walk_trust_chain_at(
        &self,
        name: &DomainName,
        message: &DnsMessage,
        counter: &mut ValidationCounter,
        anchors: &TrustAnchorStore,
        cache: &mut DnsCache,
        clock: &ClockReading,
    ) -> (r: Result<Vec<DomainName>, DnsmasqError>)
        requires
            wire_sized(message@),
            old(counter).room(),
            old(cache).wf(),
        ensures
            final(cache).wf(),
            chain_walked(
                message@,
                name@,
                anchors@,
                *old(counter),
                old(cache)@,
                *clock,
                r,
                *final(counter),
                final(cache)@,
            ),
    {
        let now = clock.timestamp();
        let ghost g = gather(cache@, name@, now);
        let mut keys: Vec<ResourceRecord> = Vec::new();
        let mut ds: Vec<ResourceRecord> = Vec::new();
        gather_into(cache, name, now, &mut keys, &mut ds);
        proof {
            assert(record_models(keys@) =~= g.keys);
            assert(record_models(ds@) =~= g.ds);
        }
        let e = assemble(message, &keys, &ds, anchors);
        assert(e.model() == evidence_of(message@, g, anchors@));
        self.walk_from_name(&e, name, counter, clock)
    }
}

/// A denial section proves that a name is not there where all of it is from zones that the name is
/// in and one of its records, whichever, is an NSEC record of another name that spans the name.
pub proof fn law_name_denied(denial: Seq<RecordModel>, name: Seq<Seq<u8>>, i: int, next: Seq<Seq<u8>>)
    requires
        0 <= i < denial.len(),
        from_zones_of(denial, name),
        denial[i].rtype is NSEC,
        denial[i].rdata matches RDataModel::Nsec { next_domain, .. } && next_domain == next,
        canon(denial[i].name) != canon(name),
        name_in_span(canon(denial[i].name), canon(next), canon(name)),
    ensures
        name_denied(denial, name),
{
    assert(no_such_name(denial[i], name));
}

/// The wildcards of a section are proven where the name of every record that a signature made for a
/// wildcard covers is denied.
pub proof fn law_wildcards_proven(section: Seq<RecordModel>, denial: Seq<RecordModel>)
    requires
        forall|i: int|
            0 <= i < section.len() && covered_set(section, #[trigger] section[i]).len() > 0 && (
            section[i].rdata matches RDataModel::Rrsig { labels, .. } && labels < section[i].name.len())
                ==> name_denied(denial, section[i].name),
    ensures
        wildcards_proven(section, denial),
{
}

/// Predicates that agree on every record choose the same records.
proof fn lemma_same_filter(
    records: Seq<RecordModel>,
    p: spec_fn(RecordModel) -> bool,
    q: spec_fn(RecordModel) -> bool,
)
    requires
        forall|i: int| 0 <= i < records.len() ==> p(#[trigger] records[i]) == q(records[i]),
    ensures
        records.filter(p) == records.filter(q),
    decreases records.len(),
{
    reveal(Seq::filter);
    if records.len() > 0 {
        let rest = records.drop_last();
        assert forall|i: int| 0 <= i < rest.len() implies p(#[trigger] rest[i]) == q(rest[i]) by {
            assert(rest[i] == records[i]);
        }
        lemma_same_filter(rest, p, q);
        assert(p(records[records.len() - 1]) == q(records[records.len() - 1]));
    }
}

/// A denial is by its NSEC records where it consists of these and of signatures, and by its NSEC3
/// records where it consists of those.
pub proof fn law_denial_kinds(section: Seq<RecordModel>, name: Seq<Seq<u8>>, qtype: u16, k: int)
    requires
        0 <= k < section.len(),
        !(section[k].rtype is RRSIG),
    ensures
        ({
            let plain = section.filter(|r: RecordModel| !(r.rtype is RRSIG));
            &&& (forall|i: int|
                0 <= i < section.len() ==> (#[trigger] section[i]).rtype is RRSIG
                    || section[i].rtype is NSEC) ==> denies(section, name, qtype) == Ok::<bool, Failure>(
                nsec_denies(plain, name, qtype),
            )
            &&& (forall|i: int|
                0 <= i < section.len() ==> (#[trigger] section[i]).rtype is RRSIG
                    || section[i].rtype is NSEC3) ==> denies(section, name, qtype) == nsec3_outcome(
                plain,
                name,
                qtype,
            )
        }),
{
    let p = |r: RecordModel| !(r.rtype is RRSIG);
    let a = |r: RecordModel| r.rtype == RecordType::NSEC;
    let b = |r: RecordModel| r.rtype == RecordType::NSEC3;
    if forall|i: int|
        0 <= i < section.len() ==> (#[trigger] section[i]).rtype is RRSIG || section[i].rtype is NSEC {
        assert forall|i: int| 0 <= i < section.len() implies p(#[trigger] section[i]) == a(section[i]) by {}
        lemma_same_filter(section, p, a);
        assert(a(section[k]));
        section.lemma_filter_contains(a, k);
        assert(section.filter(a).len() > 0);
    }
    if forall|i: int|
        0 <= i < section.len() ==> (#[trigger] section[i]).rtype is RRSIG || section[i].rtype is NSEC3 {
        assert forall|i: int| 0 <= i < section.len() implies p(#[trigger] section[i]) == b(section[i]) by {}
        lemma_same_filter(section, p, b);
        if section.filter(a).len() > 0 {
            section.lemma_filter_pred(a, 0);
            section.lemma_filter_contains_rev(a, section.filter(a)[0]);
        }
    }
}

/// The cache is asked for the name and type of the first question: a live entry of these is what was
/// asked for. Without a question nothing is, and the cache stays as it is.
pub proof fn law_asked_entry(
    m: MessageModel,
    query_name: Seq<Seq<u8>>,
    cache: CacheModel,
    now: Timestamp,
    i: int,
)
    ensures
        m.questions.len() == 0 ==> asked_entry(m, query_name, cache, now) == (
            None::<EntryModel>,
            cache,
        ),
        m.questions.len() > 0 && cache.well_kept() && 0 <= i < cache.entries.len() && canon(
            cache.entries[i].domain_name,
        ) == canon(query_name) && cache.entries[i].record_type == m.questions[0].qtype && now.nanos
            < cache.entries[i].expiry.nanos ==> asked_entry(m, query_name, cache, now).0 == Some(
            cache.entries[i],
        ),
{
    if m.questions.len() > 0 && cache.well_kept() && 0 <= i < cache.entries.len() {
        law_lookup_by_name(cache, query_name, m.questions[0].qtype, i, now);
    }
}

} // verus!
