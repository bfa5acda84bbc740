//! Resource records.
use vstd::prelude::*;
use vstd::slice::slice_to_vec;
use crate::dns::name::{canon, lemma_canon_wire_len, lemma_name_wire_len, name_wire, DomainName};
use crate::types::{Ipv4Addr, Ipv6Addr, RecordType};
use crate::wire::{
    be_bytes, be_nat, lemma_be2, lemma_be4, lemma_be_bytes_len, lemma_be_nat_of_bytes, lemma_u16_field,
    lemma_u32_field, pow256, put_slice, put_u16, put_u32, u16_at, u32_at,
};

verus! {

/// The Internet class.
pub const CLASS_IN: u16 = 1;

/// The data of a record.
#[derive(Debug)]
pub enum RData {
    A(Ipv4Addr),
    AAAA(Ipv6Addr),
    Ns { nsdname: DomainName },
    Ptr { ptrdname: DomainName },
    Soa {
        mname: DomainName,
        rname: DomainName,
        serial: u32,
        refresh: u32,
        retry: u32,
        expire: u32,
        minimum: u32,
    },
    Rrsig {
        type_covered: u16,
        algorithm: u8,
        labels: u8,
        original_ttl: u32,
        expiration: u32,
        inception: u32,
        key_tag: u16,
        signer: DomainName,
        signature: Vec<u8>,
    },
    Dnskey { flags: u16, protocol: u8, algorithm: u8, public_key: Vec<u8> },
    Ds { key_tag: u16, algorithm: u8, digest_type: u8, digest: Vec<u8> },
    Nsec { next_domain: DomainName, type_bitmap: Vec<u8> },
    Nsec3 {
        hash_algorithm: u8,
        flags: u8,
        iterations: u16,
        salt: Vec<u8>,
        next_hashed: Vec<u8>,
        type_bitmap: Vec<u8>,
    },
    Unknown { rtype: u16, rdata: Vec<u8> },
}

/// What the data of a record says; names are lists of labels.
#[verifier::ext_equal]
pub ghost enum RDataModel {
    A(Ipv4Addr),
    AAAA(Ipv6Addr),
    Ns { nsdname: Seq<Seq<u8>> },
    Ptr { ptrdname: Seq<Seq<u8>> },
    Soa {
        mname: Seq<Seq<u8>>,
        rname: Seq<Seq<u8>>,
        serial: u32,
        refresh: u32,
        retry: u32,
        expire: u32,
        minimum: u32,
    },
    Rrsig {
        type_covered: u16,
        algorithm: u8,
        labels: u8,
        original_ttl: u32,
        expiration: u32,
        inception: u32,
        key_tag: u16,
        signer: Seq<Seq<u8>>,
        signature: Seq<u8>,
    },
    Dnskey { flags: u16, protocol: u8, algorithm: u8, public_key: Seq<u8> },
    Ds { key_tag: u16, algorithm: u8, digest_type: u8, digest: Seq<u8> },
    Nsec { next_domain: Seq<Seq<u8>>, type_bitmap: Seq<u8> },
    Nsec3 {
        hash_algorithm: u8,
        flags: u8,
        iterations: u16,
        salt: Seq<u8>,
        next_hashed: Seq<u8>,
        type_bitmap: Seq<u8>,
    },
    Unknown { rtype: u16, rdata: Seq<u8> },
}

impl View for RData {
    type V = RDataModel;

    open spec fn view(&self) -> RDataModel {
        match *self {
            RData::A(a) => RDataModel::A(a),
            RData::AAAA(a) => RDataModel::AAAA(a),
            RData::Ns { nsdname } => RDataModel::Ns { nsdname: nsdname@ },
            RData::Ptr { ptrdname } => RDataModel::Ptr { ptrdname: ptrdname@ },
            RData::Soa { mname, rname, serial, refresh, retry, expire, minimum } =>
                RDataModel::Soa {
                    mname: mname@,
                    rname: rname@,
                    serial,
                    refresh,
                    retry,
                    expire,
                    minimum,
                },
            RData::Rrsig {
                type_covered,
                algorithm,
                labels,
                original_ttl,
                expiration,
                inception,
                key_tag,
                signer,
                signature,
            } => RDataModel::Rrsig {
                type_covered,
                algorithm,
                labels,
                original_ttl,
                expiration,
                inception,
                key_tag,
                signer: signer@,
                signature: signature@,
            },
            RData::Dnskey { flags, protocol, algorithm, public_key } => RDataModel::Dnskey {
                flags,
                protocol,
                algorithm,
                public_key: public_key@,
            },
            RData::Ds { key_tag, algorithm, digest_type, digest } => RDataModel::Ds {
                key_tag,
                algorithm,
                digest_type,
                digest: digest@,
            },
            RData::Nsec { next_domain, type_bitmap } => RDataModel::Nsec {
                next_domain: next_domain@,
                type_bitmap: type_bitmap@,
            },
            RData::Nsec3 { hash_algorithm, flags, iterations, salt, next_hashed, type_bitmap } =>
                RDataModel::Nsec3 {
                    hash_algorithm,
                    flags,
                    iterations,
                    salt: salt@,
                    next_hashed: next_hashed@,
                    type_bitmap: type_bitmap@,
                },
            RData::Unknown { rtype, rdata } => RDataModel::Unknown { rtype, rdata: rdata@ },
        }
    }
}

impl RDataModel {
    /// The data in canonical form (RFC 4034, section 6.2): names in lower case and not compressed,
    /// but for the next name of an NSEC record (RFC 6840, section 5.1).
    pub open spec fn canonical(self) -> Seq<u8> {
        match self {
            RDataModel::A(a) => a.spec_octets(),
            RDataModel::AAAA(a) => a.spec_octets(),
            RDataModel::Ns { nsdname } => name_wire(canon(nsdname)),
            RDataModel::Ptr { ptrdname } => name_wire(canon(ptrdname)),
            RDataModel::Soa { mname, rname, serial, refresh, retry, expire, minimum } => name_wire(
                canon(mname),
            ) + name_wire(canon(rname)) + be_bytes(serial as nat, 4) + be_bytes(refresh as nat, 4)
                + be_bytes(retry as nat, 4) + be_bytes(expire as nat, 4) + be_bytes(
                minimum as nat,
                4,
            ),
            RDataModel::Rrsig { signature, .. } => self.signature_header() + signature,
            RDataModel::Dnskey { flags, protocol, algorithm, public_key } => be_bytes(
                flags as nat,
                2,
            ) + seq![protocol, algorithm] + public_key,
            RDataModel::Ds { key_tag, algorithm, digest_type, digest } => be_bytes(
                key_tag as nat,
                2,
            ) + seq![algorithm, digest_type] + digest,
            RDataModel::Nsec { next_domain, type_bitmap } => name_wire(next_domain) + type_bitmap,
            RDataModel::Nsec3 { hash_algorithm, flags, iterations, salt, next_hashed, type_bitmap } =>
                seq![hash_algorithm, flags] + be_bytes(iterations as nat, 2) + seq![
                    salt.len() as u8,
                ] + salt + seq![next_hashed.len() as u8] + next_hashed + type_bitmap,
            RDataModel::Unknown { rdata, .. } => rdata,
        }
    }

    /// The data of a signature record without the signature.
    pub open spec fn signature_header(self) -> Seq<u8> {
        match self {
            RDataModel::Rrsig {
                type_covered,
                algorithm,
                labels,
                original_ttl,
                expiration,
                inception,
                key_tag,
                signer,
                ..
            } => be_bytes(type_covered as nat, 2) + seq![algorithm, labels] + be_bytes(
                original_ttl as nat,
                4,
            ) + be_bytes(expiration as nat, 4) + be_bytes(inception as nat, 4) + be_bytes(
                key_tag as nat,
                2,
            ) + name_wire(canon(signer)),
            _ => Seq::empty(),
        }
    }

    /// True of data whose parts fit the 16-bit length of record data.
    pub open spec fn fits(self) -> bool {
        match self {
            RDataModel::Rrsig { signature, .. } => signature.len() <= 0xffff,
            RDataModel::Dnskey { public_key, .. } => public_key.len() <= 0xffff,
            RDataModel::Ds { digest, .. } => digest.len() <= 0xffff,
            RDataModel::Nsec { type_bitmap, .. } => type_bitmap.len() <= 0xffff,
            RDataModel::Nsec3 { salt, next_hashed, type_bitmap, .. } => salt.len() <= 0xff
                && next_hashed.len() <= 0xff && type_bitmap.len() <= 0xffff,
            RDataModel::Unknown { rdata, .. } => rdata.len() <= 0xffff,
            _ => true,
        }
    }
}

proof fn lemma_field_lens()
    ensures
        forall|n: nat, k: nat| (#[trigger] be_bytes(n, k)).len() == k,
{
    assert forall|n: nat, k: nat| (#[trigger] be_bytes(n, k)).len() == k by {
        lemma_be_bytes_len(n, k);
    }
}

/// The address of a record stands on the wire with the most significant byte first.
pub proof fn law_address_on_wire(a: Ipv4Addr, b: Ipv6Addr)
    ensures
        RDataModel::A(a).canonical().len() == 4,
        u32_at(RDataModel::A(a).canonical(), 0) == a.bits,
        RDataModel::AAAA(b).canonical().len() == 16,
        be_nat(RDataModel::AAAA(b).canonical()) == b.bits,
{
    lemma_be4(a.bits);
    lemma_be_bytes_len(b.bits as nat, 16);
    reveal_with_fuel(pow256, 17);
    assert(b.bits < pow256(16));
    lemma_be_nat_of_bytes(b.bits as nat, 16);
}

/// Where the fields of a key record stand on the wire.
pub proof fn law_key_on_wire(flags: u16, protocol: u8, algorithm: u8, public_key: Seq<u8>)
    ensures
        ({
            let w = (RDataModel::Dnskey { flags, protocol, algorithm, public_key }).canonical();
            u16_at(w, 0) == flags && w[2] == protocol && w[3] == algorithm && w.skip(4) == public_key
        }),
{
    lemma_be2(flags);
    let w = (RDataModel::Dnskey { flags, protocol, algorithm, public_key }).canonical();
    assert(w.skip(4) =~= public_key);
}

/// Where the fields of a delegation signer record stand on the wire.
pub proof fn law_delegation_on_wire(key_tag: u16, algorithm: u8, digest_type: u8, digest: Seq<u8>)
    ensures
        ({
            let w = (RDataModel::Ds { key_tag, algorithm, digest_type, digest }).canonical();
            u16_at(w, 0) == key_tag && w[2] == algorithm && w[3] == digest_type && w.skip(4) == digest
        }),
{
    lemma_be2(key_tag);
    let w = (RDataModel::Ds { key_tag, algorithm, digest_type, digest }).canonical();
    assert(w.skip(4) =~= digest);
}

/// Where the fields of a signature record stand on the wire; the signature is the last of them, and
/// what is signed are the fields before it.
pub proof fn law_signature_on_wire(
    type_covered: u16,
    algorithm: u8,
    labels: u8,
    original_ttl: u32,
    expiration: u32,
    inception: u32,
    key_tag: u16,
    signer: Seq<Seq<u8>>,
    signature: Seq<u8>,
)
    ensures
        ({
            let r = RDataModel::Rrsig {
                type_covered,
                algorithm,
                labels,
                original_ttl,
                expiration,
                inception,
                key_tag,
                signer,
                signature,
            };
            let h = r.signature_header();
            &&& u16_at(h, 0) == type_covered
            &&& h[2] == algorithm
            &&& h[3] == labels
            &&& u32_at(h, 4) == original_ttl
            &&& u32_at(h, 8) == expiration
            &&& u32_at(h, 12) == inception
            &&& u16_at(h, 16) == key_tag
            &&& h.skip(18) == name_wire(canon(signer))
            &&& r.canonical() == h + signature
        }),
{
    let r = RDataModel::Rrsig {
        type_covered,
        algorithm,
        labels,
        original_ttl,
        expiration,
        inception,
        key_tag,
        signer,
        signature,
    };
    let h = r.signature_header();
    lemma_be_bytes_len(type_covered as nat, 2);
    lemma_be_bytes_len(original_ttl as nat, 4);
    lemma_be_bytes_len(expiration as nat, 4);
    lemma_be_bytes_len(inception as nat, 4);
    lemma_be_bytes_len(key_tag as nat, 2);
    assert(h.skip(18) =~= name_wire(canon(signer)));
    assert(h.subrange(0, 2) =~= be_bytes(type_covered as nat, 2));
    assert(h.subrange(4, 8) =~= be_bytes(original_ttl as nat, 4));
    assert(h.subrange(8, 12) =~= be_bytes(expiration as nat, 4));
    assert(h.subrange(12, 16) =~= be_bytes(inception as nat, 4));
    assert(h.subrange(16, 18) =~= be_bytes(key_tag as nat, 2));
    lemma_u16_field(h, 0, type_covered);
    lemma_u32_field(h, 4, original_ttl);
    lemma_u32_field(h, 8, expiration);
    lemma_u32_field(h, 12, inception);
    lemma_u16_field(h, 16, key_tag);
}

/// The data of a start of authority record is its two names in lower case, and then its five numbers.
pub proof fn law_authority_on_wire(
    mname: Seq<Seq<u8>>,
    rname: Seq<Seq<u8>>,
    serial: u32,
    refresh: u32,
    retry: u32,
    expire: u32,
    minimum: u32,
)
    ensures
        ({
            let w = (RDataModel::Soa { mname, rname, serial, refresh, retry, expire, minimum }).canonical();
            let names = name_wire(canon(mname)) + name_wire(canon(rname));
            let t = w.skip(names.len() as int);
            &&& w.len() == names.len() + 20
            &&& w.take(names.len() as int) == names
            &&& u32_at(t, 0) == serial
            &&& u32_at(t, 4) == refresh
            &&& u32_at(t, 8) == retry
            &&& u32_at(t, 12) == expire
            &&& u32_at(t, 16) == minimum
        }),
{
    let w = (RDataModel::Soa { mname, rname, serial, refresh, retry, expire, minimum }).canonical();
    let names = name_wire(canon(mname)) + name_wire(canon(rname));
    let t = w.skip(names.len() as int);
    lemma_be_bytes_len(serial as nat, 4);
    lemma_be_bytes_len(refresh as nat, 4);
    lemma_be_bytes_len(retry as nat, 4);
    lemma_be_bytes_len(expire as nat, 4);
    lemma_be_bytes_len(minimum as nat, 4);
    assert(w.take(names.len() as int) =~= names);
    assert(t.subrange(0, 4) =~= be_bytes(serial as nat, 4));
    assert(t.subrange(4, 8) =~= be_bytes(refresh as nat, 4));
    assert(t.subrange(8, 12) =~= be_bytes(retry as nat, 4));
    assert(t.subrange(12, 16) =~= be_bytes(expire as nat, 4));
    assert(t.subrange(16, 20) =~= be_bytes(minimum as nat, 4));
    lemma_u32_field(t, 0, serial);
    lemma_u32_field(t, 4, refresh);
    lemma_u32_field(t, 8, retry);
    lemma_u32_field(t, 12, expire);
    lemma_u32_field(t, 16, minimum);
}

/// Where the fields of an NSEC3 record stand on the wire: salt and next hash behind their lengths.
pub proof fn law_hashed_denial_on_wire(
    hash_algorithm: u8,
    flags: u8,
    iterations: u16,
    salt: Seq<u8>,
    next_hashed: Seq<u8>,
    type_bitmap: Seq<u8>,
)
    requires
        salt.len() <= 0xff,
        next_hashed.len() <= 0xff,
    ensures
        ({
            let w = (RDataModel::Nsec3 {
                hash_algorithm,
                flags,
                iterations,
                salt,
                next_hashed,
                type_bitmap,
            }).canonical();
            let n = 5 + salt.len() as int;
            let m = n + 1 + next_hashed.len() as int;
            &&& w[0] == hash_algorithm && w[1] == flags && u16_at(w, 2) == iterations
            &&& w[4] == salt.len() && w.subrange(5, n) == salt
            &&& w[n] == next_hashed.len() && w.subrange(n + 1, m) == next_hashed
            &&& w.skip(m) == type_bitmap
        }),
{
    let w = (RDataModel::Nsec3 { hash_algorithm, flags, iterations, salt, next_hashed, type_bitmap }).canonical();
    lemma_be2(iterations);
    let n = 5 + salt.len() as int;
    let m = n + 1 + next_hashed.len() as int;
    assert(w.subrange(5, n) =~= salt);
    assert(w.subrange(n + 1, m) =~= next_hashed);
    assert(w.skip(m) =~= type_bitmap);
}

/// The names in record data are in lower case, but for the next name of an NSEC record.
pub proof fn law_names_on_wire(name: Seq<Seq<u8>>, type_bitmap: Seq<u8>, rtype: u16, rdata: Seq<u8>)
    ensures
        (RDataModel::Ns { nsdname: name }).canonical() == name_wire(canon(name)),
        (RDataModel::Ptr { ptrdname: name }).canonical() == name_wire(canon(name)),
        (RDataModel::Nsec { next_domain: name, type_bitmap }).canonical() == name_wire(name) + type_bitmap,
        (RDataModel::Unknown { rtype, rdata }).canonical() == rdata,
{
}

/// A name in lower case on the wire.
fn canonical_name(name: &DomainName) -> (r: Vec<u8>)
    ensures
        r@ == name_wire(canon(name@)),
        r@.len() <= 255,
{
    name.check();
    proof {
        lemma_name_wire_len(canon(name@));
        lemma_canon_wire_len(name@);
    }
    name.to_canonical_wire()
}

impl RData {
    /// True of data whose fields have lengths that the wire format can express.
    pub fn fits_wire(&self) -> (r: bool)
        ensures
            r == self@.fits(),
    {
        match self {
            RData::Rrsig { signature, .. } => signature.len() <= 0xffff,
            RData::Dnskey { public_key, .. } => public_key.len() <= 0xffff,
            RData::Ds { digest, .. } => digest.len() <= 0xffff,
            RData::Nsec { type_bitmap, .. } => type_bitmap.len() <= 0xffff,
            RData::Nsec3 { salt, next_hashed, type_bitmap, .. } => salt.len() <= 0xff
                && next_hashed.len() <= 0xff && type_bitmap.len() <= 0xffff,
            RData::Unknown { rdata, .. } => rdata.len() <= 0xffff,
            _ => true,
        }
    }

    /// The data in canonical form.
    pub fn canonical(&self) -> (r: Vec<u8>)
        ensures
            r@ == self@.canonical(),
            self@.fits() ==> r@.len() <= 0x1_1000,
    {
        let mut buf: Vec<u8> = Vec::new();
        proof {
            lemma_field_lens();
        }
        match self {
            RData::A(a) => {
                buf = a.octets();
            },
            RData::AAAA(a) => {
                buf = a.octets();
            },
            RData::Ns { nsdname } => {
                buf = canonical_name(nsdname);
            },
            RData::Ptr { ptrdname } => {
                buf = canonical_name(ptrdname);
            },
            RData::Soa { mname, rname, serial, refresh, retry, expire, minimum } => {
                buf = canonical_name(mname);
                put_slice(&mut buf, canonical_name(rname).as_slice());
                put_u32(&mut buf, *serial);
                put_u32(&mut buf, *refresh);
                put_u32(&mut buf, *retry);
                put_u32(&mut buf, *expire);
                put_u32(&mut buf, *minimum);
            },
            RData::Rrsig { signature, .. } => {
                buf = self.signature_header();
                put_slice(&mut buf, signature.as_slice());
            },
            RData::Dnskey { flags, protocol, algorithm, public_key } => {
                put_u16(&mut buf, *flags);
                buf.push(*protocol);
                buf.push(*algorithm);
                put_slice(&mut buf, public_key.as_slice());
            },
            RData::Ds { key_tag, algorithm, digest_type, digest } => {
                put_u16(&mut buf, *key_tag);
                buf.push(*algorithm);
                buf.push(*digest_type);
                put_slice(&mut buf, digest.as_slice());
            },
            RData::Nsec { next_domain, type_bitmap } => {
                next_domain.check();
                proof {
                    lemma_name_wire_len(next_domain@);
                }
                buf = next_domain.to_wire();
                put_slice(&mut buf, type_bitmap.as_slice());
            },
            RData::Nsec3 { hash_algorithm, flags, iterations, salt, next_hashed, type_bitmap } => {
                buf.push(*hash_algorithm);
                buf.push(*flags);
                put_u16(&mut buf, *iterations);
                buf.push(salt.len() as u8);
                put_slice(&mut buf, salt.as_slice());
                buf.push(next_hashed.len() as u8);
                put_slice(&mut buf, next_hashed.as_slice());
                put_slice(&mut buf, type_bitmap.as_slice());
            },
            RData::Unknown { rdata, .. } => {
                put_slice(&mut buf, rdata.as_slice());
            },
        }
        assert(buf@ =~= self@.canonical());
        buf
    }

    /// The data of a signature record without the signature; nothing for other records.
    pub fn signature_header(&self) -> (r: Vec<u8>)
        ensures
            r@ == self@.signature_header(),
            r@.len() <= 273,
    {
        let mut buf: Vec<u8> = Vec::new();
        proof {
            lemma_field_lens();
        }
        if let RData::Rrsig {
            type_covered,
            algorithm,
            labels,
            original_ttl,
            expiration,
            inception,
            key_tag,
            signer,
            ..
        } = self {
            put_u16(&mut buf, *type_covered);
            buf.push(*algorithm);
            buf.push(*labels);
            put_u32(&mut buf, *original_ttl);
            put_u32(&mut buf, *expiration);
            put_u32(&mut buf, *inception);
            put_u16(&mut buf, *key_tag);
            put_slice(&mut buf, canonical_name(signer).as_slice());
        }
        assert(buf@ =~= self@.signature_header());
        buf
    }
}

impl Clone for RData {
    fn clone(&self) -> (r: Self)
        ensures
            r@ == self@,
    {
        match self {
            RData::A(a) => RData::A(*a),
            RData::AAAA(a) => RData::AAAA(*a),
            RData::Ns { nsdname } => RData::Ns { nsdname: nsdname.clone() },
            RData::Ptr { ptrdname } => RData::Ptr { ptrdname: ptrdname.clone() },
            RData::Soa { mname, rname, serial, refresh, retry, expire, minimum } => RData::Soa {
                mname: mname.clone(),
                rname: rname.clone(),
                serial: *serial,
                refresh: *refresh,
                retry: *retry,
                expire: *expire,
                minimum: *minimum,
            },
            RData::Rrsig {
                type_covered,
                algorithm,
                labels,
                original_ttl,
                expiration,
                inception,
                key_tag,
                signer,
                signature,
            } => RData::Rrsig {
                type_covered: *type_covered,
                algorithm: *algorithm,
                labels: *labels,
                original_ttl: *original_ttl,
                expiration: *expiration,
                inception: *inception,
                key_tag: *key_tag,
                signer: signer.clone(),
                signature: slice_to_vec(signature.as_slice()),
            },
            RData::Dnskey { flags, protocol, algorithm, public_key } => RData::Dnskey {
                flags: *flags,
                protocol: *protocol,
                algorithm: *algorithm,
                public_key: slice_to_vec(public_key.as_slice()),
            },
            RData::Ds { key_tag, algorithm, digest_type, digest } => RData::Ds {
                key_tag: *key_tag,
                algorithm: *algorithm,
                digest_type: *digest_type,
                digest: slice_to_vec(digest.as_slice()),
            },
            RData::Nsec { next_domain, type_bitmap } => RData::Nsec {
                next_domain: next_domain.clone(),
                type_bitmap: slice_to_vec(type_bitmap.as_slice()),
            },
            RData::Nsec3 { hash_algorithm, flags, iterations, salt, next_hashed, type_bitmap } =>
                RData::Nsec3 {
                    hash_algorithm: *hash_algorithm,
                    flags: *flags,
                    iterations: *iterations,
                    salt: slice_to_vec(salt.as_slice()),
                    next_hashed: slice_to_vec(next_hashed.as_slice()),
                    type_bitmap: slice_to_vec(type_bitmap.as_slice()),
                },
            RData::Unknown { rtype, rdata } => RData::Unknown {
                rtype: *rtype,
                rdata: slice_to_vec(rdata.as_slice()),
            },
        }
    }
}

/// A resource record.
#[derive(Debug)]
pub struct ResourceRecord {
    pub name: DomainName,
    pub rtype: RecordType,
    pub class: u16,
    pub ttl: u32,
    pub rdata: RData,
}

/// What a resource record says.
#[verifier::ext_equal]
pub ghost struct RecordModel {
    pub name: Seq<Seq<u8>>,
    pub rtype: RecordType,
    pub class: u16,
    pub ttl: u32,
    pub rdata: RDataModel,
}

impl View for ResourceRecord {
    type V = RecordModel;

    open spec fn view(&self) -> RecordModel {
        RecordModel {
            name: self.name@,
            rtype: self.rtype,
            class: self.class,
            ttl: self.ttl,
            rdata: self.rdata@,
        }
    }
}

impl ResourceRecord {
    /// A record with the given parts.
    pub fn new(name: DomainName, rtype: RecordType, class: u16, ttl: u32, rdata: RData) -> (r: Self)
        ensures
            r == (ResourceRecord { name, rtype, class, ttl, rdata }),
    {
        ResourceRecord { name, rtype, class, ttl, rdata }
    }

    /// The owner name.
    pub fn name(&self) -> (r: &DomainName)
        ensures
            *r == self.name,
    {
        &self.name
    }

    /// The type.
    pub fn rtype(&self) -> (r: RecordType)
        ensures
            r == self.rtype,
    {
        self.rtype
    }

    /// The data.
    pub fn rdata(&self) -> (r: &RData)
        ensures
            *r == self.rdata,
    {
        &self.rdata
    }
}

impl Clone for ResourceRecord {
    fn clone(&self) -> (r: Self)
        ensures
            r@ == self@,
    {
        ResourceRecord {
            name: self.name.clone(),
            rtype: self.rtype,
            class: self.class,
            ttl: self.ttl,
            rdata: self.rdata.clone(),
        }
    }
}

/// What the records of a list say.
pub open spec fn record_models(records: Seq<ResourceRecord>) -> Seq<RecordModel> {
    records.map_values(|r: ResourceRecord| r@)
}

} // verus!
