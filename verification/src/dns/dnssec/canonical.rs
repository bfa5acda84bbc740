//! The canonical form of a set of records, over which signatures are made (RFC 4034, section 6).
use vstd::prelude::*;
use crate::dns::name::{
    bytes_before, bytes_less, canon, law_bytes_order, lemma_canon_wire_len, lemma_name_wire_len, name_wire,
    DomainName,
};
use crate::dns::record::{RData, RDataModel, RecordModel, ResourceRecord};
use crate::wire::{
    be_bytes, lemma_be2, lemma_be4, put_slice, put_u16, put_u32, same_bytes, u16_at, u32_at,
};

verus! {

/// The number of records that two sections of a message can have.
pub const MAX_RECORDS: usize = 0x1_ffff;

/// What the records of a set say.
pub open spec fn set_models(rrset: Seq<&ResourceRecord>) -> Seq<RecordModel> {
    rrset.map_values(|r: &ResourceRecord| r@)
}

/// A byte string put into an ordered list of byte strings, where it is not there already.
pub open spec fn placed(list: Seq<Seq<u8>>, x: Seq<u8>) -> Seq<Seq<u8>>
    decreases list.len(),
{
    if list.len() == 0 {
        seq![x]
    } else if list[0] == x {
        list
    } else if bytes_less(x, list[0]) {
        seq![x] + list
    } else {
        seq![list[0]] + placed(list.skip(1), x)
    }
}

/// The byte strings of a list in order, each once.
pub open spec fn ordered(list: Seq<Seq<u8>>) -> Seq<Seq<u8>>
    decreases list.len(),
{
    if list.len() == 0 {
        Seq::empty()
    } else {
        placed(ordered(list.drop_last()), list.last())
    }
}

/// True of a list in which each byte string comes before the next.
pub open spec fn increasing(list: Seq<Seq<u8>>) -> bool {
    forall|i: int, j: int|
        0 <= i < j < list.len() ==> bytes_less(#[trigger] list[i], #[trigger] list[j])
}

proof fn lemma_placed(list: Seq<Seq<u8>>, x: Seq<u8>)
    requires
        increasing(list),
    ensures
        increasing(placed(list, x)),
        forall|y: Seq<u8>| #[trigger]
            placed(list, x).contains(y) <==> list.contains(y) || y == x,
        placed(list, x).len() <= list.len() + 1,
    decreases list.len(),
{
    let new = placed(list, x);
    if list.len() == 0 {
        assert(new[0] == x);
    } else if list[0] == x {
        assert(list.contains(x));
    } else if bytes_less(x, list[0]) {
        assert forall|i: int, j: int| 0 <= i < j < new.len() implies bytes_less(
            #[trigger] new[i],
            #[trigger] new[j],
        ) by {
            assert(new[j] == list[j - 1]);
            if i == 0 {
                if j > 1 {
                    law_bytes_order(x, list[0], list[j - 1]);
                }
            } else {
                assert(new[i] == list[i - 1]);
            }
        }
        assert forall|y: Seq<u8>| #[trigger] new.contains(y) <==> list.contains(y) || y == x by {
            if list.contains(y) {
                let k = choose|k: int| 0 <= k < list.len() && list[k] == y;
                assert(new[k + 1] == y);
            }
            if y == x {
                assert(new[0] == y);
            }
            if new.contains(y) {
                let k = choose|k: int| 0 <= k < new.len() && new[k] == y;
                if k > 0 {
                    assert(list[k - 1] == y);
                }
            }
        }
    } else {
        let tail = list.skip(1);
        assert(increasing(tail)) by {
            assert forall|i: int, j: int| 0 <= i < j < tail.len() implies bytes_less(
                #[trigger] tail[i],
                #[trigger] tail[j],
            ) by {
                assert(tail[i] == list[i + 1] && tail[j] == list[j + 1]);
            }
        }
        lemma_placed(tail, x);
        let rest = placed(tail, x);
        law_bytes_order(list[0], x, x);
        assert forall|i: int, j: int| 0 <= i < j < new.len() implies bytes_less(
            #[trigger] new[i],
            #[trigger] new[j],
        ) by {
            assert(new[j] == rest[j - 1]);
            if i == 0 {
                assert(rest.contains(rest[j - 1]));
                if rest[j - 1] != x {
                    assert(tail.contains(rest[j - 1]));
                    let k = choose|k: int| 0 <= k < tail.len() && tail[k] == rest[j - 1];
                    assert(list[k + 1] == rest[j - 1]);
                }
            } else {
                assert(new[i] == rest[i - 1]);
            }
        }
        assert forall|y: Seq<u8>| #[trigger] new.contains(y) <==> list.contains(y) || y == x by {
            if list.contains(y) {
                let k = choose|k: int| 0 <= k < list.len() && list[k] == y;
                if k == 0 {
                    assert(new[0] == y);
                } else {
                    assert(tail[k - 1] == y);
                    assert(rest.contains(y));
                }
            }
            if rest.contains(y) {
                let m = choose|m: int| 0 <= m < rest.len() && rest[m] == y;
                assert(new[m + 1] == y);
            }
            if y == x {
                assert(rest.contains(y));
            }
            if new.contains(y) {
                let k = choose|k: int| 0 <= k < new.len() && new[k] == y;
                if k == 0 {
                    assert(list[0] == y);
                } else {
                    assert(rest[k - 1] == y);
                    assert(rest.contains(y));
                    if tail.contains(y) {
                        let m = choose|m: int| 0 <= m < tail.len() && tail[m] == y;
                        assert(list[m + 1] == y);
                    }
                }
            }
        }
    }
}

/// The canonical order holds exactly the byte strings of the list, each once and in order.
pub proof fn law_canonical_order(list: Seq<Seq<u8>>)
    ensures
        increasing(ordered(list)),
        forall|y: Seq<u8>| #[trigger] ordered(list).contains(y) <==> list.contains(y),
        ordered(list).len() <= list.len(),
    decreases list.len(),
{
    if list.len() > 0 {
        let head = list.drop_last();
        law_canonical_order(head);
        lemma_placed(ordered(head), list.last());
        assert forall|y: Seq<u8>| #[trigger] ordered(list).contains(y) <==> list.contains(y) by {
            if list.contains(y) {
                let k = choose|k: int| 0 <= k < list.len() && list[k] == y;
                if k < head.len() {
                    assert(head[k] == y);
                    assert(head.contains(y));
                }
            }
            if head.contains(y) {
                let k = choose|k: int| 0 <= k < head.len() && head[k] == y;
                assert(list[k] == y);
            }
            if y == list.last() {
                assert(list[list.len() - 1] == y);
            }
        }
    }
}

/// What the byte strings of a list are.
pub open spec fn deep_bytes(v: Seq<Vec<u8>>) -> Seq<Seq<u8>> {
    v.map_values(|x: Vec<u8>| x@)
}

proof fn lemma_placed_at(list: Seq<Seq<u8>>, x: Seq<u8>, i: int)
    requires
        0 <= i <= list.len(),
        forall|j: int| 0 <= j < i ==> #[trigger] list[j] != x && !bytes_less(x, list[j]),
        i < list.len() ==> list[i] == x || bytes_less(x, list[i]),
    ensures
        placed(list, x) == if i < list.len() && list[i] == x {
            list
        } else {
            list.insert(i, x)
        },
    decreases list.len(),
{
    if i == 0 {
        if list.len() == 0 || list[0] != x {
            assert(placed(list, x) =~= list.insert(0, x));
        }
    } else {
        let tail = list.skip(1);
        assert(list[0] != x && !bytes_less(x, list[0]));
        assert forall|j: int| 0 <= j < i - 1 implies #[trigger] tail[j] != x && !bytes_less(
            x,
            tail[j],
        ) by {
            assert(tail[j] == list[j + 1]);
        }
        lemma_placed_at(tail, x, i - 1);
        if i < list.len() && list[i] == x {
            assert(seq![list[0]] + tail =~= list);
        } else {
            assert(seq![list[0]] + tail.insert(i - 1, x) =~= list.insert(i, x));
        }
    }
}

/// Puts a byte string into an ordered list.
fn place(list: &mut Vec<Vec<u8>>, x: Vec<u8>)
    ensures
        deep_bytes(final(list)@) == placed(deep_bytes(old(list)@), x@),
        final(list)@.len() <= old(list)@.len() + 1,
        forall|k: int|
            0 <= k < final(list)@.len() ==> (#[trigger] final(list)@[k])@ == x@ || exists|j: int|
                0 <= j < old(list)@.len() && final(list)@[k]@ == (#[trigger] old(list)@[j])@,
{
    let ghost all = deep_bytes(list@);
    let n: usize = list.len();
    let mut i: usize = 0;
    while i < n && !same_bytes(list[i].as_slice(), x.as_slice()) && !bytes_before(
        x.as_slice(),
        list[i].as_slice(),
    )
        invariant
            i <= n == list@.len(),
            list@ == old(list)@,
            all == deep_bytes(list@),
            forall|j: int| 0 <= j < i ==> #[trigger] all[j] != x@ && !bytes_less(x@, all[j]),
        decreases n - i,
    {
        assert(all[i as int] == list@[i as int]@);
        i = i + 1;
    }
    proof {
        if i < n {
            assert(all[i as int] == list@[i as int]@);
        }
        lemma_placed_at(all, x@, i as int);
    }
    if i < n && same_bytes(list[i].as_slice(), x.as_slice()) {
        assert forall|k: int| 0 <= k < list@.len() implies (#[trigger] list@[k])@ == x@ || exists|
            j: int,
        |
            0 <= j < old(list)@.len() && list@[k]@ == (#[trigger] old(list)@[j])@ by {
            assert(list@[k]@ == old(list)@[k]@);
        }
        return;
    }
    let ghost xv = x@;
    list.insert(i, x);
    proof {
        assert(deep_bytes(list@) =~= all.insert(i as int, xv));
        assert forall|k: int| 0 <= k < list@.len() implies (#[trigger] list@[k])@ == xv || exists|
            j: int,
        |
            0 <= j < old(list)@.len() && list@[k]@ == (#[trigger] old(list)@[j])@ by {
            if k < i {
                assert(list@[k]@ == old(list)@[k]@);
            } else if k > i {
                assert(list@[k]@ == old(list)@[k - 1]@);
            }
        }
    }
}

/// The data of the records of a set in canonical form.
pub open spec fn set_data(rrset: Seq<RecordModel>) -> Seq<Seq<u8>> {
    rrset.map_values(|r: RecordModel| r.rdata.canonical())
}

/// The owner name over which a signature is made: the name itself, or the wildcard from which it
/// was made where the signature counts fewer labels; none where it counts more.
pub open spec fn signed_owner(owner: Seq<Seq<u8>>, count: nat) -> Option<Seq<Seq<u8>>> {
    if count > owner.len() {
        None
    } else if count == owner.len() {
        Some(owner)
    } else {
        Some(seq![seq![42u8]] + owner.skip(owner.len() - count))
    }
}

/// A signature that counts as many labels as the owner has is over the owner; one that counts fewer is
/// over the wildcard in front of the last labels; one that counts more is over nothing.
pub proof fn law_signed_owner(front: Seq<Seq<u8>>, zone: Seq<Seq<u8>>, more: nat)
    requires
        more > 0,
    ensures
        signed_owner(zone, zone.len()) == Some(zone),
        front.len() > 0 ==> signed_owner(front + zone, zone.len()) == Some(seq![seq![42u8]] + zone),
        signed_owner(zone, zone.len() + more) is None,
{
    assert((front + zone).skip(front.len() as int) =~= zone);
}

/// A record in the form over which a signature is made.
pub open spec fn signed_record(
    owner: Seq<Seq<u8>>,
    rtype: u16,
    class: u16,
    ttl: u32,
    data: Seq<u8>,
) -> Seq<u8> {
    name_wire(owner) + be_bytes(rtype as nat, 2) + be_bytes(class as nat, 2) + be_bytes(
        ttl as nat,
        4,
    ) + be_bytes((data.len() as u16) as nat, 2) + data
}

/// The records with the given data, one after the other.
pub open spec fn signed_records(
    owner: Seq<Seq<u8>>,
    rtype: u16,
    class: u16,
    ttl: u32,
    list: Seq<Seq<u8>>,
) -> Seq<u8>
    decreases list.len(),
{
    if list.len() == 0 {
        Seq::empty()
    } else {
        signed_records(owner, rtype, class, ttl, list.drop_last()) + signed_record(
            owner,
            rtype,
            class,
            ttl,
            list.last(),
        )
    }
}

/// The bytes over which a signature of a record set is made: the signature record without the
/// signature, and the records in canonical form and order with the original time to live.
pub open spec fn signed_bytes(rrset: Seq<RecordModel>, rrsig: RecordModel) -> Option<Seq<u8>> {
    match rrsig.rdata {
        RDataModel::Rrsig { type_covered, labels, original_ttl, .. } => match signed_owner(
            canon(rrsig.name),
            labels as nat,
        ) {
            Some(owner) => Some(
                rrsig.rdata.signature_header() + signed_records(
                    owner,
                    type_covered,
                    rrsig.class,
                    original_ttl,
                    ordered(set_data(rrset)),
                ),
            ),
            None => None,
        },
        _ => None,
    }
}

/// The bytes of one record under a signature: the owner, the type, the class, the time to live that the
/// signature record gives, the length of the data and the data.
pub proof fn law_signed_record(owner: Seq<Seq<u8>>, rtype: u16, class: u16, ttl: u32, data: Seq<u8>)
    requires
        data.len() <= 0xffff,
    ensures
        ({
            let r = signed_record(owner, rtype, class, ttl, data);
            let n = name_wire(owner).len() as int;
            &&& r.take(n) == name_wire(owner)
            &&& u16_at(r, n) == rtype
            &&& u16_at(r, n + 2) == class
            &&& u32_at(r, n + 4) == ttl
            &&& u16_at(r, n + 8) == data.len()
            &&& r.skip(n + 10) == data
        }),
{
    lemma_be2(rtype);
    lemma_be2(class);
    lemma_be4(ttl);
    lemma_be2(data.len() as u16);
    let r = signed_record(owner, rtype, class, ttl, data);
    let n = name_wire(owner).len() as int;
    assert(r.take(n) =~= name_wire(owner));
    assert(r.skip(n + 10) =~= data);
}

/// What is signed is the signature record without its signature, followed by the records of the set in
/// canonical order, each once, under the owner, type and time to live that the signature record gives.
/// It does not depend on the order in which the records are given, on how often each is given, nor on
/// their own times to live.
pub proof fn law_signed_bytes(a: Seq<RecordModel>, b: Seq<RecordModel>, rrsig: RecordModel)
    requires
        forall|d: Seq<u8>| #[trigger] set_data(a).contains(d) <==> set_data(b).contains(d),
    ensures
        signed_bytes(a, rrsig) == signed_bytes(b, rrsig),
        signed_bytes(a, rrsig) matches Some(w) ==> rrsig.rdata.signature_header().is_prefix_of(w),
        !(rrsig.rdata is Rrsig) ==> signed_bytes(a, rrsig) is None,
        rrsig.rdata matches RDataModel::Rrsig { labels, .. } ==> (signed_bytes(a, rrsig) is Some
            <==> labels <= rrsig.name.len()),
{
    law_canonical_order(set_data(a));
    law_canonical_order(set_data(b));
    let x = ordered(set_data(a));
    let y = ordered(set_data(b));
    assert forall|d: Seq<u8>| #[trigger] x.contains(d) <==> y.contains(d) by {
        assert(set_data(a).contains(d) <==> set_data(b).contains(d));
    }
    lemma_same_order(x, y);
}

/// Lists in order that hold the same are the same.
proof fn lemma_same_order(a: Seq<Seq<u8>>, b: Seq<Seq<u8>>)
    requires
        increasing(a),
        increasing(b),
        forall|d: Seq<u8>| #[trigger] a.contains(d) <==> b.contains(d),
    ensures
        a == b,
    decreases a.len(),
{
    if a.len() == 0 {
        if b.len() > 0 {
            assert(b.contains(b[0]));
            assert(a.contains(b[0]));
        }
        assert(a =~= b);
    } else {
        assert(a.contains(a[0]));
        assert(b.contains(a[0]));
        let k = choose|k: int| 0 <= k < b.len() && b[k] == a[0];
        assert(b.contains(b[0]));
        assert(a.contains(b[0]));
        let m = choose|m: int| 0 <= m < a.len() && a[m] == b[0];
        if k > 0 {
            assert(bytes_less(b[0], b[k]));
            law_bytes_order(a[0], b[0], a[0]);
            if m > 0 {
                assert(bytes_less(a[0], a[m]));
            }
        }
        assert(a[0] == b[0]);
        let s = a.skip(1);
        let t = b.skip(1);
        assert forall|i: int, j: int| 0 <= i < j < s.len() implies bytes_less(
            #[trigger] s[i],
            #[trigger] s[j],
        ) by {
            assert(s[i] == a[i + 1] && s[j] == a[j + 1]);
        }
        assert forall|i: int, j: int| 0 <= i < j < t.len() implies bytes_less(
            #[trigger] t[i],
            #[trigger] t[j],
        ) by {
            assert(t[i] == b[i + 1] && t[j] == b[j + 1]);
        }
        assert forall|d: Seq<u8>| #[trigger] s.contains(d) <==> t.contains(d) by {
            lemma_in_rest(a, b, d);
            lemma_in_rest(b, a, d);
        }
        lemma_same_order(s, t);
        assert(a =~= seq![a[0]] + s);
        assert(b =~= seq![b[0]] + t);
    }
}

proof fn lemma_in_rest(a: Seq<Seq<u8>>, b: Seq<Seq<u8>>, d: Seq<u8>)
    requires
        increasing(a),
        a.len() > 0,
        b.len() > 0,
        a[0] == b[0],
        forall|x: Seq<u8>| #[trigger] a.contains(x) <==> b.contains(x),
    ensures
        a.skip(1).contains(d) ==> b.skip(1).contains(d),
{
    if a.skip(1).contains(d) {
        let i = choose|i: int| 0 <= i < a.skip(1).len() && a.skip(1)[i] == d;
        assert(a[i + 1] == d);
        assert(a.contains(d));
        assert(bytes_less(a[0], a[i + 1]));
        law_bytes_order(a[0], d, d);
        let k = choose|k: int| 0 <= k < b.len() && b[k] == d;
        assert(b.skip(1)[k - 1] == d);
    }
}

/// The owner name over which a signature is made, on the wire.
fn signed_owner_wire(name: &DomainName, count: usize) -> (r: Option<Vec<u8>>)
    ensures
        match (r, signed_owner(canon(name@), count as nat)) {
            (Some(w), Some(owner)) => w@ == name_wire(owner) && w@.len() <= 257,
            (None, None) => true,
            _ => false,
        },
{
    let total: usize = name.label_count();
    if count > total {
        return None;
    }
    name.check();
    let mut rest = name.clone();
    let mut left: usize = total;
    proof {
        lemma_name_wire_len(canon(name@));
        lemma_canon_wire_len(name@);
        assert(canon(name@).skip(0) =~= canon(name@));
    }
    while left > count
        invariant
            count <= left <= total == name@.len(),
            rest@.len() == left,
            canon(rest@) == canon(name@).skip(total - left),
        decreases left,
    {
        proof {
            assert(canon(rest@.skip(1)) =~= canon(rest@).skip(1));
            assert(canon(name@).skip(total - left).skip(1) =~= canon(name@).skip(total - left + 1));
        }
        rest = rest.parent();
        left = left - 1;
    }
    rest.check();
    proof {
        lemma_name_wire_len(canon(rest@));
        lemma_canon_wire_len(rest@);
    }
    let wire = rest.to_canonical_wire();
    if count == total {
        return Some(wire);
    }
    let mut r: Vec<u8> = Vec::new();
    r.push(1);
    r.push(42);
    put_slice(&mut r, wire.as_slice());
    proof {
        let tail = canon(name@).skip(total - count);
        let owner = seq![seq![42u8]] + tail;
        assert(owner.skip(1) =~= tail);
        assert(owner[0] =~= seq![42u8]);
        assert(r@ =~= name_wire(owner));
    }
    Some(r)
}

/// The bytes over which a signature of a record set is made.
pub fn signed_data(rrset: &Vec<&ResourceRecord>, rrsig: &ResourceRecord) -> (r: Option<Vec<u8>>)
    requires
        rrset@.len() <= MAX_RECORDS,
        forall|i: int| 0 <= i < rrset@.len() ==> (#[trigger] rrset@[i]).rdata@.fits(),
    ensures
        match (r, signed_bytes(set_models(rrset@), rrsig@)) {
            (Some(b), Some(w)) => b@ == w && b@.len() <= 0x1_0000_0000_0000,
            (None, None) => true,
            _ => false,
        },
{
    let (type_covered, labels, original_ttl): (u16, u8, u32) = match &rrsig.rdata {
        RData::Rrsig { type_covered, labels, original_ttl, .. } => (
            *type_covered,
            *labels,
            *original_ttl,
        ),
        _ => {
            return None;
        },
    };
    let owner = match signed_owner_wire(&rrsig.name, labels as usize) {
        Some(w) => w,
        None => {
            return None;
        },
    };
    let ghost owner_labels = signed_owner(canon(rrsig.name@), labels as nat)->0;
    let ghost data = set_data(set_models(rrset@));
    let mut list: Vec<Vec<u8>> = Vec::new();
    let mut i: usize = 0;
    assert(deep_bytes(list@) =~= ordered(data.take(0)));
    while i < rrset.len()
        invariant
            i <= rrset@.len() <= MAX_RECORDS,
            data == set_data(set_models(rrset@)),
            forall|j: int| 0 <= j < rrset@.len() ==> (#[trigger] rrset@[j]).rdata@.fits(),
            deep_bytes(list@) == ordered(data.take(i as int)),
            list@.len() <= i,
            forall|k: int| 0 <= k < list@.len() ==> (#[trigger] list@[k])@.len() <= 0x1_1000,
        decreases rrset@.len() - i,
    {
        let ghost before = list@;
        let rdata = rrset[i].rdata.canonical();
        proof {
            assert(data.take(i + 1).drop_last() =~= data.take(i as int));
            assert(data[i as int] == rdata@);
        }
        place(&mut list, rdata);
        assert forall|k: int| 0 <= k < list@.len() implies (#[trigger] list@[k])@.len() <= 0x1_1000 by {
            if list@[k]@ != rdata@ {
                let j = choose|j: int| 0 <= j < before.len() && list@[k]@ == (#[trigger] before[j])@;
                assert(before[j]@.len() <= 0x1_1000);
            }
        }
        i = i + 1;
    }
    assert(data.take(i as int) =~= data);
    let ghost all = deep_bytes(list@);
    let ghost header = rrsig.rdata@.signature_header();
    let mut buf = rrsig.rdata.signature_header();
    let mut k: usize = 0;
    assert(header + Seq::<u8>::empty() =~= header);
    assert(all.take(0) =~= Seq::<Seq<u8>>::empty());
    while k < list.len()
        invariant
            k <= list@.len() <= MAX_RECORDS,
            all == deep_bytes(list@),
            owner@ == name_wire(owner_labels),
            owner@.len() <= 257,
            forall|j: int| 0 <= j < list@.len() ==> (#[trigger] list@[j])@.len() <= 0x1_1000,
            buf@ == header + signed_records(
                owner_labels,
                type_covered,
                rrsig.class,
                original_ttl,
                all.take(k as int),
            ),
            buf@.len() <= 273 + k * 0x1_2000,
        decreases list@.len() - k,
    {
        let ghost before = buf@;
        proof {
            assert(all.take(k + 1).drop_last() =~= all.take(k as int));
            assert(all[k as int] == list@[k as int]@);
            crate::wire::lemma_be_bytes_len(type_covered as nat, 2);
            crate::wire::lemma_be_bytes_len(rrsig.class as nat, 2);
            crate::wire::lemma_be_bytes_len(original_ttl as nat, 4);
            crate::wire::lemma_be_bytes_len((list@[k as int]@.len() as u16) as nat, 2);
        }
        put_slice(&mut buf, owner.as_slice());
        put_u16(&mut buf, type_covered);
        put_u16(&mut buf, rrsig.class);
        put_u32(&mut buf, original_ttl);
        put_u16(&mut buf, list[k].len() as u16);
        put_slice(&mut buf, list[k].as_slice());
        assert(buf@ =~= before + signed_record(
            owner_labels,
            type_covered,
            rrsig.class,
            original_ttl,
            list@[k as int]@,
        ));
        assert(buf@ =~= header + signed_records(
            owner_labels,
            type_covered,
            rrsig.class,
            original_ttl,
            all.take(k + 1),
        ));
        k = k + 1;
    }
    assert(all.take(k as int) =~= all);
    Some(buf)
}

/// The key tag of a key (RFC 4034, appendix B): the sum of its 16-bit words, the carry added.
pub open spec fn key_tag_of(rdata: Seq<u8>) -> u16 {
    ((word_sum(rdata) + (word_sum(rdata) / 0x1_0000) % 0x1_0000) % 0x1_0000) as u16
}

/// The sum of the 16-bit words of a byte string; a last odd byte is the upper half of a word.
pub open spec fn word_sum(s: Seq<u8>) -> nat
    decreases s.len(),
{
    if s.len() == 0 {
        0
    } else {
        word_sum(s.drop_last()) + if s.len() % 2 == 1 {
            s.last() as nat * 256
        } else {
            s.last() as nat
        }
    }
}

/// The words of a key count by their value: two bytes are a word with the more significant first, and a
/// single byte at the end stands in the upper half of a word.
pub proof fn law_word_sum(words: Seq<u8>, hi: u8, lo: u8)
    requires
        words.len() % 2 == 0,
    ensures
        word_sum(words + seq![hi, lo]) == word_sum(words) + hi * 256 + lo,
        word_sum(words + seq![hi]) == word_sum(words) + hi * 256,
        word_sum(Seq::empty()) == 0,
{
    let two = words + seq![hi, lo];
    let one = words + seq![hi];
    assert(two.drop_last() =~= one);
    assert(one.drop_last() =~= words);
    assert(two.last() == lo && two.len() % 2 == 0);
    assert(one.last() == hi && one.len() % 2 == 1);
    assert(word_sum(one) == word_sum(words) + hi * 256);
}

/// The key tag is the sum of the words in 16 bits with what overflowed added once: below 65536 it is
/// the sum itself, and each full 65536 of it counts one more.
pub proof fn law_key_tag(rdata: Seq<u8>)
    ensures
        word_sum(rdata) < 0x1_0000 ==> key_tag_of(rdata) == word_sum(rdata),
        word_sum(rdata) < 0x1_0000_0000 ==> (word_sum(rdata) + word_sum(rdata) / 0x1_0000 - key_tag_of(
            rdata,
        )) % 0x1_0000 == 0,
{
}

/// The key tag of a key.
pub fn key_tag(rdata: &[u8]) -> (r: u16)
    requires
        rdata@.len() <= 0x1_1000,
    ensures
        r == key_tag_of(rdata@),
{
    let mut sum: u64 = 0;
    let mut i: usize = 0;
    while i < rdata.len()
        invariant
            i <= rdata@.len() <= 0x1_1000,
            sum == word_sum(rdata@.take(i as int)),
            sum <= i * 0xff00,
        decreases rdata@.len() - i,
    {
        assert(rdata@.take(i + 1).drop_last() =~= rdata@.take(i as int));
        if i % 2 == 0 {
            sum = sum + rdata[i] as u64 * 256;
        } else {
            sum = sum + rdata[i] as u64;
        }
        i = i + 1;
    }
    assert(rdata@.take(i as int) =~= rdata@);
    ((sum + (sum / 0x1_0000) % 0x1_0000) % 0x1_0000) as u16
}

} // verus!
