//! Domain names.
use vstd::prelude::*;
use vstd::utf8::is_ascii_chars;
use crate::error::DnsError;
use crate::text::{
    chars_of, deep, law_split_joined, law_split_whole, lemma_split_on_nonempty, split_chars, split_on,
};
use crate::wire::same_bytes;

verus! {

/// The label separator of the text form.
pub const DOT: char = '.';

/// A byte in lower case; only the ASCII letters have a case.
pub open spec fn lower(b: u8) -> u8 {
    if 65 <= b <= 90 {
        (b + 32) as u8
    } else {
        b
    }
}

/// A label in lower case.
pub open spec fn lower_label(l: Seq<u8>) -> Seq<u8> {
    l.map_values(|b: u8| lower(b))
}

/// The labels of a name in lower case, by which names are compared.
pub open spec fn canon(labels: Seq<Seq<u8>>) -> Seq<Seq<u8>> {
    labels.map_values(|l: Seq<u8>| lower_label(l))
}

/// True of one to 63 ASCII bytes without a dot.
pub open spec fn valid_label(l: Seq<u8>) -> bool {
    1 <= l.len() <= 63 && forall|i: int| 0 <= i < l.len() ==> #[trigger] l[i] < 128 && l[i] != 46
}

/// The number of bytes of a name on the wire.
pub open spec fn wire_len(labels: Seq<Seq<u8>>) -> nat
    decreases labels.len(),
{
    if labels.len() == 0 {
        1
    } else {
        1 + labels[0].len() + wire_len(labels.skip(1))
    }
}

/// True of labels that make a name: each is valid and together they take at most 255 bytes.
pub open spec fn valid_name(labels: Seq<Seq<u8>>) -> bool {
    (forall|i: int| 0 <= i < labels.len() ==> valid_label(#[trigger] labels[i])) && wire_len(labels)
        <= 255
}

/// The bytes of a text whose characters are all ASCII.
pub open spec fn ascii_bytes(s: Seq<char>) -> Seq<u8> {
    s.map_values(|c: char| c as u8)
}

/// The characters of ASCII bytes.
pub open spec fn ascii_chars(s: Seq<u8>) -> Seq<char> {
    s.map_values(|b: u8| b as char)
}

/// A text without the dot at its end, if it has one.
pub open spec fn without_end_dot(s: Seq<char>) -> Seq<char> {
    if s.len() > 0 && s.last() == DOT {
        s.drop_last()
    } else {
        s
    }
}

/// The labels that the text of a name denotes: `.` is the root, which has none; a dot at the end
/// of another name does not matter.
pub open spec fn text_labels(s: Seq<char>) -> Seq<Seq<u8>> {
    if s == seq![DOT] {
        Seq::empty()
    } else {
        split_on(without_end_dot(s), DOT).map_values(|l: Seq<char>| ascii_bytes(l))
    }
}

/// The labels of the name that a text denotes, if it denotes one.
pub open spec fn parse_name(s: Seq<char>) -> Option<Seq<Seq<u8>>> {
    if is_ascii_chars(s) && valid_name(text_labels(s)) {
        Some(text_labels(s))
    } else {
        None
    }
}

/// The labels of a name with dots between them.
pub open spec fn join_labels(labels: Seq<Seq<u8>>) -> Seq<char>
    decreases labels.len(),
{
    if labels.len() == 0 {
        Seq::empty()
    } else if labels.len() == 1 {
        ascii_chars(labels[0])
    } else {
        ascii_chars(labels[0]) + seq![DOT] + join_labels(labels.skip(1))
    }
}

/// The text of a name: its labels with dots between them, or a dot for the root.
pub open spec fn name_text(labels: Seq<Seq<u8>>) -> Seq<char> {
    if labels.len() == 0 {
        seq![DOT]
    } else {
        join_labels(labels)
    }
}

/// A name on the wire: each label after its length, and a zero.
pub open spec fn name_wire(labels: Seq<Seq<u8>>) -> Seq<u8>
    decreases labels.len(),
{
    if labels.len() == 0 {
        seq![0u8]
    } else {
        seq![labels[0].len() as u8] + labels[0] + name_wire(labels.skip(1))
    }
}

/// True when `zone` is at the end of `name`.
pub open spec fn is_suffix(zone: Seq<Seq<u8>>, name: Seq<Seq<u8>>) -> bool {
    zone.len() <= name.len() && name.skip(name.len() - zone.len()) == zone
}

/// The order of byte strings: by the first byte in which they differ, a prefix first.
pub open spec fn bytes_less(a: Seq<u8>, b: Seq<u8>) -> bool
    decreases a.len(),
{
    if b.len() == 0 {
        false
    } else if a.len() == 0 {
        true
    } else if a[0] != b[0] {
        a[0] < b[0]
    } else {
        bytes_less(a.skip(1), b.skip(1))
    }
}

/// The canonical order of names (RFC 4034, section 6.1): by their labels from the last one on.
pub open spec fn name_less(a: Seq<Seq<u8>>, b: Seq<Seq<u8>>) -> bool
    decreases a.len(),
{
    if b.len() == 0 {
        false
    } else if a.len() == 0 {
        true
    } else if a.last() != b.last() {
        bytes_less(a.last(), b.last())
    } else {
        name_less(a.drop_last(), b.drop_last())
    }
}

/// The order of byte strings is a strict total order.
pub proof fn law_bytes_order(a: Seq<u8>, b: Seq<u8>, c: Seq<u8>)
    ensures
        !bytes_less(a, a),
        a != b ==> bytes_less(a, b) || bytes_less(b, a),
        bytes_less(a, b) ==> !bytes_less(b, a),
        bytes_less(a, b) && bytes_less(b, c) ==> bytes_less(a, c),
    decreases a.len(),
{
    if a.len() > 0 {
        law_bytes_order(a.skip(1), b.skip(1), c.skip(1));
        if b.len() > 0 && a[0] == b[0] && a.skip(1) == b.skip(1) {
            assert(a =~= seq![a[0]] + a.skip(1));
            assert(b =~= seq![b[0]] + b.skip(1));
        }
    } else if b.len() == 0 {
        assert(a =~= b);
    }
}

/// The canonical order of names is a strict total order.
pub proof fn law_name_order(a: Seq<Seq<u8>>, b: Seq<Seq<u8>>, c: Seq<Seq<u8>>)
    ensures
        !name_less(a, a),
        a != b ==> name_less(a, b) || name_less(b, a),
        name_less(a, b) ==> !name_less(b, a),
        name_less(a, b) && name_less(b, c) ==> name_less(a, c),
    decreases a.len(),
{
    if a.len() > 0 {
        law_bytes_order(a.last(), b.last(), c.last());
        law_name_order(a.drop_last(), b.drop_last(), c.drop_last());
        if b.len() > 0 && a.last() == b.last() && a.drop_last() == b.drop_last() {
            assert(a =~= a.drop_last().push(a.last()));
            assert(b =~= b.drop_last().push(b.last()));
        }
    } else if b.len() == 0 {
        assert(a =~= b);
    }
}

/// Of two byte strings the one with the smaller byte where they first differ comes first, and of a
/// byte string and a longer one that starts with it the shorter.
pub proof fn law_first_difference(head: Seq<u8>, x: u8, y: u8, a: Seq<u8>, b: Seq<u8>)
    ensures
        x != y ==> bytes_less(head + seq![x] + a, head + seq![y] + b) == (x < y),
        bytes_less(head, head + seq![x] + a),
        !bytes_less(head + seq![x] + a, head),
    decreases head.len(),
{
    let s = head + seq![x] + a;
    let t = head + seq![y] + b;
    if head.len() > 0 {
        law_first_difference(head.skip(1), x, y, a, b);
        assert(s.skip(1) =~= head.skip(1) + seq![x] + a);
        assert(t.skip(1) =~= head.skip(1) + seq![y] + b);
    }
}

/// Names in the same zone are ordered by the label next to the zone, whatever stands before it, and
/// the zone itself comes before all names in it.
pub proof fn law_order_within_zone(
    zone: Seq<Seq<u8>>,
    x: Seq<u8>,
    y: Seq<u8>,
    a: Seq<Seq<u8>>,
    b: Seq<Seq<u8>>,
)
    ensures
        x != y ==> name_less(a + seq![x] + zone, b + seq![y] + zone) == bytes_less(x, y),
        name_less(zone, a + seq![x] + zone),
        !name_less(a + seq![x] + zone, zone),
    decreases zone.len(),
{
    let s = a + seq![x] + zone;
    let t = b + seq![y] + zone;
    if zone.len() > 0 {
        law_order_within_zone(zone.drop_last(), x, y, a, b);
        assert(s.drop_last() =~= a + seq![x] + zone.drop_last());
        assert(t.drop_last() =~= b + seq![y] + zone.drop_last());
    }
}

/// Only the letters A to Z have another form in lower case, the byte 32 further on. Names are the same
/// exactly where they have as many labels, as long as each other, whose bytes are the same or differ
/// by 32 and are letters.
pub proof fn law_case(x: u8, y: u8, a: Seq<Seq<u8>>)
    ensures
        lower(x) == lower(y) <==> x == y || (65 <= x <= 90 && y == x + 32) || (65 <= y <= 90 && x == y
            + 32),
        lower(x) == x || (65 <= x <= 90 && lower(x) == x + 32),
        canon(canon(a)) == canon(a),
        canon(a).len() == a.len(),
        forall|i: int| 0 <= i < a.len() ==> (#[trigger] canon(a)[i]).len() == a[i].len(),
        forall|i: int, j: int|
            0 <= i < a.len() && 0 <= j < a[i].len() ==> #[trigger] canon(a)[i][j] == lower(a[i][j]),
{
    assert forall|i: int| 0 <= i < a.len() implies canon(canon(a))[i] == #[trigger] canon(a)[i] by {
        assert(canon(canon(a))[i] =~= canon(a)[i]);
    }
    assert(canon(canon(a)) =~= canon(a));
}

/// A name is in a zone exactly where it is some labels followed by those of the zone.
pub proof fn law_suffix(zone: Seq<Seq<u8>>, front: Seq<Seq<u8>>, name: Seq<Seq<u8>>)
    ensures
        is_suffix(zone, front + zone),
        is_suffix(zone, name) ==> name == name.take(name.len() - zone.len()) + zone,
        is_suffix(Seq::empty(), name),
{
    assert((front + zone).skip(front.len() as int) =~= zone);
    assert(name.skip(name.len() as int) =~= Seq::<Seq<u8>>::empty());
    if is_suffix(zone, name) {
        assert(name =~= name.take(name.len() - zone.len()) + name.skip(name.len() - zone.len()));
    }
}

/// On the wire a name is its labels in their order, each behind a byte with its length, and a zero
/// byte at the end.
pub proof fn law_name_on_wire(label: Seq<u8>, rest: Seq<Seq<u8>>)
    requires
        label.len() < 256,
    ensures
        name_wire(Seq::empty()) == seq![0u8],
        ({
            let wire = name_wire(seq![label] + rest);
            &&& wire[0] == label.len()
            &&& wire.subrange(1, 1 + label.len() as int) == label
            &&& wire.skip(1 + label.len() as int) == name_wire(rest)
        }),
{
    let labels = seq![label] + rest;
    assert(labels.skip(1) =~= rest);
    assert(labels[0] == label);
    let wire = name_wire(labels);
    assert(wire.subrange(1, 1 + label.len() as int) =~= label);
    assert(wire.skip(1 + label.len() as int) =~= name_wire(rest));
}

/// The text of a name denotes the name, with and without a dot at its end.
pub proof fn law_name_text_reads_back(labels: Seq<Seq<u8>>)
    requires
        valid_name(labels),
    ensures
        parse_name(name_text(labels)) == Some(labels),
        labels.len() > 0 ==> parse_name(name_text(labels).push(DOT)) == Some(labels),
{
    if labels.len() == 0 {
        assert(text_labels(seq![DOT]) =~= labels);
    } else {
        law_text_labels(labels);
    }
}

/// A text of valid labels with dots between them denotes a name exactly where the labels fit 255 bytes, and
/// then the name with these labels.
pub proof fn law_text_labels(labels: Seq<Seq<u8>>)
    requires
        labels.len() > 0,
        forall|i: int| 0 <= i < labels.len() ==> valid_label(#[trigger] labels[i]),
    ensures
        parse_name(name_text(labels)) == if wire_len(labels) <= 255 {
            Some(labels)
        } else {
            None
        },
        parse_name(name_text(labels).push(DOT)) == parse_name(name_text(labels)),
{
    let s = join_labels(labels);
    lemma_join(labels);
    assert(s.len() > 0 && s.last() != DOT);
    assert(s != seq![DOT]) by {
        if s == seq![DOT] {
            assert(s.last() == DOT);
        }
    }
    assert(s.push(DOT) != seq![DOT]) by {
        assert(s.push(DOT).len() > 1);
    }
    assert(s.push(DOT).drop_last() =~= s);
    assert forall|i: int| 0 <= i < labels.len() implies #[trigger] text_labels(s)[i] == labels[i] by {
        assert(valid_label(labels[i]));
        assert(ascii_bytes(ascii_chars(labels[i])) =~= labels[i]);
    }
    assert(text_labels(s) =~= labels);
    assert(text_labels(s.push(DOT)) =~= labels);
    assert forall|i: int| 0 <= i < s.push(DOT).len() implies '\0' <= #[trigger] s.push(DOT)[i] <= '\u{7f}' by {
        if i < s.len() {
            assert('\0' <= s[i] <= '\u{7f}');
        }
    }
}

/// The parts of the text of a name are its labels.
proof fn lemma_join(labels: Seq<Seq<u8>>)
    requires
        labels.len() > 0,
        forall|i: int| 0 <= i < labels.len() ==> valid_label(#[trigger] labels[i]),
    ensures
        split_on(join_labels(labels), DOT) == labels.map_values(|l: Seq<u8>| ascii_chars(l)),
        is_ascii_chars(join_labels(labels)),
        join_labels(labels).len() > 0,
        join_labels(labels).last() != DOT,
    decreases labels.len(),
{
    let first = ascii_chars(labels[0]);
    assert(valid_label(labels[0]));
    assert forall|i: int| 0 <= i < first.len() implies #[trigger] first[i] != DOT && '\0' <= first[i]
        <= '\u{7f}' by {
        assert(labels[0][i] < 128 && labels[0][i] != 46);
        assert(first[i] == labels[0][i] as char);
    }
    law_split_whole(first, DOT);
    if labels.len() == 1 {
        assert(labels.map_values(|l: Seq<u8>| ascii_chars(l)) =~= seq![first]);
    } else {
        let tail = labels.skip(1);
        assert forall|i: int| 0 <= i < tail.len() implies valid_label(#[trigger] tail[i]) by {
            assert(tail[i] == labels[i + 1]);
        }
        lemma_join(tail);
        law_split_joined(first, join_labels(tail), DOT);
        assert(labels.map_values(|l: Seq<u8>| ascii_chars(l)) =~= seq![first] + tail.map_values(
            |l: Seq<u8>| ascii_chars(l),
        ));
    }
}

/// True when byte string `a` comes before `b`.
pub fn bytes_before(a: &[u8], b: &[u8]) -> (r: bool)
    ensures
        r == bytes_less(a@, b@),
{
    let mut i: usize = 0;
    assert(a@.skip(0) =~= a@ && b@.skip(0) =~= b@);
    while i < a.len() && i < b.len()
        invariant
            i <= a@.len(),
            i <= b@.len(),
            bytes_less(a@.skip(i as int), b@.skip(i as int)) == bytes_less(a@, b@),
        decreases a@.len() - i,
    {
        if a[i] != b[i] {
            return a[i] < b[i];
        }
        assert(a@.skip(i as int).skip(1) =~= a@.skip(i + 1));
        assert(b@.skip(i as int).skip(1) =~= b@.skip(i + 1));
        i = i + 1;
    }
    i < b.len()
}

/// A domain name. The case of letters is kept but does not matter in comparisons.
#[derive(Debug)]
pub struct DomainName {
    labels: Vec<Vec<u8>>,
}

impl View for DomainName {
    type V = Seq<Seq<u8>>;

    closed spec fn view(&self) -> Seq<Seq<u8>> {
        self.labels@.map_values(|l: Vec<u8>| l@)
    }
}

impl DomainName {
    #[verifier::type_invariant]
    closed spec fn inv(self) -> bool {
        valid_name(self@)
    }

    /// Equality of names.
    pub open spec fn same(self, other: Self) -> bool {
        canon(self@) == canon(other@)
    }

    /// What every name satisfies.
    pub fn check(&self)
        ensures
            valid_name(self@),
    {
        proof {
            use_type_invariant(self);
        }
    }

    /// The name that a text denotes.
    pub fn new(text: &str) -> (r: Result<Self, DnsError>)
        ensures
            match r {
                Ok(n) => parse_name(text@) == Some(n@),
                Err(e) => parse_name(text@) is None && (e matches DnsError::InvalidName {
                    name,
                    reason,
                } && name@ == text@ && reason@ == "not a domain name"@),
            },
    {
        let chars = chars_of(text);
        match Self::from_chars(chars.as_slice()) {
            Some(n) => Ok(n),
            None => Err(
                DnsError::InvalidName {
                    name: String::from_str(text),
                    reason: String::from_str("not a domain name"),
                },
            ),
        }
    }

    /// The name that a list of characters denotes.
    pub fn from_chars(text: &[char]) -> (r: Option<Self>)
        ensures
            match r {
                Some(n) => parse_name(text@) == Some(n@),
                None => parse_name(text@) is None,
            },
    {
        let n: usize = text.len();
        let mut i: usize = 0;
        while i < n
            invariant
                i <= n == text@.len(),
                forall|j: int| 0 <= j < i ==> '\0' <= #[trigger] text@[j] <= '\u{7f}',
            decreases n - i,
        {
            let c: char = text[i];
            proof {
                lemma_char_range(c);
            }
            if c > '\u{7f}' {
                return None;
            }
            i = i + 1;
        }
        if n == 1 && text[0] == DOT {
            assert(text@ =~= seq![DOT]);
            let name = Self::root();
            return Some(name);
        }
        assert(text@ != seq![DOT]) by {
            if text@ == seq![DOT] {
                assert(text@[0] == DOT);
            }
        }
        let end: usize = if n > 0 && text[n - 1] == DOT {
            n - 1
        } else {
            n
        };
        let body = vstd::slice::slice_subrange(text, 0, end);
        assert(body@ =~= without_end_dot(text@));
        let parts = split_chars(body, DOT);
        let ghost want = text_labels(text@);
        proof {
            lemma_split_chars_ascii(body@, DOT);
            assert(deep(parts@) == split_on(body@, DOT));
            assert(want.len() == parts@.len());
            assert forall|k: int| 0 <= k < parts@.len() implies #[trigger] want[k] == ascii_bytes(
                parts@[k]@,
            ) by {
                assert(deep(parts@)[k] == parts@[k]@);
            }
            assert forall|j: int, m: int|
                0 <= j < parts@.len() && 0 <= m < parts@[j]@.len() implies '\0' <= #[trigger] parts@[j]@[m] <= '\u{7f}' by {
                assert(deep(parts@)[j] == parts@[j]@);
                assert('\0' <= split_on(body@, DOT)[j][m] <= '\u{7f}');
            }
        }
        let mut labels: Vec<Vec<u8>> = Vec::new();
        let mut size: usize = 1;
        let mut k: usize = 0;
        assert(want.skip(0) =~= want);
        while k < parts.len()
            invariant
                k <= parts@.len() == want.len(),
                want == text_labels(text@),
                deep(parts@) == split_on(body@, DOT),
                forall|j: int| 0 <= j < parts@.len() ==> #[trigger] want[j] == ascii_bytes(parts@[j]@),
                forall|j: int, m: int|
                    0 <= j < parts@.len() && 0 <= m < parts@[j]@.len() ==> '\0' <= #[trigger] parts@[j]@[m] <= '\u{7f}',
                forall|j: int| 0 <= j < k ==> valid_label(#[trigger] want[j]),
                labels@.len() == k,
                forall|j: int| 0 <= j < k ==> #[trigger] labels@[j]@ == want[j],
                size <= 255,
                size - 1 + wire_len(want.skip(k as int)) == wire_len(want),
            decreases parts@.len() - k,
        {
            let part = &parts[k];
            proof {
                lemma_wire_len_min(want.skip(k as int));
                assert(want.skip(k as int)[0] == want[k as int]);
                assert(want.skip(k as int).skip(1) =~= want.skip(k + 1));
                lemma_wire_len_min(want.skip(k + 1));
            }
            if part.len() == 0 || part.len() > 63 || size + part.len() + 1 > 255 {
                assert(want[k as int].len() == part.len());
                assert(!valid_label(want[k as int]) || wire_len(want) > 255);
                return None;
            }
            let label = ascii_label(part.as_slice());
            proof {
                assert(valid_label(want[k as int])) by {
                    lemma_split_no_sep(body@, DOT, k as int);
                    assert(deep(parts@)[k as int] == part@);
                    assert forall|m: int| 0 <= m < want[k as int].len() implies #[trigger] want[k as int][m] < 128
                        && want[k as int][m] != 46 by {
                        assert('\0' <= part@[m] <= '\u{7f}');
                        assert(split_on(body@, DOT)[k as int][m] != DOT);
                        assert(want[k as int][m] == part@[m] as u8);
                    }
                }
            }
            size = size + part.len() + 1;
            labels.push(label);
            k = k + 1;
        }
        proof {
            assert(want.skip(k as int) =~= Seq::empty());
            assert(labels@.map_values(|l: Vec<u8>| l@) =~= want);
        }
        Some(DomainName { labels })
    }

    /// The text of the name.
    pub fn as_str(&self) -> (r: String)
        ensures
            r@ == name_text(self@),
    {
        let mut r = String::new();
        if self.labels.len() == 0 {
            r.push(DOT);
            assert(r@ =~= seq![DOT]);
            return r;
        }
        let mut i: usize = 0;
        assert(self@.skip(0) =~= self@);
        while i < self.labels.len()
            invariant
                i <= self.labels@.len() == self@.len(),
                self@.len() > 0,
                r@ + (if i < self@.len() { join_labels(self@.skip(i as int)) } else { Seq::empty() })
                    == join_labels(self@),
            decreases self.labels@.len() - i,
        {
            let label = &self.labels[i];
            let ghost before = r@;
            proof {
                use_type_invariant(self);
                assert(self@.skip(i as int)[0] == label@);
                assert(self@[i as int] == label@);
                assert(self@.skip(i as int).skip(1) =~= self@.skip(i + 1));
            }
            push_ascii(&mut r, label.as_slice());
            if i + 1 < self.labels.len() {
                r.push(DOT);
                assert(r@ + join_labels(self@.skip(i + 1)) =~= before + join_labels(
                    self@.skip(i as int),
                ));
            } else {
                assert(r@ + Seq::<char>::empty() =~= before + join_labels(self@.skip(i as int)));
            }
            i = i + 1;
        }
        assert(r@ =~= join_labels(self@));
        r
    }

    /// The length of the text of the name.
    pub fn len(&self) -> (r: usize)
        ensures
            r == name_text(self@).len(),
    {
        if self.labels.len() == 0 {
            return 1;
        }
        let mut size: usize = 0;
        let mut i: usize = 0;
        proof {
            use_type_invariant(self);
            assert(self@.skip(0) =~= self@);
            lemma_text_len(self@);
        }
        while i < self.labels.len()
            invariant
                i <= self.labels@.len() == self@.len(),
                self@.len() > 0,
                wire_len(self@) <= 255,
                size + wire_len(self@.skip(i as int)) == wire_len(self@),
            decreases self.labels@.len() - i,
        {
            proof {
                assert(self@.skip(i as int)[0] == self.labels@[i as int]@);
                assert(self@.skip(i as int).skip(1) =~= self@.skip(i + 1));
            }
            size = size + 1 + self.labels[i].len();
            i = i + 1;
        }
        size - 1
    }

    /// The number of labels.
    pub fn label_count(&self) -> (r: usize)
        ensures
            r == self@.len(),
    {
        self.labels.len()
    }

    /// The label at a position.
    pub fn label(&self, i: usize) -> (r: &Vec<u8>)
        requires
            i < self@.len(),
        ensures
            r@ == self@[i as int],
    {
        &self.labels[i]
    }

    /// The name without its first label.
    pub fn parent(&self) -> (r: Self)
        requires
            self@.len() > 0,
        ensures
            r@ == self@.skip(1),
    {
        proof {
            use_type_invariant(self);
        }
        let mut labels: Vec<Vec<u8>> = Vec::new();
        let mut i: usize = 1;
        while i < self.labels.len()
            invariant
                1 <= i <= self.labels@.len(),
                labels@.len() == i - 1,
                forall|j: int|
                    0 <= j < labels@.len() ==> (#[trigger] labels@[j])@ == self.labels@[j + 1]@,
            decreases self.labels@.len() - i,
        {
            labels.push(copy_label(&self.labels[i]));
            i = i + 1;
        }
        proof {
            lemma_parent_valid(self@);
        }
        assert(labels@.map_values(|l: Vec<u8>| l@) =~= self@.skip(1));
        DomainName { labels }
    }

    /// True when the names are the same but for the case of letters.
    pub fn same_name(&self, other: &Self) -> (r: bool)
        ensures
            r == self.same(*other),
    {
        if self.labels.len() != other.labels.len() {
            assert(canon(self@).len() != canon(other@).len());
            return false;
        }
        let r = self.is_subdomain_of(other);
        proof {
            assert(canon(self@).skip(0) =~= canon(self@));
        }
        r
    }

    /// True when the name is `zone` or lies below it.
    pub fn is_subdomain_of(&self, zone: &Self) -> (r: bool)
        ensures
            r == is_suffix(canon(zone@), canon(self@)),
    {
        if zone.labels.len() > self.labels.len() {
            return false;
        }
        let count: usize = self.labels.len();
        let shift: usize = count - zone.labels.len();
        let ghost tail = canon(self@).skip(shift as int);
        let mut i: usize = 0;
        while i < zone.labels.len()
            invariant
                i <= zone.labels@.len(),
                shift + zone.labels@.len() == count == self.labels@.len(),
                tail == canon(self@).skip(shift as int),
                forall|j: int| 0 <= j < i ==> #[trigger] tail[j] == canon(zone@)[j],
            decreases zone.labels@.len() - i,
        {
            proof {
                assert(tail[i as int] == lower_label(self.labels@[shift + i]@));
                assert(canon(zone@)[i as int] == lower_label(zone.labels@[i as int]@));
            }
            if !same_label(self.labels[shift + i].as_slice(), zone.labels[i].as_slice()) {
                return false;
            }
            i = i + 1;
        }
        assert(tail =~= canon(zone@));
        true
    }

    /// True when the name comes before `other` in the canonical order.
    pub fn is_before(&self, other: &Self) -> (r: bool)
        ensures
            r == name_less(canon(self@), canon(other@)),
    {
        let ghost a = canon(self@);
        let ghost b = canon(other@);
        let mut i: usize = self.labels.len();
        let mut j: usize = other.labels.len();
        assert(a.take(i as int) =~= a && b.take(j as int) =~= b);
        while i > 0 && j > 0
            invariant
                a == canon(self@),
                b == canon(other@),
                i <= self.labels@.len() == a.len(),
                j <= other.labels@.len() == b.len(),
                name_less(a.take(i as int), b.take(j as int)) == name_less(a, b),
            decreases i,
        {
            let x = lower_copy(self.labels[i - 1].as_slice());
            let y = lower_copy(other.labels[j - 1].as_slice());
            proof {
                assert(a.take(i as int).last() == x@);
                assert(b.take(j as int).last() == y@);
                assert(a.take(i as int).drop_last() =~= a.take(i - 1));
                assert(b.take(j as int).drop_last() =~= b.take(j - 1));
            }
            if !same_bytes(x.as_slice(), y.as_slice()) {
                return bytes_before(x.as_slice(), y.as_slice());
            }
            i = i - 1;
            j = j - 1;
        }
        j > 0
    }

    /// The name as it is on the wire, not compressed.
    pub fn to_wire(&self) -> (r: Vec<u8>)
        ensures
            r@ == name_wire(self@),
    {
        let ghost a = self@;
        let mut r: Vec<u8> = Vec::new();
        let mut i: usize = 0;
        assert(a.skip(0) =~= a);
        proof {
            use_type_invariant(self);
        }
        while i < self.labels.len()
            invariant
                a == self@,
                valid_name(a),
                i <= self.labels@.len() == a.len(),
                r@ + name_wire(a.skip(i as int)) == name_wire(a),
            decreases self.labels@.len() - i,
        {
            let ghost before = r@;
            proof {
                assert(a[i as int] == self.labels@[i as int]@);
                assert(valid_label(a[i as int]));
                assert(a.skip(i as int)[0] == a[i as int]);
                assert(a.skip(i as int).skip(1) =~= a.skip(i + 1));
            }
            r.push(self.labels[i].len() as u8);
            crate::wire::put_slice(&mut r, self.labels[i].as_slice());
            assert(r@ + name_wire(a.skip(i + 1)) =~= before + name_wire(a.skip(i as int)));
            i = i + 1;
        }
        r.push(0);
        assert(r@ =~= name_wire(a)) by {
            assert(name_wire(a.skip(i as int)) == seq![0u8]);
        }
        r
    }

    /// The name in lower case on the wire, not compressed.
    pub fn to_canonical_wire(&self) -> (r: Vec<u8>)
        ensures
            r@ == name_wire(canon(self@)),
    {
        let ghost a = canon(self@);
        let mut r: Vec<u8> = Vec::new();
        let mut i: usize = 0;
        assert(a.skip(0) =~= a);
        proof {
            use_type_invariant(self);
        }
        while i < self.labels.len()
            invariant
                a == canon(self@),
                valid_name(self@),
                i <= self.labels@.len() == a.len(),
                r@ + name_wire(a.skip(i as int)) == name_wire(a),
            decreases self.labels@.len() - i,
        {
            let ghost before = r@;
            proof {
                assert(self@[i as int] == self.labels@[i as int]@);
                assert(valid_label(self@[i as int]));
                assert(a.skip(i as int)[0] == lower_label(self.labels@[i as int]@));
                assert(a.skip(i as int).skip(1) =~= a.skip(i + 1));
            }
            let label = lower_copy(self.labels[i].as_slice());
            r.push(label.len() as u8);
            crate::wire::put_slice(&mut r, label.as_slice());
            assert(r@ + name_wire(a.skip(i + 1)) =~= before + name_wire(a.skip(i as int)));
            i = i + 1;
        }
        r.push(0);
        assert(r@ =~= name_wire(a)) by {
            assert(name_wire(a.skip(i as int)) == seq![0u8]);
        }
        r
    }

    /// The labels in lower case.
    pub fn lower_labels(&self) -> (r: Vec<Vec<u8>>)
        ensures
            r@.map_values(|l: Vec<u8>| l@) == canon(self@),
    {
        let mut r: Vec<Vec<u8>> = Vec::new();
        let mut i: usize = 0;
        while i < self.labels.len()
            invariant
                i <= self.labels@.len(),
                r@.len() == i,
                forall|j: int|
                    0 <= j < i ==> (#[trigger] r@[j])@ == lower_label(self.labels@[j]@),
            decreases self.labels@.len() - i,
        {
            r.push(lower_copy(self.labels[i].as_slice()));
            i = i + 1;
        }
        assert(r@.map_values(|l: Vec<u8>| l@) =~= canon(self@));
        r
    }

    /// The root name.
    pub fn root() -> (r: Self)
        ensures
            r@ == Seq::<Seq<u8>>::empty(),
    {
        let labels: Vec<Vec<u8>> = Vec::new();
        assert(labels@.map_values(|l: Vec<u8>| l@) =~= Seq::<Seq<u8>>::empty());
        DomainName { labels }
    }
}

impl Clone for DomainName {
    fn clone(&self) -> (r: Self)
        ensures
            r@ == self@,
    {
        proof {
            use_type_invariant(self);
        }
        let mut labels: Vec<Vec<u8>> = Vec::new();
        let mut i: usize = 0;
        while i < self.labels.len()
            invariant
                i <= self.labels@.len(),
                labels@.len() == i,
                forall|j: int|
                    0 <= j < labels@.len() ==> (#[trigger] labels@[j])@ == self.labels@[j]@,
            decreases self.labels@.len() - i,
        {
            labels.push(copy_label(&self.labels[i]));
            i = i + 1;
        }
        assert(labels@.map_values(|l: Vec<u8>| l@) =~= self@);
        DomainName { labels }
    }
}

impl PartialEq for DomainName {
    fn eq(&self, other: &Self) -> (r: bool) {
        self.same_name(other)
    }
}

impl vstd::std_specs::cmp::PartialEqSpecImpl for DomainName {
    open spec fn obeys_eq_spec() -> bool {
        true
    }

    open spec fn eq_spec(&self, other: &Self) -> bool {
        self.same(*other)
    }
}

fn copy_label(l: &Vec<u8>) -> (r: Vec<u8>)
    ensures
        r@ == l@,
{
    vstd::slice::slice_to_vec(l.as_slice())
}

/// A label in lower case.
fn lower_copy(l: &[u8]) -> (r: Vec<u8>)
    ensures
        r@ == lower_label(l@),
{
    let mut r: Vec<u8> = Vec::new();
    let mut i: usize = 0;
    while i < l.len()
        invariant
            i <= l@.len(),
            r@ == lower_label(l@).take(i as int),
        decreases l@.len() - i,
    {
        let b: u8 = l[i];
        r.push(
            if 65 <= b && b <= 90 {
                b + 32
            } else {
                b
            },
        );
        i = i + 1;
        assert(r@ =~= lower_label(l@).take(i as int));
    }
    assert(r@ =~= lower_label(l@));
    r
}

/// True when two labels are the same but for the case of letters.
fn same_label(a: &[u8], b: &[u8]) -> (r: bool)
    ensures
        r == (lower_label(a@) == lower_label(b@)),
{
    let x = lower_copy(a);
    let y = lower_copy(b);
    same_bytes(x.as_slice(), y.as_slice())
}

/// Appends the characters of ASCII bytes.
fn push_ascii(s: &mut String, l: &[u8])
    ensures
        final(s)@ == old(s)@ + ascii_chars(l@),
{
    let mut i: usize = 0;
    while i < l.len()
        invariant
            i <= l@.len(),
            s@ == old(s)@ + ascii_chars(l@).take(i as int),
        decreases l@.len() - i,
    {
        s.push(l[i] as char);
        i = i + 1;
        assert(s@ =~= old(s)@ + ascii_chars(l@).take(i as int));
    }
    assert(ascii_chars(l@).take(i as int) =~= ascii_chars(l@));
}

/// A name on the wire has the length that it is said to have.
pub proof fn lemma_name_wire_len(labels: Seq<Seq<u8>>)
    ensures
        name_wire(labels).len() == wire_len(labels),
    decreases labels.len(),
{
    if labels.len() > 0 {
        lemma_name_wire_len(labels.skip(1));
    }
}

/// Lower case changes no length.
pub proof fn lemma_canon_wire_len(labels: Seq<Seq<u8>>)
    ensures
        wire_len(canon(labels)) == wire_len(labels),
    decreases labels.len(),
{
    if labels.len() > 0 {
        assert(canon(labels).skip(1) =~= canon(labels.skip(1)));
        lemma_canon_wire_len(labels.skip(1));
    }
}

/// A name without its first label is a name.
proof fn lemma_parent_valid(labels: Seq<Seq<u8>>)
    requires
        valid_name(labels),
        labels.len() > 0,
    ensures
        valid_name(labels.skip(1)),
{
    assert forall|i: int| 0 <= i < labels.skip(1).len() implies valid_label(
        #[trigger] labels.skip(1)[i],
    ) by {
        assert(labels.skip(1)[i] == labels[i + 1]);
    }
}

/// The text of a name is two bytes shorter than its wire form.
proof fn lemma_text_len(labels: Seq<Seq<u8>>)
    requires
        labels.len() > 0,
    ensures
        join_labels(labels).len() + 2 == wire_len(labels),
    decreases labels.len(),
{
    if labels.len() > 1 {
        lemma_text_len(labels.skip(1));
    } else {
        assert(wire_len(labels.skip(1)) == 1);
    }
}

/// Names with different labels differ on the wire.
pub proof fn lemma_name_wire_injective(a: Seq<Seq<u8>>, x: Seq<u8>, b: Seq<Seq<u8>>, y: Seq<u8>)
    requires
        forall|i: int| 0 <= i < a.len() ==> 1 <= (#[trigger] a[i]).len() <= 63,
        forall|i: int| 0 <= i < b.len() ==> 1 <= (#[trigger] b[i]).len() <= 63,
        name_wire(a) + x == name_wire(b) + y,
    ensures
        a == b,
        x == y,
    decreases a.len(),
{
    let s = name_wire(a) + x;
    let t = name_wire(b) + y;
    if a.len() == 0 {
        assert(s[0] == 0);
        if b.len() > 0 {
            assert(t[0] == b[0].len() as u8);
            assert(b[0].len() > 0);
        }
        assert(a =~= b);
        assert(s.skip(1) =~= x);
        assert(t.skip(1) =~= y);
    } else {
        assert(s[0] == a[0].len() as u8);
        assert(1 <= a[0].len() <= 63);
        if b.len() == 0 {
            assert(t[0] == 0);
        } else {
            assert(t[0] == b[0].len() as u8);
            assert(1 <= b[0].len() <= 63);
            let n = a[0].len() as int;
            assert(a[0].len() == b[0].len());
            assert(s.subrange(1, 1 + n) =~= a[0]);
            assert(t.subrange(1, 1 + n) =~= b[0]);
            assert(s.skip(1 + n) =~= name_wire(a.skip(1)) + x);
            assert(t.skip(1 + n) =~= name_wire(b.skip(1)) + y);
            assert forall|i: int| 0 <= i < a.skip(1).len() implies 1 <= (#[trigger] a.skip(
                1,
            )[i]).len() <= 63 by {
                assert(a.skip(1)[i] == a[i + 1]);
            }
            assert forall|i: int| 0 <= i < b.skip(1).len() implies 1 <= (#[trigger] b.skip(
                1,
            )[i]).len() <= 63 by {
                assert(b.skip(1)[i] == b[i + 1]);
            }
            lemma_name_wire_injective(a.skip(1), x, b.skip(1), y);
            assert(a =~= seq![a[0]] + a.skip(1));
            assert(b =~= seq![b[0]] + b.skip(1));
        }
    }
}

/// The bytes of ASCII characters.
fn ascii_label(part: &[char]) -> (r: Vec<u8>)
    requires
        forall|m: int| 0 <= m < part@.len() ==> '\0' <= #[trigger] part@[m] <= '\u{7f}',
    ensures
        r@ == ascii_bytes(part@),
{
    let mut r: Vec<u8> = Vec::new();
    let mut i: usize = 0;
    while i < part.len()
        invariant
            i <= part@.len(),
            r@ == ascii_bytes(part@).take(i as int),
        decreases part@.len() - i,
    {
        r.push(part[i] as u8);
        i = i + 1;
        assert(r@ =~= ascii_bytes(part@).take(i as int));
    }
    assert(r@ =~= ascii_bytes(part@));
    r
}

proof fn lemma_char_range(c: char)
    ensures
        '\0' <= c,
{
}

proof fn lemma_wire_len_min(labels: Seq<Seq<u8>>)
    ensures
        wire_len(labels) >= 1,
    decreases labels.len(),
{
    if labels.len() > 0 {
        lemma_wire_len_min(labels.skip(1));
    }
}

/// No part of a split text holds the separator.
proof fn lemma_split_no_sep(s: Seq<char>, sep: char, k: int)
    requires
        0 <= k < split_on(s, sep).len(),
    ensures
        forall|m: int| 0 <= m < split_on(s, sep)[k].len() ==> #[trigger] split_on(s, sep)[k][m] != sep,
    decreases s.len(),
{
    if s.len() > 0 {
        let parts = split_on(s.drop_last(), sep);
        lemma_split_on_nonempty(s.drop_last(), sep);
        if s.last() == sep {
            if k < parts.len() {
                lemma_split_no_sep(s.drop_last(), sep, k);
            }
        } else {
            lemma_split_no_sep(s.drop_last(), sep, k);
        }
    }
}

/// Every character of a part of a split text is a character of the text.
proof fn lemma_split_chars_ascii(s: Seq<char>, sep: char)
    requires
        is_ascii_chars(s),
    ensures
        forall|k: int, m: int|
            0 <= k < split_on(s, sep).len() && 0 <= m < split_on(s, sep)[k].len()
                ==> '\0' <= #[trigger] split_on(s, sep)[k][m] <= '\u{7f}',
    decreases s.len(),
{
    if s.len() > 0 {
        lemma_split_on_nonempty(s.drop_last(), sep);
        lemma_split_chars_ascii(s.drop_last(), sep);
    }
}

} // verus!
