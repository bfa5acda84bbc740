//! DHCPv6 messages.
use std::collections::HashMap;
use bytes::{BufMut, BytesMut};
use vstd::prelude::*;
use vstd::std_specs::hash::spec_keys_iter;
use vstd::std_specs::iter::IteratorSpec;
use crate::error::DhcpError;
use crate::text::{dec, message1, message3};
use crate::wire::{be_bytes, copy_range, lemma_be2, lemma_u16_field, put_slice, read_u16, u16_at};

verus! {

broadcast use vstd::std_specs::hash::group_hash_axioms;

// The buffer in which messages are written.

/// `bytes::BytesMut`, a growing byte buffer.
#[verifier::external_type_specification]
#[verifier::external_body]
pub struct ExBytesMut(bytes::BytesMut);

/// The bytes of a buffer.
pub uninterp spec fn buffer_bytes(b: BytesMut) -> Seq<u8>;

/// The largest number of bytes that a buffer is made to hold. A buffer doubles to grow, and panics
/// where its size would pass `isize::MAX`.
const MAX_BUFFER: usize = usize::MAX / 4;

/// `BytesMut::with_capacity` makes an empty buffer.
#[verifier::external_body]
fn buffer_new(capacity: usize) -> (r: BytesMut)
    requires
        capacity <= MAX_BUFFER,
    ensures
        buffer_bytes(r) == Seq::<u8>::empty(),
{
    BytesMut::with_capacity(capacity)
}

/// `BufMut::put_u8` appends a byte.
#[verifier::external_body]
fn buffer_put_u8(b: &mut BytesMut, v: u8)
    requires
        buffer_bytes(*old(b)).len() + 1 <= MAX_BUFFER,
    ensures
        buffer_bytes(*final(b)) == buffer_bytes(*old(b)).push(v),
{
    b.put_u8(v)
}

/// `BufMut::put_u16` appends a 16-bit number, most significant byte first.
#[verifier::external_body]
fn buffer_put_u16(b: &mut BytesMut, v: u16)
    requires
        buffer_bytes(*old(b)).len() + 2 <= MAX_BUFFER,
    ensures
        buffer_bytes(*final(b)) == buffer_bytes(*old(b)) + be_bytes(v as nat, 2),
{
    b.put_u16(v)
}

/// `BytesMut::extend_from_slice` appends bytes.
#[verifier::external_body]
fn buffer_extend(b: &mut BytesMut, data: &[u8])
    requires
        buffer_bytes(*old(b)).len() + data@.len() <= MAX_BUFFER,
    ensures
        buffer_bytes(*final(b)) == buffer_bytes(*old(b)) + data@,
{
    b.extend_from_slice(data)
}

/// `BytesMut::to_vec`, the copy of the bytes of a buffer.
#[verifier::external_body]
fn buffer_to_vec(b: &BytesMut) -> (r: Vec<u8>)
    ensures
        r@ == buffer_bytes(*b),
{
    b.to_vec()
}

/// A DHCPv6 message: its type, its transaction and its options by code.
#[derive(Debug, Clone, PartialEq)]
pub struct DhcpV6Message {
    message_type: u8,
    transaction_id: [u8; 3],
    options: HashMap<u16, Vec<u8>>,
}

/// What a message says.
#[verifier::ext_equal]
pub ghost struct DhcpModel {
    pub message_type: u8,
    pub transaction_id: Seq<u8>,
    pub options: Map<u16, Seq<u8>>,
}

impl View for DhcpV6Message {
    type V = DhcpModel;

    closed spec fn view(&self) -> DhcpModel {
        DhcpModel {
            message_type: self.message_type,
            transaction_id: self.transaction_id@,
            options: option_map(self.options@),
        }
    }
}

spec fn option_map(m: Map<u16, Vec<u8>>) -> Map<u16, Seq<u8>> {
    m.map_values(|v: Vec<u8>| v@)
}

/// An option on the wire: its code, the length of its data, and its data.
pub open spec fn option_bytes(code: u16, data: Seq<u8>) -> Seq<u8> {
    be_bytes(code as nat, 2) + be_bytes((data.len() as u16) as nat, 2) + data
}

/// The options with the given codes, one after the other.
pub open spec fn options_bytes(options: Map<u16, Seq<u8>>, codes: Seq<u16>) -> Seq<u8>
    decreases codes.len(),
{
    if codes.len() == 0 {
        Seq::empty()
    } else {
        option_bytes(codes[0], options[codes[0]]) + options_bytes(options, codes.skip(1))
    }
}

/// True of a list of the codes of a set of options, each once.
pub open spec fn lists(codes: Seq<u16>, options: Map<u16, Seq<u8>>) -> bool {
    codes.no_duplicates() && forall|c: u16| #[trigger] codes.contains(c) <==> options.contains_key(c)
}

/// A message on the wire with its options in a given order.
pub open spec fn message_bytes(m: DhcpModel, codes: Seq<u16>) -> Seq<u8> {
    seq![m.message_type] + m.transaction_id + options_bytes(m.options, codes)
}

/// The options that bytes denote, added to those already read, or what is wrong with the bytes. Of
/// several options with a code the last counts.
pub open spec fn parse_options(data: Seq<u8>, read: Map<u16, Seq<u8>>) -> Result<
    Map<u16, Seq<u8>>,
    Seq<char>,
>
    decreases data.len(),
{
    if data.len() == 0 {
        Ok(read)
    } else if data.len() < 4 {
        Err("Truncated option header: "@ + dec(data.len()) + " bytes"@)
    } else {
        let code = u16_at(data, 0);
        let len = u16_at(data, 2);
        if 4 + len > data.len() {
            Err(
                "Option "@ + dec(code as nat) + " length "@ + dec(len as nat)
                    + " exceeds remaining data: "@ + dec((data.len() - 4) as nat),
            )
        } else {
            parse_options(data.skip(4 + len), read.insert(code, data.subrange(4, 4 + len)))
        }
    }
}

/// The message that bytes denote, or what is wrong with them.
pub open spec fn parse_message(data: Seq<u8>) -> Result<DhcpModel, Seq<char>> {
    if data.len() < 4 {
        Err("Packet too short: "@ + dec(data.len()) + " bytes (minimum 4 required)"@)
    } else {
        match parse_options(data.skip(4), Map::empty()) {
            Ok(options) => Ok(
                DhcpModel { message_type: data[0], transaction_id: data.subrange(1, 4), options },
            ),
            Err(t) => Err(t),
        }
    }
}

/// True of a parse failure with the given reason.
pub open spec fn parse_failed(e: DhcpError, reason: Seq<char>) -> bool {
    e matches DhcpError::ParseFailed { reason: r } && r@ == reason
}

impl DhcpV6Message {
    /// A message without options.
    pub fn new(message_type: u8, transaction_id: [u8; 3]) -> (r: Self)
        ensures
            r@ == (DhcpModel {
                message_type,
                transaction_id: transaction_id@,
                options: Map::empty(),
            }),
    {
        let r = DhcpV6Message { message_type, transaction_id, options: HashMap::new() };
        assert(r@.options =~= Map::<u16, Seq<u8>>::empty());
        r
    }

    /// The message that bytes denote.
    pub fn from_bytes(input: &[u8]) -> (r: Result<Self, DhcpError>)
        ensures
            match (r, parse_message(input@)) {
                (Ok(m), Ok(w)) => m@ == w,
                (Err(e), Err(t)) => parse_failed(e, t),
                _ => false,
            },
    {
        let n: usize = input.len();
        if n < 4 {
            return Err(
                DhcpError::ParseFailed {
                    reason: message1(
                        "Packet too short: ",
                        n as u64,
                        " bytes (minimum 4 required)",
                    ),
                },
            );
        }
        let transaction_id: [u8; 3] = [input[1], input[2], input[3]];
        assert(transaction_id@ =~= input@.subrange(1, 4));
        let mut options: HashMap<u16, Vec<u8>> = HashMap::new();
        let ghost body = input@.skip(4);
        let mut at: usize = 4;
        assert(option_map(options@) =~= Map::<u16, Seq<u8>>::empty());
        while at < n
            invariant
                4 <= at <= n == input@.len(),
                body == input@.skip(4),
                parse_options(input@.skip(at as int), option_map(options@)) == parse_options(
                    body,
                    Map::empty(),
                ),
            decreases n - at,
        {
            let ghost rest = input@.skip(at as int);
            if n - at < 4 {
                return Err(
                    DhcpError::ParseFailed {
                        reason: message1("Truncated option header: ", (n - at) as u64, " bytes"),
                    },
                );
            }
            let code: u16 = read_u16(input, at);
            let len: usize = read_u16(input, at + 2) as usize;
            assert(u16_at(rest, 0) == code && u16_at(rest, 2) == len);
            if n - at - 4 < len {
                return Err(
                    DhcpError::ParseFailed {
                        reason: message3(
                            "Option ",
                            code as u64,
                            " length ",
                            len as u64,
                            " exceeds remaining data: ",
                            (n - at - 4) as u64,
                        ),
                    },
                );
            }
            let data = copy_range(input, at + 4, at + 4 + len);
            let ghost before = option_map(options@);
            proof {
                assert(rest.subrange(4, 4 + len) =~= data@);
                assert(rest.skip(4 + len) =~= input@.skip(at + 4 + len));
            }
            options.insert(code, data);
            assert(option_map(options@) =~= before.insert(code, data@));
            at = at + 4 + len;
        }
        assert(input@.skip(at as int) =~= Seq::<u8>::empty());
        Ok(DhcpV6Message { message_type: input[0], transaction_id, options })
    }

    /// The codes of the options, in the order in which the table is walked.
    fn codes(&self) -> (r: Vec<u16>)
        ensures
            lists(r@, self@.options),
    {
        let mut r: Vec<u16> = Vec::new();
        let ghost walk = spec_keys_iter(&self.options).remaining();
        for k in it: self.options.keys()
            invariant
                it.seq() == walk,
                r@.len() == it.index(),
                forall|j: int| 0 <= j < r@.len() ==> #[trigger] r@[j] == *walk[j],
        {
            r.push(*k);
        }
        proof {
            assert(r@ =~= walk.unref());
            assert(r@.no_duplicates()) by {
                assert forall|i: int, j: int| 0 <= i < r@.len() && 0 <= j < r@.len() && i != j implies r@[i]
                    != r@[j] by {
                    assert(walk[i] != walk[j]);
                }
            }
            assert forall|c: u16| #[trigger] r@.contains(c) <==> self@.options.contains_key(c) by {
                assert(r@.to_set().contains(c) <==> self.options@.dom().contains(c));
            }
        }
        r
    }

    /// The message on the wire, its options in the order in which the table is walked. Reading it
    /// back gives the message, unless the length of an option does not fit its field.
    pub fn to_bytes(&self) -> (r: Result<Vec<u8>, DhcpError>)
        ensures
            exists|codes: Seq<u16>|
                lists(codes, self@.options) && (r matches Ok(v) && v@ == #[trigger] message_bytes(
                    self@,
                    codes,
                )),
            (forall|c: u16| #[trigger]
                self@.options.contains_key(c) ==> self@.options[c].len() <= 0xffff) ==> (
            r matches Ok(v) && parse_message(v@) == Ok::<DhcpModel, Seq<char>>(self@)),
    {
        let codes = self.codes();
        let ghost options = self@.options;
        let ghost header = seq![self@.message_type] + self@.transaction_id;
        assert(codes@.skip(0) =~= codes@);
        let mut head = buffer_new(4);
        buffer_put_u8(&mut head, self.message_type);
        buffer_extend(&mut head, self.transaction_id.as_slice());
        let mut r = buffer_to_vec(&head);
        assert(r@ =~= header);
        let mut i: usize = 0;
        while i < codes.len()
            invariant
                options == self@.options,
                lists(codes@, options),
                i <= codes@.len(),
                r@ + options_bytes(options, codes@.skip(i as int)) == header + options_bytes(
                    options,
                    codes@,
                ),
            decreases codes@.len() - i,
        {
            let code: u16 = codes[i];
            proof {
                assert(codes@.contains(code));
                assert(self.options@.contains_key(code));
                assert(codes@.skip(i as int)[0] == code);
                assert(codes@.skip(i as int).skip(1) =~= codes@.skip(i + 1));
            }
            if let Some(data) = self.options.get(&code) {
                let ghost before = r@;
                assert(options[code] == data@);
                let mut head = buffer_new(4);
                buffer_put_u16(&mut head, code);
                proof {
                    lemma_be2(code);
                }
                buffer_put_u16(&mut head, data.len() as u16);
                put_slice(&mut r, buffer_to_vec(&head).as_slice());
                put_slice(&mut r, data.as_slice());
                assert(r@ + options_bytes(options, codes@.skip(i + 1)) =~= before
                    + options_bytes(options, codes@.skip(i as int)));
            }
            i = i + 1;
        }
        proof {
            assert(codes@.skip(i as int) =~= Seq::<u16>::empty());
            assert(r@ =~= message_bytes(self@, codes@));
            if forall|c: u16| #[trigger]
                self@.options.contains_key(c) ==> self@.options[c].len() <= 0xffff {
                law_message_roundtrip(self@, codes@);
            }
        }
        Ok(r)
    }

    /// The message type.
    pub fn message_type(&self) -> (r: u8)
        ensures
            r == self@.message_type,
    {
        self.message_type
    }

    /// The transaction.
    pub fn transaction_id(&self) -> (r: &[u8; 3])
        ensures
            r@ == self@.transaction_id,
    {
        &self.transaction_id
    }

    /// The data of an option, if the message has it.
    pub fn get_option(&self, code: u16) -> (r: Option<&[u8]>)
        ensures
            match r {
                Some(d) => self@.options.contains_key(code) && d@ == self@.options[code],
                None => !self@.options.contains_key(code),
            },
    {
        match self.options.get(&code) {
            Some(v) => Some(v.as_slice()),
            None => None,
        }
    }

    /// The options with their codes, in the order in which the table is walked.
    pub fn options(&self) -> (r: Vec<(u16, Vec<u8>)>)
        ensures
            lists(r@.map_values(|p: (u16, Vec<u8>)| p.0), self@.options),
            forall|i: int| 0 <= i < r@.len() ==> (#[trigger] r@[i]).1@ == self@.options[r@[i].0],
    {
        let codes = self.codes();
        let mut r: Vec<(u16, Vec<u8>)> = Vec::new();
        let mut i: usize = 0;
        while i < codes.len()
            invariant
                lists(codes@, self@.options),
                i <= codes@.len(),
                r@.len() == i,
                forall|j: int|
                    0 <= j < i ==> (#[trigger] r@[j]).0 == codes@[j] && r@[j].1@
                        == self@.options[r@[j].0],
            decreases codes@.len() - i,
        {
            let code: u16 = codes[i];
            assert(codes@.contains(code));
            assert(self.options@.contains_key(code));
            let data = match self.options.get(&code) {
                Some(v) => vstd::slice::slice_to_vec(v.as_slice()),
                None => Vec::new(),
            };
            r.push((code, data));
            i = i + 1;
        }
        assert(r@.map_values(|p: (u16, Vec<u8>)| p.0) =~= codes@);
        r
    }

    /// Gives an option its data, in place of what it had.
    pub fn add_option(&mut self, code: u16, data: Vec<u8>)
        ensures
            final(self)@ == (DhcpModel {
                options: old(self)@.options.insert(code, data@),
                ..old(self)@
            }),
    {
        self.options.insert(code, data);
        assert(self@.options =~= old(self)@.options.insert(code, data@));
    }

    /// Removes an option and gives the data that it had.
    pub fn remove_option(&mut self, code: u16) -> (r: Option<Vec<u8>>)
        ensures
            match r {
                Some(d) => old(self)@.options.contains_key(code) && d@ == old(self)@.options[code],
                None => !old(self)@.options.contains_key(code),
            },
            final(self)@ == (DhcpModel {
                options: old(self)@.options.remove(code),
                ..old(self)@
            }),
    {
        let r = self.options.remove(&code);
        assert(self@.options =~= old(self)@.options.remove(code));
        r
    }
}

/// The options of a list of codes, added to others.
spec fn gathered(options: Map<u16, Seq<u8>>, codes: Seq<u16>, read: Map<u16, Seq<u8>>) -> Map<
    u16,
    Seq<u8>,
>
    decreases codes.len(),
{
    if codes.len() == 0 {
        read
    } else {
        gathered(options, codes.skip(1), read.insert(codes[0], options[codes[0]]))
    }
}

proof fn lemma_parse_written(options: Map<u16, Seq<u8>>, codes: Seq<u16>, read: Map<u16, Seq<u8>>)
    requires
        forall|i: int| 0 <= i < codes.len() ==> options[#[trigger] codes[i]].len() <= 0xffff,
    ensures
        parse_options(options_bytes(options, codes), read) == Ok::<Map<u16, Seq<u8>>, Seq<char>>(
            gathered(options, codes, read),
        ),
    decreases codes.len(),
{
    if codes.len() > 0 {
        let code = codes[0];
        let data = options[code];
        let tail = codes.skip(1);
        let wire = options_bytes(options, codes);
        lemma_be2(code);
        lemma_be2(data.len() as u16);
        assert(u16_at(wire, 0) == code);
        assert(u16_at(wire, 2) == data.len());
        assert(wire.subrange(4, 4 + data.len() as int) =~= data);
        assert(wire.skip(4 + data.len() as int) =~= options_bytes(options, tail));
        assert forall|i: int| 0 <= i < tail.len() implies options[#[trigger] tail[i]].len()
            <= 0xffff by {
            assert(tail[i] == codes[i + 1]);
        }
        lemma_parse_written(options, tail, read.insert(code, data));
    }
}

proof fn lemma_gathered(options: Map<u16, Seq<u8>>, codes: Seq<u16>, read: Map<u16, Seq<u8>>)
    ensures
        forall|c: u16| #[trigger]
            gathered(options, codes, read).contains_key(c) <==> codes.contains(c)
                || read.contains_key(c),
        forall|c: u16| codes.contains(c) ==> #[trigger] gathered(options, codes, read)[c]
            == options[c],
        forall|c: u16|
            !codes.contains(c) ==> #[trigger] gathered(options, codes, read)[c] == read[c],
    decreases codes.len(),
{
    if codes.len() > 0 {
        let tail = codes.skip(1);
        let more = read.insert(codes[0], options[codes[0]]);
        lemma_gathered(options, tail, more);
        assert forall|c: u16| #[trigger] codes.contains(c) <==> c == codes[0] || tail.contains(c) by {
            if codes.contains(c) {
                let k = choose|k: int| 0 <= k < codes.len() && codes[k] == c;
                if k > 0 {
                    assert(tail[k - 1] == c);
                }
            }
            if tail.contains(c) {
                let k = choose|k: int| 0 <= k < tail.len() && tail[k] == c;
                assert(codes[k + 1] == c);
            }
        }
        assert(gathered(options, codes, read) == gathered(options, tail, more));
    }
}

/// Reading back a written message gives the message, in whatever order its options were written.
pub proof fn law_message_roundtrip(m: DhcpModel, codes: Seq<u16>)
    requires
        m.transaction_id.len() == 3,
        lists(codes, m.options),
        forall|c: u16| #[trigger] m.options.contains_key(c) ==> m.options[c].len() <= 0xffff,
    ensures
        parse_message(message_bytes(m, codes)) == Ok::<DhcpModel, Seq<char>>(m),
{
    let wire = message_bytes(m, codes);
    assert(wire.skip(4) =~= options_bytes(m.options, codes));
    assert(wire.subrange(1, 4) =~= m.transaction_id);
    assert forall|i: int| 0 <= i < codes.len() implies m.options[#[trigger] codes[i]].len()
        <= 0xffff by {
        assert(codes.contains(codes[i]));
    }
    lemma_parse_written(m.options, codes, Map::empty());
    lemma_gathered(m.options, codes, Map::empty());
    assert(gathered(m.options, codes, Map::empty()) =~= m.options);
}

/// A message is one byte of type, three of transaction, and then options of two bytes of code, two
/// of length and the data.
pub proof fn law_message_layout(m: DhcpModel, codes: Seq<u16>, code: u16, data: Seq<u8>)
    requires
        m.transaction_id.len() == 3,
        data.len() <= 0xffff,
    ensures
        message_bytes(m, codes).len() >= 4,
        message_bytes(m, codes)[0] == m.message_type,
        message_bytes(m, codes).subrange(1, 4) == m.transaction_id,
        message_bytes(m, codes).skip(4) == options_bytes(m.options, codes),
        options_bytes(m.options, Seq::empty()).len() == 0,
        codes.len() > 0 ==> options_bytes(m.options, codes) == option_bytes(
            codes[0],
            m.options[codes[0]],
        ) + options_bytes(m.options, codes.skip(1)),
        option_bytes(code, data).len() == 4 + data.len(),
        u16_at(option_bytes(code, data), 0) == code,
        u16_at(option_bytes(code, data), 2) == data.len(),
        option_bytes(code, data).skip(4) == data,
{
    let w = message_bytes(m, codes);
    assert(w.subrange(1, 4) =~= m.transaction_id);
    assert(w.skip(4) =~= options_bytes(m.options, codes));
    let o = option_bytes(code, data);
    lemma_be2(code);
    lemma_be2(data.len() as u16);
    assert(o.subrange(0, 2) =~= be_bytes(code as nat, 2));
    assert(o.subrange(2, 4) =~= be_bytes(data.len() as nat, 2));
    lemma_u16_field(o, 0, code);
    lemma_u16_field(o, 2, data.len() as u16);
    assert(o.skip(4) =~= data);
}

/// Options are read one after the other; of two with the same code the later one is kept.
pub proof fn law_options_read(code: u16, data: Seq<u8>, rest: Seq<u8>, read: Map<u16, Seq<u8>>)
    requires
        data.len() <= 0xffff,
    ensures
        parse_options(Seq::empty(), read) == Ok::<Map<u16, Seq<u8>>, Seq<char>>(read),
        parse_options(option_bytes(code, data) + rest, read) == parse_options(
            rest,
            read.insert(code, data),
        ),
{
    let o = option_bytes(code, data);
    let s = o + rest;
    lemma_be2(code);
    lemma_be2(data.len() as u16);
    assert(s.subrange(0, 2) =~= be_bytes(code as nat, 2));
    assert(s.subrange(2, 4) =~= be_bytes(data.len() as nat, 2));
    lemma_u16_field(s, 0, code);
    lemma_u16_field(s, 2, data.len() as u16);
    assert(s.subrange(4, (4 + data.len()) as int) =~= data);
    assert(s.skip((4 + data.len()) as int) =~= rest);
}

/// A packet is refused where it is shorter than four bytes, where less than the header of an option
/// is left, and where an option is longer than what is left.
pub proof fn law_truncated_packets(data: Seq<u8>, read: Map<u16, Seq<u8>>)
    ensures
        data.len() < 4 ==> parse_message(data) is Err,
        0 < data.len() < 4 ==> parse_options(data, read) is Err,
        data.len() >= 4 && 4 + u16_at(data, 2) > data.len() ==> parse_options(data, read) is Err,
        data.len() >= 4 ==> (parse_message(data) is Ok <==> parse_options(
            data.skip(4),
            Map::empty(),
        ) is Ok),
{
}

} // verus!
