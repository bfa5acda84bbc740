//! Building DHCPv6 options.
use vstd::prelude::*;
use vstd::utf8::encode_utf8;
use crate::dhcp::v6::constants::{
    OPTION_CLIENT_ID, OPTION_DNS_SERVER, OPTION_DOMAIN_SEARCH, OPTION_ELAPSED_TIME, OPTION_FQDN, OPTION_IAADDR,
    OPTION_IAPREFIX, OPTION_IA_NA, OPTION_IA_PD, OPTION_IA_TA, OPTION_NTP_SERVER, OPTION_ORO,
    OPTION_PREFERENCE, OPTION_RAPID_COMMIT, OPTION_SERVER_ID, OPTION_STATUS_CODE, OPTION_USER_CLASS,
    OPTION_VENDOR_CLASS,
};
use crate::dhcp::v6::message::option_bytes;
use crate::error::DhcpError;
use crate::text::{chars_of, dec, deep, message1, message_text, split_chars, split_on, string_of};
use crate::types::Ipv6Addr;
use crate::wire::{be_bytes, lemma_be2, lemma_be_bytes_len, lemma_u32_field, put_slice, u16_at, u32_at};

verus! {

/// Builds options one after the other. An option that holds others is opened and closed; its
/// length is filled in when it is closed.
#[derive(Debug)]
pub struct OptionBuilder {
    /// The bytes so far.
    pub buffer: Vec<u8>,
    /// Where the options that are still open start.
    pub container_stack: Vec<usize>,
}

/// True of a protocol error with the given reason.
pub open spec fn protocol_error(e: DhcpError, reason: Seq<char>) -> bool {
    e matches DhcpError::V6ProtocolError { reason: r } && r@ == reason
}

/// A protocol error.
pub fn protocol_failure(reason: String) -> (e: DhcpError)
    ensures
        protocol_error(e, reason@),
{
    DhcpError::V6ProtocolError { reason }
}

/// Addresses one after the other.
pub open spec fn address_bytes(addrs: Seq<Ipv6Addr>) -> Seq<u8>
    decreases addrs.len(),
{
    if addrs.len() == 0 {
        Seq::empty()
    } else {
        address_bytes(addrs.drop_last()) + addrs.last().spec_octets()
    }
}

/// Option codes one after the other.
pub open spec fn code_bytes(codes: Seq<u16>) -> Seq<u8>
    decreases codes.len(),
{
    if codes.len() == 0 {
        Seq::empty()
    } else {
        code_bytes(codes.drop_last()) + be_bytes(codes.last() as nat, 2)
    }
}

/// What the texts of a list are.
pub open spec fn str_models(v: Seq<&str>) -> Seq<Seq<char>> {
    v.map_values(|s: &str| s@)
}

/// Class texts, each after its length, up to the first that is too long.
pub open spec fn class_bytes(classes: Seq<Seq<char>>) -> Seq<u8>
    decreases classes.len(),
{
    if classes.len() == 0 {
        Seq::empty()
    } else {
        let data = encode_utf8(classes[0]);
        if data.len() > 0xffff {
            Seq::empty()
        } else {
            be_bytes(data.len(), 2) + data + class_bytes(classes.skip(1))
        }
    }
}

/// The length of the first class text that is too long.
pub open spec fn long_class(classes: Seq<Seq<char>>) -> Option<nat>
    decreases classes.len(),
{
    if classes.len() == 0 {
        None
    } else if encode_utf8(classes[0]).len() > 0xffff {
        Some(encode_utf8(classes[0]).len())
    } else {
        long_class(classes.skip(1))
    }
}

/// Labels, each after its length, up to the first that is too long; empty labels may be left out.
pub open spec fn label_bytes(labels: Seq<Seq<char>>, keep_empty: bool) -> Seq<u8>
    decreases labels.len(),
{
    if labels.len() == 0 {
        Seq::empty()
    } else if labels[0].len() == 0 && !keep_empty {
        label_bytes(labels.skip(1), keep_empty)
    } else {
        let data = encode_utf8(labels[0]);
        if data.len() > 63 {
            Seq::empty()
        } else {
            seq![data.len() as u8] + data + label_bytes(labels.skip(1), keep_empty)
        }
    }
}

/// The first label that is too long.
pub open spec fn long_label(labels: Seq<Seq<char>>) -> Option<Seq<char>>
    decreases labels.len(),
{
    if labels.len() == 0 {
        None
    } else if encode_utf8(labels[0]).len() > 63 {
        Some(labels[0])
    } else {
        long_label(labels.skip(1))
    }
}

/// Domain names, each as its labels and a zero, up to the first label that is too long.
pub open spec fn domain_bytes(domains: Seq<Seq<char>>) -> Seq<u8>
    decreases domains.len(),
{
    if domains.len() == 0 {
        Seq::empty()
    } else {
        let labels = split_on(domains[0], '.');
        if long_label(labels) is Some {
            label_bytes(labels, true)
        } else {
            label_bytes(labels, true) + seq![0u8] + domain_bytes(domains.skip(1))
        }
    }
}

/// The first label of the domain names that is too long.
pub open spec fn long_domain_label(domains: Seq<Seq<char>>) -> Option<Seq<char>>
    decreases domains.len(),
{
    if domains.len() == 0 {
        None
    } else {
        match long_label(split_on(domains[0], '.')) {
            Some(l) => Some(l),
            None => long_domain_label(domains.skip(1)),
        }
    }
}

/// Appends labels, each after its length; gives the first that is too long, with which it stops.
pub fn append_labels(buffer: &mut Vec<u8>, labels: &Vec<Vec<char>>, keep_empty: bool) -> (r: Option<
    String,
>)
    ensures
        final(buffer)@ == old(buffer)@ + label_bytes(deep(labels@), keep_empty),
        match (r, long_label(deep(labels@))) {
            (Some(l), Some(w)) => l@ == w,
            (None, None) => true,
            _ => false,
        },
{
    let ghost all = deep(labels@);
    let mut i: usize = 0;
    assert(all.skip(0) =~= all);
    while i < labels.len()
        invariant
            i <= labels@.len(),
            all == deep(labels@),
            buffer@ + label_bytes(all.skip(i as int), keep_empty) == old(buffer)@ + label_bytes(
                all,
                keep_empty,
            ),
            long_label(all.skip(i as int)) == long_label(all),
        decreases labels@.len() - i,
    {
        let ghost before = buffer@;
        proof {
            assert(all.skip(i as int)[0] == all[i as int]);
            assert(all[i as int] == labels@[i as int]@);
            assert(all.skip(i as int).skip(1) =~= all.skip(i + 1));
        }
        let text = string_of(labels[i].as_slice());
        let data = text.as_str().as_bytes();
        if data.len() > 63 {
            assert(buffer@ =~= old(buffer)@ + label_bytes(all, keep_empty)) by {
                assert(labels@[i as int]@.len() > 0);
            }
            return Some(text);
        }
        if keep_empty || labels[i].len() > 0 {
            buffer.push(data.len() as u8);
            put_slice(buffer, data);
            assert(buffer@ + label_bytes(all.skip(i + 1), keep_empty) =~= before + label_bytes(
                all.skip(i as int),
                keep_empty,
            ));
        }
        i = i + 1;
    }
    assert(buffer@ =~= old(buffer)@ + label_bytes(all, keep_empty)) by {
        assert(all.skip(i as int) =~= Seq::<Seq<char>>::empty());
    }
    None
}

/// The bytes of a list of addresses.
pub fn address_list(addrs: &[Ipv6Addr]) -> (r: Vec<u8>)
    ensures
        r@ == address_bytes(addrs@),
{
    let mut data: Vec<u8> = Vec::new();
    let mut i: usize = 0;
    assert(addrs@.take(0) =~= Seq::<Ipv6Addr>::empty());
    while i < addrs.len()
        invariant
            i <= addrs@.len(),
            data@ == address_bytes(addrs@.take(i as int)),
        decreases addrs@.len() - i,
    {
        assert(addrs@.take(i + 1).drop_last() =~= addrs@.take(i as int));
        put_slice(&mut data, addrs[i].octets().as_slice());
        i = i + 1;
    }
    assert(addrs@.take(i as int) =~= addrs@);
    data
}

/// The header of an option that is not closed yet.
pub open spec fn open_header(code: u16) -> Seq<u8> {
    be_bytes(code as nat, 2) + be_bytes(0, 2)
}

/// A buffer in which the length of the option that starts at `pos` is filled in.
pub open spec fn closed_at(buffer: Seq<u8>, pos: int) -> Seq<u8> {
    let len = be_bytes(((buffer.len() - pos - 4) as u16) as nat, 2);
    buffer.update(pos + 2, len[0]).update(pos + 3, len[1])
}

impl OptionBuilder {
    /// True when what is to be closed next starts within the buffer.
    pub open spec fn closable(self) -> bool {
        self.container_stack@.len() > 0 ==> self.container_stack@.last() <= self.buffer@.len()
    }

    /// The state after bytes have been appended.
    pub open spec fn extended(self, after: OptionBuilder, data: Seq<u8>) -> bool {
        after.buffer@ == self.buffer@ + data && after.container_stack@ == self.container_stack@
    }

    /// The state after an option has been opened and bytes have been appended.
    pub open spec fn opened(self, after: OptionBuilder, code: u16, data: Seq<u8>) -> bool {
        after.buffer@ == self.buffer@ + open_header(code) + data && after.container_stack@
            == self.container_stack@.push(self.buffer.len())
    }

    /// What closing an option comes to.
    pub open spec fn closed(self, after: OptionBuilder, r: Result<(), DhcpError>) -> bool {
        if self.container_stack@.len() == 0 {
            after.buffer@ == self.buffer@ && after.container_stack@ == self.container_stack@ && (
            r matches Err(e) && protocol_error(
                e,
                "end_container called without matching start_container"@,
            ))
        } else {
            let pos = self.container_stack@.last() as int;
            let total = (self.buffer@.len() - pos) as nat;
            after.container_stack@ == self.container_stack@.drop_last() && if total < 4 {
                after.buffer@ == self.buffer@ && (r matches Err(e) && protocol_error(
                    e,
                    "Invalid container length: "@ + dec(total) + ""@,
                ))
            } else {
                after.buffer@ == closed_at(self.buffer@, pos) && r is Ok
            }
        }
    }

    /// An empty builder.
    pub fn new() -> (r: Self)
        ensures
            r.buffer@ == Seq::<u8>::empty(),
            r.container_stack@ == Seq::<usize>::empty(),
    {
        OptionBuilder { buffer: Vec::new(), container_stack: Vec::new() }
    }

    /// Appends the header of an option; its length is zero for now.
    pub fn new_option(&mut self, option_code: u16) -> (r: Result<(), DhcpError>)
        ensures
            r is Ok,
            old(self).extended(*final(self), open_header(option_code)),
    {
        crate::wire::put_u16(&mut self.buffer, option_code);
        crate::wire::put_u16(&mut self.buffer, 0);
        assert(self.buffer@ =~= old(self).buffer@ + open_header(option_code));
        Ok(())
    }

    /// Appends bytes.
    pub fn put_bytes(&mut self, data: &[u8]) -> (r: Result<(), DhcpError>)
        ensures
            r is Ok,
            old(self).extended(*final(self), data@),
    {
        put_slice(&mut self.buffer, data);
        Ok(())
    }

    /// Appends a 32-bit number.
    pub fn put_u32(&mut self, value: u32) -> (r: Result<(), DhcpError>)
        ensures
            r is Ok,
            old(self).extended(*final(self), be_bytes(value as nat, 4)),
    {
        crate::wire::put_u32(&mut self.buffer, value);
        Ok(())
    }

    /// Appends a 16-bit number.
    pub fn put_u16(&mut self, value: u16) -> (r: Result<(), DhcpError>)
        ensures
            r is Ok,
            old(self).extended(*final(self), be_bytes(value as nat, 2)),
    {
        crate::wire::put_u16(&mut self.buffer, value);
        Ok(())
    }

    /// Appends a byte.
    pub fn put_u8(&mut self, value: u8) -> (r: Result<(), DhcpError>)
        ensures
            r is Ok,
            old(self).extended(*final(self), seq![value]),
    {
        self.buffer.push(value);
        assert(self.buffer@ =~= old(self).buffer@ + seq![value]);
        Ok(())
    }

    /// Appends the bytes of a text.
    pub fn put_string(&mut self, s: &str) -> (r: Result<(), DhcpError>)
        ensures
            r is Ok,
            old(self).extended(*final(self), encode_utf8(s@)),
    {
        put_slice(&mut self.buffer, s.as_bytes());
        Ok(())
    }

    /// Appends the bytes of an address.
    pub fn put_ipv6_addr(&mut self, addr: &Ipv6Addr) -> (r: Result<(), DhcpError>)
        ensures
            r is Ok,
            old(self).extended(*final(self), addr.spec_octets()),
    {
        put_slice(&mut self.buffer, addr.octets().as_slice());
        Ok(())
    }

    /// Opens an option.
    pub fn start_container(&mut self, option_code: u16) -> (r: Result<(), DhcpError>)
        ensures
            r is Ok,
            old(self).opened(*final(self), option_code, Seq::empty()),
    {
        let pos: usize = self.buffer.len();
        self.container_stack.push(pos);
        let r = self.new_option(option_code);
        assert(self.buffer@ =~= old(self).buffer@ + open_header(option_code) + Seq::<u8>::empty());
        r
    }

    /// Closes the option that was opened last and fills in its length.
    pub fn end_container(&mut self) -> (r: Result<(), DhcpError>)
        requires
            old(self).closable(),
        ensures
            old(self).closed(*final(self), r),
    {
        let pos: usize = match self.container_stack.pop() {
            Some(p) => p,
            None => {
                return Err(
                    protocol_failure(
                        String::from_str("end_container called without matching start_container"),
                    ),
                );
            },
        };
        let total: usize = self.buffer.len() - pos;
        if total < 4 {
            return Err(
                protocol_failure(message1("Invalid container length: ", total as u64, "")),
            );
        }
        let len: u16 = (total - 4) as u16;
        proof {
            lemma_be2(len);
        }
        self.buffer.set(pos + 2, (len / 256) as u8);
        self.buffer.set(pos + 3, (len % 256) as u8);
        assert(self.buffer@ =~= closed_at(old(self).buffer@, pos as int));
        Ok(())
    }

    /// The bytes.
    pub fn build(self) -> (r: Vec<u8>)
        ensures
            r@ == self.buffer@,
    {
        self.buffer
    }

    /// Closes an option that was opened after `start`, after which `data` was appended.
    fn finish(&mut self, Ghost(start): Ghost<OptionBuilder>, Ghost(code): Ghost<u16>, Ghost(data): Ghost<
        Seq<u8>,
    >) -> (r: Result<(), DhcpError>)
        requires
            start.opened(*old(self), code, data),
        ensures
            r is Ok,
            start.extended(*final(self), option_bytes(code, data)),
    {
        proof {
            lemma_closed(start.buffer@, code, data);
            assert(start.container_stack@.push(start.buffer.len()).drop_last()
                =~= start.container_stack@);
            assert(start.buffer.len() == start.buffer@.len());
            lemma_be2(code);
            lemma_be2(0);
        }
        self.end_container()
    }

    /// Appends an option with the given data.
    fn put_option(&mut self, code: u16, data: &[u8]) -> (r: Result<(), DhcpError>)
        ensures
            r is Ok,
            old(self).extended(*final(self), option_bytes(code, data@)),
    {
        let _ = self.start_container(code);
        let _ = self.put_bytes(data);
        assert(self.buffer@ =~= old(self).buffer@ + open_header(code) + data@);
        self.finish(Ghost(*old(self)), Ghost(code), Ghost(data@))
    }

    /// Appends the identifier of the client.
    pub fn put_client_id(&mut self, duid: &[u8]) -> (r: Result<(), DhcpError>)
        ensures
            r is Ok,
            old(self).extended(*final(self), option_bytes(OPTION_CLIENT_ID, duid@)),
    {
        self.put_option(OPTION_CLIENT_ID, duid)
    }

    /// Appends the identifier of the server.
    pub fn put_server_id(&mut self, duid: &[u8]) -> (r: Result<(), DhcpError>)
        ensures
            r is Ok,
            old(self).extended(*final(self), option_bytes(OPTION_SERVER_ID, duid@)),
    {
        self.put_option(OPTION_SERVER_ID, duid)
    }

    /// Appends the list of options that a client asks for.
    pub fn put_option_request(&mut self, requested_options: &[u16]) -> (r: Result<(), DhcpError>)
        ensures
            r is Ok,
            old(self).extended(
                *final(self),
                option_bytes(OPTION_ORO, code_bytes(requested_options@)),
            ),
    {
        let mut data: Vec<u8> = Vec::new();
        let mut i: usize = 0;
        assert(requested_options@.take(0) =~= Seq::<u16>::empty());
        while i < requested_options.len()
            invariant
                i <= requested_options@.len(),
                data@ == code_bytes(requested_options@.take(i as int)),
            decreases requested_options@.len() - i,
        {
            assert(requested_options@.take(i + 1).drop_last() =~= requested_options@.take(i as int));
            crate::wire::put_u16(&mut data, requested_options[i]);
            i = i + 1;
        }
        assert(requested_options@.take(i as int) =~= requested_options@);
        self.put_option(OPTION_ORO, data.as_slice())
    }

    /// Appends the preference of a server.
    pub fn put_preference(&mut self, preference: u8) -> (r: Result<(), DhcpError>)
        ensures
            r is Ok,
            old(self).extended(*final(self), option_bytes(OPTION_PREFERENCE, seq![preference])),
    {
        let data: Vec<u8> = vec![preference];
        assert(data@ =~= seq![preference]);
        self.put_option(OPTION_PREFERENCE, data.as_slice())
    }

    /// Appends the time since the exchange began.
    pub fn put_elapsed_time(&mut self, elapsed_time_centiseconds: u16) -> (r: Result<(), DhcpError>)
        ensures
            r is Ok,
            old(self).extended(
                *final(self),
                option_bytes(OPTION_ELAPSED_TIME, be_bytes(elapsed_time_centiseconds as nat, 2)),
            ),
    {
        let mut data: Vec<u8> = Vec::new();
        crate::wire::put_u16(&mut data, elapsed_time_centiseconds);
        assert(data@ =~= be_bytes(elapsed_time_centiseconds as nat, 2));
        self.put_option(OPTION_ELAPSED_TIME, data.as_slice())
    }

    /// Appends a status with a text.
    pub fn put_status_code(&mut self, status_code: u16, message: &str) -> (r: Result<(), DhcpError>)
        ensures
            r is Ok,
            old(self).extended(
                *final(self),
                option_bytes(
                    OPTION_STATUS_CODE,
                    be_bytes(status_code as nat, 2) + encode_utf8(message@),
                ),
            ),
    {
        let mut data: Vec<u8> = Vec::new();
        crate::wire::put_u16(&mut data, status_code);
        put_slice(&mut data, message.as_bytes());
        assert(data@ =~= be_bytes(status_code as nat, 2) + encode_utf8(message@));
        self.put_option(OPTION_STATUS_CODE, data.as_slice())
    }

    /// Appends the mark for an exchange of two messages, which has no data.
    pub fn put_rapid_commit(&mut self) -> (r: Result<(), DhcpError>)
        ensures
            r is Ok,
            old(self).extended(*final(self), option_bytes(OPTION_RAPID_COMMIT, Seq::empty())),
    {
        let data: Vec<u8> = Vec::new();
        assert(data@ =~= Seq::<u8>::empty());
        self.put_option(OPTION_RAPID_COMMIT, data.as_slice())
    }

    /// Appends class texts, each after its length; gives the length of the first that is too long,
    /// with which it stops.
    fn put_classes(&mut self, classes: &[&str]) -> (r: Option<usize>)
        ensures
            old(self).extended(*final(self), class_bytes(str_models(classes@))),
            match (r, long_class(str_models(classes@))) {
                (Some(n), Some(w)) => n == w,
                (None, None) => true,
                _ => false,
            },
    {
        let ghost all = str_models(classes@);
        let mut i: usize = 0;
        assert(all.skip(0) =~= all);
        while i < classes.len()
            invariant
                i <= classes@.len(),
                all == str_models(classes@),
                self.container_stack@ == old(self).container_stack@,
                self.buffer@ + class_bytes(all.skip(i as int)) == old(self).buffer@ + class_bytes(
                    all,
                ),
                long_class(all.skip(i as int)) == long_class(all),
            decreases classes@.len() - i,
        {
            let class: &str = classes[i];
            let data = class.as_bytes();
            let ghost before = self.buffer@;
            proof {
                assert(all.skip(i as int)[0] == all[i as int]);
                assert(all[i as int] == class@);
                assert(all.skip(i as int).skip(1) =~= all.skip(i + 1));
            }
            if data.len() > 0xffff {
                assert(self.buffer@ =~= old(self).buffer@ + class_bytes(all));
                return Some(data.len());
            }
            let _ = self.put_u16(data.len() as u16);
            let _ = self.put_bytes(data);
            assert(self.buffer@ + class_bytes(all.skip(i + 1)) =~= before + class_bytes(
                all.skip(i as int),
            ));
            i = i + 1;
        }
        assert(self.buffer@ =~= old(self).buffer@ + class_bytes(all)) by {
            assert(all.skip(i as int) =~= Seq::<Seq<char>>::empty());
        }
        None
    }

    /// Appends the classes of the user. A class that is too long is an error and leaves the option
    /// open after the classes before it.
    pub fn put_user_class(&mut self, user_classes: &[&str]) -> (r: Result<(), DhcpError>)
        ensures
            ({
                let classes = str_models(user_classes@);
                match long_class(classes) {
                    None => r is Ok && old(self).extended(
                        *final(self),
                        option_bytes(OPTION_USER_CLASS, class_bytes(classes)),
                    ),
                    Some(n) => old(self).opened(
                        *final(self),
                        OPTION_USER_CLASS,
                        class_bytes(classes),
                    ) && (r matches Err(e) && protocol_error(
                        e,
                        "User class too long: "@ + dec(n) + " bytes"@,
                    )),
                }
            }),
    {
        let _ = self.start_container(OPTION_USER_CLASS);
        let long = self.put_classes(user_classes);
        let ghost data = class_bytes(str_models(user_classes@));
        assert(self.buffer@ =~= old(self).buffer@ + open_header(OPTION_USER_CLASS) + data);
        match long {
            Some(n) => Err(
                protocol_failure(message1("User class too long: ", n as u64, " bytes")),
            ),
            None => self.finish(Ghost(*old(self)), Ghost(OPTION_USER_CLASS), Ghost(data)),
        }
    }

    /// Appends the classes of the vendor. A class that is too long is an error and leaves the
    /// option open after the classes before it.
    pub fn put_vendor_class(&mut self, enterprise_number: u32, vendor_classes: &[&str]) -> (r: Result<
        (),
        DhcpError,
    >)
        ensures
            ({
                let classes = str_models(vendor_classes@);
                let data = be_bytes(enterprise_number as nat, 4) + class_bytes(classes);
                match long_class(classes) {
                    None => r is Ok && old(self).extended(
                        *final(self),
                        option_bytes(OPTION_VENDOR_CLASS, data),
                    ),
                    Some(n) => old(self).opened(*final(self), OPTION_VENDOR_CLASS, data) && (
                    r matches Err(e) && protocol_error(
                        e,
                        "Vendor class too long: "@ + dec(n) + " bytes"@,
                    )),
                }
            }),
    {
        let _ = self.start_container(OPTION_VENDOR_CLASS);
        let _ = self.put_u32(enterprise_number);
        let long = self.put_classes(vendor_classes);
        let ghost data = be_bytes(enterprise_number as nat, 4) + class_bytes(
            str_models(vendor_classes@),
        );
        assert(self.buffer@ =~= old(self).buffer@ + open_header(OPTION_VENDOR_CLASS) + data);
        match long {
            Some(n) => Err(
                protocol_failure(message1("Vendor class too long: ", n as u64, " bytes")),
            ),
            None => self.finish(Ghost(*old(self)), Ghost(OPTION_VENDOR_CLASS), Ghost(data)),
        }
    }

    /// Appends an option that lists addresses.
    fn put_addresses(&mut self, code: u16, addrs: &[Ipv6Addr]) -> (r: Result<(), DhcpError>)
        ensures
            r is Ok,
            old(self).extended(*final(self), option_bytes(code, address_bytes(addrs@))),
    {
        let data = address_list(addrs);
        self.put_option(code, data.as_slice())
    }

    /// Appends the addresses of DNS servers.
    pub fn put_dns_servers(&mut self, dns_servers: &[Ipv6Addr]) -> (r: Result<(), DhcpError>)
        ensures
            r is Ok,
            old(self).extended(
                *final(self),
                option_bytes(OPTION_DNS_SERVER, address_bytes(dns_servers@)),
            ),
    {
        self.put_addresses(OPTION_DNS_SERVER, dns_servers)
    }

    /// Appends the addresses of time servers.
    pub fn put_ntp_server(&mut self, ntp_servers: &[Ipv6Addr]) -> (r: Result<(), DhcpError>)
        ensures
            r is Ok,
            old(self).extended(
                *final(self),
                option_bytes(OPTION_NTP_SERVER, address_bytes(ntp_servers@)),
            ),
    {
        self.put_addresses(OPTION_NTP_SERVER, ntp_servers)
    }

    /// Appends labels, each after its length; gives the first that is too long, with which it
    /// stops.
    fn put_labels(&mut self, labels: &Vec<Vec<char>>, keep_empty: bool) -> (r: Option<String>)
        ensures
            old(self).extended(*final(self), label_bytes(deep(labels@), keep_empty)),
            match (r, long_label(deep(labels@))) {
                (Some(l), Some(w)) => l@ == w,
                (None, None) => true,
                _ => false,
            },
    {
        append_labels(&mut self.buffer, labels, keep_empty)
    }

    /// Appends the DNS search list. A label that is too long is an error and leaves the option
    /// open after the labels before it.
    pub fn put_domain_list(&mut self, domains: &[&str]) -> (r: Result<(), DhcpError>)
        ensures
            ({
                let names = str_models(domains@);
                match long_domain_label(names) {
                    None => r is Ok && old(self).extended(
                        *final(self),
                        option_bytes(OPTION_DOMAIN_SEARCH, domain_bytes(names)),
                    ),
                    Some(l) => old(self).opened(
                        *final(self),
                        OPTION_DOMAIN_SEARCH,
                        domain_bytes(names),
                    ) && (r matches Err(e) && protocol_error(
                        e,
                        "Domain label too long: "@ + l + ""@,
                    )),
                }
            }),
    {
        let ghost all = str_models(domains@);
        let ghost header = old(self).buffer@ + open_header(OPTION_DOMAIN_SEARCH);
        let _ = self.start_container(OPTION_DOMAIN_SEARCH);
        let mut i: usize = 0;
        proof {
            assert(all.skip(0) =~= all);
            assert(self.buffer@ =~= header);
        }
        while i < domains.len()
            invariant
                i <= domains@.len(),
                all == str_models(domains@),
                header == old(self).buffer@ + open_header(OPTION_DOMAIN_SEARCH),
                self.container_stack@ == old(self).container_stack@.push(old(self).buffer.len()),
                self.buffer@ + domain_bytes(all.skip(i as int)) == header + domain_bytes(all),
                long_domain_label(all.skip(i as int)) == long_domain_label(all),
            decreases domains@.len() - i,
        {
            let ghost before = self.buffer@;
            let domain: &str = domains[i];
            proof {
                assert(all.skip(i as int)[0] == all[i as int]);
                assert(all[i as int] == domain@);
                assert(all.skip(i as int).skip(1) =~= all.skip(i + 1));
            }
            let chars = chars_of(domain);
            let labels = split_chars(chars.as_slice(), '.');
            if let Some(label) = self.put_labels(&labels, true) {
                assert(self.buffer@ =~= header + domain_bytes(all));
                return Err(
                    protocol_failure(message_text("Domain label too long: ", label.as_str(), "")),
                );
            }
            let _ = self.put_u8(0);
            assert(self.buffer@ + domain_bytes(all.skip(i + 1)) =~= before + domain_bytes(
                all.skip(i as int),
            ));
            i = i + 1;
        }
        assert(self.buffer@ =~= header + domain_bytes(all)) by {
            assert(all.skip(i as int) =~= Seq::<Seq<char>>::empty());
        }
        self.finish(Ghost(*old(self)), Ghost(OPTION_DOMAIN_SEARCH), Ghost(domain_bytes(all)))
    }

    /// Appends the name of the client after flags. Empty labels are left out; a label that is too
    /// long is an error and leaves the option open after the labels before it.
    pub fn put_fqdn(&mut self, flags: u8, fqdn: &str) -> (r: Result<(), DhcpError>)
        ensures
            ({
                let labels = split_on(fqdn@, '.');
                match long_label(labels) {
                    None => r is Ok && old(self).extended(
                        *final(self),
                        option_bytes(
                            OPTION_FQDN,
                            seq![flags] + label_bytes(labels, false) + seq![0u8],
                        ),
                    ),
                    Some(l) => old(self).opened(
                        *final(self),
                        OPTION_FQDN,
                        seq![flags] + label_bytes(labels, false),
                    ) && (r matches Err(e) && protocol_error(
                        e,
                        "FQDN label too long: "@ + l + ""@,
                    )),
                }
            }),
    {
        let _ = self.start_container(OPTION_FQDN);
        let _ = self.put_u8(flags);
        let chars = chars_of(fqdn);
        let labels = split_chars(chars.as_slice(), '.');
        let ghost data = seq![flags] + label_bytes(deep(labels@), false);
        if let Some(label) = self.put_labels(&labels, false) {
            assert(self.buffer@ =~= old(self).buffer@ + open_header(OPTION_FQDN) + data);
            return Err(
                protocol_failure(message_text("FQDN label too long: ", label.as_str(), "")),
            );
        }
        let _ = self.put_u8(0);
        assert(self.buffer@ =~= old(self).buffer@ + open_header(OPTION_FQDN) + (data + seq![0u8]));
        self.finish(Ghost(*old(self)), Ghost(OPTION_FQDN), Ghost(data + seq![0u8]))
    }

    /// What the end of an option that holds others comes to, after the function for the others has
    /// given `inner` and left the builder as it is: the option is closed unless the function failed.
    pub open spec fn finished(
        self,
        after: OptionBuilder,
        inner: Result<(), DhcpError>,
        r: Result<(), DhcpError>,
    ) -> bool {
        match inner {
            Ok(_) => self.closed(after, r),
            Err(_) => after == self && r == inner,
        }
    }

    /// Appends an association for lasting addresses; `sub_options_fn` appends what it holds.
    pub fn put_ia_na<F>(&mut self, iaid: u32, t1: u32, t2: u32, sub_options_fn: F) -> (r: Result<(), DhcpError>) where
        F: FnOnce(&mut Self) -> Result<(), DhcpError>,

        requires
            forall|b: &mut OptionBuilder|
                old(self).opened(*b, OPTION_IA_NA, ia_header(iaid, t1, t2))
                    ==> #[trigger] call_requires(sub_options_fn, (b,)),
            forall|b: &mut OptionBuilder, inner: Result<(), DhcpError>|
                old(self).opened(*b, OPTION_IA_NA, ia_header(iaid, t1, t2)) && #[trigger] call_ensures(
                    sub_options_fn,
                    (b,),
                    inner,
                ) ==> final(b).closable(),
        ensures
            exists|b: &mut OptionBuilder, inner: Result<(), DhcpError>|
                old(self).opened(*b, OPTION_IA_NA, ia_header(iaid, t1, t2)) && #[trigger] call_ensures(
                    sub_options_fn,
                    (b,),
                    inner,
                ) && final(b).finished(*final(self), inner, r),
    {
        let _ = self.start_container(OPTION_IA_NA);
        let _ = self.put_u32(iaid);
        let _ = self.put_u32(t1);
        let _ = self.put_u32(t2);
        assert(self.buffer@ =~= old(self).buffer@ + open_header(OPTION_IA_NA) + ia_header(iaid, t1, t2));
        match sub_options_fn(self) {
            Ok(_) => self.end_container(),
            Err(e) => Err(e),
        }
    }

    /// Appends an association for temporary addresses.
    pub fn put_ia_ta<F>(&mut self, iaid: u32, sub_options_fn: F) -> (r: Result<(), DhcpError>) where
        F: FnOnce(&mut Self) -> Result<(), DhcpError>,

        requires
            forall|b: &mut OptionBuilder|
                old(self).opened(*b, OPTION_IA_TA, be_bytes(iaid as nat, 4))
                    ==> #[trigger] call_requires(sub_options_fn, (b,)),
            forall|b: &mut OptionBuilder, inner: Result<(), DhcpError>|
                old(self).opened(*b, OPTION_IA_TA, be_bytes(iaid as nat, 4)) && #[trigger] call_ensures(
                    sub_options_fn,
                    (b,),
                    inner,
                ) ==> final(b).closable(),
        ensures
            exists|b: &mut OptionBuilder, inner: Result<(), DhcpError>|
                old(self).opened(*b, OPTION_IA_TA, be_bytes(iaid as nat, 4)) && #[trigger] call_ensures(
                    sub_options_fn,
                    (b,),
                    inner,
                ) && final(b).finished(*final(self), inner, r),
    {
        let _ = self.start_container(OPTION_IA_TA);
        let _ = self.put_u32(iaid);
        assert(self.buffer@ =~= old(self).buffer@ + open_header(OPTION_IA_TA) + be_bytes(iaid as nat, 4));
        match sub_options_fn(self) {
            Ok(_) => self.end_container(),
            Err(e) => Err(e),
        }
    }

    /// Appends an association for delegated prefixes.
    pub fn put_ia_pd<F>(&mut self, iaid: u32, t1: u32, t2: u32, sub_options_fn: F) -> (r: Result<(), DhcpError>) where
        F: FnOnce(&mut Self) -> Result<(), DhcpError>,

        requires
            forall|b: &mut OptionBuilder|
                old(self).opened(*b, OPTION_IA_PD, ia_header(iaid, t1, t2))
                    ==> #[trigger] call_requires(sub_options_fn, (b,)),
            forall|b: &mut OptionBuilder, inner: Result<(), DhcpError>|
                old(self).opened(*b, OPTION_IA_PD, ia_header(iaid, t1, t2)) && #[trigger] call_ensures(
                    sub_options_fn,
                    (b,),
                    inner,
                ) ==> final(b).closable(),
        ensures
            exists|b: &mut OptionBuilder, inner: Result<(), DhcpError>|
                old(self).opened(*b, OPTION_IA_PD, ia_header(iaid, t1, t2)) && #[trigger] call_ensures(
                    sub_options_fn,
                    (b,),
                    inner,
                ) && final(b).finished(*final(self), inner, r),
    {
        let _ = self.start_container(OPTION_IA_PD);
        let _ = self.put_u32(iaid);
        let _ = self.put_u32(t1);
        let _ = self.put_u32(t2);
        assert(self.buffer@ =~= old(self).buffer@ + open_header(OPTION_IA_PD) + ia_header(iaid, t1, t2));
        match sub_options_fn(self) {
            Ok(_) => self.end_container(),
            Err(e) => Err(e),
        }
    }

    /// Appends an address of an association.
    pub fn put_ia_addr<F>(&mut self, addr: &Ipv6Addr, preferred_lifetime: u32, valid_lifetime: u32, sub_options_fn: F) -> (r: Result<(), DhcpError>) where
        F: FnOnce(&mut Self) -> Result<(), DhcpError>,

        requires
            forall|b: &mut OptionBuilder|
                old(self).opened(*b, OPTION_IAADDR, addr_header(*addr, preferred_lifetime, valid_lifetime))
                    ==> #[trigger] call_requires(sub_options_fn, (b,)),
            forall|b: &mut OptionBuilder, inner: Result<(), DhcpError>|
                old(self).opened(*b, OPTION_IAADDR, addr_header(*addr, preferred_lifetime, valid_lifetime)) && #[trigger] call_ensures(
                    sub_options_fn,
                    (b,),
                    inner,
                ) ==> final(b).closable(),
        ensures
            exists|b: &mut OptionBuilder, inner: Result<(), DhcpError>|
                old(self).opened(*b, OPTION_IAADDR, addr_header(*addr, preferred_lifetime, valid_lifetime)) && #[trigger] call_ensures(
                    sub_options_fn,
                    (b,),
                    inner,
                ) && final(b).finished(*final(self), inner, r),
    {
        let _ = self.start_container(OPTION_IAADDR);
        let _ = self.put_ipv6_addr(addr);
        let _ = self.put_u32(preferred_lifetime);
        let _ = self.put_u32(valid_lifetime);
        assert(self.buffer@ =~= old(self).buffer@ + open_header(OPTION_IAADDR) + addr_header(*addr, preferred_lifetime, valid_lifetime));
        match sub_options_fn(self) {
            Ok(_) => self.end_container(),
            Err(e) => Err(e),
        }
    }

    /// Appends a prefix of an association. A prefix longer than an address is refused.
    pub fn put_ia_prefix<F>(&mut self, prefix: &Ipv6Addr, prefix_len: u8, preferred_lifetime: u32, valid_lifetime: u32, sub_options_fn: F) -> (r: Result<(), DhcpError>) where
        F: FnOnce(&mut Self) -> Result<(), DhcpError>,

        requires
            forall|b: &mut OptionBuilder|
                prefix_len <= 128 && old(self).opened(*b, OPTION_IAPREFIX, prefix_header(*prefix, prefix_len, preferred_lifetime, valid_lifetime))
                    ==> #[trigger] call_requires(sub_options_fn, (b,)),
            forall|b: &mut OptionBuilder, inner: Result<(), DhcpError>|
                prefix_len <= 128 && old(self).opened(*b, OPTION_IAPREFIX, prefix_header(*prefix, prefix_len, preferred_lifetime, valid_lifetime)) && #[trigger] call_ensures(
                    sub_options_fn,
                    (b,),
                    inner,
                ) ==> final(b).closable(),
        ensures
            !(prefix_len <= 128) ==> *final(self) == *old(self) && (r matches Err(e) && protocol_error(
                e,
                "Invalid prefix length: "@ + dec(prefix_len as nat) + " (must be <= 128)"@,
            )),
            prefix_len <= 128 ==> exists|b: &mut OptionBuilder, inner: Result<(), DhcpError>|
                old(self).opened(*b, OPTION_IAPREFIX, prefix_header(*prefix, prefix_len, preferred_lifetime, valid_lifetime)) && #[trigger] call_ensures(
                    sub_options_fn,
                    (b,),
                    inner,
                ) && final(b).finished(*final(self), inner, r),
    {
        if prefix_len > 128 {
            return Err(
                protocol_failure(
                    message1("Invalid prefix length: ", prefix_len as u64, " (must be <= 128)"),
                ),
            );
        }
        let _ = self.start_container(OPTION_IAPREFIX);
        let _ = self.put_u32(preferred_lifetime);
        let _ = self.put_u32(valid_lifetime);
        let _ = self.put_u8(prefix_len);
        let _ = self.put_ipv6_addr(prefix);
        assert(self.buffer@ =~= old(self).buffer@ + open_header(OPTION_IAPREFIX) + prefix_header(*prefix, prefix_len, preferred_lifetime, valid_lifetime));
        match sub_options_fn(self) {
            Ok(_) => self.end_container(),
            Err(e) => Err(e),
        }
    }
}

impl Default for OptionBuilder {
    fn default() -> (r: Self)
        ensures
            r.buffer@ == Seq::<u8>::empty(),
            r.container_stack@ == Seq::<usize>::empty(),
    {
        Self::new()
    }
}

/// The own data of an association with its two times.
pub open spec fn ia_header(iaid: u32, t1: u32, t2: u32) -> Seq<u8> {
    be_bytes(iaid as nat, 4) + be_bytes(t1 as nat, 4) + be_bytes(t2 as nat, 4)
}

/// The own data of an address of an association.
pub open spec fn addr_header(addr: Ipv6Addr, preferred: u32, valid: u32) -> Seq<u8> {
    addr.spec_octets() + be_bytes(preferred as nat, 4) + be_bytes(valid as nat, 4)
}

/// The own data of a prefix of an association.
pub open spec fn prefix_header(prefix: Ipv6Addr, len: u8, preferred: u32, valid: u32) -> Seq<u8> {
    be_bytes(preferred as nat, 4) + be_bytes(valid as nat, 4) + seq![len] + prefix.spec_octets()
}

/// The bytes of addresses and of option codes stand one after the other in the order of the list.
pub proof fn law_lists_in_order(addrs: Seq<Ipv6Addr>, a: Ipv6Addr, codes: Seq<u16>, c: u16)
    ensures
        address_bytes(Seq::empty()) == Seq::<u8>::empty(),
        address_bytes(addrs.push(a)) == address_bytes(addrs) + be_bytes(a.bits as nat, 16),
        address_bytes(addrs).len() == 16 * addrs.len(),
        code_bytes(Seq::empty()) == Seq::<u8>::empty(),
        code_bytes(codes.push(c)) == code_bytes(codes) + seq![(c / 256) as u8, (c % 256) as u8],
        code_bytes(codes).len() == 2 * codes.len(),
    decreases addrs.len() + codes.len(),
{
    assert(addrs.push(a).drop_last() =~= addrs);
    assert(codes.push(c).drop_last() =~= codes);
    lemma_be2(c);
    if addrs.len() > 0 {
        law_lists_in_order(addrs.drop_last(), a, codes, c);
        lemma_be_bytes_len(addrs.last().bits as nat, 16);
    } else if codes.len() > 0 {
        law_lists_in_order(addrs, a, codes.drop_last(), c);
        lemma_be2(codes.last());
    }
}

/// A label of up to 63 bytes stands behind its length; one that is longer ends the list. An empty label is
/// kept only where it is to be.
pub proof fn law_labels(label: Seq<char>, rest: Seq<Seq<char>>)
    ensures
        ({
            let labels = seq![label] + rest;
            let n = encode_utf8(label).len();
            &&& 0 < label.len() && n <= 63 ==> label_bytes(labels, true) == seq![n as u8] + encode_utf8(label)
                + label_bytes(rest, true)
            &&& 0 < label.len() && n <= 63 ==> label_bytes(labels, false) == seq![n as u8] + encode_utf8(
                label,
            ) + label_bytes(rest, false)
            &&& label.len() == 0 ==> label_bytes(labels, false) == label_bytes(rest, false)
            &&& n > 63 ==> long_label(labels) == Some(label)
            &&& n <= 63 ==> long_label(labels) == long_label(rest)
        }),
        label_bytes(Seq::empty(), true) == Seq::<u8>::empty(),
        label_bytes(Seq::empty(), false) == Seq::<u8>::empty(),
        long_label(Seq::empty()) is None,
{
    let labels = seq![label] + rest;
    assert(labels.skip(1) =~= rest);
}

/// A class of up to 65535 bytes stands behind its length in two bytes; one that is longer ends the list.
pub proof fn law_classes(class: Seq<char>, rest: Seq<Seq<char>>)
    ensures
        ({
            let classes = seq![class] + rest;
            let n = encode_utf8(class).len();
            &&& n <= 0xffff ==> class_bytes(classes) == seq![(n / 256) as u8, (n % 256) as u8] + encode_utf8(
                class,
            ) + class_bytes(rest)
            &&& n <= 0xffff ==> long_class(classes) == long_class(rest)
            &&& n > 0xffff ==> long_class(classes) == Some(n)
        }),
        class_bytes(Seq::empty()) == Seq::<u8>::empty(),
        long_class(Seq::empty()) is None,
{
    let classes = seq![class] + rest;
    assert(classes.skip(1) =~= rest);
    if encode_utf8(class).len() <= 0xffff {
        lemma_be2(encode_utf8(class).len() as u16);
    }
}

/// A domain name in a list is its labels and a zero byte.
pub proof fn law_domains(domain: Seq<char>, rest: Seq<Seq<char>>)
    ensures
        ({
            let domains = seq![domain] + rest;
            let labels = split_on(domain, '.');
            &&& long_label(labels) is None ==> domain_bytes(domains) == label_bytes(labels, true) + seq![0u8]
                + domain_bytes(rest)
            &&& long_label(labels) is None ==> long_domain_label(domains) == long_domain_label(rest)
            &&& long_label(labels) is Some ==> long_domain_label(domains) == long_label(labels)
        }),
        domain_bytes(Seq::empty()) == Seq::<u8>::empty(),
{
    let domains = seq![domain] + rest;
    assert(domains.skip(1) =~= rest);
}

/// Where the own fields of associations, addresses and prefixes stand.
pub proof fn law_association_headers(iaid: u32, t1: u32, t2: u32, a: Ipv6Addr, len: u8)
    ensures
        ia_header(iaid, t1, t2).len() == 12,
        u32_at(ia_header(iaid, t1, t2), 0) == iaid,
        u32_at(ia_header(iaid, t1, t2), 4) == t1,
        u32_at(ia_header(iaid, t1, t2), 8) == t2,
        addr_header(a, t1, t2).len() == 24,
        addr_header(a, t1, t2).take(16) == be_bytes(a.bits as nat, 16),
        u32_at(addr_header(a, t1, t2), 16) == t1,
        u32_at(addr_header(a, t1, t2), 20) == t2,
        prefix_header(a, len, t1, t2).len() == 25,
        u32_at(prefix_header(a, len, t1, t2), 0) == t1,
        u32_at(prefix_header(a, len, t1, t2), 4) == t2,
        prefix_header(a, len, t1, t2)[8] == len,
        prefix_header(a, len, t1, t2).skip(9) == be_bytes(a.bits as nat, 16),
{
    lemma_be_bytes_len(iaid as nat, 4);
    lemma_be_bytes_len(t1 as nat, 4);
    lemma_be_bytes_len(t2 as nat, 4);
    lemma_be_bytes_len(a.bits as nat, 16);
    let h = ia_header(iaid, t1, t2);
    assert(h.subrange(0, 4) =~= be_bytes(iaid as nat, 4));
    assert(h.subrange(4, 8) =~= be_bytes(t1 as nat, 4));
    assert(h.subrange(8, 12) =~= be_bytes(t2 as nat, 4));
    lemma_u32_field(h, 0, iaid);
    lemma_u32_field(h, 4, t1);
    lemma_u32_field(h, 8, t2);
    let d = addr_header(a, t1, t2);
    assert(d.take(16) =~= be_bytes(a.bits as nat, 16));
    assert(d.subrange(16, 20) =~= be_bytes(t1 as nat, 4));
    assert(d.subrange(20, 24) =~= be_bytes(t2 as nat, 4));
    lemma_u32_field(d, 16, t1);
    lemma_u32_field(d, 20, t2);
    let p = prefix_header(a, len, t1, t2);
    assert(p.subrange(0, 4) =~= be_bytes(t1 as nat, 4));
    assert(p.subrange(4, 8) =~= be_bytes(t2 as nat, 4));
    lemma_u32_field(p, 0, t1);
    lemma_u32_field(p, 4, t2);
    assert(p.skip(9) =~= be_bytes(a.bits as nat, 16));
}

/// Closing an option to which bytes were appended after it was opened gives the option with those
/// bytes as its data.
pub proof fn law_close_after_open(
    start: OptionBuilder,
    filled: OptionBuilder,
    code: u16,
    data: Seq<u8>,
    after: OptionBuilder,
    r: Result<(), DhcpError>,
)
    requires
        start.opened(filled, code, data),
        filled.closed(after, r),
    ensures
        r is Ok,
        start.extended(after, option_bytes(code, data)),
{
    lemma_closed(start.buffer@, code, data);
    lemma_be2(code);
    lemma_be2(0);
    assert(start.container_stack@.push(start.buffer.len()).drop_last() =~= start.container_stack@);
    assert(start.buffer.len() == start.buffer@.len());
}

/// An association whose function has only appended bytes, and succeeded, is one option: its header
/// and those bytes are the data.
pub proof fn law_association_is_an_option(
    start: OptionBuilder,
    inside: OptionBuilder,
    filled: OptionBuilder,
    code: u16,
    header: Seq<u8>,
    data: Seq<u8>,
    after: OptionBuilder,
    r: Result<(), DhcpError>,
)
    requires
        start.opened(inside, code, header),
        inside.extended(filled, data),
        filled.finished(after, Ok::<(), DhcpError>(()), r),
    ensures
        r is Ok,
        start.extended(after, option_bytes(code, header + data)),
{
    assert(filled.buffer@ =~= start.buffer@ + open_header(code) + (header + data));
    law_close_after_open(start, filled, code, header + data, after, r);
}

/// An option that a builder has written reads back as its code and its data.
pub proof fn law_option_reads_back(code: u16, data: Seq<u8>, rest: Seq<u8>)
    requires
        data.len() <= 0xffff,
    ensures
        ({
            let wire = option_bytes(code, data) + rest;
            &&& u16_at(wire, 0) == code
            &&& u16_at(wire, 2) == data.len()
            &&& wire.subrange(4, 4 + data.len() as int) == data
            &&& wire.skip(4 + data.len() as int) == rest
        }),
{
    let wire = option_bytes(code, data) + rest;
    lemma_be2(code);
    lemma_be2(data.len() as u16);
    assert(wire.subrange(4, 4 + data.len() as int) =~= data);
    assert(wire.skip(4 + data.len() as int) =~= rest);
}

/// Options one after the other, each given by its code and its data.
pub open spec fn joined_options(options: Seq<(u16, Seq<u8>)>) -> Seq<u8>
    decreases options.len(),
{
    if options.len() == 0 {
        Seq::empty()
    } else {
        option_bytes(options[0].0, options[0].1) + joined_options(options.skip(1))
    }
}

/// The options that bytes fall into, in their order, unless bytes are left over.
pub open spec fn split_options(wire: Seq<u8>) -> Option<Seq<(u16, Seq<u8>)>>
    decreases wire.len(),
{
    if wire.len() == 0 {
        Some(Seq::empty())
    } else if wire.len() < 4 || wire.len() < 4 + u16_at(wire, 2) {
        None
    } else {
        let end = 4 + u16_at(wire, 2);
        match split_options(wire.skip(end)) {
            Some(rest) => Some(seq![(u16_at(wire, 0), wire.subrange(4, end))] + rest),
            None => None,
        }
    }
}

/// What a new builder holds after options have been put into it one after the other is those
/// options, one after the other in the order of the calls. It falls into exactly those options
/// again, provided that the length of each fits its field; without a call it is empty.
pub proof fn law_puts_are_joined(builders: Seq<OptionBuilder>, options: Seq<(u16, Seq<u8>)>)
    requires
        builders.len() == options.len() + 1,
        builders[0].buffer@ == Seq::<u8>::empty(),
        forall|i: int|
            0 <= i < options.len() ==> (#[trigger] builders[i]).extended(
                builders[i + 1],
                option_bytes(options[i].0, options[i].1),
            ),
    ensures
        builders.last().buffer@ == joined_options(options),
        (forall|i: int| 0 <= i < options.len() ==> (#[trigger] options[i]).1.len() <= 0xffff)
            ==> split_options(builders.last().buffer@) == Some(options),
        options.len() == 0 ==> builders.last().buffer@.len() == 0,
        builders.last().container_stack@ == builders[0].container_stack@,
{
    lemma_puts(builders, options, options.len());
    assert(options.take(options.len() as int) =~= options);
    if forall|i: int| 0 <= i < options.len() ==> (#[trigger] options[i]).1.len() <= 0xffff {
        lemma_split(options);
    }
}

proof fn lemma_puts(builders: Seq<OptionBuilder>, options: Seq<(u16, Seq<u8>)>, n: nat)
    requires
        n <= options.len(),
        builders.len() == options.len() + 1,
        builders[0].buffer@ == Seq::<u8>::empty(),
        forall|i: int|
            0 <= i < options.len() ==> (#[trigger] builders[i]).extended(
                builders[i + 1],
                option_bytes(options[i].0, options[i].1),
            ),
    ensures
        builders[n as int].buffer@ == joined_options(options.take(n as int)),
        builders[n as int].container_stack@ == builders[0].container_stack@,
    decreases n,
{
    if n > 0 {
        let last = n - 1;
        lemma_puts(builders, options, last as nat);
        assert(builders[last].extended(
            builders[last + 1],
            option_bytes(options[last].0, options[last].1),
        ));
        assert(options.take(n as int) =~= options.take(last).push(options[last]));
        lemma_joined_push(options.take(last), options[last]);
    }
}

proof fn lemma_joined_push(options: Seq<(u16, Seq<u8>)>, option: (u16, Seq<u8>))
    ensures
        joined_options(options.push(option)) == joined_options(options) + option_bytes(
            option.0,
            option.1,
        ),
    decreases options.len(),
{
    let all = options.push(option);
    reveal_with_fuel(joined_options, 2);
    if options.len() == 0 {
        assert(all.skip(1) =~= Seq::<(u16, Seq<u8>)>::empty());
        assert(joined_options(all) =~= option_bytes(option.0, option.1));
        assert(joined_options(options) + option_bytes(option.0, option.1) =~= option_bytes(
            option.0,
            option.1,
        ));
    } else {
        assert(all.skip(1) =~= options.skip(1).push(option));
        lemma_joined_push(options.skip(1), option);
        assert(joined_options(all) =~= joined_options(options) + option_bytes(option.0, option.1));
    }
}

proof fn lemma_split(options: Seq<(u16, Seq<u8>)>)
    requires
        forall|i: int| 0 <= i < options.len() ==> (#[trigger] options[i]).1.len() <= 0xffff,
    ensures
        split_options(joined_options(options)) == Some(options),
    decreases options.len(),
{
    if options.len() == 0 {
        assert(options =~= Seq::<(u16, Seq<u8>)>::empty());
    } else {
        let (code, data) = options[0];
        let tail = options.skip(1);
        let wire = joined_options(options);
        assert forall|i: int| 0 <= i < tail.len() implies (#[trigger] tail[i]).1.len() <= 0xffff by {
            assert(tail[i] == options[i + 1]);
        }
        assert(options[0].1.len() <= 0xffff);
        lemma_split(tail);
        law_option_reads_back(code, data, joined_options(tail));
        lemma_be2(code);
        lemma_be2(data.len() as u16);
        assert(wire.len() >= 4 + data.len());
        assert(seq![(code, data)] + tail =~= options);
    }
}

/// Filling in the length of an option that was opened gives the option.
proof fn lemma_closed(before: Seq<u8>, code: u16, data: Seq<u8>)
    ensures
        closed_at(before + open_header(code) + data, before.len() as int) == before + option_bytes(
            code,
            data,
        ),
{
    let buffer = before + open_header(code) + data;
    lemma_be2(code);
    lemma_be2(0);
    lemma_be2(data.len() as u16);
    assert(buffer.len() - before.len() - 4 == data.len());
    assert(closed_at(buffer, before.len() as int) =~= before + option_bytes(code, data));
}

/// Where the options inside an option cannot be appended, the error is handed on and the builder is
/// left as it is; otherwise the option is closed.
pub proof fn law_inner_failure(
    b: OptionBuilder,
    after: OptionBuilder,
    inner: Result<(), DhcpError>,
    r: Result<(), DhcpError>,
)
    requires
        b.finished(after, inner, r),
    ensures
        inner is Err ==> r == inner && after == b,
        inner is Ok ==> b.closed(after, r),
{
}

/// Closing fails where no option is open, and where the open one has lost its header; the bytes stay
/// as they are then. Otherwise it succeeds.
pub proof fn law_close_failures(b: OptionBuilder, after: OptionBuilder, r: Result<(), DhcpError>)
    requires
        b.closed(after, r),
    ensures
        b.container_stack@.len() == 0 ==> r is Err && after.buffer@ == b.buffer@
            && after.container_stack@.len() == 0,
        b.container_stack@.len() > 0 ==> after.container_stack@ == b.container_stack@.drop_last(),
        b.container_stack@.len() > 0 && b.buffer@.len() < b.container_stack@.last() + 4
            && b.container_stack@.last() <= b.buffer@.len() ==> r is Err && after.buffer@ == b.buffer@,
        b.container_stack@.len() > 0 && b.buffer@.len() >= b.container_stack@.last() + 4 ==> r is Ok,
{
}

} // verus!
