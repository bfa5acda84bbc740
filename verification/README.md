# dnsmasq

The decision-making parts of a small DNS and DHCPv6 server, written in Rust and proved with Verus.

* `src/dns`: the cache, authoritative answers, EDNS0, and DNSSEC validation (keys, signatures,
  trust anchors, denial of existence, the chain of trust).
* `src/dhcp/v6`: DHCPv6 messages and options, what the server answers, and its address pools.
* `src/wire.rs`, `src/text.rs`, `src/types.rs`, `src/address_text.rs`, `src/clock.rs`,
  `src/error.rs`: bytes, texts, addresses, time and errors.
* `app`: files, sockets, shared state and the event loop around the library.
* `tests`: the library seen from outside, with the crates that it uses.

Every function states in its contract what it returns or changes, over the mathematical model of its
data. What relates several functions is a public proof function whose name begins with `law_`.

Time and leases come in as values: a function whose name ends in `_at` takes the time, its namesake
reads the clock, and the DHCPv6 handlers take the list of leases and say what is to be done with
the lease database next.

What the library has from other crates (hash tables, the recency table, byte buffers, digests,
signatures, base32 and hexadecimal notation) it calls behind small functions marked
`external_body`. Their doc comments say what is taken for granted of the outside function.
