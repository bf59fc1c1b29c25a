# sand

An authoritative DNS server over UDP. The wire format, the zone file parser and the
resolver are a verified library: each function states in its contract what it
computes, and Verus proves it.

## Usage

```sh
sand [zone-file]
```

The zone file defaults to `zone.db` in the current directory. The server listens on
`127.0.0.1:1053`:

```sh
dig @127.0.0.1 -p 1053 www.example.com A
dig @127.0.0.1 -p 1053 example.com MX
dig @127.0.0.1 -p 1053 ftp.example.com A   # CNAME chain
```

## Zone files

BIND-style master files (RFC 1035 §5) with `$ORIGIN`, `$TTL`, records that
parentheses spread over several lines, and `;` comments. The record types are SOA,
NS, A, AAAA, CNAME, MX, PTR and TXT; lines of other types are skipped.

## Answers

Queries of a class other than IN and ANY are refused, and so are queries for names
outside the zone: those that are neither the owner of its SOA record, nor below it, nor
in the file. In a file without an SOA record the last `$ORIGIN` takes the place of that
owner; without either, no name is outside.

## Layout

| File | What it holds |
|------|---------------|
| `src/text.rs`          | Words, lines, case, decimal numbers |
| `src/dns/wire.rs`      | Numbers in network byte order |
| `src/dns/name.rs`      | Domain names: labels and compression pointers |
| `src/dns/message.rs`   | Messages: reading queries, writing responses |
| `src/dns/addr.rs`      | IP addresses as octets and as text |
| `src/dns/zone.rs`      | Zone file parser and record store |
| `src/dns/mod.rs`       | Resolver: query processing and CNAME chains |
| `src/dns/zone_laws.rs` | What holds of every zone and zone file |
| `src/dns/order_laws.rs` | A TTL and a class may change places |
| `src/dns/ascii_laws.rs` | What holds of ASCII names, files and queries |
| `src/dns/laws.rs`      | What holds of every reply |
| `app/`                 | UDP loop, zone loading, thread pool |

A type's `View` is its mathematical model (`MessageModel`, `RecordModel`,
`ZoneModel`). Contracts say what a function does in terms of these: `resolve`, for
one, returns `reply(datagram, zone)`.

## Trusted

Four functions of the standard library have contracts that are believed, not
proved: `char::is_whitespace`, `String::push`, `str::to_lowercase` and
`std::str::from_utf8`. Of ASCII text the contract says what its lower case is; of any
other text the lower case is named, not defined.
