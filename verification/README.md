# spora-core

The core of a peer-to-peer VPN: one machine lends out its internet connection,
another tunnels its traffic through it. The two meet through relays that are
never trusted, and move to a direct path where they can.

- `src/` is the library: identities and share links, the record of a run, the
  connection log, DNS forwarding, reassembly of fragments, the user-space exit's
  tables, the handshakes, hole punching, and the rules by which a share, a dial
  and an upgrade proceed. Everything in it is verified with Verus: each function
  has a contract, and what holds across functions stands as a `proof fn`.
  Times are milliseconds handed in by the caller; nothing in `src/` reads a
  clock, a socket or a file.
- `src/outside.rs` holds the calls into other crates (hashing, base64, URLs,
  certificates, signatures, Noise, random numbers), each with what is taken to
  hold of its result.
- `app/` is what surrounds the library: sockets, tasks, files, the database and
  JSON. What the platform brings along, such as the framing of packets and the
  protocol spoken with relays, is the trait `Kit` in `app/transport.rs`.
- `tests/` runs the library.
