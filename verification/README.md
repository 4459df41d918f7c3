# pai_sho

The verified core of a peer-to-peer port forwarder built on iroh: directed
port grants, one-time enrollment tokens, pinned peers, and the daemon's
decisions on client requests. Verus checks every function under `src/`;
the public ones carry contracts it proves. The few calls into std, rand and
iroh stand behind small wrappers in `src/clock.rs` and `src/key.rs` whose
contracts Verus assumes rather than proves, and some private helpers have
no contract of their own.

- `src/grants.rs` – `port -> grantee` grants (default deny), with laws.
- `src/enroll.rs` – enrollment tokens (single use, expiring) and pins.
- `src/daemon.rs` – the daemon's bookkeeping and request decisions.
- `src/bindings.rs` – local ports bound to tunnel into peers' announced ports.
- `src/client.rs` – parsing of `remote:local` port arguments.
- `src/key.rs`, `src/hex.rs` – peer keys and their ticket text.
- `src/clock.rs` – the clock and random source behind tokens.
- `src/protocol.rs` – client/daemon and peer/peer messages.
- `app/` – the program: command line, control socket, iroh endpoint,
  pin file and TCP tunnels.
- `tests/` – runtime tests of the library.
