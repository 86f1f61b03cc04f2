# TinyVPN

A small WireGuard mesh VPN: a control server that registers nodes, hands
out addresses and session tokens and filters peer lists by group rules; a
UDP relay that carries WireGuard traffic between nodes that cannot reach
each other directly; and a node client.

The library under `src/` holds the decisions, each with a contract proved by
Verus:

- `registry`: nodes, address assignment (lowest free address of
  `10.13.0.0/16`), session tokens, heartbeats and reaping, access-control
  groups and rules, and the laws that relate them.
- `server`: the control server's answer to each request and the change the
  database must follow.
- `relay`: the relay's state machine (registration, attribution by source
  IP, port roaming, fan-out, reaping) and its laws.
- `stun`, `puncher`, `net`, `cli`, `wg`, `config`: wire formats, address
  rules, command lines and configuration texts.
- `crypto`: key generation and authenticated encryption through
  `x25519-dalek` and `chacha20poly1305`.
- `pairs`, `order`, `text`: sorted sets of string pairs, byte order, and
  string helpers.

`app/` is the program around it: `tinyvpn ccs` runs the control server
(QUIC, SQLite, web dashboard), `tinyvpn relay` the relay, and any other
command line is the node client. `tests/` exercises the library.
