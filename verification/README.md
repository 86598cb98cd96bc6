# bsk gateway logic, verified

The library (`src/`) holds the gateway-side decisions of the `bsk` CLI,
each with a Verus contract:

- `text` — Unicode white space and trimming, splitting on a separator,
  ASCII decimal digits and decimal rendering.
- `addr` — IPv4/IPv6 addresses as numbers, the dotted-quad grammar and
  its text, loopback and IPv4-mapped tests.
- `cidr` — `Cidr4` parsing, matching and printing, comma-separated
  lists, the LAN-scope peer gate, and the laws that tie them together
  (text round trips, canonical networks, `/0` and `/32`, nesting,
  mapped peers).
- `netdev` — the choice of a gateway listen address among interfaces.
- `snapshot` — the request and the human output of `bsk snapshot`.

`app/` reads the host's interfaces, talks to the daemon and prints.
