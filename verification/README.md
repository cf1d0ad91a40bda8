# construct-relay

A relay that accepts obfs4 and WebTunnel connections inside TLS and forwards
them to an upstream server.

- `src/` is the library: the relay's rules and parsers, verified with Verus.
- `app/` is the program around it: sockets, TLS, timers, files and logging.
- `tests/` runs the library on concrete values.

The library states its properties over mathematical models (sequences of
characters and bytes, maps from addresses). Properties that span several
functions are proof functions whose names begin with `law_`.

What the library takes on trust is marked `external_body` or
`assume_specification`: SHA-256 (`sha2`), hexadecimal notation (`hex`), the
server names and the root store of `rustls`, UTF-8 decoding and the clocks of the standard
library.
