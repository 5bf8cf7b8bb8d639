# deerquic

A small QUIC implementation whose protocol logic is verified with Verus. The
library does no I/O: it parses and writes packets, runs the connection state
machine, and says what its caller is to send, receive and wait for next. TLS
and the ciphers are those of rustls, with ring.

| Module       | What it holds                                                  |
|--------------|----------------------------------------------------------------|
| `wire`       | big-endian integers                                            |
| `varint`     | variable-length integers                                       |
| `frame`      | frames, parsed and written                                     |
| `packet`     | long and short headers, packet numbers                         |
| `protection` | sealing payloads, masking headers, and opening packets         |
| `space`      | packet number spaces                                           |
| `config`     | a server's TLS configuration, from PEM                         |
| `connection` | the connection state machine                                   |
| `handshake`  | a client's first packet                                        |
| `runtime`    | the event loop, as actions and events                          |
| `interop`    | the rules of the interop endpoint                              |
| `laws`       | what holds of a connection whatever is done to it              |
| `error`      | error codes and connection errors                              |
| `buffer`     | the byte strings of the `bytes` crate                          |
| `crypto`     | keys, ciphers and randomness                                   |
| `tls`        | the TLS session of a connection, and its exchanges             |

What the proofs take on trust stands in `buffer`, `config`, `crypto` and `tls`,
for the clock in `space`, for the text of TLS errors and a client's
configuration in `handshake`, and for UTF-8 in `interop`. Every such item says
in its comment which outside function it speaks for, and what is claimed of it.

`app/` is the interop endpoint: sockets, files, arguments and the certificate
verifier around the library.
