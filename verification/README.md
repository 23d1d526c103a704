# fastpx

A local HTTP `CONNECT` proxy that authenticates to an upstream proxy with the credentials of the
logged-in user.

- `src/` is the verified library. It reads and writes message heads, skips the bodies of responses,
  chooses an authentication scheme and a route, and decides what comes next while clients are
  accepted, tunnels are opened and bytes are relayed. It does no I/O.
- `app/` holds the sockets, the command line, the native credentials and the loopback benchmark. It
  carries out what the library decides, and reports back what has happened.
- `tests/` runs the library on given values, with scripted sockets.

## Modules

| Module | What it is about |
|---|---|
| `text`, `number`, `encoding`, `address` | texts, numbers, base64 and Internet addresses |
| `config` | endpoints, settings and their limits |
| `http1`, `body` | message heads, and skipping bodies that arrive in pieces |
| `auth`, `server`, `wire` | schemes, challenges and the messages that the proxy writes |
| `tunnel`, `handshake` | opening a tunnel through the upstream proxy |
| `secrecy` | that tokens show nowhere else |
| `routing`, `session` | routes, clients, and the acceptance of clients |
| `relay`, `sspi`, `bench` | relaying bytes, native credentials and the benchmark |

Functions named `law_..` are proofs of what holds of the library as a whole: that no byte is lost
when a tunnel opens, that a handshake is bounded, keeps its connection and takes every token from one
security context, that a body is skipped exactly however it arrives, that no more clients are served
than there are permits, that only idle tunnels expire, and the like.
