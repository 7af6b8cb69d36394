# ruproxy

A proxy server for Hysteria2, VLESS, VMess, Trojan, Shadowsocks 2022, TUIC, WireGuard,
AnyTLS and SOCKS5. What the protocols decide and compute is a library that is verified with
Verus; sockets, TLS, QUIC and the settings file are ordinary Rust around it.

## Layout

- `src/`: the library. Each protocol has a module: its wire formats, its checks and its
  state, with contracts over mathematical models. `wire`, `text`, `address`, `config` and
  `crypto` are shared.
- `src/crypto.rs`: calls of cryptographic crates. Their contracts are trusted: a result has
  a name, and only short facts, such as that opening gives back what was sealed, are
  stated of it. The few other trusted functions are in `text`, `tls`,
  `hysteria2::masquerade`, `shadowsocks::header` and `wireguard::peer`.
- `tests/`: the library run on concrete values, with the real crates.
- `app/`: the server: it reads bytes, hands them to the library, and does what comes back.

## How the library is used

Decoders take what has been read so far and say how many bytes they need
(`Decoded::More`), what they found (`Decoded::Done`) or what is wrong (`Decoded::Bad`).
State machines such as `socks::Handshake`, `anytls::session::Session`,
`tuic::connection::ConnectionState` and `wireguard::flow::FlowTable` take events and return
the actions that follow. Neither does any I/O.

Congestion windows and rates in decimal units are floating point: `app/` works them out,
and the library bounds and keeps them.

VLESS requests, Reality and the WebSocket transport are not served.
