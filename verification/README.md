# onionchat

A small command-line chat over Tor onion services: direct and group
messages between peers who exchange signed invites, sent as length-prefixed
JSON frames through Tor's SOCKS proxy, with the local onion service
published through Tor's control port.

The logic is a Verus library with machine-checked contracts:

- `src/transport.rs`: peer addresses, terminal sanitizing, the signed
  invite and message formats, the frame, message encryption.
- `src/storage.rs`: the peer book and the group list, with the laws that
  every update keeps them sorted, keeps addresses distinct and finds what
  was just recorded.
- `src/tor.rs`: the control-port reply grammar, the reply fields, the
  choice of authentication, the SAFECOOKIE exchange and the commands.
- `src/identity.rs`, `src/chat.rs`, `src/config.rs`: the identity keys, the
  decisions of the chat commands, the settings.
- `src/order.rs`, `src/text.rs`: stable ordering and character-level text.
- `src/json.rs`: reading numbers and string literals back from the front
  of the canonical JSON, so that the signed bytes determine the fields.
- `src/crypto.rs`: the calls into the cryptographic and encoding crates,
  with the contracts that the rest relies on.

`app/` is the program around it: command-line parsing, files, sockets,
the terminal and the asynchronous runtime.
