# orion

Decision logic of a decentralised chat, verified with Verus.

- `src/` is the library. Every function states what it returns or changes, and
  Verus proves it.
- `app/` runs the library: sockets, processes, the swarm and the key types.
- `tests/` runs the library on examples.

| module | what it decides |
| --- | --- |
| `ids`, `wire`, `text` | identifiers, headers and frames, texts |
| `hash`, `keys`, `seal` | digests, keys and their seeds, framing of encrypted data |
| `errors` | errors that travel between nodes, and recovery from some of them |
| `route`, `topology`, `boot`, `node`, `request` | the client: routes, connections, start, paths, requests |
| `context`, `server` | the server: listeners, recoveries, streams, admission |
| `chain`, `polkadot`, `net` | the link to the chain, events and votes, addresses |
| `storage`, `rpcs` | records and procedures of the storage network |

What is believed without proof is marked `#[verifier::external_body]`: calls
into `blake3`, `argon2`, `bip39`, `rand`, `rand_chacha`, `rand_core`, `dashmap`,
`arrayvec`, `multiaddr` and `parity-scale-codec`. Each says in its doc comment
what it takes the call to do.
