# pq_chat

Group key management and packet formats for a post-quantum messenger,
verified with Verus.

Members of a group sit at the leaves of a ratchet tree. Adding a member
derives a chain of secrets up the new member's path (HKDF-SHA256), stores a
Kyber-1024 public key derived from each at the path's nodes, and moves the
group to the next epoch. Every other member is sent the secret of the
first node where its path meets the new one, encapsulated to the Kyber
key of the node just below it on the member's own side (the new member's
sibling leaf gets the path secret encapsulated to the new member's own
Kyber key), and
derives the same root secret; the newcomer joins from a hello carrying the
tree and its path secret. Packets are accepted only when both signatures
verify under the public keys they carry.
Packets between users are signed with Dilithium and Ed25519, and messages
are sealed with AES-256-GCM.

## Layout

- `src/` — the verified library.
  - `levels`, `path_math`: powers of two and the arithmetic of the
    level-order tree layout.
  - `tree`, `tree_update`: the ratchet tree, how it grows, and adding
    members.
  - `secrets`, `group`, `group_flow`, `groups`: the secrets a member keeps,
    the group state, and the steps of an addition (the deliveries the adder
    plans, how updates and hellos are taken in).
  - `crypto`, `aead`, `primitives`: key derivation, authenticated
    encryption, and the trusted wrappers around the cryptographic crates.
  - `identity`, `wire`: user keys and identifiers, and the byte layout of
    packets.
  - `chat`, `settings`: the rules of private chats and their settings.
  - `laws`: properties that span operations (round trips, agreement of all
    members on the root secret, the shape of the tree).
- `tests/` — tests on concrete values, run against the real crates.
- `app/` — the messenger around the library: serde forms of the library's
  types, packet handlers and the relay loop, over a store and an outbox
  that the embedding program provides.
