# theos

The core of a phone operating system with no phone numbers: identities are
Ed25519 keys, contacts are keys the user chose to trust, and everything a
device exchanges is signed or sealed.  The logic is written in Verus and
proved against its contracts.

## Layout

- `src/` — the verified library (crate `theos`):
  - `kernel/`, `buddy_allocator.rs`, `kernel_ipc_tests.rs`,
    `kernel_scheduler_tests.rs`: page allocation, processes and
    capabilities, IPC channels, scheduling, drivers, device-tree parsing
    and memory bring-up, console UART text path.
  - `identity/`: key pairs, the contact book and its byte format,
    connection requests.
  - `crypto/`: message sealing, the X25519 key pairs and KDFs, the
    symmetric and DH ratchets, X3DH, and the ratchet-backed session.
  - `dht/`: handles and their registry, node ids, contact resolution.
  - `messenger.rs`, `message_store.rs`, `signal_bridge.rs`,
    `push_notification.rs`, `camera.rs`, `wake_word.rs`, `ai_fallback.rs`,
    `web_proxy/`: the services above them.
  - `power.rs`, `ntp.rs`, `stt_engine.rs`, `display_backend.rs`,
    `ipc_protocol.rs`: device state machines and wire framing.
  - `primitives.rs`, `text.rs`, `clock.rs`, `sorting.rs`: the calls into
    SHA-256, ChaCha20-Poly1305, UTF-8 decoding and the clock, and shared
    text and ordering helpers.
- `tests/` — tests run against the compiled library.
- `app/` — what the library cannot hold: serde messages, floating-point
  audio, battery, animation and NTP code, SQLite persistence, and the
  identity file.

Each outside call goes through a small trusted function whose doc comment
says what its contract assumes of the outside code.
