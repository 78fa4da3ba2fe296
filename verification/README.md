# bitturbulence

The core of a download client that fetches the blocks of a file over many streams at once,
written in Verus: what the library does is stated in contracts and proved.

* `src/scheduler/` decides which block of a file goes out next: pending blocks of the rarest piece
  first, then blocks in flight, for redundancy.
* `src/select.rs` chooses over all the files of a download, by user priority and rarity.
* `src/context.rs` holds the state of a download and accepts or resets finished pieces.
* `src/drainer/` runs the download side of a session with a peer as a state machine: handshake,
  announcements, streams, failures.
* `src/tofu.rs` trusts a peer's certificate on first use and no other from then on.
* `src/verify.rs` and `src/transport.rs` compute digests and set up the transport.
* `src/state.rs` records running downloads in the saved state; `src/meta.rs` and `src/wire.rs`
  hold what the rest reads of a torrent and of a message.

Laws that span several operations are the public proof functions whose names begin with `law_`.

Two calls are taken on trust: `sha2::Sha256::digest` and `rcgen::generate_simple_self_signed`.

`app/` is the ordinary Rust around the library: QUIC endpoints, TLS, tasks and timers.
