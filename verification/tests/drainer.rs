use bitturbulence::context::TorrentCtx;
use bitturbulence::drainer::coordinator::stream_open_failed;
use bitturbulence::drainer::hello::{check_hello, hello, our_bitfields, HelloReply};
use bitturbulence::drainer::{
    Coordinator, PeerError, PeerEvent, Step, StreamLimits, StreamSlot, ENDGAME_THRESHOLD,
    INSTABILITY_FAIL_THRESHOLD, INSTABILITY_RESET_WINDOW,
};
use bitturbulence::meta::{FileEntry, Metainfo};
use bitturbulence::scheduler::{BlockState, BlockTask, StreamsPerBlock, BLOCK_SIZE};
use bitturbulence::verify::hash_piece;
use bitturbulence::wire::{availability_message, fit_bits, AuthPayload, Message, PeerAvail};

const LIMITS: StreamLimits = StreamLimits {
    default_streams: 2,
    max_streams: 4,
    per_block: StreamsPerBlock { typical: 2, max: 3 },
};

fn root(hashes: &[[u8; 32]]) -> [u8; 32] {
    hash_piece(&hashes.concat())
}

/// One file of `pieces` pieces of one block each; the digest of block `pi` is to be `[pi; 32]`.
fn download(pieces: u32) -> TorrentCtx {
    let piece_hashes = (0..pieces).map(|pi| root(&[[pi as u8; 32]])).collect();
    let file = FileEntry {
        piece_length: BLOCK_SIZE,
        last_piece_length: BLOCK_SIZE,
        piece_hashes,
    };
    TorrentCtx::new(Metainfo { info_hash: [0; 32], files: vec![file] }, &[pieces], false)
}

/// A session with two idle streams to a peer that has everything.
fn session(ctx: &mut TorrentCtx) -> Coordinator {
    let mut c = Coordinator::new(LIMITS, 1);
    assert_eq!(c.stream_opened(None), 0);
    assert_eq!(c.stream_opened(None), 1);
    feed(&mut c, ctx, PeerEvent::Control(Message::HaveAll { file_index: 0 }));
    c
}

fn feed(c: &mut Coordinator, ctx: &mut TorrentCtx, event: PeerEvent) -> Step {
    assert!(c.can_handle(ctx, &event, &root));
    c.handle_event(ctx, event, &root)
}

fn control(c: &mut Coordinator, ctx: &mut TorrentCtx, msg: Message) {
    assert!(matches!(feed(c, ctx, PeerEvent::Control(msg)), Step::Continue));
}

fn ok(id: usize, pi: u32, hash: u8) -> PeerEvent {
    PeerEvent::BlockOk { stream_id: id, fi: 0, pi, bi: 0, hash: [hash; 32] }
}

fn fail(id: usize, pi: u32) -> PeerEvent {
    PeerEvent::BlockFail { stream_id: id, fi: 0, pi, bi: 0 }
}

fn block(pi: u32) -> BlockTask {
    BlockTask { fi: 0, pi, bi: 0 }
}

#[test]
fn thresholds() {
    assert_eq!(ENDGAME_THRESHOLD, 16);
    assert_eq!(INSTABILITY_FAIL_THRESHOLD, 3);
    assert_eq!(INSTABILITY_RESET_WINDOW, 32);
}

#[test]
fn idle_streams_get_blocks() {
    let mut ctx = download(3);
    let mut c = session(&mut ctx);
    assert_eq!(c.assign_idle(&mut ctx), vec![(0, block(0)), (1, block(1))]);
    assert!(c.assign_idle(&mut ctx).is_empty());
    assert_eq!(c.slots[1], StreamSlot { id: 1, active: Some(block(1)) });
    assert_eq!(ctx.schedulers[0].block_state[2], vec![BlockState::Pending]);
}

#[test]
fn assigning_stays_within_the_limit_and_verifies_nothing() {
    let mut ctx = download(1);
    let mut c = session(&mut ctx);
    c.stream_opened(None);
    c.stream_opened(None);
    let orders = c.assign_idle(&mut ctx);
    assert_eq!(orders, vec![(0, block(0)), (1, block(0)), (2, block(0))]);
    assert_eq!(ctx.schedulers[0].block_state[0][0], BlockState::InFlight(3));
    assert_eq!(c.slots[3].active, None);
    assert_eq!(ctx.our_bitfield(0), vec![false]);
    assert_eq!(ctx.downloaded, 0);
}

#[test]
fn idle_streams_rest_without_work() {
    let mut ctx = download(1);
    let mut c = Coordinator::new(LIMITS, 1);
    c.stream_opened(None);
    assert!(c.assign_idle(&mut ctx).is_empty());
    assert_eq!(c.slots[0].active, None);
}

#[test]
fn normal_operation_opens_default_streams_only() {
    let mut ctx = download(40);
    let mut c = session(&mut ctx);
    assert_eq!(c.plan_stream(&mut ctx), None);
    c.slots.pop();
    assert_eq!(c.plan_stream(&mut ctx), Some(block(0)));
}

#[test]
fn endgame_opens_more_streams() {
    let mut ctx = download(ENDGAME_THRESHOLD + 1);
    let mut c = session(&mut ctx);
    assert_eq!(c.plan_stream(&mut ctx), None);
    assert_eq!(c.assign_idle(&mut ctx).len(), 2);
    let task = c.plan_stream(&mut ctx);
    assert_eq!(task, Some(block(2)));
    assert_eq!(c.stream_opened(task), 2);
    let task = c.plan_stream(&mut ctx);
    assert_eq!(c.stream_opened(task), 3);
    assert_eq!(c.slots.len(), 4);
    assert_eq!(c.plan_stream(&mut ctx), None);
}

#[test]
fn endgame_takes_blocks_in_flight() {
    let mut ctx = download(2);
    let mut c = session(&mut ctx);
    c.assign_idle(&mut ctx);
    assert_eq!(c.plan_stream(&mut ctx), Some(block(0)));
    assert_eq!(ctx.schedulers[0].block_state[0][0], BlockState::InFlight(2));
}

#[test]
fn failed_opening_gives_the_block_back() {
    let mut ctx = download(2);
    let c = session(&mut ctx);
    let task = c.plan_stream(&mut ctx).unwrap();
    assert_eq!(ctx.schedulers[0].block_state[0][0], BlockState::InFlight(1));
    stream_open_failed(&mut ctx, task);
    assert_eq!(ctx.schedulers[0].block_state[0][0], BlockState::Pending);
}

#[test]
fn unstable_connection_opens_more_streams() {
    let mut ctx = download(40);
    let mut c = session(&mut ctx);
    for n in 0..INSTABILITY_FAIL_THRESHOLD {
        assert_eq!(c.recent_fails, n);
        assert_eq!(c.plan_stream(&mut ctx), None);
        c.assign_idle(&mut ctx);
        assert!(matches!(feed(&mut c, &mut ctx, fail(0, 0)), Step::Continue));
    }
    assert!(c.plan_stream(&mut ctx).is_some());
}

#[test]
fn arrivals_restore_stability() {
    let mut ctx = download(40);
    let mut c = session(&mut ctx);
    for _ in 0..5 {
        feed(&mut c, &mut ctx, fail(0, 39));
    }
    for pi in 0..31 {
        feed(&mut c, &mut ctx, ok(0, pi, pi as u8));
    }
    assert_eq!((c.recent_fails, c.blocks_ok), (5, 31));
    feed(&mut c, &mut ctx, ok(0, 31, 31));
    assert_eq!((c.recent_fails, c.blocks_ok), (0, 0));
}

#[test]
fn verified_piece_is_announced() {
    let mut ctx = download(2);
    let mut c = session(&mut ctx);
    c.assign_idle(&mut ctx);
    match feed(&mut c, &mut ctx, ok(1, 1, 1)) {
        Step::Announce(Message::HavePiece { file_index, piece_index }) => {
            assert_eq!((file_index, piece_index), (0, 1));
        }
        s => panic!("{:?}", s),
    }
    assert_eq!(c.slots[1].active, None);
    assert_eq!(ctx.our_bitfield(0), vec![false, true]);
    // The same block once more, from another stream.
    assert!(matches!(feed(&mut c, &mut ctx, ok(0, 1, 9)), Step::Continue));
    assert_eq!(ctx.downloaded, BLOCK_SIZE as u64);
}

#[test]
fn wrong_piece_is_not_announced() {
    let mut ctx = download(2);
    let mut c = session(&mut ctx);
    c.assign_idle(&mut ctx);
    assert!(matches!(feed(&mut c, &mut ctx, ok(0, 0, 77)), Step::Continue));
    assert_eq!(ctx.our_bitfield(0), vec![false, false]);
    assert_eq!(ctx.schedulers[0].block_state[0][0], BlockState::Pending);
}

#[test]
fn dead_stream_gives_its_block_back() {
    let mut ctx = download(2);
    let mut c = session(&mut ctx);
    c.assign_idle(&mut ctx);
    let step = feed(&mut c, &mut ctx, PeerEvent::StreamDead { stream_id: 0 });
    assert!(matches!(step, Step::Continue));
    assert_eq!(ctx.schedulers[0].block_state[0][0], BlockState::Pending);
    assert_eq!(c.slots.len(), 1);
    let step = feed(&mut c, &mut ctx, PeerEvent::StreamDead { stream_id: 0 });
    assert!(matches!(step, Step::Continue));
    let step = feed(&mut c, &mut ctx, PeerEvent::StreamDead { stream_id: 1 });
    match step {
        Step::Fail(e) => assert_eq!(e.text(), "all data streams dead"),
        s => panic!("{:?}", s),
    }
}

#[test]
fn peer_replaces_what_it_has() {
    let mut ctx = download(3);
    ctx.schedulers[0].add_peer_bitfield(&[true, true, false]);
    let mut c = Coordinator::new(LIMITS, 1);
    let counts = |ctx: &TorrentCtx| ctx.schedulers[0].availability.clone();
    control(&mut c, &mut ctx, Message::HaveAll { file_index: 0 });
    assert_eq!(counts(&ctx), vec![2, 2, 1]);
    control(
        &mut c,
        &mut ctx,
        Message::HaveBitmap { file_index: 0, bitmap: vec![false, true, false, true, true] },
    );
    assert_eq!(counts(&ctx), vec![1, 2, 0]);
    assert_eq!(c.peer_avail[0].as_bitfield(3), vec![false, true, false]);
    control(&mut c, &mut ctx, Message::HavePiece { file_index: 0, piece_index: 2 });
    assert_eq!(counts(&ctx), vec![1, 2, 1]);
    assert_eq!(c.peer_avail[0].as_bitfield(3), vec![false, true, true]);
    control(&mut c, &mut ctx, Message::HaveNone { file_index: 0 });
    assert_eq!(counts(&ctx), vec![1, 1, 0]);
    assert_eq!(c.peer_avail[0].as_bitfield(3), vec![false, false, false]);
}

#[test]
fn piece_announced_again_is_counted_once() {
    let mut ctx = download(2);
    let mut c = Coordinator::new(LIMITS, 1);
    for _ in 0..2 {
        control(&mut c, &mut ctx, Message::HavePiece { file_index: 0, piece_index: 1 });
    }
    assert_eq!(ctx.schedulers[0].availability, vec![0, 1]);
    control(&mut c, &mut ctx, Message::HaveNone { file_index: 0 });
    assert_eq!(ctx.schedulers[0].availability, vec![0, 0]);
    control(&mut c, &mut ctx, Message::HaveAll { file_index: 0 });
    control(&mut c, &mut ctx, Message::HavePiece { file_index: 0, piece_index: 0 });
    assert_eq!(ctx.schedulers[0].availability, vec![1, 1]);
}

#[test]
fn last_list_stands() {
    let mut ctx = download(3);
    ctx.schedulers[0].availability = vec![4, 5, 6];
    let mut c = Coordinator::new(LIMITS, 1);
    control(&mut c, &mut ctx, Message::HavePiece { file_index: 0, piece_index: 2 });
    control(&mut c, &mut ctx, Message::HaveAll { file_index: 0 });
    control(&mut c, &mut ctx, Message::HaveAll { file_index: 0 });
    assert_eq!(ctx.schedulers[0].availability, vec![5, 6, 7]);
    let bitmap = vec![false, true];
    control(&mut c, &mut ctx, Message::HaveBitmap { file_index: 0, bitmap });
    assert_eq!(ctx.schedulers[0].availability, vec![4, 6, 6]);
    control(&mut c, &mut ctx, Message::HaveNone { file_index: 0 });
    assert_eq!(ctx.schedulers[0].availability, vec![4, 5, 6]);
}

#[test]
fn peer_that_leaves_is_no_longer_counted() {
    let ways_out = vec![
        PeerEvent::Control(Message::Bye { reason: "done".to_string() }),
        PeerEvent::ControlClosed,
        PeerEvent::ControlFailed("reset".to_string()),
        PeerEvent::StreamsClosed,
        PeerEvent::StreamDead { stream_id: 1 },
    ];
    for event in ways_out {
        let mut ctx = download(3);
        ctx.schedulers[0].availability = vec![7, 0, 2];
        let mut c = session(&mut ctx);
        assert_eq!(ctx.schedulers[0].availability, vec![8, 1, 3]);
        control(&mut c, &mut ctx, Message::HavePiece { file_index: 0, piece_index: 1 });
        c.assign_idle(&mut ctx);
        feed(&mut c, &mut ctx, PeerEvent::StreamDead { stream_id: 0 });
        assert!(matches!(feed(&mut c, &mut ctx, event), Step::Close | Step::Fail(_)));
        c.leave(&mut ctx);
        assert_eq!(ctx.schedulers[0].availability, vec![7, 0, 2]);
        assert!(matches!(c.peer_avail[0], PeerAvail::Unknown));
        c.leave(&mut ctx);
        assert_eq!(ctx.schedulers[0].availability, vec![7, 0, 2]);
    }
}

#[test]
fn leaving_keeps_other_peers_counted() {
    let mut ctx = download(2);
    let mut alice = session(&mut ctx);
    let mut bob = Coordinator::new(LIMITS, 1);
    control(&mut bob, &mut ctx, Message::HavePiece { file_index: 0, piece_index: 1 });
    assert_eq!(ctx.schedulers[0].availability, vec![1, 2]);
    alice.leave(&mut ctx);
    assert_eq!(ctx.schedulers[0].availability, vec![0, 1]);
    bob.leave(&mut ctx);
    assert_eq!(ctx.schedulers[0].availability, vec![0, 0]);
}

#[test]
fn counts_are_sessions() {
    let mut ctx = download(3);
    let mut peers = vec![session(&mut ctx), session(&mut ctx), Coordinator::new(LIMITS, 1)];
    let bitmap = vec![false, true, true];
    control(&mut peers[1], &mut ctx, Message::HaveBitmap { file_index: 0, bitmap });
    control(&mut peers[2], &mut ctx, Message::HavePiece { file_index: 0, piece_index: 2 });
    peers[0].assign_idle(&mut ctx);
    feed(&mut peers[0], &mut ctx, fail(0, 0));
    control(&mut peers[2], &mut ctx, Message::HavePiece { file_index: 0, piece_index: 2 });
    assert_eq!(ctx.schedulers[0].availability, vec![1, 2, 3]);
    peers.remove(1).leave(&mut ctx);
    assert_eq!(ctx.schedulers[0].availability, vec![1, 1, 2]);
    control(&mut peers[0], &mut ctx, Message::HaveNone { file_index: 0 });
    assert_eq!(ctx.schedulers[0].availability, vec![0, 0, 1]);
    for mut peer in peers {
        peer.leave(&mut ctx);
    }
    assert_eq!(ctx.schedulers[0].availability, vec![0, 0, 0]);
}

#[test]
fn unknown_files_and_pieces_are_ignored() {
    let mut ctx = download(2);
    let mut c = Coordinator::new(LIMITS, 1);
    control(&mut c, &mut ctx, Message::HaveAll { file_index: 1 });
    control(&mut c, &mut ctx, Message::HaveBitmap { file_index: 9, bitmap: vec![true] });
    control(&mut c, &mut ctx, Message::HavePiece { file_index: 1, piece_index: 0 });
    control(&mut c, &mut ctx, Message::HavePiece { file_index: 0, piece_index: 2 });
    control(&mut c, &mut ctx, Message::KeepAlive);
    control(&mut c, &mut ctx, Message::Other);
    assert_eq!(ctx.schedulers[0].availability, vec![0, 0]);
    assert_eq!(c.peer_avail[0].as_bitfield(2), vec![false, false]);
}

#[test]
fn session_ends() {
    let mut ctx = download(1);
    let mut c = session(&mut ctx);
    let bye = PeerEvent::Control(Message::Bye { reason: "done".to_string() });
    assert!(matches!(feed(&mut c, &mut ctx, bye), Step::Close));
    assert!(matches!(feed(&mut c, &mut ctx, PeerEvent::ControlClosed), Step::Close));
    assert!(matches!(feed(&mut c, &mut ctx, PeerEvent::StreamsClosed), Step::Close));
    let lost = PeerEvent::ControlFailed("reset".to_string());
    match feed(&mut c, &mut ctx, lost) {
        Step::Fail(e) => assert_eq!(e.text(), "reset"),
        s => panic!("{:?}", s),
    }
    assert!(matches!(
        feed(&mut c, &mut ctx, PeerEvent::KeepAliveDue),
        Step::Send(Message::KeepAlive)
    ));
}

#[test]
fn events_that_cannot_be_handled() {
    let mut ctx = download(1);
    let mut c = session(&mut ctx);
    assert!(!c.can_handle(&ctx, &ok(0, 1, 0), &root));
    assert!(!c.can_handle(&ctx, &fail(0, 1), &root));
    c.recent_fails = u32::MAX;
    assert!(!c.can_handle(&ctx, &fail(0, 0), &root));
    ctx.schedulers[0].availability[0] = u32::MAX;
    let again = PeerEvent::Control(Message::HaveAll { file_index: 0 });
    assert!(c.can_handle(&ctx, &again, &root));
    let other = Coordinator::new(LIMITS, 1);
    assert!(!other.can_handle(&ctx, &again, &root));
    let piece = PeerEvent::Control(Message::HavePiece { file_index: 0, piece_index: 0 });
    assert!(c.can_handle(&ctx, &piece, &root));
    assert!(!other.can_handle(&ctx, &piece, &root));
    ctx.meta.files[0].piece_hashes.clear();
    assert!(!c.can_handle(&ctx, &ok(0, 0, 0), &root));
}

#[test]
fn hello_introduces_us() {
    match hello(3, [1; 32], [2; 32]) {
        Message::Hello { version, peer_id, info_hash, auth } => {
            assert_eq!((version, peer_id, info_hash), (3, [1; 32], [2; 32]));
            assert_eq!(auth, AuthPayload::Absent);
        }
        m => panic!("{:?}", m),
    }
}

#[test]
fn hello_replies() {
    let ack = |accepted, reason: Option<&str>| {
        HelloReply::Message(Message::HelloAck { accepted, reason: reason.map(|r| r.to_string()) })
    };
    let text = |reply| check_hello(reply).map_err(|e: PeerError| e.text());
    assert_eq!(text(ack(true, None)), Ok(()));
    assert_eq!(text(ack(true, Some("welcome"))), Ok(()));
    assert_eq!(text(ack(false, Some("full"))), Err("hello rejected: full".to_string()));
    assert_eq!(text(ack(false, None)), Err("hello rejected: ".to_string()));
    assert_eq!(
        text(HelloReply::Message(Message::KeepAlive)),
        Err("expected HelloAck".to_string())
    );
    assert_eq!(text(HelloReply::Closed), Err("disconnected during hello".to_string()));
    assert_eq!(text(HelloReply::TimedOut), Err("hello ack timeout".to_string()));
    assert_eq!(text(HelloReply::Failed("reset".to_string())), Err("reset".to_string()));
}

#[test]
fn availability_in_one_word_or_by_bitmap() {
    assert!(matches!(
        availability_message(1, vec![true, true]),
        Message::HaveAll { file_index: 1 }
    ));
    assert!(matches!(
        availability_message(2, vec![false, false]),
        Message::HaveNone { file_index: 2 }
    ));
    // A file without pieces is there in full.
    assert!(matches!(availability_message(3, vec![]), Message::HaveAll { file_index: 3 }));
    match availability_message(65_537, vec![true, false]) {
        Message::HaveBitmap { file_index, bitmap } => {
            assert_eq!((file_index, bitmap), (1, vec![true, false]));
        }
        m => panic!("{:?}", m),
    }
}

#[test]
fn announcement_arrives() {
    for bits in [vec![true, false, true], vec![true; 3], vec![false; 3]] {
        let mut ctx = download(3);
        let mut c = session(&mut ctx);
        control(&mut c, &mut ctx, availability_message(0, bits.clone()));
        assert_eq!(c.peer_avail[0].as_bitfield(3), bits);
    }
}

#[test]
fn all_files_are_announced() {
    let mut ctx = download(2);
    assert!(matches!(our_bitfields(&ctx)[0], Message::HaveNone { file_index: 0 }));
    let mut c = session(&mut ctx);
    feed(&mut c, &mut ctx, ok(0, 1, 1));
    let msgs = our_bitfields(&ctx);
    assert_eq!(msgs.len(), 1);
    match &msgs[0] {
        Message::HaveBitmap { file_index, bitmap } => {
            assert_eq!((*file_index, bitmap.clone()), (0, vec![false, true]));
        }
        m => panic!("{:?}", m),
    }
}

#[test]
fn bitfields_of_what_is_known() {
    assert_eq!(PeerAvail::Unknown.as_bitfield(2), vec![false, false]);
    assert_eq!(PeerAvail::HaveNone.as_bitfield(1), vec![false]);
    assert_eq!(PeerAvail::HaveAll.as_bitfield(2), vec![true, true]);
    assert_eq!(PeerAvail::Bitmap(vec![true]).as_bitfield(2), vec![true, false]);
    assert_eq!(fit_bits(&[true, true], 1), vec![true]);
}
