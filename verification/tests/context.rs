use bitturbulence::context::TorrentCtx;
use bitturbulence::meta::{FileEntry, Metainfo};
use bitturbulence::scheduler::{BlockState, BLOCK_SIZE};
use bitturbulence::verify::hash_piece;

/// A stand-in for the root over block digests: the digest of their concatenation.
fn root(hashes: &[[u8; 32]]) -> [u8; 32] {
    hash_piece(&hashes.concat())
}

/// Two files: one of two pieces with two blocks and one block, one of one piece with one block.
fn torrent() -> Metainfo {
    Metainfo {
        info_hash: [5; 32],
        files: vec![
            FileEntry {
                piece_length: 2 * BLOCK_SIZE,
                last_piece_length: 100,
                piece_hashes: vec![root(&[[1; 32], [2; 32]]), root(&[[3; 32]])],
            },
            FileEntry {
                piece_length: BLOCK_SIZE,
                last_piece_length: BLOCK_SIZE,
                piece_hashes: vec![root(&[[4; 32]])],
            },
        ],
    }
}

#[test]
fn download_starts_with_nothing() {
    let ctx = TorrentCtx::new(torrent(), &[2, 1], false);
    assert_eq!(ctx.our_bitfield(0), vec![false, false]);
    assert_eq!(ctx.our_bitfield(1), vec![false]);
    assert!(!ctx.is_complete());
    assert_eq!((ctx.downloaded, ctx.peer_count), (0, 0));
    assert_eq!(ctx.schedulers[1].fi, 1);
    assert_eq!(ctx.schedulers[0].block_state[1].len(), 1);
}

#[test]
fn seeding_starts_complete() {
    let ctx = TorrentCtx::new(torrent(), &[2, 1], true);
    assert_eq!(ctx.our_bitfield(0), vec![true, true]);
    assert!(ctx.is_complete());
    assert_eq!(ctx.schedulers[0].block_state[0], vec![BlockState::Done; 2]);
    assert_eq!(ctx.schedulers[0].pending_blocks(), 0);
}

#[test]
fn piece_lengths() {
    let meta = torrent();
    assert_eq!(meta.files[0].piece_len(0), 2 * BLOCK_SIZE);
    assert_eq!(meta.files[0].piece_len(1), 100);
    assert_eq!(meta.files[0].piece_len(2), 2 * BLOCK_SIZE);
}

#[test]
fn right_root_is_accepted() {
    let mut ctx = TorrentCtx::new(torrent(), &[2, 1], false);
    ctx.schedulers[0].mark_block_done(0, 0, [1; 32]);
    ctx.schedulers[0].mark_block_done(0, 1, [2; 32]);
    assert!(ctx.verify_and_complete(0, 0, &root));
    assert_eq!(ctx.our_bitfield(0), vec![true, false]);
    assert!(ctx.schedulers[0].piece_done[0]);
    assert!(!ctx.schedulers[0].piece_verifying[0]);
    assert_eq!(ctx.downloaded, 2 * BLOCK_SIZE as u64);
    assert!(!ctx.is_complete());
}

#[test]
fn wrong_root_resets_the_piece() {
    let mut ctx = TorrentCtx::new(torrent(), &[2, 1], false);
    ctx.schedulers[0].mark_block_done(0, 0, [2; 32]);
    ctx.schedulers[0].mark_block_done(0, 1, [1; 32]);
    assert!(!ctx.verify_and_complete(0, 0, &root));
    assert_eq!(ctx.our_bitfield(0), vec![false, false]);
    assert_eq!(ctx.schedulers[0].block_state[0], vec![BlockState::Pending; 2]);
    assert_eq!(ctx.downloaded, 0);
}

#[test]
fn missing_digest_resets_the_piece() {
    let mut ctx = TorrentCtx::new(torrent(), &[2, 1], false);
    ctx.schedulers[0].mark_block_done(0, 0, [1; 32]);
    assert!(!ctx.verify_and_complete(0, 0, &root));
    assert_eq!(ctx.schedulers[0].block_state[0], vec![BlockState::Pending; 2]);
}

#[test]
fn judged_by_a_given_root() {
    let mut ctx = TorrentCtx::new(torrent(), &[2, 1], false);
    assert!(!ctx.judge_piece(1, 0, [0; 32]));
    assert!(ctx.judge_piece(1, 0, root(&[[4; 32]])));
    assert_eq!(ctx.downloaded, BLOCK_SIZE as u64);
}

#[test]
fn downloaded_bytes_wrap_around() {
    let mut ctx = TorrentCtx::new(torrent(), &[2, 1], false);
    ctx.downloaded = u64::MAX;
    assert!(ctx.judge_piece(0, 1, root(&[[3; 32]])));
    assert_eq!(ctx.downloaded, 99);
}

#[test]
fn peers_come_and_go() {
    let mut ctx = TorrentCtx::new(torrent(), &[2, 1], false);
    ctx.peer_connected();
    ctx.peer_connected();
    ctx.peer_disconnected();
    assert_eq!(ctx.peer_count, 1);
    ctx.peer_disconnected();
    assert_eq!(ctx.peer_count, 0);
}

#[test]
fn what_the_download_has() {
    let ctx = TorrentCtx::new(torrent(), &[2, 1], false);
    assert!(ctx.has_block(0, 0, 1));
    assert!(!ctx.has_block(0, 1, 1));
    assert!(!ctx.has_block(2, 0, 0));
    assert!(ctx.root_listed(0, 1));
    assert!(!ctx.root_listed(0, 2));
}

#[test]
fn complete_once_every_piece_is_announced() {
    let mut ctx = TorrentCtx::new(torrent(), &[2, 1], false);
    assert!(ctx.judge_piece(0, 0, root(&[[1; 32], [2; 32]])));
    assert!(ctx.judge_piece(0, 1, root(&[[3; 32]])));
    assert!(!ctx.is_complete());
    assert_eq!((ctx.our_bitfield(0), ctx.our_bitfield(1)), (vec![true; 2], vec![false]));
    assert!(ctx.judge_piece(1, 0, root(&[[4; 32]])));
    assert!(ctx.is_complete());
    assert_eq!(ctx.our_bitfield(1), vec![true]);
}

#[test]
fn seeded_piece_has_no_digests_to_verify() {
    let mut ctx = TorrentCtx::new(torrent(), &[2, 1], true);
    assert!(!ctx.verify_and_complete(1, 0, &root));
    assert!(!ctx.schedulers[1].piece_done[0]);
    assert_eq!(ctx.our_bitfield(1), vec![true]);
}

#[test]
fn verified_piece_accepted_again_stays_in_step() {
    let mut ctx = TorrentCtx::new(torrent(), &[2, 1], true);
    assert!(ctx.judge_piece(1, 0, root(&[[4; 32]])));
    assert!(ctx.schedulers[1].piece_done[0]);
    assert_eq!(ctx.our_bitfield(1), vec![true]);
    assert!(!ctx.judge_piece(1, 0, [0; 32]));
    assert!(!ctx.schedulers[1].piece_done[0]);
    assert_eq!(ctx.our_bitfield(1), vec![true]);
}
