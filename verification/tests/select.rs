use bitturbulence::context::TorrentCtx;
use bitturbulence::meta::{FileEntry, Metainfo};
use bitturbulence::scheduler::{BlockState, BlockTask, Priority, StreamsPerBlock, BLOCK_SIZE};
use bitturbulence::select::{
    pending_countable, pick_block, pick_pending_block, total_pending_blocks, LOW_AVAIL,
};
use bitturbulence::wire::PeerAvail;

const LIMITS: StreamsPerBlock = StreamsPerBlock { typical: 2, max: 3 };

/// One file of one block per priority.
fn files(priorities: &[Priority]) -> TorrentCtx {
    let files = priorities
        .iter()
        .map(|_| FileEntry {
            piece_length: BLOCK_SIZE,
            last_piece_length: BLOCK_SIZE,
            piece_hashes: vec![[0; 32]],
        })
        .collect();
    let counts = vec![1; priorities.len()];
    let mut ctx = TorrentCtx::new(Metainfo { info_hash: [0; 32], files }, &counts, false);
    for (fi, p) in priorities.iter().enumerate() {
        ctx.schedulers[fi].set_priority(*p);
        assert_eq!(ctx.schedulers[fi].priority(), *p);
    }
    ctx
}

fn everything(n: usize) -> Vec<PeerAvail> {
    (0..n).map(|_| PeerAvail::HaveAll).collect()
}

fn order(ctx: &mut TorrentCtx) -> Vec<usize> {
    let avail = everything(ctx.schedulers.len());
    let mut got = Vec::new();
    while let Some(t) = pick_pending_block(ctx, &avail) {
        got.push(t.fi);
    }
    got
}

#[test]
fn priority_order_of_common_files() {
    let mut ctx = files(&[
        Priority::Low,
        Priority::High,
        Priority::Normal,
        Priority::Higher,
        Priority::Maximum,
        Priority::VeryHigh,
    ]);
    for s in ctx.schedulers.iter_mut() {
        for _ in 0..=LOW_AVAIL {
            s.add_peer_have(0);
        }
    }
    assert_eq!(order(&mut ctx), vec![4, 5, 3, 1, 0, 2]);
}

#[test]
fn rare_file_goes_before_a_common_one_of_the_next_level() {
    let mut ctx = files(&[Priority::Maximum, Priority::VeryHigh, Priority::Higher, Priority::High]);
    // All but the first are rare.
    ctx.schedulers[0].add_peer_have(0);
    ctx.schedulers[0].add_peer_have(0);
    assert_eq!(order(&mut ctx), vec![1, 0, 2, 3]);
}

#[test]
fn all_levels_interleave() {
    // Files 0 to 3 are common, 4 to 7 rare.
    let mut ctx = files(&[
        Priority::Maximum,
        Priority::VeryHigh,
        Priority::Higher,
        Priority::High,
        Priority::Maximum,
        Priority::VeryHigh,
        Priority::Higher,
        Priority::High,
    ]);
    for fi in 0..4 {
        ctx.schedulers[fi].add_peer_have(0);
        ctx.schedulers[fi].add_peer_have(0);
    }
    assert_eq!(order(&mut ctx), vec![4, 5, 0, 6, 1, 7, 2, 3]);
}

#[test]
fn nothing_for_a_peer_that_has_nothing() {
    let mut ctx = files(&[Priority::Maximum, Priority::Normal]);
    let avail = vec![PeerAvail::Unknown, PeerAvail::HaveNone];
    assert_eq!(pick_block(&mut ctx, &avail, LIMITS), None);
    let avail = vec![PeerAvail::Bitmap(vec![false]), PeerAvail::Bitmap(vec![])];
    assert_eq!(pick_block(&mut ctx, &avail, LIMITS), None);
    assert_eq!(pick_block(&mut ctx, &[], LIMITS), None);
}

#[test]
fn blocks_in_flight_come_last() {
    let mut ctx = files(&[Priority::Low, Priority::Maximum]);
    let avail = everything(2);
    let got: Vec<usize> = (0..6)
        .map(|_| pick_block(&mut ctx, &avail, LIMITS).unwrap().fi)
        .collect();
    // Pending by priority; then redundancy file by file.
    assert_eq!(got, vec![1, 0, 0, 0, 1, 1]);
    assert_eq!(pick_block(&mut ctx, &avail, LIMITS), None);
    assert_eq!(ctx.schedulers[0].block_state[0][0], BlockState::InFlight(3));
}

#[test]
fn pending_pick_skips_blocks_in_flight() {
    let mut ctx = files(&[Priority::Normal]);
    let avail = everything(1);
    assert_eq!(
        pick_pending_block(&mut ctx, &avail),
        Some(BlockTask { fi: 0, pi: 0, bi: 0 })
    );
    assert_eq!(pick_pending_block(&mut ctx, &avail), None);
    assert!(pick_block(&mut ctx, &avail, LIMITS).is_some());
}

#[test]
fn pending_blocks_of_all_files() {
    let mut ctx = files(&[Priority::Normal, Priority::High, Priority::Low]);
    assert!(pending_countable(&ctx));
    assert_eq!(total_pending_blocks(&ctx), 3);
    pick_block(&mut ctx, &everything(3), LIMITS);
    assert_eq!(total_pending_blocks(&ctx), 2);
    let mut seed = files(&[]);
    assert_eq!(total_pending_blocks(&seed), 0);
    assert_eq!(pick_block(&mut seed, &[], LIMITS), None);
}
