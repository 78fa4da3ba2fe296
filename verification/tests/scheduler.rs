use bitturbulence::scheduler::{
    BlockScheduler, BlockState, BlockTask, Priority, StreamsPerBlock, BLOCK_SIZE,
};

const LIMITS: StreamsPerBlock = StreamsPerBlock { typical: 2, max: 4 };

/// Three pieces of two blocks each; the last piece is short and has one block.
fn small() -> BlockScheduler {
    BlockScheduler::new(7, 3, 2 * BLOCK_SIZE, 100)
}

fn task(pi: u32, bi: u32) -> Option<BlockTask> {
    Some(BlockTask { fi: 7, pi, bi })
}

#[test]
fn block_size_is_16_kib() {
    assert_eq!(BLOCK_SIZE, 16 * 1024);
}

#[test]
fn fresh_scheduler() {
    let s = small();
    assert_eq!(s.num_pieces(), 3);
    assert_eq!(s.block_state[0], vec![BlockState::Pending; 2]);
    assert_eq!(s.block_state[1].len(), 2);
    assert_eq!(s.block_state[2].len(), 1);
    assert_eq!(s.block_hashes[2], vec![None]);
    assert_eq!(s.availability, vec![0, 0, 0]);
    assert_eq!(s.priority(), Priority::Normal);
    assert_eq!(s.pending_blocks(), 5);
    assert!(!s.is_complete());
}

#[test]
fn last_piece_rounds_up() {
    let one = BlockScheduler::new(0, 1, BLOCK_SIZE, BLOCK_SIZE + 1);
    assert_eq!(one.block_state[0].len(), 2);
    let none = BlockScheduler::new(0, 1, BLOCK_SIZE, 0);
    assert_eq!(none.block_state[0].len(), 0);
    let largest = BlockScheduler::new(0, 1, BLOCK_SIZE, u32::MAX);
    assert_eq!(largest.block_state[0].len(), 262144);
}

#[test]
fn file_without_pieces() {
    let mut s = BlockScheduler::new(0, 0, 5, 0);
    assert_eq!(s.num_pieces(), 0);
    assert!(s.is_complete());
    assert_eq!(s.min_availability(), 0);
    assert_eq!(s.schedule(&[true], LIMITS), None);
}

#[test]
fn availability_counts_peers() {
    let mut s = small();
    s.add_peer_bitfield(&[true, false, true]);
    s.add_peer_bitfield(&[true, true]);
    assert_eq!(s.availability, vec![2, 1, 1]);
    s.add_peer_have(1);
    assert_eq!(s.availability, vec![2, 2, 1]);
    assert_eq!(s.min_availability(), 1);
    s.remove_peer_bitfield(&[true, false, true]);
    assert_eq!(s.availability, vec![1, 2, 0]);
    assert_eq!(s.min_availability(), 0);
}

#[test]
fn bits_past_the_end_are_ignored() {
    let mut s = small();
    s.add_peer_bitfield(&[false, false, false, true, true]);
    s.add_peer_have(3);
    assert_eq!(s.availability, vec![0, 0, 0]);
    s.remove_peer_bitfield(&[true, true, true, true, true]);
    assert_eq!(s.availability, vec![0, 0, 0]);
}

#[test]
fn joining_then_leaving_leaves_no_trace() {
    let mut s = small();
    s.add_peer_bitfield(&[true, true, false]);
    let before = s.availability.clone();
    s.add_peer_bitfield(&[false, true, true]);
    s.remove_peer_bitfield(&[false, true, true]);
    assert_eq!(s.availability, before);
}

#[test]
fn rarest_piece_goes_first() {
    let mut s = small();
    s.add_peer_bitfield(&[true, true, true]);
    s.add_peer_bitfield(&[true, false, true]);
    assert_eq!(s.schedule_pending(&[true, true, true]), task(1, 0));
    assert_eq!(s.schedule_pending(&[true, true, true]), task(1, 1));
    assert_eq!(s.schedule_pending(&[true, true, true]), task(0, 0));
    assert_eq!(s.block_state[1], vec![BlockState::InFlight(1); 2]);
}

#[test]
fn only_pieces_that_the_peer_has() {
    let mut s = small();
    assert_eq!(s.schedule_pending(&[false, false, true]), task(2, 0));
    assert_eq!(s.schedule_pending(&[false, false, true]), None);
    assert_eq!(s.schedule_pending(&[]), None);
}

#[test]
fn redundancy_comes_last() {
    let mut s = BlockScheduler::new(7, 1, 2 * BLOCK_SIZE, 2 * BLOCK_SIZE);
    let got: Vec<(u32, u32)> = (0..8)
        .map(|_| s.schedule(&[true], LIMITS).map(|t| (t.pi, t.bi)).unwrap())
        .collect();
    assert_eq!(
        got,
        vec![(0, 0), (0, 1), (0, 0), (0, 1), (0, 0), (0, 0), (0, 1), (0, 1)]
    );
    assert_eq!(s.schedule(&[true], LIMITS), None);
    assert_eq!(s.block_state[0], vec![BlockState::InFlight(4); 2]);
}

#[test]
fn giving_back_undoes_handing_out() {
    let mut s = small();
    assert_eq!(s.schedule(&[true], LIMITS), task(0, 0));
    s.mark_block_failed(0, 0);
    assert_eq!(s.block_state[0][0], BlockState::Pending);
    s.block_state[0][0] = BlockState::InFlight(3);
    s.mark_block_failed(0, 0);
    assert_eq!(s.block_state[0][0], BlockState::InFlight(2));
    s.mark_block_failed(1, 0);
    assert_eq!(s.block_state[1][0], BlockState::Pending);
}

#[test]
fn piece_is_ready_once() {
    let mut s = small();
    assert!(!s.mark_block_done(0, 1, [1; 32]));
    assert_eq!(s.piece_block_hashes(0), None);
    assert!(s.completes_piece(0, 0));
    assert!(s.mark_block_done(0, 0, [2; 32]));
    assert!(s.piece_verifying[0]);
    assert!(!s.mark_block_done(0, 0, [3; 32]));
    assert_eq!(s.piece_block_hashes(0), Some(vec![[2; 32], [1; 32]]));
    s.mark_block_failed(0, 0);
    assert_eq!(s.block_state[0][0], BlockState::Done);
}

#[test]
fn failed_piece_starts_again() {
    let mut s = small();
    s.mark_block_done(2, 0, [9; 32]);
    s.mark_piece_hash_failed(2);
    assert_eq!(s.block_state[2], vec![BlockState::Pending]);
    assert_eq!(s.block_hashes[2], vec![None]);
    assert!(!s.piece_verifying[2]);
    assert_eq!(s.schedule_pending(&[false, false, true]), task(2, 0));
}

#[test]
fn complete_file_rests() {
    let mut s = small();
    for pi in 0..3 {
        s.mark_piece_verified(pi);
    }
    assert!(s.is_complete());
    assert_eq!(s.pending_blocks(), 0);
    assert_eq!(s.schedule(&[true, true, true], LIMITS), None);
    assert!(!s.completes_piece(0, 0));
}

#[test]
fn blocks_of_the_file() {
    let s = small();
    assert!(s.has_block(0, 1));
    assert!(!s.has_block(0, 2));
    assert!(!s.has_block(2, 1));
    assert!(!s.has_block(3, 0));
    assert_eq!(s.add_pending(u32::MAX - 5), Some(u32::MAX));
    assert_eq!(s.add_pending(u32::MAX - 4), None);
}

#[test]
fn priorities_in_order() {
    assert!(!Priority::Low.at_least_high());
    assert!(!Priority::Normal.at_least_high());
    assert!(Priority::High.at_least_high());
    assert!(Priority::Maximum.at_least_high());
}
