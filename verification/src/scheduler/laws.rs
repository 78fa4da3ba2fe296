//! What holds of a scheduler over several operations.

use super::availability::{count_in, count_out, has_bit, has_room};
use super::blocks::{pending_in, pending_over, put};
use super::pick::Want;
use super::{BlockState, SchedulerView, StreamsPerBlock};

use vstd::prelude::*;

verus! {

/// A peer that is counted and then taken out again leaves no trace.
pub proof fn law_joining_then_leaving(counts: Seq<u32>, bitfield: Seq<bool>)
    requires
        has_room(counts, bitfield),
    ensures
        count_out(count_in(counts, bitfield), bitfield) == counts,
{
    assert(count_out(count_in(counts, bitfield), bitfield) =~= counts);
}

/// It does not matter in which order peers are counted.
pub proof fn law_order_of_joining(counts: Seq<u32>, a: Seq<bool>, b: Seq<bool>)
    ensures
        count_in(count_in(counts, a), b) == count_in(count_in(counts, b), a),
{
    assert(count_in(count_in(counts, a), b) =~= count_in(count_in(counts, b), a));
}

/// How many of `peers` have piece `pi`.
pub open spec fn peers_with(peers: Seq<Seq<bool>>, pi: int) -> nat
    decreases peers.len(),
{
    if peers.len() == 0 {
        0
    } else {
        peers_with(peers.drop_last(), pi) + (if has_bit(peers.last(), pi) {
            1nat
        } else {
            0nat
        })
    }
}

/// The counts for a file of `num` pieces once all of `peers` are counted.
pub open spec fn counts_of(num: nat, peers: Seq<Seq<bool>>) -> Seq<u32>
    decreases peers.len(),
{
    if peers.len() == 0 {
        Seq::new(num, |pi: int| 0u32)
    } else {
        count_in(counts_of(num, peers.drop_last()), peers.last())
    }
}

/// The count of a piece is the number of peers that have it.
pub proof fn law_counts_are_peers(num: nat, peers: Seq<Seq<bool>>, pi: int)
    requires
        peers.len() <= u32::MAX,
        0 <= pi < num,
    ensures
        counts_of(num, peers).len() == num,
        counts_of(num, peers)[pi] == peers_with(peers, pi),
        peers_with(peers, pi) <= peers.len(),
    decreases peers.len(),
{
    if peers.len() > 0 {
        law_counts_are_peers(num, peers.drop_last(), pi);
    }
}

/// The peers that have a piece are one of them, if it has it, and the others that do.
pub proof fn lemma_peers_without(peers: Seq<Seq<bool>>, j: int, pi: int)
    requires
        0 <= j < peers.len(),
    ensures
        peers_with(peers, pi) == peers_with(peers.remove(j), pi) + (if has_bit(peers[j], pi) {
            1nat
        } else {
            0nat
        }),
    decreases peers.len(),
{
    if j == peers.len() - 1 {
        assert(peers.remove(j) =~= peers.drop_last());
    } else {
        lemma_peers_without(peers.drop_last(), j, pi);
        assert(peers.drop_last()[j] == peers[j]);
        assert(peers.remove(j).drop_last() =~= peers.drop_last().remove(j));
        assert(peers.remove(j).last() == peers.last());
    }
}

/// Once a peer leaves, the counts are those of the peers that stay.
pub proof fn law_counts_after_leaving(num: nat, peers: Seq<Seq<bool>>, j: int)
    requires
        peers.len() <= u32::MAX,
        0 <= j < peers.len(),
    ensures
        count_out(counts_of(num, peers), peers[j]) == counts_of(num, peers.remove(j)),
{
    let left = count_out(counts_of(num, peers), peers[j]);
    let right = counts_of(num, peers.remove(j));
    lemma_counts_len(num, peers);
    lemma_counts_len(num, peers.remove(j));
    assert forall|pi: int| 0 <= pi < num implies left[pi] == right[pi] by {
        law_counts_are_peers(num, peers, pi);
        law_counts_are_peers(num, peers.remove(j), pi);
        lemma_peers_without(peers, j, pi);
    }
    assert(left =~= right);
}

proof fn lemma_counts_len(num: nat, peers: Seq<Seq<bool>>)
    ensures
        counts_of(num, peers).len() == num,
    decreases peers.len(),
{
    if peers.len() > 0 {
        lemma_counts_len(num, peers.drop_last());
    }
}

/// No block is fetched by more than `max` streams.
pub open spec fn streams_within(s: SchedulerView, max: u32) -> bool {
    forall|pi: int, bi: int|
        #![trigger s.block_state[pi][bi]]
        s.has_block(pi, bi) ==> (s.block_state[pi][bi] matches BlockState::InFlight(n) ==> n <= max)
}

/// The number of streams per block stays within its limit, whatever is done.
pub proof fn law_streams_per_block(
    s: SchedulerView,
    limits: StreamsPerBlock,
    bits: Seq<bool>,
    pi: int,
    bi: int,
    hash: [u8; 32],
)
    requires
        s.wf(),
        streams_within(s, limits.max),
        limits.valid(),
        s.has_block(pi, bi),
    ensures
        streams_within(s.after_choice(s.choice(bits, Want::Pending)), limits.max),
        streams_within(s.after_choice(s.any_choice(bits, limits)), limits.max),
        streams_within(s.block_done(pi, bi, hash), limits.max),
        streams_within(s.block_failed(pi, bi), limits.max),
        streams_within(s.piece_verified(pi), limits.max),
        streams_within(s.piece_hash_failed(pi), limits.max),
{
    s.lemma_choice(bits, Want::Pending);
    s.lemma_choice(bits, Want::InFlightBelow(limits.typical));
    s.lemma_choice(bits, Want::InFlightBelow(limits.max));
    match s.choice(bits, Want::Pending) {
        Some(c) => lemma_entry_within(s, s.stream_added(c), limits.max, c.0, c.1),
        None => {},
    }
    match s.any_choice(bits, limits) {
        Some(c) => lemma_entry_within(s, s.stream_added(c), limits.max, c.0, c.1),
        None => {},
    }
    if !(s.block_state[pi][bi] is Done) {
        lemma_entry_within(s, s.block_done(pi, bi, hash), limits.max, pi, bi);
    }
    if s.block_state[pi][bi] is InFlight {
        assert(s.block_state[pi].len() == s.num_blocks(pi));
        lemma_entry_within(s, s.block_failed(pi, bi), limits.max, pi, bi);
    }
    assert(s.block_state[pi].len() == s.num_blocks(pi));
    let verified = s.piece_verified(pi);
    assert forall|p: int, b: int|
        #![trigger verified.block_state[p][b]]
        verified.has_block(p, b) implies (verified.block_state[p][b] matches BlockState::InFlight(n)
        ==> n <= limits.max) by {
        if p != pi {
            assert(verified.block_state[p][b] == s.block_state[p][b]);
        }
    }
    let failed = s.piece_hash_failed(pi);
    assert forall|p: int, b: int|
        #![trigger failed.block_state[p][b]]
        failed.has_block(p, b) implies (failed.block_state[p][b] matches BlockState::InFlight(n)
        ==> n <= limits.max) by {
        if p != pi {
            assert(failed.block_state[p][b] == s.block_state[p][b]);
        }
    }
}

proof fn lemma_entry_within(s: SchedulerView, after: SchedulerView, max: u32, pi: int, bi: int)
    requires
        s.wf(),
        streams_within(s, max),
        s.has_block(pi, bi),
        after.num_pieces == s.num_pieces,
        after.piece_length == s.piece_length,
        after.last_piece_len == s.last_piece_len,
        after.block_state == put(s.block_state, pi, bi, after.block_state[pi][bi]),
        after.block_state[pi][bi] matches BlockState::InFlight(n) ==> n <= max,
    ensures
        streams_within(after, max),
{
    assert(s.block_state[pi].len() == s.num_blocks(pi));
    assert forall|p: int, b: int|
        #![trigger after.block_state[p][b]]
        after.has_block(p, b) implies (after.block_state[p][b] matches BlockState::InFlight(n) ==> n
        <= max) by {
        if p != pi || b != bi {
            assert(after.block_state[p][b] == s.block_state[p][b]);
            assert(s.has_block(p, b));
        }
    }
}

/// A block that is handed out and given back at once is as it was.
pub proof fn law_giving_back_undoes_handing_out(
    s: SchedulerView,
    bits: Seq<bool>,
    want: Want,
    c: (int, int),
)
    requires
        s.wf(),
        s.eligible(bits, want, c.0, c.1),
    ensures
        s.stream_added(c).block_failed(c.0, c.1) == s,
{
    assert(s.block_state[c.0].len() == s.num_blocks(c.0));
    let back = s.stream_added(c).block_failed(c.0, c.1);
    assert(back.block_state[c.0] =~= s.block_state[c.0]);
    assert(back.block_state =~= s.block_state);
    assert(back =~= s);
}

/// The block that is chosen is in a piece that is no more common than any other with a block of
/// the wanted kind that the peer has.
pub proof fn law_rarest_first(s: SchedulerView, bits: Seq<bool>, want: Want, pi: int, bi: int)
    requires
        s.eligible(bits, want, pi, bi),
    ensures
        s.choice(bits, want) matches Some(c) && s.availability[c.0] <= s.availability[pi],
{
    s.lemma_choice(bits, want);
}

/// A block in flight is handed out only when no pending one could be, and one with the typical
/// number of streams or more only when none with fewer could be.
pub proof fn law_redundancy_comes_last(s: SchedulerView, bits: Seq<bool>, limits: StreamsPerBlock)
    ensures
        s.any_choice(bits, limits) matches Some(c) ==> {
            &&& s.block_state[c.0][c.1] is InFlight ==> forall|p: int, b: int|
                !#[trigger] s.eligible(bits, Want::Pending, p, b)
            &&& (s.block_state[c.0][c.1] matches BlockState::InFlight(n) && n >= limits.typical)
                ==> forall|p: int, b: int|
                !#[trigger] s.eligible(bits, Want::InFlightBelow(limits.typical), p, b)
            &&& s.has_block(c.0, c.1)
            &&& has_bit(bits, c.0)
            &&& !(s.block_state[c.0][c.1] is Done)
        },
        s.any_choice(bits, limits) is None ==> forall|p: int, b: int|
            !#[trigger] s.eligible(bits, Want::Pending, p, b) && !s.eligible(
                bits,
                Want::InFlightBelow(limits.typical),
                p,
                b,
            ) && !s.eligible(bits, Want::InFlightBelow(limits.max), p, b),
{
    s.lemma_choice(bits, Want::Pending);
    s.lemma_choice(bits, Want::InFlightBelow(limits.typical));
    s.lemma_choice(bits, Want::InFlightBelow(limits.max));
}

/// A piece goes under verification at most once: after the block that completes it, no block
/// completes it again, and none completes a piece that is verified or under verification.
pub proof fn law_verified_once(s: SchedulerView, pi: int, bi: int, hash: [u8; 32], again: int)
    requires
        s.wf(),
        s.has_block(pi, bi),
        s.has_block(pi, again),
    ensures
        s.completes_piece(pi, bi) ==> {
            &&& !s.piece_done[pi]
            &&& !s.piece_verifying[pi]
            &&& s.block_done(pi, bi, hash).piece_verifying[pi]
            &&& !s.block_done(pi, bi, hash).completes_piece(pi, again)
        },
        s.piece_done[pi] || s.piece_verifying[pi] ==> !s.completes_piece(pi, again),
{
    assert(s.block_state[pi].len() == s.num_blocks(pi));
    if s.piece_done[pi] || s.piece_verifying[pi] {
        assert(s.all_blocks_done(pi));
        assert(s.block_state[pi][again] is Done);
        assert(s.block_state[pi][bi] is Done);
    }
    if s.completes_piece(pi, bi) {
        let after = s.block_done(pi, bi, hash);
        if again != bi {
            assert(s.block_state[pi][again] is Done);
        }
        assert(after.block_state[pi][again] is Done);
    }
}

/// A piece whose verification failed is as good as new: each of its blocks can be handed out to
/// a peer that has the piece, and none of its digests is kept.
pub proof fn law_failed_piece_restarts(s: SchedulerView, pi: int, bi: int, bits: Seq<bool>)
    requires
        s.wf(),
        s.has_block(pi, bi),
        has_bit(bits, pi),
    ensures
        s.piece_hash_failed(pi).eligible(bits, Want::Pending, pi, bi),
        s.piece_hash_failed(pi).block_hashes[pi][bi] is None,
        !s.piece_hash_failed(pi).piece_done[pi],
        !s.piece_hash_failed(pi).piece_verifying[pi],
{
    assert(s.block_state[pi].len() == s.num_blocks(pi));
    assert(s.block_hashes[pi].len() == s.num_blocks(pi));
}

/// No block of a verified piece is handed out.
pub proof fn law_verified_piece_rests(
    s: SchedulerView,
    bits: Seq<bool>,
    want: Want,
    pi: int,
    bi: int,
)
    requires
        s.wf(),
        0 <= pi < s.num_pieces,
        s.piece_done[pi],
    ensures
        !s.eligible(bits, want, pi, bi),
{
    assert(s.all_blocks_done(pi));
    if s.has_block(pi, bi) {
        assert(s.block_state[pi][bi] is Done);
    }
}

proof fn lemma_none_pending_in(row: Seq<BlockState>)
    requires
        forall|b: int| 0 <= b < row.len() ==> !((#[trigger] row[b]) is Pending),
    ensures
        pending_in(row) == 0,
    decreases row.len(),
{
    if row.len() > 0 {
        assert forall|b: int| 0 <= b < row.drop_last().len() implies !((
        #[trigger] row.drop_last()[b]) is Pending) by {
            assert(!(row[b] is Pending));
        }
        lemma_none_pending_in(row.drop_last());
    }
}

proof fn lemma_none_pending_over(rows: Seq<Seq<BlockState>>)
    requires
        forall|p: int, b: int|
            #![trigger rows[p][b]]
            0 <= p < rows.len() && 0 <= b < rows[p].len() ==> !(rows[p][b] is Pending),
    ensures
        pending_over(rows) == 0,
    decreases rows.len(),
{
    if rows.len() > 0 {
        let last = rows.len() - 1;
        assert forall|b: int| 0 <= b < rows.last().len() implies !((#[trigger] rows.last()[b])
            is Pending) by {
            assert(!(rows[last][b] is Pending));
        }
        lemma_none_pending_in(rows.last());
        assert forall|p: int, b: int|
            #![trigger rows.drop_last()[p][b]]
            0 <= p < rows.drop_last().len() && 0 <= b < rows.drop_last()[p].len() implies !(
        rows.drop_last()[p][b] is Pending) by {
            assert(!(rows[p][b] is Pending));
        }
        lemma_none_pending_over(rows.drop_last());
    }
}

/// A complete file has no pending block, and nothing of it is handed out.
pub proof fn law_complete_file_rests(s: SchedulerView, bits: Seq<bool>, limits: StreamsPerBlock)
    requires
        s.wf(),
        s.complete(),
    ensures
        pending_over(s.block_state) == 0,
        s.any_choice(bits, limits) is None,
{
    assert forall|p: int, b: int|
        #![trigger s.block_state[p][b]]
        0 <= p < s.block_state.len() && 0 <= b < s.block_state[p].len() implies !(
    s.block_state[p][b] is Pending) by {
        assert(s.piece_done[p]);
        assert(s.all_blocks_done(p));
        assert(s.block_state[p].len() == s.num_blocks(p));
    }
    lemma_none_pending_over(s.block_state);
    law_redundancy_comes_last(s, bits, limits);
    match s.any_choice(bits, limits) {
        Some(c) => {
            assert(s.piece_done[c.0]);
            law_verified_piece_rests(s, bits, Want::Pending, c.0, c.1);
            assert(s.all_blocks_done(c.0));
            assert(s.block_state[c.0][c.1] is Done);
        },
        None => {},
    }
}

} // verus!
