//! What each operation of a scheduler does, entry by entry.

use super::availability::{count_in, count_out, has_room};
use super::blocks::{least, pending_in, pending_over, put};
use super::pick::Want;
use super::{blocks_in, piece_len_at, BlockState, Priority, SchedulerView, StreamsPerBlock};

use vstd::prelude::*;

verus! {

/// Only the last piece has a length of its own.
pub proof fn law_piece_lengths(num: nat, piece_length: u32, last_piece_len: u32, pi: int)
    requires
        0 <= pi < num,
    ensures
        pi < num - 1 ==> piece_len_at(num, piece_length, last_piece_len, pi) == piece_length,
        pi == num - 1 ==> piece_len_at(num, piece_length, last_piece_len, pi) == last_piece_len,
{
}

/// The blocks of a piece, 16 KiB each, cover it, and none is empty.
pub proof fn law_blocks_cover_the_piece(len: u32)
    ensures
        blocks_in(len) * 16384 >= len,
        blocks_in(len) * 16384 < len + 16384,
{
}

/// A download starts with every block of every piece pending, no digest, nothing verified and
/// nobody counted.
pub proof fn law_fresh_file(
    fi: usize,
    num: usize,
    piece_length: u32,
    last_piece_len: u32,
    pi: int,
    bi: int,
)
    ensures
        ({
            let s = SchedulerView::fresh(fi, num, piece_length, last_piece_len);
            let len = if pi == num - 1 {
                last_piece_len
            } else {
                piece_length
            };
            &&& s.fi == fi
            &&& s.num_pieces == num
            &&& s.piece_length == piece_length
            &&& s.last_piece_len == last_piece_len
            &&& s.priority == Priority::Normal
            &&& s.block_state.len() == num
            &&& s.block_hashes.len() == num
            &&& s.piece_done.len() == num
            &&& s.piece_verifying.len() == num
            &&& s.availability.len() == num
            &&& 0 <= pi < num ==> {
                &&& s.block_state[pi].len() * 16384 >= len
                &&& s.block_state[pi].len() * 16384 < len + 16384
                &&& s.block_hashes[pi].len() == s.block_state[pi].len()
                &&& !s.piece_done[pi]
                &&& !s.piece_verifying[pi]
                &&& s.availability[pi] == 0
                &&& 0 <= bi < s.block_state[pi].len() ==> s.block_state[pi][bi]
                    == BlockState::Pending && s.block_hashes[pi][bi] is None
            }
        }),
{
}

/// A block is named by a piece of the file and a position among the blocks of that piece.
pub proof fn law_block_names(s: SchedulerView, pi: int, bi: int)
    requires
        s.wf(),
    ensures
        s.has_block(pi, bi) <==> 0 <= pi < s.block_state.len() && 0 <= bi
            < s.block_state[pi].len(),
{
}

/// A bitfield adds one to the count of each piece that it has, and nothing to any other; bits past
/// the end of the file count for nothing. There is room for it exactly where no count that it adds
/// to is full.
pub proof fn law_counting_in(counts: Seq<u32>, bits: Seq<bool>, pi: int)
    requires
        0 <= pi < counts.len(),
    ensures
        count_in(counts, bits).len() == counts.len(),
        pi < bits.len() && bits[pi] && counts[pi] < u32::MAX ==> count_in(counts, bits)[pi]
            == counts[pi] + 1,
        pi >= bits.len() || !bits[pi] ==> count_in(counts, bits)[pi] == counts[pi],
        has_room(counts, bits) <==> forall|p: int|
            #![trigger counts[p]]
            0 <= p < counts.len() && p < bits.len() && bits[p] ==> counts[p] < u32::MAX,
{
}

/// Taking a bitfield out subtracts one from each count above zero of a piece that it has, and
/// leaves every other count.
pub proof fn law_counting_out(counts: Seq<u32>, bits: Seq<bool>, pi: int)
    requires
        0 <= pi < counts.len(),
    ensures
        count_out(counts, bits).len() == counts.len(),
        pi < bits.len() && bits[pi] && counts[pi] > 0 ==> count_out(counts, bits)[pi] == counts[pi]
            - 1,
        pi >= bits.len() || !bits[pi] || counts[pi] == 0 ==> count_out(counts, bits)[pi]
            == counts[pi],
{
}

/// The least count is one of the counts and no more than any of them; without counts it is zero.
pub proof fn law_least_count(counts: Seq<u32>)
    ensures
        forall|i: int| 0 <= i < counts.len() ==> least(counts) <= #[trigger] counts[i],
        counts.len() > 0 ==> counts.contains(least(counts)),
        counts.len() == 0 ==> least(counts) == 0,
    decreases counts.len(),
{
    if counts.len() > 0 {
        let rest = counts.drop_last();
        law_least_count(rest);
        assert(counts[counts.len() - 1] == counts.last());
        assert forall|i: int| 0 <= i < counts.len() implies least(counts) <= #[trigger] counts[i] by {
            if i < rest.len() {
                assert(rest[i] == counts[i]);
            }
        }
        if counts.len() > 1 && counts.last() >= least(rest) {
            let k = choose|k: int| 0 <= k < rest.len() && rest[k] == least(rest);
            assert(counts[k] == least(counts));
        }
    }
}

/// A file is complete exactly when every piece of it is verified.
pub proof fn law_complete_file(s: SchedulerView)
    requires
        s.wf(),
    ensures
        s.complete() <==> !s.piece_done.contains(false),
{
    if s.complete() && s.piece_done.contains(false) {
        let k = choose|k: int| 0 <= k < s.piece_done.len() && s.piece_done[k] == false;
        assert(s.piece_done[k]);
    }
    if !s.piece_done.contains(false) {
        assert forall|pi: int|
            #![trigger s.piece_done[pi]]
            0 <= pi < s.num_pieces implies s.piece_done[pi] by {
            if !s.piece_done[pi] {
                assert(s.piece_done.contains(false));
            }
        }
    }
}

/// The digests of a piece are known exactly when that of every block is, and are listed in the
/// order of the blocks.
pub proof fn law_known_digests(s: SchedulerView, pi: int, bi: int)
    requires
        s.wf(),
        0 <= pi < s.num_pieces,
    ensures
        s.hashes_known(pi) <==> !s.block_hashes[pi].contains(None),
        s.hashes_of(pi).len() == s.block_state[pi].len(),
        0 <= bi < s.block_hashes[pi].len() && s.block_hashes[pi][bi] is Some ==> Some(
            s.hashes_of(pi)[bi],
        ) == s.block_hashes[pi][bi],
{
    let row = s.block_hashes[pi];
    assert(s.block_state[pi].len() == row.len());
    if s.hashes_known(pi) && row.contains(None) {
        let k = choose|k: int| 0 <= k < row.len() && row[k] == None::<[u8; 32]>;
        assert(s.block_hashes[pi][k] is Some);
    }
    if !row.contains(None) {
        assert forall|b: int|
            #![trigger s.block_hashes[pi][b]]
            0 <= b < s.num_blocks(pi) implies s.block_hashes[pi][b] is Some by {
            if row[b] is None {
                assert(row.contains(None));
            }
        }
    }
}

/// Everything but states, digests and verification of the blocks of piece `pi` is the same.
pub open spec fn same_but_piece(s: SchedulerView, after: SchedulerView, pi: int) -> bool {
    &&& after.fi == s.fi
    &&& after.piece_length == s.piece_length
    &&& after.last_piece_len == s.last_piece_len
    &&& after.num_pieces == s.num_pieces
    &&& after.priority == s.priority
    &&& after.availability == s.availability
    &&& after.block_state.len() == s.block_state.len()
    &&& after.block_hashes.len() == s.block_hashes.len()
    &&& after.piece_done.len() == s.piece_done.len()
    &&& after.piece_verifying.len() == s.piece_verifying.len()
    &&& after.block_state[pi].len() == s.block_state[pi].len()
    &&& after.block_hashes[pi].len() == s.block_hashes[pi].len()
    &&& forall|p: int|
        #![trigger after.block_state[p]]
        #![trigger after.block_hashes[p]]
        #![trigger after.piece_done[p]]
        #![trigger after.piece_verifying[p]]
        0 <= p < s.num_pieces && p != pi ==> {
            &&& after.block_state[p] == s.block_state[p]
            &&& after.block_hashes[p] == s.block_hashes[p]
            &&& after.piece_done[p] == s.piece_done[p]
            &&& after.piece_verifying[p] == s.piece_verifying[p]
        }
}

/// A block that arrives is done and its digest kept; no other block changes. The piece goes under
/// verification exactly when it is the last of its blocks to arrive. A block that arrived before
/// changes nothing.
pub proof fn law_block_arrives(s: SchedulerView, pi: int, bi: int, hash: [u8; 32])
    requires
        s.wf(),
        0 <= pi < s.num_pieces,
        0 <= bi < s.block_state[pi].len(),
    ensures
        s.block_state[pi][bi] is Done ==> s.block_done(pi, bi, hash) == s && !s.completes_piece(
            pi,
            bi,
        ),
        !(s.block_state[pi][bi] is Done) ==> {
            let after = s.block_done(pi, bi, hash);
            &&& same_but_piece(s, after, pi)
            &&& after.block_state[pi][bi] is Done
            &&& after.block_hashes[pi][bi] == Some(hash)
            &&& forall|b: int|
                #![trigger after.block_state[pi][b]]
                #![trigger after.block_hashes[pi][b]]
                0 <= b < s.block_state[pi].len() && b != bi ==> after.block_state[pi][b]
                    == s.block_state[pi][b] && after.block_hashes[pi][b] == s.block_hashes[pi][b]
            &&& after.piece_done[pi] == s.piece_done[pi]
            &&& s.completes_piece(pi, bi) <==> forall|b: int|
                0 <= b < s.block_state[pi].len() ==> #[trigger] after.block_state[pi][b] is Done
            &&& after.piece_verifying[pi] == (s.piece_verifying[pi] || s.completes_piece(pi, bi))
        },
{
    assert(s.block_state[pi].len() == s.num_blocks(pi));
    assert(s.block_hashes[pi].len() == s.num_blocks(pi));
    if !(s.block_state[pi][bi] is Done) {
        let after = s.block_done(pi, bi, hash);
        if s.completes_piece(pi, bi) {
            assert forall|b: int|
                0 <= b < s.block_state[pi].len() implies #[trigger] after.block_state[pi][b] is Done by {
                if b != bi {
                    assert(s.block_state[pi][b] is Done);
                }
            }
        }
        if forall|b: int|
            0 <= b < s.block_state[pi].len() ==> #[trigger] after.block_state[pi][b] is Done {
            assert forall|b: int|
                #![trigger s.block_state[pi][b]]
                0 <= b < s.num_blocks(pi) && b != bi implies s.block_state[pi][b] is Done by {
                assert(after.block_state[pi][b] is Done);
            }
        }
    }
}

/// A stream that gives up on a block leaves it to the other streams that fetch it, and pending
/// where it was the last one. A block that no stream fetches stays as it is. Nothing else changes.
pub proof fn law_block_fails(s: SchedulerView, pi: int, bi: int)
    requires
        s.wf(),
        0 <= pi < s.num_pieces,
        0 <= bi < s.block_state[pi].len(),
    ensures
        ({
            let after = s.block_failed(pi, bi);
            &&& same_but_piece(s, after, pi)
            &&& after.block_hashes == s.block_hashes
            &&& after.piece_done == s.piece_done
            &&& after.piece_verifying == s.piece_verifying
            &&& s.block_state[pi][bi] == BlockState::InFlight(1) ==> after.block_state[pi][bi]
                == BlockState::Pending
            &&& s.block_state[pi][bi] matches BlockState::InFlight(n) ==> n > 1
                ==> after.block_state[pi][bi] == BlockState::InFlight((n - 1) as u32)
            &&& !(s.block_state[pi][bi] is InFlight) ==> after.block_state == s.block_state
            &&& forall|b: int|
                0 <= b < s.block_state[pi].len() && b != bi ==> #[trigger] after.block_state[pi][b]
                    == s.block_state[pi][b]
        }),
{
}

/// A verified piece is done in all its blocks, verified and no longer under verification. Nothing
/// else changes.
pub proof fn law_piece_is_verified(s: SchedulerView, pi: int)
    requires
        s.wf(),
        0 <= pi < s.num_pieces,
    ensures
        ({
            let after = s.piece_verified(pi);
            &&& same_but_piece(s, after, pi)
            &&& after.piece_done[pi]
            &&& !after.piece_verifying[pi]
            &&& after.block_hashes == s.block_hashes
            &&& forall|b: int|
                0 <= b < s.block_state[pi].len() ==> #[trigger] after.block_state[pi][b] is Done
        }),
{
}

/// A piece whose verification failed is pending in all its blocks, without digests, and neither
/// verified nor under verification. Nothing else changes.
pub proof fn law_piece_fails(s: SchedulerView, pi: int)
    requires
        s.wf(),
        0 <= pi < s.num_pieces,
    ensures
        ({
            let after = s.piece_hash_failed(pi);
            &&& same_but_piece(s, after, pi)
            &&& !after.piece_done[pi]
            &&& !after.piece_verifying[pi]
            &&& forall|b: int|
                #![trigger after.block_state[pi][b]]
                #![trigger after.block_hashes[pi][b]]
                0 <= b < s.block_state[pi].len() ==> after.block_state[pi][b] is Pending
                    && after.block_hashes[pi][b] is None
        }),
{
    assert(s.block_state[pi].len() == s.num_blocks(pi));
    assert(s.block_hashes[pi].len() == s.num_blocks(pi));
}

/// How much a block adds to the number of pending ones.
pub open spec fn pending_share(state: BlockState) -> int {
    if state == BlockState::Pending {
        1
    } else {
        0
    }
}

proof fn lemma_pending_row_change(row: Seq<BlockState>, bi: int, state: BlockState)
    requires
        0 <= bi < row.len(),
    ensures
        pending_in(row.update(bi, state)) - pending_share(state) == pending_in(row)
            - pending_share(row[bi]),
    decreases row.len(),
{
    let after = row.update(bi, state);
    if bi == row.len() - 1 {
        assert(after.drop_last() =~= row.drop_last());
    } else {
        lemma_pending_row_change(row.drop_last(), bi, state);
        assert(after.drop_last() =~= row.drop_last().update(bi, state));
    }
}

proof fn lemma_pending_rows_change(rows: Seq<Seq<BlockState>>, pi: int, row: Seq<BlockState>)
    requires
        0 <= pi < rows.len(),
    ensures
        pending_over(rows.update(pi, row)) - pending_in(row) == pending_over(rows) - pending_in(
            rows[pi],
        ),
    decreases rows.len(),
{
    let after = rows.update(pi, row);
    if pi == rows.len() - 1 {
        assert(after.drop_last() =~= rows.drop_last());
    } else {
        lemma_pending_rows_change(rows.drop_last(), pi, row);
        assert(after.drop_last() =~= rows.drop_last().update(pi, row));
    }
}

/// The number of pending blocks follows every single block: it grows by one where one becomes
/// pending, shrinks by one where one ceases to be, and stays where neither happens.
pub proof fn law_pending_follows_each_block(
    rows: Seq<Seq<BlockState>>,
    pi: int,
    bi: int,
    state: BlockState,
)
    requires
        0 <= pi < rows.len(),
        0 <= bi < rows[pi].len(),
    ensures
        pending_over(put(rows, pi, bi, state)) == pending_over(rows) + pending_share(state)
            - pending_share(rows[pi][bi]),
        put(rows, pi, bi, state).len() == rows.len(),
        put(rows, pi, bi, state)[pi][bi] == state,
{
    lemma_pending_row_change(rows[pi], bi, state);
    lemma_pending_rows_change(rows, pi, rows[pi].update(bi, state));
}

proof fn lemma_row_has_pending(row: Seq<BlockState>)
    ensures
        pending_in(row) == 0 <==> !row.contains(BlockState::Pending),
    decreases row.len(),
{
    if row.len() > 0 {
        let rest = row.drop_last();
        lemma_row_has_pending(rest);
        assert(row[row.len() - 1] == row.last());
        if rest.contains(BlockState::Pending) {
            let k = choose|k: int| 0 <= k < rest.len() && rest[k] == BlockState::Pending;
            assert(row[k] == BlockState::Pending);
        }
        if row.contains(BlockState::Pending) && !(row.last() is Pending) {
            let k = choose|k: int| 0 <= k < row.len() && row[k] == BlockState::Pending;
            assert(rest[k] == BlockState::Pending);
        }
    }
}

/// The number of pending blocks is zero exactly when no block is pending.
pub proof fn law_none_pending(rows: Seq<Seq<BlockState>>)
    ensures
        pending_over(rows) == 0 <==> forall|pi: int|
            0 <= pi < rows.len() ==> !(#[trigger] rows[pi]).contains(BlockState::Pending),
    decreases rows.len(),
{
    if rows.len() > 0 {
        let rest = rows.drop_last();
        law_none_pending(rest);
        lemma_row_has_pending(rows.last());
        assert(rows[rows.len() - 1] == rows.last());
        if pending_over(rows) == 0 {
            assert forall|pi: int| 0 <= pi < rows.len() implies !(#[trigger] rows[pi]).contains(
                BlockState::Pending,
            ) by {
                if pi < rest.len() {
                    assert(rest[pi] == rows[pi]);
                }
            }
        }
        if forall|pi: int|
            0 <= pi < rows.len() ==> !(#[trigger] rows[pi]).contains(BlockState::Pending) {
            assert forall|pi: int| 0 <= pi < rest.len() implies !(#[trigger] rest[pi]).contains(
                BlockState::Pending,
            ) by {
                assert(rows[pi] == rest[pi]);
            }
        }
    }
}

/// The peer with bitfield `bits` has piece `pi`, and the piece has a block `bi`.
pub open spec fn offered(s: SchedulerView, bits: Seq<bool>, pi: int, bi: int) -> bool {
    &&& 0 <= pi < s.block_state.len()
    &&& 0 <= bi < s.block_state[pi].len()
    &&& pi < bits.len()
    &&& bits[pi]
}

/// A peer that has a piece with a pending block is given a pending block, whatever the state of the
/// other blocks.
pub proof fn law_pending_block_is_handed_out(
    s: SchedulerView,
    bits: Seq<bool>,
    limits: StreamsPerBlock,
    pi: int,
    bi: int,
)
    requires
        s.wf(),
        0 <= pi < s.num_pieces,
        0 <= bi < s.block_state[pi].len(),
        s.block_state[pi][bi] is Pending,
        pi < bits.len(),
        bits[pi],
    ensures
        s.task_of(s.choice(bits, Want::Pending)) is Some,
        s.task_of(s.any_choice(bits, limits)) is Some,
        s.any_choice(bits, limits) == s.choice(bits, Want::Pending),
{
    s.lemma_choice(bits, Want::Pending);
    assert(s.block_state[pi].len() == s.num_blocks(pi));
    assert(s.eligible(bits, Want::Pending, pi, bi));
}

/// A peer that has a piece with a block in flight on fewer streams than allowed is given a block.
pub proof fn law_block_in_flight_is_handed_out(
    s: SchedulerView,
    bits: Seq<bool>,
    limits: StreamsPerBlock,
    pi: int,
    bi: int,
)
    requires
        s.wf(),
        0 <= pi < s.num_pieces,
        0 <= bi < s.block_state[pi].len(),
        s.block_state[pi][bi] matches BlockState::InFlight(n) && (n < limits.typical || n
            < limits.max),
        pi < bits.len(),
        bits[pi],
    ensures
        s.task_of(s.any_choice(bits, limits)) is Some,
{
    s.lemma_choice(bits, Want::Pending);
    s.lemma_choice(bits, Want::InFlightBelow(limits.typical));
    s.lemma_choice(bits, Want::InFlightBelow(limits.max));
    assert(s.block_state[pi].len() == s.num_blocks(pi));
    assert(s.eligible(bits, Want::InFlightBelow(limits.typical), pi, bi) || s.eligible(
        bits,
        Want::InFlightBelow(limits.max),
        pi,
        bi,
    ));
}

/// Block `(p1, b1)` is in a rarer piece than block `(p2, b2)`, or in as rare a piece and no later
/// in the file.
pub open spec fn rarer_or_earlier(s: SchedulerView, p1: int, b1: int, p2: int, b2: int) -> bool {
    ||| s.availability[p1] < s.availability[p2]
    ||| s.availability[p1] == s.availability[p2] && (p1 < p2 || p1 == p2 && b1 <= b2)
}

/// A pending block that is handed out is pending and of a piece that the peer has, and no other
/// such block is in a rarer piece, or in as rare a piece and earlier in the file.
pub proof fn law_rarest_pending_block(s: SchedulerView, bits: Seq<bool>)
    requires
        s.wf(),
    ensures
        s.choice(bits, Want::Pending) matches Some(c) ==> {
            &&& offered(s, bits, c.0, c.1)
            &&& s.block_state[c.0][c.1] is Pending
            &&& forall|p: int, b: int|
                #![trigger s.block_state[p][b]]
                offered(s, bits, p, b) && s.block_state[p][b] is Pending ==> rarer_or_earlier(
                    s,
                    c.0,
                    c.1,
                    p,
                    b,
                )
        },
{
    s.lemma_choice(bits, Want::Pending);
    match s.choice(bits, Want::Pending) {
        Some(c) => {
            assert(s.block_state[c.0].len() == s.num_blocks(c.0));
            assert forall|p: int, b: int|
                #![trigger s.block_state[p][b]]
                offered(s, bits, p, b) && s.block_state[p][b] is Pending implies rarer_or_earlier(
                s,
                c.0,
                c.1,
                p,
                b,
            ) by {
                assert(s.block_state[p].len() == s.num_blocks(p));
                assert(s.eligible(bits, Want::Pending, p, b));
            }
        },
        None => {},
    }
}

/// The block is in flight on fewer than `limit` streams.
pub open spec fn below(state: BlockState, limit: u32) -> bool {
    state matches BlockState::InFlight(n) && n < limit
}

/// A block that is handed out is one that the peer has: a pending one as long as there is one; else
/// one below the typical number of streams as long as there is one; else one below the maximal
/// number. Among those of its kind it is in the rarest piece, and the earliest there.
pub proof fn law_any_block(s: SchedulerView, bits: Seq<bool>, limits: StreamsPerBlock)
    requires
        s.wf(),
    ensures
        s.any_choice(bits, limits) matches Some(c) ==> {
            let state = s.block_state[c.0][c.1];
            &&& offered(s, bits, c.0, c.1)
            &&& state is Pending || below(state, limits.typical) || below(state, limits.max)
            &&& forall|p: int, b: int|
                #![trigger s.block_state[p][b]]
                offered(s, bits, p, b) && s.block_state[p][b] is Pending ==> state is Pending
                    && rarer_or_earlier(s, c.0, c.1, p, b)
            &&& !(state is Pending) ==> forall|p: int, b: int|
                #![trigger s.block_state[p][b]]
                offered(s, bits, p, b) && below(s.block_state[p][b], limits.typical) ==> below(
                    state,
                    limits.typical,
                ) && rarer_or_earlier(s, c.0, c.1, p, b)
            &&& !(state is Pending) && !below(state, limits.typical) ==> forall|p: int, b: int|
                #![trigger s.block_state[p][b]]
                offered(s, bits, p, b) && below(s.block_state[p][b], limits.max)
                    ==> rarer_or_earlier(s, c.0, c.1, p, b)
        },
{
    s.lemma_choice(bits, Want::Pending);
    s.lemma_choice(bits, Want::InFlightBelow(limits.typical));
    s.lemma_choice(bits, Want::InFlightBelow(limits.max));
    match s.any_choice(bits, limits) {
        Some(c) => {
            let state = s.block_state[c.0][c.1];
            assert(s.block_state[c.0].len() == s.num_blocks(c.0));
            assert forall|p: int, b: int|
                #![trigger s.block_state[p][b]]
                offered(s, bits, p, b) implies {
                &&& s.block_state[p][b] is Pending ==> state is Pending && rarer_or_earlier(
                    s,
                    c.0,
                    c.1,
                    p,
                    b,
                )
                &&& !(state is Pending) && below(s.block_state[p][b], limits.typical) ==> below(
                    state,
                    limits.typical,
                ) && rarer_or_earlier(s, c.0, c.1, p, b)
                &&& !(state is Pending) && !below(state, limits.typical) && below(
                    s.block_state[p][b],
                    limits.max,
                ) ==> rarer_or_earlier(s, c.0, c.1, p, b)
            } by {
                assert(s.block_state[p].len() == s.num_blocks(p));
                let w1 = Want::Pending;
                let w2 = Want::InFlightBelow(limits.typical);
                let w3 = Want::InFlightBelow(limits.max);
                assert(s.block_state[p][b] is Pending ==> s.eligible(bits, w1, p, b));
                assert(below(s.block_state[p][b], limits.typical) ==> s.eligible(bits, w2, p, b));
                assert(below(s.block_state[p][b], limits.max) ==> s.eligible(bits, w3, p, b));
            }
        },
        None => {},
    }
}

/// How many streams fetch a block.
pub open spec fn streams_on(state: BlockState) -> int {
    match state {
        BlockState::InFlight(n) => n as int,
        _ => 0,
    }
}

/// A block that is handed out has one stream more, and the task names it. Nothing else changes.
/// Where nothing is handed out, nothing changes.
pub proof fn law_handing_out(s: SchedulerView, c: (int, int))
    requires
        s.wf(),
        s.num_pieces <= u32::MAX,
        0 <= c.0 < s.num_pieces,
        0 <= c.1 < s.block_state[c.0].len(),
        s.block_state[c.0][c.1] is Pending || below(s.block_state[c.0][c.1], u32::MAX),
    ensures
        ({
            let task = s.task_of(Some(c));
            let after = s.after_choice(Some(c));
            &&& task is Some
            &&& task->0.fi == s.fi
            &&& task->0.pi == c.0
            &&& task->0.bi == c.1
            &&& same_but_piece(s, after, c.0)
            &&& after.block_hashes == s.block_hashes
            &&& after.piece_done == s.piece_done
            &&& after.piece_verifying == s.piece_verifying
            &&& after.block_state[c.0][c.1] is InFlight
            &&& streams_on(after.block_state[c.0][c.1]) == streams_on(s.block_state[c.0][c.1]) + 1
            &&& forall|b: int|
                0 <= b < s.block_state[c.0].len() && b != c.1 ==> #[trigger]
                    after.block_state[c.0][b] == s.block_state[c.0][b]
        }),
        s.task_of(None) is None,
        s.after_choice(None) == s,
{
    assert(s.block_state[c.0].len() == s.num_blocks(c.0));
}

/// The levels of priority in their order.
pub proof fn law_levels()
    ensures
        Priority::Low.rank() < Priority::Normal.rank() < Priority::High.rank()
            < Priority::Higher.rank() < Priority::VeryHigh.rank() < Priority::Maximum.rank(),
{
}

} // verus!
