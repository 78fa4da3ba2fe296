//! What holds of a session and its download over several operations.

use super::{
    active_of, assigned, bits_after, concerns, counts_after, file_of, find_slot, room_for,
    CoordView, PeerEvent, Step, StreamLimits, StreamSlot, INSTABILITY_FAIL_THRESHOLD,
    INSTABILITY_RESET_WINDOW,
};
use crate::context::{law_judging_keeps_step, CtxView};
use crate::scheduler::availability::count_out;
use crate::scheduler::laws::{
    law_giving_back_undoes_handing_out, law_streams_per_block, streams_within,
};
use crate::scheduler::pick::Want;
use crate::scheduler::{BlockState, BlockTask, SchedulerView, StreamsPerBlock};
use crate::select::{
    law_pick_is_first, lemma_file_choice, nothing_to_pick, pick, picked_ctx, picked_task, Pass,
};
use crate::wire::{announces, Message, PeerAvail};

use vstd::prelude::*;

verus! {

/// What a peer announces of a file is what the other side records, whatever was recorded before.
/// The index of a file takes 16 bits on the wire.
pub proof fn law_announcement_arrives(msg: Message, fi: usize, bits: Seq<bool>, before: Seq<bool>)
    requires
        announces(msg, fi, bits),
        before.len() == bits.len(),
        fi <= u16::MAX,
    ensures
        file_of(msg) == Some(fi as int),
        bits_after(msg, before) == bits,
{
    assert(bits_after(msg, before) =~= bits);
}

/// The counts are `base`, from other peers, and one more for each piece that this peer has.
pub open spec fn counted_once(base: Seq<nat>, bits: Seq<bool>, counts: Seq<u32>) -> bool {
    &&& counts.len() == base.len()
    &&& bits.len() == base.len()
    &&& forall|pi: int|
        #![trigger counts[pi]]
        0 <= pi < base.len() ==> counts[pi] == base[pi] + (if bits[pi] {
            1nat
        } else {
            0nat
        })
}

/// Whatever a peer announces, it is counted once for each piece that it has and not at all for
/// the others, however often it announces them; what other peers have stays counted.
pub proof fn law_peer_is_counted_once(
    base: Seq<nat>,
    msg: Message,
    bits: Seq<bool>,
    counts: Seq<u32>,
)
    requires
        counted_once(base, bits, counts),
        room_for(msg, counts, bits),
    ensures
        counted_once(base, bits_after(msg, bits), counts_after(msg, counts, bits)),
{
    let out = count_out(counts, bits);
    assert forall|pi: int| 0 <= pi < base.len() implies #[trigger] out[pi] == base[pi] by {
        assert(counts[pi] == base[pi] + (if bits[pi] {
            1nat
        } else {
            0nat
        }));
    }
    let after = counts_after(msg, counts, bits);
    let now = bits_after(msg, bits);
    match msg {
        Message::HavePiece { file_index, piece_index } => {
            assert forall|pi: int|
                #![trigger after[pi]]
                0 <= pi < base.len() implies after[pi] == base[pi] + (if now[pi] {
                1nat
            } else {
                0nat
            }) by {
                assert(counts[pi] == base[pi] + (if bits[pi] {
                    1nat
                } else {
                    0nat
                }));
            }
        },
        _ => {},
    }
}

/// A peer that is counted once for each piece that it has leaves the counts of the others behind.
pub proof fn law_leaving_restores_counts(base: Seq<nat>, bits: Seq<bool>, counts: Seq<u32>, pi: int)
    requires
        counted_once(base, bits, counts),
        0 <= pi < base.len(),
    ensures
        count_out(counts, bits).len() == base.len(),
        count_out(counts, bits)[pi] == base[pi],
{
    assert(counts[pi] == base[pi] + (if bits[pi] {
        1nat
    } else {
        0nat
    }));
}

/// The pieces that a peer has of a file after `msgs`, in turn; `bits` before.
pub open spec fn bits_after_all(msgs: Seq<Message>, bits: Seq<bool>) -> Seq<bool>
    decreases msgs.len(),
{
    if msgs.len() == 0 {
        bits
    } else {
        bits_after(msgs.last(), bits_after_all(msgs.drop_last(), bits))
    }
}

/// How many peers have each piece of a file after `msgs`, in turn.
pub open spec fn counts_after_all(msgs: Seq<Message>, counts: Seq<u32>, bits: Seq<bool>) -> Seq<u32>
    decreases msgs.len(),
{
    if msgs.len() == 0 {
        counts
    } else {
        counts_after(
            msgs.last(),
            counts_after_all(msgs.drop_last(), counts, bits),
            bits_after_all(msgs.drop_last(), bits),
        )
    }
}

/// However much a peer announces of a file, in whatever order and however often, it is counted
/// once for each piece that it has and not at all for the others. There is room to count as long
/// as there is room for one peer more.
pub proof fn law_history_is_counted_once(
    base: Seq<nat>,
    msgs: Seq<Message>,
    bits: Seq<bool>,
    counts: Seq<u32>,
    next: Message,
)
    requires
        counted_once(base, bits, counts),
        forall|pi: int| 0 <= pi < base.len() ==> #[trigger] base[pi] < u32::MAX,
    ensures
        counted_once(base, bits_after_all(msgs, bits), counts_after_all(msgs, counts, bits)),
        room_for(next, counts_after_all(msgs, counts, bits), bits_after_all(msgs, bits)),
    decreases msgs.len(),
{
    if msgs.len() > 0 {
        let before = msgs.drop_last();
        law_history_is_counted_once(base, before, bits, counts, msgs.last());
        law_peer_is_counted_once(
            base,
            msgs.last(),
            bits_after_all(before, bits),
            counts_after_all(before, counts, bits),
        );
    }
    let now = counts_after_all(msgs, counts, bits);
    let held = bits_after_all(msgs, bits);
    assert forall|pi: int| 0 <= pi < base.len() implies {
        &&& #[trigger] now[pi] == base[pi] + (if held[pi] {
            1nat
        } else {
            0nat
        })
        &&& count_out(now, held)[pi] == base[pi]
    } by {
        assert(base[pi] < u32::MAX);
    }
    let out = count_out(now, held);
    assert forall|pi: int| 0 <= pi < out.len() implies #[trigger] out[pi] < u32::MAX by {
        assert(now[pi] == base[pi] + (if held[pi] {
            1nat
        } else {
            0nat
        }));
        assert(base[pi] < u32::MAX);
    }
}

/// Message `msg` lists what the peer has of a file, in place of what was listed before.
pub open spec fn lists_all(msg: Message) -> bool {
    msg is HaveAll || msg is HaveNone || msg is HaveBitmap
}

/// The last list that a peer sends of a file stands: whatever was announced before it, the peer is
/// counted for the pieces on that list and for no others.
pub proof fn law_last_list_stands(
    base: Seq<nat>,
    msgs: Seq<Message>,
    bits: Seq<bool>,
    counts: Seq<u32>,
    pi: int,
)
    requires
        counted_once(base, bits, counts),
        forall|p: int| 0 <= p < base.len() ==> #[trigger] base[p] < u32::MAX,
        msgs.len() > 0,
        lists_all(msgs.last()),
        0 <= pi < base.len(),
    ensures
        ({
            let listed = bits_after(msgs.last(), Seq::new(base.len(), |p: int| false));
            &&& bits_after_all(msgs, bits) == listed
            &&& counts_after_all(msgs, counts, bits)[pi] == base[pi] + (if listed[pi] {
                1nat
            } else {
                0nat
            })
        }),
{
    law_history_is_counted_once(base, msgs, bits, counts, msgs.last());
    law_history_is_counted_once(base, msgs.drop_last(), bits, counts, msgs.last());
    let listed = bits_after(msgs.last(), Seq::new(base.len(), |p: int| false));
    assert(bits_after_all(msgs, bits) =~= listed);
    let now = counts_after_all(msgs, counts, bits);
    assert(now[pi] == base[pi] + (if listed[pi] {
        1nat
    } else {
        0nat
    }));
}

/// The task for a picked block names that block, which pass `k` chose.
proof fn lemma_task_block(ctx: CtxView, avail: Seq<PeerAvail>, passes: Seq<Pass>) -> (k: int)
    requires
        ctx.wf(),
        avail.len() <= ctx.schedulers.len(),
    ensures
        pick(ctx, avail, passes) matches Some(p) ==> {
            let t = picked_task(ctx, Some(p))->0;
            &&& 0 <= k < passes.len()
            &&& 0 <= p.fi < avail.len()
            &&& t.fi == p.fi
            &&& t.pi == p.at.0
            &&& t.bi == p.at.1
            &&& ctx.schedulers[p.fi].wf()
            &&& passes[k].choice(
                ctx.schedulers[p.fi],
                avail[p.fi].bits(ctx.schedulers[p.fi].num_pieces as nat),
            ) == Some(p.at)
            &&& ctx.schedulers[p.fi].has_block(p.at.0, p.at.1)
        },
{
    let k = law_pick_is_first(ctx, avail, passes);
    match pick(ctx, avail, passes) {
        Some(p) => {
            lemma_file_choice(ctx, avail, passes[k], p.fi);
            assert(ctx.schedulers[p.fi].wf());
        },
        None => {},
    }
    k
}

/// A picked block is eligible for some want of the pass that chose it.
pub proof fn lemma_picked_want(ctx: CtxView, avail: Seq<PeerAvail>, passes: Seq<Pass>) -> (want: Want)
    requires
        ctx.wf(),
        avail.len() <= ctx.schedulers.len(),
    ensures
        pick(ctx, avail, passes) matches Some(p) ==> ctx.schedulers[p.fi].eligible(
            avail[p.fi].bits(ctx.schedulers[p.fi].num_pieces as nat),
            want,
            p.at.0,
            p.at.1,
        ),
{
    let k = law_pick_is_first(ctx, avail, passes);
    match pick(ctx, avail, passes) {
        Some(p) => {
            let s = ctx.schedulers[p.fi];
            let bits = avail[p.fi].bits(s.num_pieces as nat);
            lemma_file_choice(ctx, avail, passes[k], p.fi);
            match passes[k] {
                Pass::Redundant { limits } => {
                    let typical = Want::InFlightBelow(limits.typical);
                    if s.eligible(bits, Want::Pending, p.at.0, p.at.1) {
                        Want::Pending
                    } else if s.eligible(bits, typical, p.at.0, p.at.1) {
                        typical
                    } else {
                        Want::InFlightBelow(limits.max)
                    }
                },
                _ => Want::Pending,
            }
        },
        None => Want::Pending,
    }
}

/// A block that was picked for a stream that could not be opened is given back as it was.
pub proof fn law_failed_opening_undoes_pick(ctx: CtxView, avail: Seq<PeerAvail>, passes: Seq<Pass>)
    requires
        ctx.wf(),
        avail.len() <= ctx.schedulers.len(),
    ensures
        picked_task(ctx, pick(ctx, avail, passes)) matches Some(t) ==> picked_ctx(
            ctx,
            pick(ctx, avail, passes),
        ).block_failed(t.fi as int, t.pi as int, t.bi as int) == ctx,
{
    let k = lemma_task_block(ctx, avail, passes);
    let want = lemma_picked_want(ctx, avail, passes);
    match pick(ctx, avail, passes) {
        Some(p) => {
            let s = ctx.schedulers[p.fi];
            let bits = avail[p.fi].bits(s.num_pieces as nat);
            law_giving_back_undoes_handing_out(s, bits, want, p.at);
            let back = picked_ctx(ctx, Some(p)).block_failed(p.fi, p.at.0, p.at.1);
            assert(back.schedulers =~= ctx.schedulers);
            assert(back =~= ctx);
        },
        None => {},
    }
}

/// No block of any file is fetched by more than `max` streams.
pub open spec fn all_streams_within(ctx: CtxView, max: u32) -> bool {
    forall|fi: int|
        #![trigger ctx.schedulers[fi]]
        0 <= fi < ctx.schedulers.len() ==> streams_within(ctx.schedulers[fi], max)
}

/// The passes look for blocks in flight only within `limits`.
pub open spec fn passes_within(passes: Seq<Pass>, limits: StreamsPerBlock) -> bool {
    forall|k: int|
        #![trigger passes[k]]
        0 <= k < passes.len() ==> (passes[k] matches Pass::Redundant { limits: l } ==> l == limits)
}

/// Picking a block announces nothing and verifies nothing, and keeps the number of streams per
/// block within its limit.
pub proof fn law_picking_keeps_invariants(
    ctx: CtxView,
    avail: Seq<PeerAvail>,
    passes: Seq<Pass>,
    limits: StreamsPerBlock,
)
    requires
        ctx.wf(),
        avail.len() <= ctx.schedulers.len(),
        passes_within(passes, limits),
        limits.valid(),
        ctx.in_step(),
        all_streams_within(ctx, limits.max),
    ensures
        picked_ctx(ctx, pick(ctx, avail, passes)).in_step(),
        all_streams_within(picked_ctx(ctx, pick(ctx, avail, passes)), limits.max),
        picked_ctx(ctx, pick(ctx, avail, passes)).have == ctx.have,
        picked_ctx(ctx, pick(ctx, avail, passes)).downloaded == ctx.downloaded,
{
    let k = lemma_task_block(ctx, avail, passes);
    match pick(ctx, avail, passes) {
        Some(p) => {
            let s = ctx.schedulers[p.fi];
            let bits = avail[p.fi].bits(s.num_pieces as nat);
            assert(streams_within(s, limits.max));
            law_streams_per_block(s, limits, bits, p.at.0, p.at.1, arbitrary());
            assert(streams_within(s.stream_added(p.at), limits.max));
            lemma_one_scheduler(ctx, p.fi, s.stream_added(p.at), limits.max);
        },
        None => {},
    }
}

/// Picking a block keeps the download well-formed.
pub proof fn lemma_picked_wf(ctx: CtxView, avail: Seq<PeerAvail>, passes: Seq<Pass>)
    requires
        ctx.wf(),
        avail.len() <= ctx.schedulers.len(),
    ensures
        picked_ctx(ctx, pick(ctx, avail, passes)).wf(),
        picked_ctx(ctx, pick(ctx, avail, passes)).schedulers.len() == ctx.schedulers.len(),
{
    let k = lemma_task_block(ctx, avail, passes);
    let want = lemma_picked_want(ctx, avail, passes);
    match pick(ctx, avail, passes) {
        Some(p) => {
            let s = ctx.schedulers[p.fi];
            let bits = avail[p.fi].bits(s.num_pieces as nat);
            s.lemma_stream_added_wf(bits, want, p.at);
            let after = picked_ctx(ctx, Some(p));
            assert forall|f: int|
                #![trigger after.schedulers[f]]
                0 <= f < after.schedulers.len() implies {
                &&& after.schedulers[f].wf()
                &&& after.schedulers[f].fi == f
                &&& after.schedulers[f].num_pieces <= u32::MAX
                &&& after.have[f].len() == after.schedulers[f].num_pieces
            } by {
                assert(ctx.schedulers[f].wf());
            }
        },
        None => {},
    }
}

/// Giving blocks to idle streams announces nothing and verifies nothing, and keeps the number of
/// streams per block within its limit.
pub proof fn law_assigning_keeps_invariants(
    slots: Seq<StreamSlot>,
    ctx: CtxView,
    avail: Seq<PeerAvail>,
    passes: Seq<Pass>,
    n: int,
    limits: StreamsPerBlock,
)
    requires
        0 <= n <= slots.len(),
        ctx.wf(),
        avail.len() <= ctx.schedulers.len(),
        passes_within(passes, limits),
        limits.valid(),
        ctx.in_step(),
        all_streams_within(ctx, limits.max),
    ensures
        assigned(slots, ctx, avail, passes, n).ctx.wf(),
        assigned(slots, ctx, avail, passes, n).ctx.in_step(),
        all_streams_within(assigned(slots, ctx, avail, passes, n).ctx, limits.max),
        assigned(slots, ctx, avail, passes, n).ctx.schedulers.len() == ctx.schedulers.len(),
        assigned(slots, ctx, avail, passes, n).ctx.have == ctx.have,
        assigned(slots, ctx, avail, passes, n).ctx.downloaded == ctx.downloaded,
    decreases n,
{
    if n > 0 {
        law_assigning_keeps_invariants(slots, ctx, avail, passes, n - 1, limits);
        let prev = assigned(slots, ctx, avail, passes, n - 1).ctx;
        lemma_picked_wf(prev, avail, passes);
        law_picking_keeps_invariants(prev, avail, passes, limits);
    }
}

/// Where one scheduler changes without a change in what is verified, the invariants carry over.
proof fn lemma_one_scheduler(ctx: CtxView, fi: int, s: SchedulerView, max: u32)
    requires
        ctx.wf(),
        0 <= fi < ctx.schedulers.len(),
        ctx.in_step(),
        all_streams_within(ctx, max),
        streams_within(s, max),
        s.num_pieces == ctx.schedulers[fi].num_pieces,
        s.piece_done == ctx.schedulers[fi].piece_done,
    ensures
        ctx.with_scheduler(fi, s).in_step(),
        all_streams_within(ctx.with_scheduler(fi, s), max),
{
    let after = ctx.with_scheduler(fi, s);
    assert forall|f: int, pi: int|
        #![trigger after.have[f][pi]]
        after.has_piece(f, pi) implies after.have[f][pi] == after.schedulers[f].piece_done[pi] by {
        assert(ctx.has_piece(f, pi));
        assert(ctx.have[f][pi] == ctx.schedulers[f].piece_done[pi]);
    }
    assert forall|f: int|
        #![trigger after.schedulers[f]]
        0 <= f < after.schedulers.len() implies streams_within(after.schedulers[f], max) by {
        assert(streams_within(ctx.schedulers[f], max));
    }
}

/// A block that a stream gave up on leaves the invariants alone.
proof fn lemma_block_lost(ctx: CtxView, t: BlockTask, limits: StreamsPerBlock)
    requires
        ctx.wf(),
        ctx.has_block(t.fi as int, t.pi as int, t.bi as int),
        limits.valid(),
        ctx.in_step(),
        all_streams_within(ctx, limits.max),
    ensures
        ctx.block_failed(t.fi as int, t.pi as int, t.bi as int).in_step(),
        all_streams_within(ctx.block_failed(t.fi as int, t.pi as int, t.bi as int), limits.max),
{
    let s = ctx.schedulers[t.fi as int];
    assert(s.wf());
    assert(streams_within(s, limits.max));
    law_streams_per_block(s, limits, seq![], t.pi as int, t.bi as int, arbitrary());
    lemma_one_scheduler(
        ctx,
        t.fi as int,
        s.block_failed(t.pi as int, t.bi as int),
        limits.max,
    );
}

/// Judging a piece that is not verified yet leaves the invariants alone.
proof fn lemma_judged(ctx: CtxView, fi: int, pi: int, bi: int, root: [u8; 32], limits: StreamsPerBlock)
    requires
        ctx.wf(),
        ctx.has_block(fi, pi, bi),
        !ctx.schedulers[fi].piece_done[pi],
        limits.valid(),
        ctx.in_step(),
        all_streams_within(ctx, limits.max),
    ensures
        ctx.piece_judged(fi, pi, root).in_step(),
        all_streams_within(ctx.piece_judged(fi, pi, root), limits.max),
        ctx.piece_rejected(fi, pi).in_step(),
        all_streams_within(ctx.piece_rejected(fi, pi), limits.max),
{
    let s = ctx.schedulers[fi];
    assert(s.wf());
    assert(streams_within(s, limits.max));
    law_streams_per_block(s, limits, seq![], pi, bi, arbitrary());
    law_judging_keeps_step(ctx, fi, pi, root);
    let rejected = s.piece_hash_failed(pi);
    assert(rejected.piece_done =~= s.piece_done);
    lemma_one_scheduler(ctx, fi, rejected, limits.max);
    let after = ctx.piece_accepted(fi, pi);
    assert forall|f: int|
        #![trigger after.schedulers[f]]
        0 <= f < after.schedulers.len() implies streams_within(
        after.schedulers[f],
        limits.max,
    ) by {
        assert(streams_within(ctx.schedulers[f], limits.max));
    }
}

/// Whatever happens on a connection, what is announced stays what is verified, and the number of
/// streams per block stays within its limit.
pub proof fn law_events_keep_invariants<F: Fn(&[[u8; 32]]) -> [u8; 32]>(
    c: CoordView,
    ctx: CtxView,
    event: PeerEvent,
    root_of: F,
    step: Step,
    after: CoordView,
    ctx_after: CtxView,
    limits: StreamsPerBlock,
)
    requires
        c.wf(),
        ctx.wf(),
        c.fits(ctx),
        c.event_ok(ctx, event, root_of),
        c.event_outcome(ctx, event, root_of, step, after, ctx_after),
        limits.valid(),
        ctx.in_step(),
        all_streams_within(ctx, limits.max),
    ensures
        ctx_after.in_step(),
        all_streams_within(ctx_after, limits.max),
{
    match event {
        PeerEvent::Control(msg) => {
            if concerns(msg, ctx) {
                let fi = file_of(msg)->0;
                let s = SchedulerView {
                    availability: counts_after(
                        msg,
                        ctx.schedulers[fi].availability,
                        c.bits(ctx, fi),
                    ),
                    ..ctx.schedulers[fi]
                };
                assert(streams_within(ctx.schedulers[fi], limits.max));
                assert forall|p: int, b: int|
                    #![trigger s.block_state[p][b]]
                    s.has_block(p, b) implies (s.block_state[p][b] matches
                    BlockState::InFlight(n) ==> n <= limits.max) by {
                    assert(ctx.schedulers[fi].has_block(p, b));
                }
                lemma_one_scheduler(ctx, fi, s, limits.max);
            }
        },
        PeerEvent::BlockOk { stream_id, fi, pi, bi, hash } => {
            let s = ctx.schedulers[fi as int];
            assert(s.wf());
            assert(streams_within(s, limits.max));
            law_streams_per_block(s, limits, seq![], pi as int, bi as int, hash);
            let s2 = s.block_done(pi as int, bi as int, hash);
            lemma_one_scheduler(ctx, fi as int, s2, limits.max);
            let mid = ctx.block_done(fi as int, pi as int, bi as int, hash);
            if s.completes_piece(pi as int, bi as int) {
                s.lemma_completed(pi as int, bi as int);
                s.lemma_block_done_wf(pi as int, bi as int, hash);
                assert(mid.wf());
                if mid.schedulers[fi as int].hashes_known(pi as int) {
                    let (hashes, root) = choose|hashes: &[[u8; 32]], root: [u8; 32]|
                        {
                            &&& hashes@ == mid.schedulers[fi as int].hashes_of(pi as int)
                            &&& #[trigger] call_ensures(root_of, (hashes,), root)
                            &&& (step is Announce) == (root == mid.expected_root(
                                fi as int,
                                pi as int,
                            ))
                            &&& ctx_after == mid.piece_judged(fi as int, pi as int, root)
                        };
                    lemma_judged(mid, fi as int, pi as int, bi as int, root, limits);
                } else {
                    lemma_judged(mid, fi as int, pi as int, bi as int, hash, limits);
                }
            }
        },
        PeerEvent::BlockFail { stream_id, fi, pi, bi } => {
            lemma_block_lost(ctx, BlockTask { fi, pi, bi }, limits);
        },
        PeerEvent::StreamDead { stream_id } => {
            match active_of(c.slots, stream_id) {
                Some(t) => {
                    let i = find_slot(c.slots, stream_id)->0;
                    assert(0 <= i < c.slots.len() && c.slots[i].id == stream_id);
                    assert(c.slots[i].active == Some(t));
                    lemma_block_lost(ctx, t, limits);
                },
                None => {},
            }
        },
        _ => {},
    }
}

/// A piece is announced only when the root over its block digests is the expected one, and it is
/// then verified. One that is complete and not announced is reset and stays unannounced.
pub proof fn law_announced_is_verified<F: Fn(&[[u8; 32]]) -> [u8; 32]>(
    ctx: CtxView,
    task: BlockTask,
    hash: [u8; 32],
    root_of: F,
    step: Step,
    after: CtxView,
)
    requires
        ctx.wf(),
        ctx.in_step(),
        ctx.has_block(task.fi as int, task.pi as int, task.bi as int),
        ctx.arrival_outcome(task, hash, root_of, step, after),
    ensures
        step is Announce ==> {
            &&& ctx.schedulers[task.fi as int].completes_piece(task.pi as int, task.bi as int)
            &&& after.have[task.fi as int][task.pi as int]
            &&& after.schedulers[task.fi as int].piece_done[task.pi as int]
            &&& exists|hashes: &[[u8; 32]], root: [u8; 32]|
                {
                    &&& hashes@ == ctx.block_done(
                        task.fi as int,
                        task.pi as int,
                        task.bi as int,
                        hash,
                    ).schedulers[task.fi as int].hashes_of(task.pi as int)
                    &&& #[trigger] call_ensures(root_of, (hashes,), root)
                    &&& root == ctx.expected_root(task.fi as int, task.pi as int)
                }
        },
        ctx.schedulers[task.fi as int].completes_piece(task.pi as int, task.bi as int) && !(
        step is Announce) ==> {
            &&& after.have == ctx.have
            &&& !after.have[task.fi as int][task.pi as int]
            &&& after.downloaded == ctx.downloaded
            &&& after.schedulers[task.fi as int].block_state[task.pi as int][task.bi as int] is Pending
        },
{
    let fi = task.fi as int;
    let pi = task.pi as int;
    let s = ctx.schedulers[fi];
    assert(s.wf());
    assert(s.block_state[pi].len() == s.num_blocks(pi));
    let mid = ctx.block_done(fi, pi, task.bi as int, hash);
    if s.completes_piece(pi, task.bi as int) {
        s.lemma_completed(pi, task.bi as int);
        assert(ctx.has_piece(fi, pi));
        assert(ctx.have[fi][pi] == s.piece_done[pi]);
        if mid.schedulers[fi].hashes_known(pi) {
            let (hashes, root) = choose|hashes: &[[u8; 32]], root: [u8; 32]|
                {
                    &&& hashes@ == mid.schedulers[fi].hashes_of(pi)
                    &&& #[trigger] call_ensures(root_of, (hashes,), root)
                    &&& (step is Announce) == (root == mid.expected_root(fi, pi))
                    &&& after == mid.piece_judged(fi, pi, root)
                };
            assert(call_ensures(root_of, (hashes,), root));
        }
    }
}

/// The most data streams that may ever be open to a peer.
pub open spec fn most_streams(limits: StreamLimits) -> usize {
    if limits.default_streams < limits.max_streams {
        limits.max_streams
    } else {
        limits.default_streams
    }
}

/// The number of data streams stays within its limit: another one is planned only below the
/// limit, and no event adds one.
pub proof fn law_streams_bounded<F: Fn(&[[u8; 32]]) -> [u8; 32]>(
    c: CoordView,
    ctx: CtxView,
    event: PeerEvent,
    root_of: F,
    step: Step,
    after: CoordView,
    ctx_after: CtxView,
)
    requires
        c.wf(),
        c.event_outcome(ctx, event, root_of, step, after, ctx_after),
    ensures
        c.slots.len() < c.stream_cap(ctx) ==> c.slots.len() + 1 <= most_streams(c.limits),
        after.slots.len() <= c.slots.len(),
        after.limits == c.limits,
{
    match event {
        PeerEvent::StreamDead { stream_id } => {
            if find_slot(c.slots, stream_id) is Some {
                let i = find_slot(c.slots, stream_id)->0;
                assert(0 <= i < c.slots.len());
            }
        },
        PeerEvent::BlockOk { stream_id, fi, pi, bi, hash } => {},
        _ => {},
    }
}

/// The session after blocks arrived on the streams `ids`, in turn.
pub open spec fn after_arrivals(c: CoordView, ids: Seq<usize>) -> CoordView
    decreases ids.len(),
{
    if ids.len() == 0 {
        c
    } else {
        after_arrivals(c, ids.drop_last()).ok_counted(ids.last())
    }
}

/// The session after blocks failed on the streams `ids`, in turn.
pub open spec fn after_failures(c: CoordView, ids: Seq<usize>) -> CoordView
    decreases ids.len(),
{
    if ids.len() == 0 {
        c
    } else {
        after_failures(c, ids.drop_last()).fail_counted(ids.last())
    }
}

proof fn lemma_arrivals_below_window(c: CoordView, ids: Seq<usize>)
    requires
        c.blocks_ok + ids.len() < INSTABILITY_RESET_WINDOW,
    ensures
        after_arrivals(c, ids).blocks_ok == c.blocks_ok + ids.len(),
        after_arrivals(c, ids).recent_fails == c.recent_fails,
    decreases ids.len(),
{
    if ids.len() > 0 {
        lemma_arrivals_below_window(c, ids.drop_last());
    }
}

/// Once the window is full of arrivals, earlier failures are forgotten and the connection counts
/// as stable; until then they are not.
pub proof fn law_arrivals_restore_stability(c: CoordView, ids: Seq<usize>)
    requires
        c.wf(),
        ids.len() <= INSTABILITY_RESET_WINDOW - c.blocks_ok,
    ensures
        ids.len() == INSTABILITY_RESET_WINDOW - c.blocks_ok ==> {
            &&& after_arrivals(c, ids).recent_fails == 0
            &&& after_arrivals(c, ids).blocks_ok == 0
            &&& !after_arrivals(c, ids).unstable()
        },
        ids.len() < INSTABILITY_RESET_WINDOW - c.blocks_ok ==> after_arrivals(c, ids).unstable()
            == c.unstable(),
{
    if ids.len() == INSTABILITY_RESET_WINDOW - c.blocks_ok {
        lemma_arrivals_below_window(c, ids.drop_last());
    } else {
        lemma_arrivals_below_window(c, ids);
    }
}

/// Failures add up: a stable connection turns unstable with exactly as many as the threshold
/// leaves, unless arrivals made it forget some.
pub proof fn law_failures_add_up(c: CoordView, ids: Seq<usize>)
    requires
        c.recent_fails + ids.len() <= u32::MAX,
    ensures
        after_failures(c, ids).recent_fails == c.recent_fails + ids.len(),
        after_failures(c, ids).unstable() <==> c.recent_fails + ids.len()
            >= INSTABILITY_FAIL_THRESHOLD,
    decreases ids.len(),
{
    if ids.len() > 0 {
        law_failures_add_up(c, ids.drop_last());
    }
}

/// A stream that fetches a block keeps it, and one stays idle only when there was no block left
/// for the peer.
pub proof fn law_no_idle_stream_while_work_is_left(
    slots: Seq<StreamSlot>,
    ctx: CtxView,
    avail: Seq<PeerAvail>,
    passes: Seq<Pass>,
    n: int,
    i: int,
)
    requires
        0 <= n <= slots.len(),
        0 <= i < slots.len(),
    ensures
        ({
            let a = assigned(slots, ctx, avail, passes, n);
            &&& a.slots.len() == slots.len()
            &&& slots[i].active is Some ==> a.slots[i] == slots[i]
            &&& i >= n ==> a.slots[i] == slots[i]
            &&& i < n && a.slots[i].active is None ==> nothing_to_pick(a.ctx, avail, passes)
        }),
    decreases n,
{
    if n > 0 {
        law_no_idle_stream_while_work_is_left(slots, ctx, avail, passes, n - 1, i);
        let prev = assigned(slots, ctx, avail, passes, n - 1);
        let k = law_pick_is_first(prev.ctx, avail, passes);
    }
}

} // verus!
