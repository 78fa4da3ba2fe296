//! What each step of a session does, entry by entry.

use super::coordinator::lemma_find_slot;
use super::laws::{law_no_idle_stream_while_work_is_left, lemma_picked_want};
use super::session::lemma_assigned_counts;
use super::{
    assigned, bits_after, concerns, dropped, file_of, find_slot, freed, room_for,
    CoordView, PeerError, PeerEvent, Step, StreamSlot,
};
use crate::context::{
    law_blocks_change_their_file, law_root_over_all_digests, same_but_file, shows_accepted,
    shows_rejected, CtxView,
};
use crate::scheduler::availability::count_out;
use crate::scheduler::effects::{
    law_block_arrives, law_block_fails, law_counting_out, same_but_piece, streams_on,
};
use crate::scheduler::{BlockState, BlockTask, StreamsPerBlock};
use crate::select::{
    all_passes, extendable, file_choice, law_pending_pick_by_turn, law_pending_pick_waits,
    law_pick_is_first, law_picked_block, law_picking_adds_a_stream, law_redundant_pick,
    nothing_to_pick, pick, picked_ctx, picked_task, total_pending, waiting, Pass,
};
use crate::wire::{Message, PeerAvail};

use vstd::prelude::*;

verus! {

/// No two streams have the same id.
pub open spec fn distinct(slots: Seq<StreamSlot>) -> bool {
    forall|i: int, j: int|
        0 <= i < j < slots.len() ==> (#[trigger] slots[i]).id != (#[trigger] slots[j]).id
}

/// The same streams, of which the one with id `id` fetches nothing, and every other one what it
/// fetched before.
pub open spec fn idle_again(before: Seq<StreamSlot>, after: Seq<StreamSlot>, id: usize) -> bool {
    &&& after.len() == before.len()
    &&& forall|i: int|
        #![trigger after[i]]
        0 <= i < before.len() ==> {
            &&& after[i].id == before[i].id
            &&& before[i].id == id ==> after[i].active is None
            &&& before[i].id != id ==> after[i].active == before[i].active
        }
}

proof fn lemma_freed(slots: Seq<StreamSlot>, id: usize)
    requires
        distinct(slots),
    ensures
        idle_again(slots, freed(slots, id), id),
{
    let after = freed(slots, id);
    match find_slot(slots, id) {
        Some(k) => {
            assert(0 <= k < slots.len() && slots[k].id == id);
            assert forall|i: int| #![trigger after[i]] 0 <= i < slots.len() implies {
                &&& after[i].id == slots[i].id
                &&& slots[i].id == id ==> after[i].active is None
                &&& slots[i].id != id ==> after[i].active == slots[i].active
            } by {
                if slots[i].id == id {
                    lemma_find_slot(slots, id, i);
                }
            }
        },
        None => {
            assert forall|i: int| #![trigger after[i]] 0 <= i < slots.len() implies {
                &&& after[i].id == slots[i].id
                &&& slots[i].id == id ==> after[i].active is None
                &&& slots[i].id != id ==> after[i].active == slots[i].active
            } by {
                assert(slots[i].id != id);
            }
        },
    }
}

/// A stream on which a block arrived or failed is idle again; every other stream goes on with what
/// it fetches. A failure is counted. An arrival is counted too, up to the one that fills the window
/// of 32, with which both counters start anew. Nothing else of the session changes.
pub proof fn law_report_frees_the_stream(c: CoordView, id: usize)
    requires
        c.wf(),
        c.recent_fails < u32::MAX,
    ensures
        idle_again(c.slots, c.fail_counted(id).slots, id),
        idle_again(c.slots, c.ok_counted(id).slots, id),
        c.fail_counted(id).recent_fails == c.recent_fails + 1,
        c.fail_counted(id).blocks_ok == c.blocks_ok,
        c.blocks_ok < 31 ==> c.ok_counted(id).blocks_ok == c.blocks_ok + 1
            && c.ok_counted(id).recent_fails == c.recent_fails,
        c.blocks_ok == 31 ==> c.ok_counted(id).blocks_ok == 0 && c.ok_counted(id).recent_fails == 0,
        c.fail_counted(id).limits == c.limits,
        c.ok_counted(id).limits == c.limits,
        c.fail_counted(id).next_id == c.next_id,
        c.ok_counted(id).next_id == c.next_id,
        c.fail_counted(id).peer_avail == c.peer_avail,
        c.ok_counted(id).peer_avail == c.peer_avail,
{
    lemma_freed(c.slots, id);
}

/// A block that failed on a stream frees the stream, is given back, and is counted as a failure.
pub proof fn law_failed_block<F: Fn(&[[u8; 32]]) -> [u8; 32]>(
    c: CoordView,
    ctx: CtxView,
    stream_id: usize,
    task: BlockTask,
    root_of: F,
    step: Step,
    after: CoordView,
    ctx_after: CtxView,
)
    requires
        c.wf(),
        ctx.wf(),
        c.recent_fails < u32::MAX,
        task.fi < ctx.schedulers.len(),
        task.pi < ctx.schedulers[task.fi as int].num_pieces,
        task.bi < ctx.schedulers[task.fi as int].block_state[task.pi as int].len(),
        c.event_outcome(
            ctx,
            PeerEvent::BlockFail { stream_id, fi: task.fi, pi: task.pi, bi: task.bi },
            root_of,
            step,
            after,
            ctx_after,
        ),
    ensures
        step == Step::Continue,
        idle_again(c.slots, after.slots, stream_id),
        after.recent_fails == c.recent_fails + 1,
        after.blocks_ok == c.blocks_ok,
        after.limits == c.limits,
        after.next_id == c.next_id,
        after.peer_avail == c.peer_avail,
        given_back(ctx, ctx_after, task),
{
    law_report_frees_the_stream(c, stream_id);
    lemma_given_back(ctx, task);
}

/// `after` is `ctx` where one stream gave up on the block of `task`: one stream less fetches it,
/// and it is pending where that was the last one. Nothing else changes.
pub open spec fn given_back(ctx: CtxView, after: CtxView, task: BlockTask) -> bool {
    let fi = task.fi as int;
    let pi = task.pi as int;
    let bi = task.bi as int;
    let s = ctx.schedulers[fi];
    let t = after.schedulers[fi];
    &&& same_but_file(ctx, after, fi)
    &&& after.have == ctx.have
    &&& after.downloaded == ctx.downloaded
    &&& same_but_piece(s, t, pi)
    &&& t.block_hashes == s.block_hashes
    &&& t.piece_done == s.piece_done
    &&& t.piece_verifying == s.piece_verifying
    &&& s.block_state[pi][bi] == BlockState::InFlight(1) ==> t.block_state[pi][bi] is Pending
    &&& streams_on(s.block_state[pi][bi]) > 1 ==> t.block_state[pi][bi] is InFlight && streams_on(
        t.block_state[pi][bi],
    ) == streams_on(s.block_state[pi][bi]) - 1
    &&& !(s.block_state[pi][bi] is InFlight) ==> t.block_state[pi][bi] == s.block_state[pi][bi]
    &&& forall|b: int|
        0 <= b < s.block_state[pi].len() && b != bi ==> #[trigger] t.block_state[pi][b]
            == s.block_state[pi][b]
}

proof fn lemma_given_back(ctx: CtxView, task: BlockTask)
    requires
        ctx.wf(),
        task.fi < ctx.schedulers.len(),
        task.pi < ctx.schedulers[task.fi as int].num_pieces,
        task.bi < ctx.schedulers[task.fi as int].block_state[task.pi as int].len(),
    ensures
        given_back(
            ctx,
            ctx.block_failed(task.fi as int, task.pi as int, task.bi as int),
            task,
        ),
{
    let s = ctx.schedulers[task.fi as int];
    assert(s.wf());
    law_block_fails(s, task.pi as int, task.bi as int);
    law_blocks_change_their_file(ctx, task.fi as int, task.pi as int, task.bi as int, arbitrary());
}

/// A stream that could not be opened for a block gives the block back.
pub proof fn law_failed_opening_gives_back(ctx: CtxView, task: BlockTask)
    requires
        ctx.wf(),
        task.fi < ctx.schedulers.len(),
        task.pi < ctx.schedulers[task.fi as int].num_pieces,
        task.bi < ctx.schedulers[task.fi as int].block_state[task.pi as int].len(),
    ensures
        given_back(ctx, ctx.block_failed(task.fi as int, task.pi as int, task.bi as int), task),
{
    lemma_given_back(ctx, task);
}

/// A block that arrives frees its stream and counts as an arrival. It is done, with its digest; one
/// that was done before changes nothing of the download. Where it is the last of its piece to
/// arrive, a root over all digests of the piece is compared with the listed one: with the same root
/// the piece is accepted and announced, with another it is rejected and not announced. No other
/// arrival announces anything.
pub proof fn law_arrived_block<F: Fn(&[[u8; 32]]) -> [u8; 32]>(
    c: CoordView,
    ctx: CtxView,
    stream_id: usize,
    task: BlockTask,
    hash: [u8; 32],
    root_of: F,
    step: Step,
    after: CoordView,
    ctx_after: CtxView,
)
    requires
        c.wf(),
        ctx.wf(),
        task.fi < ctx.schedulers.len(),
        task.pi < ctx.schedulers[task.fi as int].num_pieces,
        task.bi < ctx.schedulers[task.fi as int].block_state[task.pi as int].len(),
        c.event_outcome(
            ctx,
            PeerEvent::BlockOk { stream_id, fi: task.fi, pi: task.pi, bi: task.bi, hash },
            root_of,
            step,
            after,
            ctx_after,
        ),
    ensures
        idle_again(c.slots, after.slots, stream_id),
        c.blocks_ok < 31 ==> after.blocks_ok == c.blocks_ok + 1 && after.recent_fails
            == c.recent_fails,
        c.blocks_ok == 31 ==> after.blocks_ok == 0 && after.recent_fails == 0,
        after.limits == c.limits,
        after.next_id == c.next_id,
        after.peer_avail == c.peer_avail,
        ({
            let fi = task.fi as int;
            let pi = task.pi as int;
            let bi = task.bi as int;
            let s = ctx.schedulers[fi];
            let announced = step == Step::Announce(
                Message::HavePiece { file_index: task.fi as u16, piece_index: task.pi },
            );
            let last_one = !(s.block_state[pi][bi] is Done) && forall|b: int|
                0 <= b < s.block_state[pi].len() && b != bi ==> #[trigger] s.block_state[pi][b]
                    is Done;
            &&& announced || step == Step::Continue
            &&& s.block_state[pi][bi] is Done ==> ctx_after == ctx && step == Step::Continue
            &&& !(s.block_state[pi][bi] is Done) && !last_one ==> {
                let t = ctx_after.schedulers[fi];
                &&& step == Step::Continue
                &&& same_but_file(ctx, ctx_after, fi)
                &&& ctx_after.have == ctx.have
                &&& ctx_after.downloaded == ctx.downloaded
                &&& same_but_piece(s, t, pi)
                &&& t.block_state[pi][bi] is Done
                &&& t.block_hashes[pi][bi] == Some(hash)
                &&& t.piece_done[pi] == s.piece_done[pi]
                &&& forall|b: int|
                    #![trigger t.block_state[pi][b]]
                    #![trigger t.block_hashes[pi][b]]
                    0 <= b < s.block_state[pi].len() && b != bi ==> t.block_state[pi][b]
                        == s.block_state[pi][b] && t.block_hashes[pi][b] == s.block_hashes[pi][b]
            }
            &&& last_one ==> {
                let mid = ctx.block_done(fi, pi, bi, hash);
                &&& announced ==> shows_accepted(mid, ctx_after, fi, pi)
                &&& !announced ==> shows_rejected(mid, ctx_after, fi, pi)
                &&& exists|hashes: &[[u8; 32]], root: [u8; 32]|
                    {
                        &&& #[trigger] call_ensures(root_of, (hashes,), root)
                        &&& hashes@.len() == s.block_hashes[pi].len()
                        &&& hashes@[bi] == hash
                        &&& forall|b: int|
                            0 <= b < hashes@.len() && b != bi ==> Some(#[trigger] hashes@[b])
                                == s.block_hashes[pi][b]
                        &&& announced <==> root == ctx.meta.files@[fi].piece_hashes@[pi]
                    }
            }
        }),
{
    let fi = task.fi as int;
    let pi = task.pi as int;
    let bi = task.bi as int;
    let s = ctx.schedulers[fi];
    assert(s.wf());
    assert(s.block_state[pi].len() == s.num_blocks(pi));
    assert(s.block_hashes[pi].len() == s.num_blocks(pi));
    lemma_freed(c.slots, stream_id);
    law_block_arrives(s, pi, bi, hash);
    law_blocks_change_their_file(ctx, fi, pi, bi, hash);
    let mid = ctx.block_done(fi, pi, bi, hash);
    let m = mid.schedulers[fi];
    let last_one = !(s.block_state[pi][bi] is Done) && forall|b: int|
        0 <= b < s.block_state[pi].len() && b != bi ==> #[trigger] s.block_state[pi][b] is Done;
    if s.block_state[pi][bi] is Done {
        assert(mid =~= ctx);
    }
    if last_one {
        assert forall|b: int|
            0 <= b < s.block_state[pi].len() implies #[trigger] m.block_state[pi][b] is Done by {
            if b != bi {
                assert(s.block_state[pi][b] is Done);
            }
        }
        assert(s.completes_piece(pi, bi));
    }
    if s.completes_piece(pi, bi) {
        assert forall|b: int|
            0 <= b < s.block_state[pi].len() && b != bi implies #[trigger] s.block_state[pi][b]
            is Done by {
            assert(m.block_state[pi][b] is Done);
        }
        s.lemma_block_done_wf(pi, bi, hash);
        s.lemma_completed(pi, bi);
        assert(mid.wf());
        law_root_over_all_digests(mid, root_of, fi, pi, step is Announce, ctx_after);
        assert(!m.block_hashes[pi].contains(None)) by {
            if m.block_hashes[pi].contains(None) {
                let k = choose|k: int|
                    0 <= k < m.block_hashes[pi].len() && m.block_hashes[pi][k] == None::<[u8; 32]>;
                if k != bi {
                    assert(s.block_state[pi][k] is Done);
                    assert(s.has_block(pi, k));
                    assert(s.block_hashes[pi][k] is Some);
                }
            }
        }
        let (hashes, root) = choose|hashes: &[[u8; 32]], root: [u8; 32]|
            {
                &&& #[trigger] call_ensures(root_of, (hashes,), root)
                &&& hashes@.len() == m.block_hashes[pi].len()
                &&& forall|b: int|
                    0 <= b < hashes@.len() ==> Some(#[trigger] hashes@[b])
                        == m.block_hashes[pi][b]
                &&& (step is Announce) <==> root == mid.meta.files@[fi].piece_hashes@[pi]
            };
        assert(Some(hashes@[bi]) == m.block_hashes[pi][bi]);
        assert forall|b: int| 0 <= b < hashes@.len() && b != bi implies Some(
            #[trigger] hashes@[b],
        ) == s.block_hashes[pi][b] by {
            assert(m.block_hashes[pi][b] == s.block_hashes[pi][b]);
        }
        assert(call_ensures(root_of, (hashes,), root));
    }
}

/// A stream that is gone is no longer among the streams, and every other one is as before. The
/// block that it fetched is given back. The session fails exactly when no stream is left.
pub proof fn law_dead_stream<F: Fn(&[[u8; 32]]) -> [u8; 32]>(
    c: CoordView,
    ctx: CtxView,
    stream_id: usize,
    root_of: F,
    step: Step,
    after: CoordView,
    ctx_after: CtxView,
    i: int,
)
    requires
        c.wf(),
        ctx.wf(),
        c.fits(ctx),
        c.event_outcome(
            ctx,
            PeerEvent::StreamDead { stream_id },
            root_of,
            step,
            after,
            ctx_after,
        ),
    ensures
        forall|slot: StreamSlot| #[trigger]
            after.slots.contains(slot) <==> c.slots.contains(slot) && slot.id != stream_id,
        distinct(after.slots),
        after.limits == c.limits,
        after.next_id == c.next_id,
        after.peer_avail == c.peer_avail,
        after.recent_fails == c.recent_fails,
        after.blocks_ok == c.blocks_ok,
        0 <= i < c.slots.len() && c.slots[i].id == stream_id ==> {
            &&& after.slots.len() == c.slots.len() - 1
            &&& c.slots[i].active matches Some(t) ==> given_back(ctx, ctx_after, t)
            &&& c.slots[i].active is None ==> ctx_after == ctx
        },
        (forall|j: int| 0 <= j < c.slots.len() ==> (#[trigger] c.slots[j]).id != stream_id)
            ==> ctx_after == ctx && after.slots == c.slots,
        after.slots.len() == 0 ==> step == Step::Fail(PeerError::AllStreamsDead),
        after.slots.len() > 0 ==> step == Step::Continue,
{
    let slots = c.slots;
    let left = dropped(slots, stream_id);
    match find_slot(slots, stream_id) {
        Some(k) => {
            assert(0 <= k < slots.len() && slots[k].id == stream_id);
            assert forall|slot: StreamSlot| #[trigger] left.contains(slot) == (slots.contains(slot)
                && slot.id != stream_id) by {
                if left.contains(slot) {
                    let j = choose|j: int| 0 <= j < left.len() && left[j] == slot;
                    let at = if j < k {
                        j
                    } else {
                        j + 1
                    };
                    assert(slots[at] == slot);
                    if slot.id == stream_id {
                        lemma_find_slot(slots, stream_id, at);
                    }
                }
                if slots.contains(slot) && slot.id != stream_id {
                    let j = choose|j: int| 0 <= j < slots.len() && slots[j] == slot;
                    assert(j != k);
                    let at = if j < k {
                        j
                    } else {
                        j - 1
                    };
                    assert(left[at] == slot);
                }
            }
            if 0 <= i < slots.len() && slots[i].id == stream_id {
                lemma_find_slot(slots, stream_id, i);
                match slots[i].active {
                    Some(t) => {
                        assert(ctx.has_block(t.fi as int, t.pi as int, t.bi as int));
                        assert(ctx.schedulers[t.fi as int].wf());
                        assert(ctx.schedulers[t.fi as int].block_state[t.pi as int].len()
                            == ctx.schedulers[t.fi as int].num_blocks(t.pi as int));
                        lemma_given_back(ctx, t);
                    },
                    None => {},
                }
            }
        },
        None => {
            assert forall|slot: StreamSlot| #[trigger] left.contains(slot) == (slots.contains(slot)
                && slot.id != stream_id) by {
                if slots.contains(slot) {
                    let j = choose|j: int| 0 <= j < slots.len() && slots[j] == slot;
                    assert(slots[j].id != stream_id);
                }
            }
        },
    }
}

/// What is to be done after each event that is not about a block: a farewell, a closed control
/// stream and closed data streams end the session; a failed control stream fails it, with the
/// reason given; a sign of life is sent when it is due; any other message goes on. But for what a
/// message says and a dead stream held, none of them changes anything.
pub proof fn law_steps_after_events<F: Fn(&[[u8; 32]]) -> [u8; 32]>(
    c: CoordView,
    ctx: CtxView,
    event: PeerEvent,
    root_of: F,
    step: Step,
    after: CoordView,
    ctx_after: CtxView,
)
    requires
        c.event_outcome(ctx, event, root_of, step, after, ctx_after),
    ensures
        event matches PeerEvent::Control(msg) ==> {
            &&& msg is Bye ==> step == Step::Close
            &&& !(msg is Bye) ==> step == Step::Continue
        },
        event is ControlClosed ==> step == Step::Close,
        event is StreamsClosed ==> step == Step::Close,
        event matches PeerEvent::ControlFailed(why) ==> step == Step::Fail(
            PeerError::Connection(why),
        ),
        event is KeepAliveDue ==> step == Step::Send(Message::KeepAlive),
        event is ControlClosed || event is StreamsClosed || event is ControlFailed
            || event is KeepAliveDue ==> after == c && ctx_after == ctx,
{
}

/// After a message that lists what a peer has of a file, it has just that; after one about a piece,
/// that piece too, and of the others what it had before. Pieces that the file does not have count
/// for nothing; other messages change nothing.
pub proof fn law_bits_after_messages(msg: Message, before: Seq<bool>, pi: int)
    requires
        0 <= pi < before.len(),
    ensures
        bits_after(msg, before).len() == before.len(),
        msg is HaveAll ==> bits_after(msg, before)[pi],
        msg is HaveNone ==> !bits_after(msg, before)[pi],
        msg matches Message::HaveBitmap { file_index, bitmap } ==> bits_after(msg, before)[pi] == (pi
            < bitmap@.len() && bitmap@[pi]),
        msg matches Message::HavePiece { file_index, piece_index } ==> {
            &&& piece_index == pi ==> bits_after(msg, before)[pi]
            &&& piece_index != pi ==> bits_after(msg, before)[pi] == before[pi]
        },
        !(msg is HaveAll || msg is HaveNone || msg is HaveBitmap || msg is HavePiece)
            ==> bits_after(msg, before) == before,
{
}

/// The number of the file that a message on availability carries.
pub open spec fn file_number(msg: Message) -> Option<u16> {
    match msg {
        Message::HaveAll { file_index } => Some(file_index),
        Message::HaveNone { file_index } => Some(file_index),
        Message::HaveBitmap { file_index, bitmap: _ } => Some(file_index),
        Message::HavePiece { file_index, piece_index: _ } => Some(file_index),
        _ => None,
    }
}

/// A message on a file that the download has is recorded for that file and counted there; it
/// changes nothing else. Any other message, and one on a file that the download does not have,
/// changes nothing at all.
pub proof fn law_message_is_recorded<F: Fn(&[[u8; 32]]) -> [u8; 32]>(
    c: CoordView,
    ctx: CtxView,
    msg: Message,
    root_of: F,
    step: Step,
    after: CoordView,
    ctx_after: CtxView,
    pi: int,
)
    requires
        ctx.wf(),
        c.fits(ctx),
        c.event_outcome(ctx, PeerEvent::Control(msg), root_of, step, after, ctx_after),
    ensures
        (file_number(msg) is None || file_number(msg)->0 >= ctx.schedulers.len()) ==> after == c
            && ctx_after == ctx,
        (file_number(msg) matches Some(fi) && fi < ctx.schedulers.len()) ==> {
            let fi = file_number(msg)->0 as int;
            let num = ctx.schedulers[fi].num_pieces as nat;
            let had = c.peer_avail[fi].bits(num);
            let held = after.peer_avail[fi].bits(num);
            &&& after.slots == c.slots
            &&& after.limits == c.limits
            &&& after.next_id == c.next_id
            &&& after.recent_fails == c.recent_fails
            &&& after.blocks_ok == c.blocks_ok
            &&& after.peer_avail.len() == c.peer_avail.len()
            &&& forall|f: int|
                0 <= f < c.peer_avail.len() && f != fi ==> #[trigger] after.peer_avail[f]
                    == c.peer_avail[f]
            &&& same_but_file(ctx, ctx_after, fi)
            &&& ctx_after.have == ctx.have
            &&& ctx_after.downloaded == ctx.downloaded
            &&& ctx_after.schedulers[fi].block_state == ctx.schedulers[fi].block_state
            &&& ctx_after.schedulers[fi].block_hashes == ctx.schedulers[fi].block_hashes
            &&& ctx_after.schedulers[fi].piece_done == ctx.schedulers[fi].piece_done
            &&& ctx_after.schedulers[fi].piece_verifying == ctx.schedulers[fi].piece_verifying
            &&& ctx_after.schedulers[fi].priority == ctx.schedulers[fi].priority
            &&& ctx_after.schedulers[fi].num_pieces == ctx.schedulers[fi].num_pieces
            &&& ctx_after.schedulers[fi].availability.len()
                == ctx.schedulers[fi].availability.len()
            &&& 0 <= pi < num ==> {
                &&& msg is HaveAll ==> held[pi]
                &&& msg is HaveNone ==> !held[pi]
                &&& msg matches Message::HaveBitmap { file_index, bitmap } ==> held[pi] == (pi
                    < bitmap@.len() && bitmap@[pi])
                &&& msg matches Message::HavePiece { file_index, piece_index } ==> {
                    &&& piece_index == pi ==> held[pi]
                    &&& piece_index != pi ==> held[pi] == had[pi]
                }
            }
        },
{
    if file_number(msg) matches Some(fi) && fi < ctx.schedulers.len() {
        let fi = file_number(msg)->0 as int;
        assert(ctx.schedulers[fi].wf());
        assert(file_of(msg) == Some(fi));
        assert(concerns(msg, ctx));
        let was = c.bits(ctx, fi);
        assert(was.len() == ctx.schedulers[fi].num_pieces);
        if 0 <= pi < was.len() {
            law_bits_after_messages(msg, was, pi);
        }
    }
}

/// After a message the count of a piece is higher by one where the peer turns out to have it and
/// was not known to, lower by one where it turns out not to have it and was thought to, and the
/// same otherwise.
pub proof fn law_counts_follow_bits<F: Fn(&[[u8; 32]]) -> [u8; 32]>(
    c: CoordView,
    ctx: CtxView,
    msg: Message,
    root_of: F,
    step: Step,
    after: CoordView,
    ctx_after: CtxView,
    fi: int,
    pi: int,
)
    requires
        ctx.wf(),
        c.fits(ctx),
        c.event_ok(ctx, PeerEvent::Control(msg), root_of),
        c.event_outcome(ctx, PeerEvent::Control(msg), root_of, step, after, ctx_after),
        0 <= fi < ctx.schedulers.len(),
        0 <= pi < ctx.schedulers[fi].num_pieces,
        c.peer_avail[fi].bits(ctx.schedulers[fi].num_pieces as nat)[pi]
            ==> ctx.schedulers[fi].availability[pi] > 0,
    ensures
        ({
            let num = ctx.schedulers[fi].num_pieces as nat;
            let had = c.peer_avail[fi].bits(num)[pi];
            let held = after.peer_avail[fi].bits(num)[pi];
            let before = ctx.schedulers[fi].availability[pi];
            let now = ctx_after.schedulers[fi].availability[pi];
            &&& held && !had ==> now == before + 1
            &&& had && !held ==> now == before - 1
            &&& had == held ==> now == before
        }),
{
    assert(ctx.schedulers[fi].wf());
    law_message_is_recorded(c, ctx, msg, root_of, step, after, ctx_after, pi);
    if concerns(msg, ctx) && file_of(msg) == Some(fi) {
        let counts = ctx.schedulers[fi].availability;
        let was = c.bits(ctx, fi);
        assert(was.len() == counts.len());
        assert(after.bits(ctx, fi) == bits_after(msg, was));
        law_counting_out(counts, was, pi);
        assert(count_out(counts, was)[pi] <= counts[pi]);
    }
}

/// There is room to count any message as long as no count of the file is full.
pub proof fn law_room_below_full_counts(msg: Message, counts: Seq<u32>, bits: Seq<bool>)
    requires
        forall|pi: int| 0 <= pi < counts.len() ==> #[trigger] counts[pi] < u32::MAX,
    ensures
        room_for(msg, counts, bits),
{
    let out = count_out(counts, bits);
    assert forall|pi: int| 0 <= pi < out.len() implies #[trigger] out[pi] < u32::MAX by {
        assert(counts[pi] < u32::MAX);
    }
}

/// Every event can be handled, but for reports on blocks that there are not, on a piece without a
/// listed root, and where a counter is full.
pub proof fn law_ordinary_events_are_handled<F: Fn(&[[u8; 32]]) -> [u8; 32]>(
    c: CoordView,
    ctx: CtxView,
    event: PeerEvent,
    root_of: F,
)
    requires
        ctx.wf(),
        c.fits(ctx),
        forall|hashes: &[[u8; 32]]| #[trigger] call_requires(root_of, (hashes,)),
        forall|fi: int, pi: int|
            #![trigger ctx.schedulers[fi].availability[pi]]
            0 <= fi < ctx.schedulers.len() && 0 <= pi < ctx.schedulers[fi].num_pieces
                ==> ctx.schedulers[fi].availability[pi] < u32::MAX,
        c.recent_fails < u32::MAX,
        event matches PeerEvent::BlockFail { stream_id, fi, pi, bi } ==> {
            &&& fi < ctx.schedulers.len()
            &&& pi < ctx.schedulers[fi as int].num_pieces
            &&& bi < ctx.schedulers[fi as int].block_state[pi as int].len()
        },
        event matches PeerEvent::BlockOk { stream_id, fi, pi, bi, hash } ==> {
            &&& fi < ctx.schedulers.len()
            &&& pi < ctx.schedulers[fi as int].num_pieces
            &&& bi < ctx.schedulers[fi as int].block_state[pi as int].len()
            &&& pi < ctx.meta.files@[fi as int].piece_hashes@.len()
        },
    ensures
        c.event_ok(ctx, event, root_of),
{
    match event {
        PeerEvent::Control(msg) => {
            if concerns(msg, ctx) {
                let fi = file_of(msg)->0;
                assert(ctx.schedulers[fi].wf());
                law_room_below_full_counts(
                    msg,
                    ctx.schedulers[fi].availability,
                    c.bits(ctx, fi),
                );
            }
        },
        PeerEvent::BlockOk { stream_id, fi, pi, bi, hash } => {
            assert(ctx.schedulers[fi as int].wf());
            assert(ctx.schedulers[fi as int].block_state[pi as int].len()
                == ctx.schedulers[fi as int].num_blocks(pi as int));
        },
        PeerEvent::BlockFail { stream_id, fi, pi, bi } => {
            assert(ctx.schedulers[fi as int].wf());
            assert(ctx.schedulers[fi as int].block_state[pi as int].len()
                == ctx.schedulers[fi as int].num_blocks(pi as int));
        },
        _ => {},
    }
}

/// A stream that is opened comes after those that are open, under an id that none of them has.
/// Nothing else of the session changes.
pub proof fn law_opened_stream(c: CoordView, active: Option<BlockTask>, i: int)
    requires
        c.wf(),
        c.next_id < usize::MAX,
    ensures
        ({
            let after = c.opened(active);
            &&& after.slots.len() == c.slots.len() + 1
            &&& after.slots.last().active == active
            &&& 0 <= i < c.slots.len() ==> after.slots[i] == c.slots[i] && c.slots[i].id
                != after.slots.last().id
            &&& after.next_id > after.slots.last().id
            &&& after.limits == c.limits
            &&& after.peer_avail == c.peer_avail
            &&& after.recent_fails == c.recent_fails
            &&& after.blocks_ok == c.blocks_ok
        }),
{
}

/// A peer that leaves is taken out of the counts of every file, and nothing is known of it any
/// more. Nothing else changes.
pub proof fn law_peer_leaves(c: CoordView, ctx: CtxView, fi: int, pi: int)
    requires
        ctx.wf(),
        c.fits(ctx),
        0 <= fi < ctx.schedulers.len(),
    ensures
        ({
            let after = c.ctx_after_leave(ctx);
            let s = ctx.schedulers[fi];
            let t = after.schedulers[fi];
            &&& after.meta == ctx.meta
            &&& after.have == ctx.have
            &&& after.downloaded == ctx.downloaded
            &&& after.peer_count == ctx.peer_count
            &&& after.schedulers.len() == ctx.schedulers.len()
            &&& t.fi == s.fi
            &&& t.num_pieces == s.num_pieces
            &&& t.piece_length == s.piece_length
            &&& t.last_piece_len == s.last_piece_len
            &&& t.priority == s.priority
            &&& t.block_state == s.block_state
            &&& t.block_hashes == s.block_hashes
            &&& t.piece_done == s.piece_done
            &&& t.piece_verifying == s.piece_verifying
            &&& t.availability.len() == s.availability.len()
            &&& 0 <= pi < s.num_pieces ==> {
                let owned = c.peer_avail[fi].bits(s.num_pieces as nat)[pi];
                &&& owned && s.availability[pi] > 0 ==> t.availability[pi] == s.availability[pi] - 1
                &&& !owned || s.availability[pi] == 0 ==> t.availability[pi] == s.availability[pi]
            }
            &&& c.left().peer_avail.len() == c.peer_avail.len()
            &&& c.left().peer_avail[fi] is Unknown
            &&& c.left().slots == c.slots
            &&& c.left().limits == c.limits
            &&& c.left().next_id == c.next_id
            &&& c.left().recent_fails == c.recent_fails
            &&& c.left().blocks_ok == c.blocks_ok
        }),
{
    let s = ctx.schedulers[fi];
    assert(s.wf());
    if 0 <= pi < s.num_pieces {
        law_counting_out(s.availability, c.bits(ctx, fi), pi);
    }
}

/// Another stream is planned exactly when there is room for one and a block for it. There is room
/// below the default number of streams; with three failures or more, or sixteen pending blocks or
/// fewer, below the maximal number. Only then may the block be one in flight.
pub proof fn law_when_a_stream_is_planned(
    c: CoordView,
    ctx: CtxView,
    fi: int,
    pi: int,
    bi: int,
)
    requires
        ctx.wf(),
        c.fits(ctx),
    ensures
        ({
            let boosted = c.recent_fails >= 3 || total_pending(ctx) <= 16;
            let room = if boosted {
                c.slots.len() < c.limits.max_streams
            } else {
                c.slots.len() < c.limits.default_streams
            };
            &&& !room ==> c.planned(ctx) is None
            &&& room && waiting(ctx, c.peer_avail, fi, pi, bi) ==> (c.planned(ctx) matches Some(p)
                && waiting(ctx, c.peer_avail, p.fi, p.at.0, p.at.1))
            &&& room && boosted && extendable(ctx, c.peer_avail, c.limits.per_block, fi, pi, bi)
                ==> c.planned(ctx) is Some
            &&& c.planned(ctx) matches Some(p) ==> {
                ||| waiting(ctx, c.peer_avail, p.fi, p.at.0, p.at.1)
                ||| boosted && extendable(
                    ctx,
                    c.peer_avail,
                    c.limits.per_block,
                    p.fi,
                    p.at.0,
                    p.at.1,
                )
            }
        }),
{
    let avail = c.peer_avail;
    let limits = c.limits.per_block;
    law_pending_pick_waits(ctx, avail);
    if exists|f: int, p: int, b: int| #[trigger] waiting(ctx, avail, f, p, b) {
        let (f, p, b) = choose|f: int, p: int, b: int| #[trigger] waiting(ctx, avail, f, p, b);
        law_pending_pick_by_turn(ctx, avail, limits, f, p, b);
        if waiting(ctx, avail, fi, pi, bi) {
            law_pending_pick_by_turn(ctx, avail, limits, fi, pi, bi);
        }
    } else {
        law_redundant_pick(ctx, avail, limits, fi, pi, bi);
    }
}

/// Orders and streams agree: a stream is ordered to fetch a block exactly when it was idle and
/// fetches that block now. Every order is to a stream of the session, and no stream has two. The
/// streams keep their ids, and those that were busy what they fetch.
pub proof fn law_orders_and_streams_agree(
    slots: Seq<StreamSlot>,
    ctx: CtxView,
    avail: Seq<PeerAvail>,
    passes: Seq<Pass>,
    n: int,
)
    requires
        distinct(slots),
        0 <= n <= slots.len(),
    ensures
        ({
            let a = assigned(slots, ctx, avail, passes, n);
            &&& a.slots.len() == slots.len()
            &&& forall|i: int|
                #![trigger a.slots[i]]
                0 <= i < slots.len() ==> {
                    &&& a.slots[i].id == slots[i].id
                    &&& slots[i].active is Some || i >= n ==> a.slots[i] == slots[i]
                    &&& slots[i].active is None && a.slots[i].active is Some
                        ==> a.orders.contains((slots[i].id, a.slots[i].active->0))
                }
            &&& forall|o: int|
                #![trigger a.orders[o]]
                0 <= o < a.orders.len() ==> exists|i: int|
                    {
                        &&& 0 <= i < n
                        &&& (#[trigger] slots[i]).id == a.orders[o].0
                        &&& slots[i].active is None
                        &&& a.slots[i].active == Some(a.orders[o].1)
                    }
            &&& forall|o1: int, o2: int|
                0 <= o1 < o2 < a.orders.len() ==> (#[trigger] a.orders[o1]).0 != (
                #[trigger] a.orders[o2]).0
        }),
    decreases n,
{
    if n > 0 {
        law_orders_and_streams_agree(slots, ctx, avail, passes, n - 1);
        let prev = assigned(slots, ctx, avail, passes, n - 1);
        let a = assigned(slots, ctx, avail, passes, n);
        let task = picked_task(prev.ctx, pick(prev.ctx, avail, passes));
        if task is Some && slots[n - 1].active is None {
            let order = (slots[n - 1].id, task->0);
            assert(a.orders == prev.orders.push(order));
            assert(a.orders[a.orders.len() - 1] == order);
            assert forall|i: int| #![trigger a.slots[i]] 0 <= i < slots.len() implies {
                &&& a.slots[i].id == slots[i].id
                &&& slots[i].active is Some || i >= n ==> a.slots[i] == slots[i]
                &&& slots[i].active is None && a.slots[i].active is Some ==> a.orders.contains(
                    (slots[i].id, a.slots[i].active->0),
                )
            } by {
                if i != n - 1 {
                    assert(a.slots[i] == prev.slots[i]);
                    if slots[i].active is None && a.slots[i].active is Some {
                        let o = choose|o: int|
                            0 <= o < prev.orders.len() && prev.orders[o] == (
                                slots[i].id,
                                a.slots[i].active->0,
                            );
                        assert(a.orders[o] == prev.orders[o]);
                    }
                }
            }
            assert forall|o: int| #![trigger a.orders[o]] 0 <= o < a.orders.len() implies exists|
                i: int,
            |
                {
                    &&& 0 <= i < n
                    &&& (#[trigger] slots[i]).id == a.orders[o].0
                    &&& slots[i].active is None
                    &&& a.slots[i].active == Some(a.orders[o].1)
                } by {
                if o < prev.orders.len() {
                    assert(a.orders[o] == prev.orders[o]);
                    let i = choose|i: int|
                        {
                            &&& 0 <= i < n - 1
                            &&& (#[trigger] slots[i]).id == prev.orders[o].0
                            &&& slots[i].active is None
                            &&& prev.slots[i].active == Some(prev.orders[o].1)
                        };
                    assert(slots[i].id == a.orders[o].0);
                    assert(a.slots[i] == prev.slots[i]);
                } else {
                    assert(slots[n - 1].id == a.orders[o].0);
                }
            }
            assert forall|o1: int, o2: int| 0 <= o1 < o2 < a.orders.len() implies (
            #[trigger] a.orders[o1]).0 != (#[trigger] a.orders[o2]).0 by {
                assert(a.orders[o1] == prev.orders[o1]);
                if o2 < prev.orders.len() {
                    assert(a.orders[o2] == prev.orders[o2]);
                } else {
                    let i = choose|i: int|
                        {
                            &&& 0 <= i < n - 1
                            &&& (#[trigger] slots[i]).id == prev.orders[o1].0
                            &&& slots[i].active is None
                            &&& prev.slots[i].active == Some(prev.orders[o1].1)
                        };
                    assert(slots[i].id != slots[n - 1].id);
                }
            }
        } else {
            assert(a == prev);
            assert forall|o: int| #![trigger a.orders[o]] 0 <= o < a.orders.len() implies exists|
                i: int,
            |
                {
                    &&& 0 <= i < n
                    &&& (#[trigger] slots[i]).id == a.orders[o].0
                    &&& slots[i].active is None
                    &&& a.slots[i].active == Some(a.orders[o].1)
                } by {
                let i = choose|i: int|
                    {
                        &&& 0 <= i < n - 1
                        &&& (#[trigger] slots[i]).id == prev.orders[o].0
                        &&& slots[i].active is None
                        &&& prev.slots[i].active == Some(prev.orders[o].1)
                    };
                assert(slots[i].id == a.orders[o].0);
            }
        }
    }
}

/// How many of the orders are for block `bi` of piece `pi` of file `fi`.
pub open spec fn orders_for(orders: Seq<(usize, BlockTask)>, fi: int, pi: int, bi: int) -> int
    decreases orders.len(),
{
    if orders.len() == 0 {
        0
    } else {
        let t = orders.last().1;
        orders_for(orders.drop_last(), fi, pi, bi) + (if t.fi == fi && t.pi == pi && t.bi == bi {
            1int
        } else {
            0int
        })
    }
}

/// Every order counts as one stream more on its block: a block has as many streams more as there
/// are orders for it, and a block without an order is as it was.
pub proof fn law_orders_are_streams(
    slots: Seq<StreamSlot>,
    ctx: CtxView,
    avail: Seq<PeerAvail>,
    passes: Seq<Pass>,
    n: int,
    fi: int,
    pi: int,
    bi: int,
)
    requires
        ctx.wf(),
        avail.len() <= ctx.schedulers.len(),
        0 <= fi < ctx.schedulers.len(),
        0 <= pi < ctx.schedulers[fi].num_pieces,
        0 <= bi < ctx.schedulers[fi].block_state[pi].len(),
    ensures
        ({
            let a = assigned(slots, ctx, avail, passes, n);
            let before = ctx.schedulers[fi].block_state[pi][bi];
            let after = a.ctx.schedulers[fi].block_state[pi][bi];
            let new = orders_for(a.orders, fi, pi, bi);
            &&& a.ctx.schedulers.len() == ctx.schedulers.len()
            &&& a.ctx.schedulers[fi].num_pieces == ctx.schedulers[fi].num_pieces
            &&& a.ctx.schedulers[fi].block_state[pi].len() == ctx.schedulers[fi].block_state[pi].len()
            &&& new >= 0
            &&& new == 0 ==> after == before
            &&& new > 0 ==> after is InFlight && streams_on(after) == streams_on(before) + new
        }),
    decreases n,
{
    if n > 0 {
        law_orders_are_streams(slots, ctx, avail, passes, n - 1, fi, pi, bi);
        lemma_assigned_counts(slots, ctx, avail, passes, n - 1);
        let prev = assigned(slots, ctx, avail, passes, n - 1);
        let a = assigned(slots, ctx, avail, passes, n);
        let p = pick(prev.ctx, avail, passes);
        if p is Some && slots[n - 1].active is None {
            law_picked_block(prev.ctx, avail, passes);
            let want = lemma_picked_want(prev.ctx, avail, passes);
            let s = prev.ctx.schedulers[p->0.fi];
            assert(s.wf());
            assert(s.block_state[p->0.at.0].len() == s.num_blocks(p->0.at.0));
            law_picking_adds_a_stream(prev.ctx, p->0);
            assert(a.ctx == picked_ctx(prev.ctx, p));
            assert(a.orders.drop_last() =~= prev.orders);
            assert(a.orders.last().1 == picked_task(prev.ctx, p)->0);
            if p->0.fi == fi && p->0.at.0 != pi {
                assert(a.ctx.schedulers[fi].block_state[pi] == s.block_state[pi]);
            }
            if p->0.fi != fi {
                assert(a.ctx.schedulers[fi] == prev.ctx.schedulers[fi]);
            }
        }
    }
}

/// A stream stays idle only when no block is left for the peer: neither a pending one nor one that
/// may have another stream.
pub proof fn law_idle_means_no_work(
    slots: Seq<StreamSlot>,
    ctx: CtxView,
    avail: Seq<PeerAvail>,
    limits: StreamsPerBlock,
    i: int,
    fi: int,
    pi: int,
    bi: int,
)
    requires
        ctx.wf(),
        avail.len() <= ctx.schedulers.len(),
        0 <= i < slots.len(),
        ({
            let a = assigned(slots, ctx, avail, all_passes(limits), slots.len() as int);
            a.slots[i].active is None
        }),
    ensures
        ({
            let a = assigned(slots, ctx, avail, all_passes(limits), slots.len() as int);
            &&& !waiting(a.ctx, avail, fi, pi, bi)
            &&& !extendable(a.ctx, avail, limits, fi, pi, bi)
        }),
{
    let passes = all_passes(limits);
    let n = slots.len() as int;
    let a = assigned(slots, ctx, avail, passes, n);
    law_no_idle_stream_while_work_is_left(slots, ctx, avail, passes, n, i);
    assert(nothing_to_pick(a.ctx, avail, passes));
    lemma_assigned_counts(slots, ctx, avail, passes, n);
    let k = law_pick_is_first(a.ctx, avail, passes);
    match pick(a.ctx, avail, passes) {
        Some(p) => {
            assert(file_choice(a.ctx, avail, passes[k], p.fi) is None);
        },
        None => {},
    }
    if exists|f: int, p: int, b: int| #[trigger] waiting(a.ctx, avail, f, p, b) {
        let (f, p, b) = choose|f: int, p: int, b: int| #[trigger] waiting(a.ctx, avail, f, p, b);
        law_pending_pick_by_turn(a.ctx, avail, limits, f, p, b);
    } else {
        law_redundant_pick(a.ctx, avail, limits, fi, pi, bi);
    }
}

} // verus!
