//! Coordination of the data streams to one peer that is downloaded from.
//!
//! [`Coordinator`] holds what is decided; whoever drives it opens the streams, moves the bytes
//! and reports back what happened, and on every way out of the session calls
//! [`Coordinator::leave`].

pub mod coordinator;
pub mod effects;
pub mod hello;
pub mod laws;
pub mod session;
pub mod swarm;

use crate::context::CtxView;
use crate::scheduler::availability::{count_in, count_out, has_bit, has_room};
use crate::scheduler::{BlockTask, SchedulerView, StreamsPerBlock};
use crate::select::{
    all_passes, pending_passes, pick, picked_ctx, picked_task, total_pending, Pass, Picked,
};
use crate::wire::{fit, Message, PeerAvail};

use vstd::prelude::*;

verus! {

/// With this many pending blocks or fewer the download is in its endgame: more streams are
/// opened, and blocks in flight get further ones.
pub const ENDGAME_THRESHOLD: u32 = 16;

/// With this many failed blocks the connection counts as unstable, which is treated as endgame.
pub const INSTABILITY_FAIL_THRESHOLD: u32 = 3;

/// After this many blocks that arrived, the failures before them are forgotten.
pub const INSTABILITY_RESET_WINDOW: u32 = 32;

/// How many streams may be open.
#[derive(Clone, Copy, Debug, PartialEq, Eq, Structural)]
pub struct StreamLimits {
    /// Data streams to a peer in normal operation.
    pub default_streams: usize,
    /// Data streams to a peer in the endgame or on an unstable connection.
    pub max_streams: usize,
    /// Streams on one block.
    pub per_block: StreamsPerBlock,
}

/// A data stream and the block that it fetches, if any.
#[derive(Clone, Copy, Debug, PartialEq, Eq, Structural)]
pub struct StreamSlot {
    pub id: usize,
    pub active: Option<BlockTask>,
}

/// Why a session with a peer ended.
#[derive(Debug)]
pub enum PeerError {
    HelloTimeout,
    HelloClosed,
    HelloRejected(String),
    HelloUnexpected,
    /// The connection failed, for the reason given.
    Connection(String),
    AllStreamsDead,
}

/// What to do next.
#[derive(Debug)]
pub enum Step {
    /// Nothing: go on.
    Continue,
    /// Send the message; go on even where that fails.
    Announce(Message),
    /// Send the message; where that fails, the session fails.
    Send(Message),
    /// End the session.
    Close,
    /// End the session with an error.
    Fail(PeerError),
}

/// What happened on the connection.
#[derive(Debug)]
pub enum PeerEvent {
    /// A message came on the control stream.
    Control(Message),
    /// The control stream failed.
    ControlFailed(String),
    /// The control stream ended.
    ControlClosed,
    /// A block arrived.
    BlockOk { stream_id: usize, fi: usize, pi: u32, bi: u32, hash: [u8; 32] },
    /// A block did not arrive.
    BlockFail { stream_id: usize, fi: usize, pi: u32, bi: u32 },
    /// A data stream is gone.
    StreamDead { stream_id: usize },
    /// No data stream can report any more.
    StreamsClosed,
    /// It is time for a sign of life.
    KeepAliveDue,
}

/// The download side of a session with one peer.
pub struct Coordinator {
    pub limits: StreamLimits,
    pub slots: Vec<StreamSlot>,
    pub next_id: usize,
    /// What the peer has of each file.
    pub peer_avail: Vec<PeerAvail>,
    pub recent_fails: u32,
    pub blocks_ok: u32,
}

/// What a [`Coordinator`] holds, as mathematical values.
#[verifier::ext_equal]
pub struct CoordView {
    pub limits: StreamLimits,
    pub slots: Seq<StreamSlot>,
    pub next_id: usize,
    pub peer_avail: Seq<PeerAvail>,
    pub recent_fails: u32,
    pub blocks_ok: u32,
}

impl View for Coordinator {
    type V = CoordView;

    open spec fn view(&self) -> CoordView {
        CoordView {
            limits: self.limits,
            slots: self.slots@,
            next_id: self.next_id,
            peer_avail: self.peer_avail@,
            recent_fails: self.recent_fails,
            blocks_ok: self.blocks_ok,
        }
    }
}

/// The position of the stream `id`.
pub open spec fn find_slot(slots: Seq<StreamSlot>, id: usize) -> Option<int> {
    if exists|i: int| 0 <= i < slots.len() && #[trigger] slots[i].id == id {
        Some(choose|i: int| 0 <= i < slots.len() && #[trigger] slots[i].id == id)
    } else {
        None
    }
}

/// Stream `id`, where there is one, fetches nothing.
pub open spec fn freed(slots: Seq<StreamSlot>, id: usize) -> Seq<StreamSlot> {
    match find_slot(slots, id) {
        Some(i) => slots.update(i, StreamSlot { id, active: None }),
        None => slots,
    }
}

/// Stream `id`, where there is one, is gone.
pub open spec fn dropped(slots: Seq<StreamSlot>, id: usize) -> Seq<StreamSlot> {
    match find_slot(slots, id) {
        Some(i) => slots.remove(i),
        None => slots,
    }
}

/// The block that stream `id` fetches.
pub open spec fn active_of(slots: Seq<StreamSlot>, id: usize) -> Option<BlockTask> {
    match find_slot(slots, id) {
        Some(i) => slots[i].active,
        None => None,
    }
}

impl CoordView {
    /// No two streams have the same id, and the window of arrivals is not full.
    pub open spec fn wf(self) -> bool {
        &&& forall|i: int|
            0 <= i < self.slots.len() ==> (#[trigger] self.slots[i]).id < self.next_id
        &&& forall|i: int, j: int|
            0 <= i < j < self.slots.len() ==> (#[trigger] self.slots[i]).id
                != (#[trigger] self.slots[j]).id
        &&& self.blocks_ok < INSTABILITY_RESET_WINDOW
    }

    /// What is recorded of the peer and of its streams is about the files of `ctx`.
    pub open spec fn fits(self, ctx: CtxView) -> bool {
        &&& self.peer_avail.len() == ctx.schedulers.len()
        &&& forall|fi: int|
            #![trigger self.peer_avail[fi]]
            0 <= fi < self.peer_avail.len() ==> (self.peer_avail[fi] matches PeerAvail::Bitmap(v)
                ==> v@.len() == ctx.schedulers[fi].num_pieces)
        &&& forall|i: int|
            #![trigger self.slots[i]]
            0 <= i < self.slots.len() ==> (self.slots[i].active matches Some(t) ==> ctx.has_block(
                t.fi as int,
                t.pi as int,
                t.bi as int,
            ))
    }

    /// The pieces of file `fi` that the peer is known to have.
    pub open spec fn bits(self, ctx: CtxView, fi: int) -> Seq<bool> {
        self.peer_avail[fi].bits(ctx.schedulers[fi].num_pieces as nat)
    }

    /// Many blocks failed of late.
    pub open spec fn unstable(self) -> bool {
        self.recent_fails >= INSTABILITY_FAIL_THRESHOLD
    }

    /// More streams and more redundancy are called for.
    pub open spec fn boosted(self, ctx: CtxView) -> bool {
        self.unstable() || total_pending(ctx) <= ENDGAME_THRESHOLD
    }

    /// How many data streams may be open.
    pub open spec fn stream_cap(self, ctx: CtxView) -> usize {
        if self.boosted(ctx) {
            self.limits.max_streams
        } else {
            self.limits.default_streams
        }
    }

    /// The passes that look for a block worth another stream.
    pub open spec fn scale_passes(self, ctx: CtxView) -> Seq<Pass> {
        if self.boosted(ctx) {
            all_passes(self.limits.per_block)
        } else {
            pending_passes()
        }
    }

    /// A data stream was opened to fetch `active`, or idle.
    pub open spec fn opened(self, active: Option<BlockTask>) -> CoordView {
        CoordView {
            slots: self.slots.push(StreamSlot { id: self.next_id, active }),
            next_id: (self.next_id + 1) as usize,
            ..self
        }
    }

    /// The block that is worth another data stream, if any is.
    pub open spec fn planned(self, ctx: CtxView) -> Option<Picked> {
        if self.slots.len() < self.stream_cap(ctx) {
            pick(ctx, self.peer_avail, self.scale_passes(ctx))
        } else {
            None
        }
    }

    /// A block arrived on stream `id`.
    pub open spec fn ok_counted(self, id: usize) -> CoordView {
        let reset = self.blocks_ok + 1 >= INSTABILITY_RESET_WINDOW;
        CoordView {
            slots: freed(self.slots, id),
            recent_fails: if reset {
                0
            } else {
                self.recent_fails
            },
            blocks_ok: if reset {
                0
            } else {
                (self.blocks_ok + 1) as u32
            },
            ..self
        }
    }

    /// A block failed on stream `id`.
    pub open spec fn fail_counted(self, id: usize) -> CoordView {
        CoordView {
            slots: freed(self.slots, id),
            recent_fails: (self.recent_fails + 1) as u32,
            ..self
        }
    }
}

/// What idle streams were given.
#[verifier::ext_equal]
pub struct Assigned {
    pub slots: Seq<StreamSlot>,
    pub ctx: CtxView,
    /// Stream and block, in the order of assignment.
    pub orders: Seq<(usize, BlockTask)>,
}

/// The first `n` streams are looked at in turn; every idle one gets the next block, as long as
/// there is one.
pub open spec fn assigned(
    slots: Seq<StreamSlot>,
    ctx: CtxView,
    avail: Seq<PeerAvail>,
    passes: Seq<Pass>,
    n: int,
) -> Assigned
    decreases n,
{
    if n <= 0 {
        Assigned { slots, ctx, orders: seq![] }
    } else {
        let prev = assigned(slots, ctx, avail, passes, n - 1);
        let p = pick(prev.ctx, avail, passes);
        match picked_task(prev.ctx, p) {
            Some(task) if slots[n - 1].active is None => Assigned {
                slots: prev.slots.update(
                    n - 1,
                    StreamSlot { id: slots[n - 1].id, active: Some(task) },
                ),
                ctx: picked_ctx(prev.ctx, p),
                orders: prev.orders.push((slots[n - 1].id, task)),
            },
            _ => prev,
        }
    }
}

/// The pieces that a peer has, after message `msg` about their file; `old_bits` before.
pub open spec fn bits_after(msg: Message, old_bits: Seq<bool>) -> Seq<bool> {
    match msg {
        Message::HaveAll { file_index } => Seq::new(old_bits.len(), |pi: int| true),
        Message::HaveNone { file_index } => Seq::new(old_bits.len(), |pi: int| false),
        Message::HaveBitmap { file_index, bitmap } => fit(bitmap@, old_bits.len()),
        Message::HavePiece { file_index, piece_index } => if piece_index < old_bits.len() {
            old_bits.update(piece_index as int, true)
        } else {
            old_bits
        },
        _ => old_bits,
    }
}

/// How many peers have each piece, after message `msg`: the pieces that it lists replace those
/// that were counted before; a single piece is counted on top, unless it was counted already.
pub open spec fn counts_after(msg: Message, counts: Seq<u32>, old_bits: Seq<bool>) -> Seq<u32> {
    match msg {
        Message::HaveAll { file_index } => count_in(
            count_out(counts, old_bits),
            bits_after(msg, old_bits),
        ),
        Message::HaveNone { file_index } => count_out(counts, old_bits),
        Message::HaveBitmap { file_index, bitmap } => count_in(
            count_out(counts, old_bits),
            bits_after(msg, old_bits),
        ),
        Message::HavePiece { file_index, piece_index } => if piece_index < counts.len()
            && !has_bit(old_bits, piece_index as int) {
            counts.update(piece_index as int, (counts[piece_index as int] + 1) as u32)
        } else {
            counts
        },
        _ => counts,
    }
}

/// No count is too large for message `msg` to be counted.
pub open spec fn room_for(msg: Message, counts: Seq<u32>, old_bits: Seq<bool>) -> bool {
    match msg {
        Message::HaveAll { file_index } => has_room(
            count_out(counts, old_bits),
            bits_after(msg, old_bits),
        ),
        Message::HaveBitmap { file_index, bitmap } => has_room(
            count_out(counts, old_bits),
            bits_after(msg, old_bits),
        ),
        Message::HavePiece { file_index, piece_index } => piece_index < counts.len() && !has_bit(
            old_bits,
            piece_index as int,
        ) ==> counts[piece_index as int] < u32::MAX,
        _ => true,
    }
}

/// The file that a message on availability is about.
pub open spec fn file_of(msg: Message) -> Option<int> {
    match msg {
        Message::HaveAll { file_index } => Some(file_index as int),
        Message::HaveNone { file_index } => Some(file_index as int),
        Message::HaveBitmap { file_index, bitmap } => Some(file_index as int),
        Message::HavePiece { file_index, piece_index } => Some(file_index as int),
        _ => None,
    }
}

/// Message `msg` is about a file of the download.
pub open spec fn concerns(msg: Message, ctx: CtxView) -> bool {
    file_of(msg) matches Some(fi) && fi < ctx.schedulers.len()
}

impl CoordView {
    /// Message `msg` can be counted.
    pub open spec fn control_room(self, ctx: CtxView, msg: Message) -> bool {
        concerns(msg, ctx) ==> room_for(
            msg,
            ctx.schedulers[file_of(msg)->0].availability,
            self.bits(ctx, file_of(msg)->0),
        )
    }

    /// What message `msg` makes of the download: only the counts of its file change.
    pub open spec fn ctx_after_control(self, ctx: CtxView, msg: Message) -> CtxView {
        if concerns(msg, ctx) {
            let fi = file_of(msg)->0;
            ctx.with_scheduler(
                fi,
                SchedulerView {
                    availability: counts_after(
                        msg,
                        ctx.schedulers[fi].availability,
                        self.bits(ctx, fi),
                    ),
                    ..ctx.schedulers[fi]
                },
            )
        } else {
            ctx
        }
    }

    /// What the end of the session makes of the download: the peer is no longer counted.
    pub open spec fn ctx_after_leave(self, ctx: CtxView) -> CtxView {
        CtxView {
            schedulers: Seq::new(
                ctx.schedulers.len(),
                |fi: int|
                    SchedulerView {
                        availability: count_out(
                            ctx.schedulers[fi].availability,
                            self.bits(ctx, fi),
                        ),
                        ..ctx.schedulers[fi]
                    },
            ),
            ..ctx
        }
    }

    /// The session once the peer is no longer counted: nothing is known of what it has.
    pub open spec fn left(self) -> CoordView {
        CoordView {
            peer_avail: Seq::new(self.peer_avail.len(), |fi: int| PeerAvail::Unknown),
            ..self
        }
    }

    /// `after` is this session with message `msg` recorded: only what the peer has of its file
    /// changes.
    pub open spec fn control_recorded(self, ctx: CtxView, msg: Message, after: CoordView) -> bool {
        if concerns(msg, ctx) {
            let fi = file_of(msg)->0;
            &&& after == (CoordView {
                peer_avail: self.peer_avail.update(fi, after.peer_avail[fi]),
                ..self
            })
            &&& after.bits(ctx, fi) == bits_after(msg, self.bits(ctx, fi))
        } else {
            after == self
        }
    }
}

impl CtxView {
    /// The arrival of block `task` can be handled: there is such a block, and where it completes
    /// its piece, the expected root of the piece is listed and `root_of` computes one.
    pub open spec fn arrival_ok<F: Fn(&[[u8; 32]]) -> [u8; 32]>(
        self,
        task: BlockTask,
        hash: [u8; 32],
        root_of: F,
    ) -> bool {
        &&& self.has_block(task.fi as int, task.pi as int, task.bi as int)
        &&& self.schedulers[task.fi as int].completes_piece(task.pi as int, task.bi as int) ==> {
            &&& self.root_listed(task.fi as int, task.pi as int)
            &&& forall|hashes: &[[u8; 32]]|
                hashes@ == self.block_done(
                    task.fi as int,
                    task.pi as int,
                    task.bi as int,
                    hash,
                ).schedulers[task.fi as int].hashes_of(task.pi as int) ==> #[trigger] call_requires(
                    root_of,
                    (hashes,),
                )
        }
    }

    /// What the arrival of block `task` does. A block that completes its piece has the piece
    /// verified, and the piece is announced when it is accepted, and only then.
    pub open spec fn arrival_outcome<F: Fn(&[[u8; 32]]) -> [u8; 32]>(
        self,
        task: BlockTask,
        hash: [u8; 32],
        root_of: F,
        step: Step,
        after: CtxView,
    ) -> bool {
        let fi = task.fi as int;
        let pi = task.pi as int;
        let mid = self.block_done(fi, pi, task.bi as int, hash);
        if self.schedulers[fi].completes_piece(pi, task.bi as int) {
            &&& mid.verification_outcome(root_of, fi, pi, step is Announce, after)
            &&& step == Step::Announce(
                Message::HavePiece { file_index: task.fi as u16, piece_index: task.pi },
            ) || step == Step::Continue
        } else {
            after == mid && step == Step::Continue
        }
    }
}

impl CoordView {
    /// The event can be handled: it is about blocks that there are, and no counter overflows.
    pub open spec fn event_ok<F: Fn(&[[u8; 32]]) -> [u8; 32]>(
        self,
        ctx: CtxView,
        event: PeerEvent,
        root_of: F,
    ) -> bool {
        match event {
            PeerEvent::Control(msg) => self.control_room(ctx, msg),
            PeerEvent::BlockOk { stream_id, fi, pi, bi, hash } => ctx.arrival_ok(
                BlockTask { fi, pi, bi },
                hash,
                root_of,
            ),
            PeerEvent::BlockFail { stream_id, fi, pi, bi } => ctx.has_block(
                fi as int,
                pi as int,
                bi as int,
            ) && self.recent_fails < u32::MAX,
            _ => true,
        }
    }

    /// What an event does: to the session, to the download, and what is to be done next.
    pub open spec fn event_outcome<F: Fn(&[[u8; 32]]) -> [u8; 32]>(
        self,
        ctx: CtxView,
        event: PeerEvent,
        root_of: F,
        step: Step,
        after: CoordView,
        ctx_after: CtxView,
    ) -> bool {
        match event {
            PeerEvent::Control(msg) => {
                &&& self.control_recorded(ctx, msg, after)
                &&& ctx_after == self.ctx_after_control(ctx, msg)
                &&& step == (if msg is Bye {
                    Step::Close
                } else {
                    Step::Continue
                })
            },
            PeerEvent::ControlFailed(why) => {
                &&& after == self
                &&& ctx_after == ctx
                &&& step == Step::Fail(PeerError::Connection(why))
            },
            PeerEvent::ControlClosed => after == self && ctx_after == ctx && step == Step::Close,
            PeerEvent::BlockOk { stream_id, fi, pi, bi, hash } => {
                &&& after == self.ok_counted(stream_id)
                &&& ctx.arrival_outcome(BlockTask { fi, pi, bi }, hash, root_of, step, ctx_after)
            },
            PeerEvent::BlockFail { stream_id, fi, pi, bi } => {
                &&& after == self.fail_counted(stream_id)
                &&& ctx_after == ctx.block_failed(fi as int, pi as int, bi as int)
                &&& step == Step::Continue
            },
            PeerEvent::StreamDead { stream_id } => {
                &&& after == (CoordView { slots: dropped(self.slots, stream_id), ..self })
                &&& ctx_after == (match active_of(self.slots, stream_id) {
                    Some(t) => ctx.block_failed(t.fi as int, t.pi as int, t.bi as int),
                    None => ctx,
                })
                &&& step == (if after.slots.len() == 0 {
                    Step::Fail(PeerError::AllStreamsDead)
                } else {
                    Step::Continue
                })
            },
            PeerEvent::StreamsClosed => after == self && ctx_after == ctx && step == Step::Close,
            PeerEvent::KeepAliveDue => {
                &&& after == self
                &&& ctx_after == ctx
                &&& step == Step::Send(Message::KeepAlive)
            },
        }
    }
}

} // verus!
