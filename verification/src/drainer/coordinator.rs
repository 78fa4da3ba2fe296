use super::{
    active_of, assigned, bits_after, dropped, find_slot, freed, CoordView, Coordinator, PeerError,
    PeerEvent, Step, StreamLimits, StreamSlot, ENDGAME_THRESHOLD, INSTABILITY_FAIL_THRESHOLD,
    INSTABILITY_RESET_WINDOW,
};
use crate::context::{CtxView, TorrentCtx};
use crate::scheduler::availability::{count_in, count_out, has_bit, has_room};
use crate::scheduler::{BlockTask, SchedulerView};
use crate::select::{
    all_passes, law_picked_block, pick, pick_block, pick_pending_block, picked_ctx, picked_task,
    total_pending, total_pending_blocks, Pass,
};
use crate::wire::{fit, fit_bits, Message, PeerAvail};

use vstd::prelude::*;

verus! {

/// A stream is found by its id, which no other stream has.
pub proof fn lemma_find_slot(slots: Seq<StreamSlot>, id: usize, i: int)
    requires
        0 <= i < slots.len(),
        slots[i].id == id,
        forall|i: int, j: int|
            0 <= i < j < slots.len() ==> (#[trigger] slots[i]).id != (#[trigger] slots[j]).id,
    ensures
        find_slot(slots, id) == Some(i),
{
    let j = choose|j: int| 0 <= j < slots.len() && #[trigger] slots[j].id == id;
    assert(slots[i].id == id);
    assert(j == i) by {
        if i < j {
            assert(slots[i].id != slots[j].id);
        } else if j < i {
            assert(slots[j].id != slots[i].id);
        }
    }
}

/// Whatever keeps the shape of the download keeps the session's records about it valid.
pub proof fn lemma_fits_shape(c: CoordView, before: CtxView, after: CtxView)
    requires
        c.fits(before),
        before.same_shape(after),
    ensures
        c.fits(after),
{
    assert forall|fi: int|
        #![trigger c.peer_avail[fi]]
        0 <= fi < c.peer_avail.len() implies (c.peer_avail[fi] matches PeerAvail::Bitmap(v)
        ==> v@.len() == after.schedulers[fi].num_pieces) by {
        assert(before.schedulers[fi].num_pieces == after.schedulers[fi].num_pieces);
    }
    assert forall|i: int|
        #![trigger c.slots[i]]
        0 <= i < c.slots.len() implies (c.slots[i].active matches Some(t) ==> after.has_block(
        t.fi as int,
        t.pi as int,
        t.bi as int,
    )) by {
        match c.slots[i].active {
            Some(t) => {
                assert(before.has_block(t.fi as int, t.pi as int, t.bi as int));
                assert(before.schedulers[t.fi as int].num_pieces
                    == after.schedulers[t.fi as int].num_pieces);
            },
            None => {},
        }
    }
}

/// A picked block is a block of the download, and picking it keeps the shape of the download.
pub proof fn lemma_picked(ctx: CtxView, avail: Seq<PeerAvail>, passes: Seq<Pass>)
    requires
        ctx.wf(),
        avail.len() <= ctx.schedulers.len(),
    ensures
        ctx.same_shape(picked_ctx(ctx, pick(ctx, avail, passes))),
        picked_task(ctx, pick(ctx, avail, passes)) matches Some(t) ==> ctx.has_block(
            t.fi as int,
            t.pi as int,
            t.bi as int,
        ),
{
    law_picked_block(ctx, avail, passes);
    match pick(ctx, avail, passes) {
        Some(p) => {
            assert(ctx.schedulers[p.fi].wf());
        },
        None => {},
    }
}

/// Giving blocks to idle streams adds, drops and renames no stream.
pub proof fn lemma_assigned_len(
    slots: Seq<StreamSlot>,
    ctx: CtxView,
    avail: Seq<PeerAvail>,
    passes: Seq<Pass>,
    n: int,
)
    requires
        0 <= n <= slots.len(),
    ensures
        assigned(slots, ctx, avail, passes, n).slots.len() == slots.len(),
        forall|i: int|
            0 <= i < slots.len() ==> (#[trigger] assigned(slots, ctx, avail, passes, n).slots[i]).id
                == slots[i].id,
        forall|i: int|
            n <= i < slots.len() ==> #[trigger] assigned(slots, ctx, avail, passes, n).slots[i]
                == slots[i],
    decreases n,
{
    if n > 0 {
        lemma_assigned_len(slots, ctx, avail, passes, n - 1);
    }
}

impl Coordinator {
    /// See [`CoordView::wf`].
    pub open spec fn wf(&self) -> bool {
        self@.wf()
    }

    /// A session with a peer of whom nothing is known yet, on a download of `num_files` files.
    pub fn new(limits: StreamLimits, num_files: usize) -> (c: Self)
        ensures
            c.wf(),
            c@.limits == limits,
            c@.slots == Seq::<StreamSlot>::empty(),
            c@.next_id == 0,
            c@.peer_avail == Seq::new(num_files as nat, |fi: int| PeerAvail::Unknown),
            c@.recent_fails == 0,
            c@.blocks_ok == 0,
            forall|ctx: CtxView| ctx.schedulers.len() == num_files ==> #[trigger] c@.fits(ctx),
    {
        let mut peer_avail: Vec<PeerAvail> = Vec::new();
        let mut fi: usize = 0;
        while fi < num_files
            invariant
                fi <= num_files,
                peer_avail@ == Seq::new(fi as nat, |f: int| PeerAvail::Unknown),
            decreases num_files - fi,
        {
            peer_avail.push(PeerAvail::Unknown);
            fi = fi + 1;
            assert(peer_avail@ =~= Seq::new(fi as nat, |f: int| PeerAvail::Unknown));
        }
        Coordinator {
            limits,
            slots: Vec::new(),
            next_id: 0,
            peer_avail,
            recent_fails: 0,
            blocks_ok: 0,
        }
    }

    /// Records a data stream that was opened to fetch `active`, or idle. Returns its id.
    pub fn stream_opened(&mut self, active: Option<BlockTask>) -> (id: usize)
        requires
            old(self).wf(),
            old(self).next_id < usize::MAX,
        ensures
            final(self).wf(),
            id == old(self).next_id,
            final(self)@ == old(self)@.opened(active),
            forall|ctx: CtxView|
                old(self)@.fits(ctx) && (active matches Some(t) ==> ctx.has_block(
                    t.fi as int,
                    t.pi as int,
                    t.bi as int,
                )) ==> #[trigger] final(self)@.fits(ctx),
    {
        let id: usize = self.next_id;
        self.slots.push(StreamSlot { id, active });
        self.next_id = id + 1;
        id
    }

    /// Gives every idle stream a block, as long as there is one. Returns which stream is to fetch
    /// which block.
    pub fn assign_idle(&mut self, ctx: &mut TorrentCtx) -> (orders: Vec<(usize, BlockTask)>)
        requires
            old(self).wf(),
            old(ctx).wf(),
            old(self)@.fits(old(ctx)@),
        ensures
            final(self).wf(),
            final(ctx).wf(),
            final(self)@.fits(final(ctx)@),
            ({
                let a = assigned(
                    old(self)@.slots,
                    old(ctx)@,
                    old(self)@.peer_avail,
                    all_passes(old(self)@.limits.per_block),
                    old(self)@.slots.len() as int,
                );
                &&& orders@ == a.orders
                &&& final(ctx)@ == a.ctx
                &&& final(self)@ == (CoordView { slots: a.slots, ..old(self)@ })
            }),
    {
        let mut orders: Vec<(usize, BlockTask)> = Vec::new();
        let ghost before = self@;
        let ghost ctx0 = ctx@;
        let ghost passes = all_passes(before.limits.per_block);
        let mut i: usize = 0;
        while i < self.slots.len()
            invariant
                i <= before.slots.len(),
                before.wf(),
                before == old(self)@,
                ctx0 == old(ctx)@,
                passes == all_passes(before.limits.per_block),
                ctx.wf(),
                self@ == (CoordView { slots: self@.slots, ..before }),
                self@.slots == assigned(
                    before.slots,
                    ctx0,
                    before.peer_avail,
                    passes,
                    i as int,
                ).slots,
                ctx@ == assigned(before.slots, ctx0, before.peer_avail, passes, i as int).ctx,
                orders@ == assigned(before.slots, ctx0, before.peer_avail, passes, i as int).orders,
                self@.slots.len() == before.slots.len(),
                self@.fits(ctx@),
            decreases before.slots.len() - i,
        {
            proof {
                lemma_assigned_len(before.slots, ctx0, before.peer_avail, passes, i as int);
                lemma_picked(ctx@, before.peer_avail, passes);
            }
            let slot: StreamSlot = self.slots[i];
            assert(slot == before.slots[i as int]);
            if slot.active.is_none() {
                let ghost mid = ctx@;
                let ghost mid_self = self@;
                match pick_block(ctx, self.peer_avail.as_slice(), self.limits.per_block) {
                    Some(task) => {
                        self.slots[i] = StreamSlot { id: slot.id, active: Some(task) };
                        orders.push((slot.id, task));
                    },
                    None => {},
                }
                proof {
                    lemma_fits_shape(mid_self, mid, ctx@);
                    lemma_has_block_shape(mid, ctx@);
                }
            }
            i = i + 1;
        }
        proof {
            lemma_assigned_len(before.slots, ctx0, before.peer_avail, passes, i as int);
        }
        orders
    }

    /// Decides whether another data stream is worth opening, and for which block: in the endgame
    /// or on an unstable connection up to the maximal number of streams, for blocks in flight
    /// too; else up to the default number, for pending blocks only.
    pub fn plan_stream(&self, ctx: &mut TorrentCtx) -> (task: Option<BlockTask>)
        requires
            self.wf(),
            old(ctx).wf(),
            self@.fits(old(ctx)@),
            total_pending(old(ctx)@) <= u32::MAX,
        ensures
            final(ctx).wf(),
            self@.fits(final(ctx)@),
            task matches Some(t) ==> final(ctx)@.has_block(t.fi as int, t.pi as int, t.bi as int),
            task == picked_task(old(ctx)@, self@.planned(old(ctx)@)),
            final(ctx)@ == picked_ctx(old(ctx)@, self@.planned(old(ctx)@)),
    {
        let ghost before = ctx@;
        proof {
            lemma_picked(before, self@.peer_avail, self@.scale_passes(before));
        }
        let unstable: bool = self.recent_fails >= INSTABILITY_FAIL_THRESHOLD;
        let endgame: bool = total_pending_blocks(ctx) <= ENDGAME_THRESHOLD;
        let max_active: usize = if unstable || endgame {
            self.limits.max_streams
        } else {
            self.limits.default_streams
        };
        if self.slots.len() < max_active {
            let task: Option<BlockTask> = if unstable || endgame {
                pick_block(ctx, self.peer_avail.as_slice(), self.limits.per_block)
            } else {
                pick_pending_block(ctx, self.peer_avail.as_slice())
            };
            proof {
                lemma_fits_shape(self@, before, ctx@);
                lemma_has_block_shape(before, ctx@);
            }
            task
        } else {
            None
        }
    }

    /// Position of the stream `id`.
    fn slot_index(&self, id: usize) -> (r: Option<usize>)
        requires
            self.wf(),
        ensures
            r is Some <==> find_slot(self@.slots, id) is Some,
            r matches Some(i) ==> find_slot(self@.slots, id) == Some(i as int) && i
                < self@.slots.len() && self@.slots[i as int].id == id,
    {
        let mut i: usize = 0;
        while i < self.slots.len()
            invariant
                self.wf(),
                i <= self@.slots.len(),
                forall|j: int| 0 <= j < i ==> (#[trigger] self@.slots[j]).id != id,
            decreases self@.slots.len() - i,
        {
            if self.slots[i].id == id {
                proof {
                    lemma_find_slot(self@.slots, id, i as int);
                }
                return Some(i);
            }
            i = i + 1;
        }
        None
    }

    /// Marks stream `id` idle.
    fn free_slot(&mut self, id: usize)
        requires
            old(self).wf(),
        ensures
            final(self).wf(),
            final(self)@ == (CoordView { slots: freed(old(self)@.slots, id), ..old(self)@ }),
    {
        match self.slot_index(id) {
            Some(i) => {
                self.slots[i] = StreamSlot { id, active: None };
            },
            None => {},
        }
    }
}

/// Keeping the shape keeps the blocks.
proof fn lemma_has_block_shape(before: CtxView, after: CtxView)
    requires
        before.same_shape(after),
    ensures
        forall|fi: int, pi: int, bi: int|
            before.has_block(fi, pi, bi) == #[trigger] after.has_block(fi, pi, bi),
{
    assert forall|fi: int, pi: int, bi: int| before.has_block(fi, pi, bi)
        == #[trigger] after.has_block(fi, pi, bi) by {
        if 0 <= fi < before.schedulers.len() {
            assert(before.schedulers[fi].num_pieces == after.schedulers[fi].num_pieces);
        }
    }
}

/// A stream that could not be opened for `task` gives the block back.
pub fn stream_open_failed(ctx: &mut TorrentCtx, task: BlockTask)
    requires
        old(ctx).wf(),
        old(ctx)@.has_block(task.fi as int, task.pi as int, task.bi as int),
    ensures
        final(ctx).wf(),
        final(ctx)@ == old(ctx)@.block_failed(task.fi as int, task.pi as int, task.bi as int),
{
    let ghost before = ctx@;
    assert(before.schedulers[task.fi as int].wf());
    ctx.schedulers[task.fi].mark_block_failed(task.pi, task.bi);
    assert(ctx@ =~= before.block_failed(task.fi as int, task.pi as int, task.bi as int));
}

impl Coordinator {
    /// Whether message `msg` can be counted without overflow.
    pub fn control_room(&self, ctx: &TorrentCtx, msg: &Message) -> (r: bool)
        requires
            self.wf(),
            ctx.wf(),
            self@.fits(ctx@),
        ensures
            r == self@.control_room(ctx@, *msg),
    {
        match msg {
            Message::HaveAll { file_index } => {
                let fi: usize = *file_index as usize;
                if fi >= ctx.schedulers.len() {
                    return true;
                }
                let num: usize = ctx.schedulers[fi].num_pieces();
                let bits: Vec<bool> = vec![true; num];
                assert(bits@ =~= bits_after(*msg, self@.bits(ctx@, fi as int)));
                self.replacement_room(ctx, fi, bits.as_slice())
            },
            Message::HaveBitmap { file_index, bitmap } => {
                let fi: usize = *file_index as usize;
                if fi >= ctx.schedulers.len() {
                    return true;
                }
                let num: usize = ctx.schedulers[fi].num_pieces();
                let bits: Vec<bool> = fit_bits(bitmap.as_slice(), num);
                assert(bits@ =~= bits_after(*msg, self@.bits(ctx@, fi as int)));
                self.replacement_room(ctx, fi, bits.as_slice())
            },
            Message::HavePiece { file_index, piece_index } => {
                let fi: usize = *file_index as usize;
                let pi: usize = *piece_index as usize;
                if fi >= ctx.schedulers.len() {
                    return true;
                }
                assert(ctx@.schedulers[fi as int].wf());
                let num: usize = ctx.schedulers[fi].num_pieces();
                let old_bits: Vec<bool> = self.peer_avail[fi].as_bitfield(num);
                pi >= num || old_bits[pi] || ctx.schedulers[fi].availability[pi] < u32::MAX
            },
            _ => true,
        }
    }

    /// Whether `bits` can be counted for file `fi` in place of what was counted before.
    fn replacement_room(&self, ctx: &TorrentCtx, fi: usize, bits: &[bool]) -> (r: bool)
        requires
            ctx.wf(),
            self@.fits(ctx@),
            fi < ctx@.schedulers.len(),
            bits@.len() == ctx@.schedulers[fi as int].num_pieces,
        ensures
            r == has_room(
                count_out(ctx@.schedulers[fi as int].availability, self@.bits(ctx@, fi as int)),
                bits@,
            ),
    {
        let ghost s = ctx@.schedulers[fi as int];
        assert(s.wf());
        let num: usize = ctx.schedulers[fi].num_pieces();
        let old_bits: Vec<bool> = self.peer_avail[fi].as_bitfield(num);
        let ghost counts = count_out(s.availability, old_bits@);
        let mut i: usize = 0;
        while i < num
            invariant
                i <= num,
                fi < ctx@.schedulers.len(),
                s == ctx@.schedulers[fi as int],
                num == s.num_pieces,
                s.wf(),
                bits@.len() == num,
                old_bits@.len() == num,
                old_bits@ == self@.bits(ctx@, fi as int),
                counts == count_out(s.availability, old_bits@),
                forall|p: int|
                    #![trigger counts[p]]
                    0 <= p < i && has_bit(bits@, p) ==> counts[p] < u32::MAX,
            decreases num - i,
        {
            if bits[i] && !old_bits[i] && ctx.schedulers[fi].availability[i] == u32::MAX {
                assert(has_bit(bits@, i as int));
                assert(counts[i as int] == u32::MAX);
                return false;
            }
            i = i + 1;
        }
        true
    }

    /// Replaces what is counted for the peer and file `fi` by `bits`.
    fn replace_bits(&mut self, ctx: &mut TorrentCtx, fi: usize, bits: &[bool])
        requires
            old(ctx).wf(),
            old(self)@.fits(old(ctx)@),
            fi < old(ctx)@.schedulers.len(),
            has_room(
                count_out(
                    old(ctx)@.schedulers[fi as int].availability,
                    old(self)@.bits(old(ctx)@, fi as int),
                ),
                bits@,
            ),
        ensures
            final(ctx).wf(),
            final(self)@ == old(self)@,
            final(ctx)@ == old(ctx)@.with_scheduler(
                fi as int,
                SchedulerView {
                    availability: count_in(
                        count_out(
                            old(ctx)@.schedulers[fi as int].availability,
                            old(self)@.bits(old(ctx)@, fi as int),
                        ),
                        bits@,
                    ),
                    ..old(ctx)@.schedulers[fi as int]
                },
            ),
    {
        let ghost before = ctx@;
        assert(before.schedulers[fi as int].wf());
        let num: usize = ctx.schedulers[fi].num_pieces();
        let old_bits: Vec<bool> = self.peer_avail[fi].as_bitfield(num);
        ctx.schedulers[fi].remove_peer_bitfield(old_bits.as_slice());
        ctx.schedulers[fi].add_peer_bitfield(bits);
        assert(ctx@ =~= before.with_scheduler(fi as int, ctx@.schedulers[fi as int]));
    }

    /// Handles a message on the control stream: records and counts what the peer has; ends the
    /// session on a farewell; ignores files that the download does not have and other messages.
    pub fn on_control(&mut self, ctx: &mut TorrentCtx, msg: Message) -> (step: Step)
        requires
            old(self).wf(),
            old(ctx).wf(),
            old(self)@.fits(old(ctx)@),
            old(self)@.control_room(old(ctx)@, msg),
        ensures
            final(self).wf(),
            final(ctx).wf(),
            final(self)@.fits(final(ctx)@),
            final(ctx)@ == old(self)@.ctx_after_control(old(ctx)@, msg),
            old(self)@.control_recorded(old(ctx)@, msg, final(self)@),
            step == (if msg is Bye {
                Step::Close
            } else {
                Step::Continue
            }),
    {
        let ghost before = ctx@;
        let ghost mine = self@;
        match msg {
            Message::HaveAll { file_index } => {
                let fi: usize = file_index as usize;
                if fi < self.peer_avail.len() {
                    let num: usize = ctx.schedulers[fi].num_pieces();
                    let bits: Vec<bool> = vec![true; num];
                    assert(bits@ =~= bits_after(msg, mine.bits(before, fi as int)));
                    self.replace_bits(ctx, fi, bits.as_slice());
                    self.peer_avail[fi] = PeerAvail::HaveAll;
                    assert(self@.bits(before, fi as int) =~= bits@);
                }
            },
            Message::HaveNone { file_index } => {
                let fi: usize = file_index as usize;
                if fi < self.peer_avail.len() {
                    assert(before.schedulers[fi as int].wf());
                    let num: usize = ctx.schedulers[fi].num_pieces();
                    let old_bits: Vec<bool> = self.peer_avail[fi].as_bitfield(num);
                    ctx.schedulers[fi].remove_peer_bitfield(old_bits.as_slice());
                    self.peer_avail[fi] = PeerAvail::HaveNone;
                    assert(self@.bits(before, fi as int) =~= bits_after(
                        msg,
                        mine.bits(before, fi as int),
                    ));
                    assert(ctx@ =~= before.with_scheduler(fi as int, ctx@.schedulers[fi as int]));
                }
            },
            Message::HaveBitmap { file_index, bitmap } => {
                let fi: usize = file_index as usize;
                if fi < self.peer_avail.len() {
                    let num: usize = ctx.schedulers[fi].num_pieces();
                    let bits: Vec<bool> = fit_bits(bitmap.as_slice(), num);
                    assert(bits@ =~= bits_after(msg, mine.bits(before, fi as int)));
                    self.replace_bits(ctx, fi, bits.as_slice());
                    assert(fit(bits@, num as nat) =~= bits@);
                    self.peer_avail[fi] = PeerAvail::Bitmap(bits);
                }
            },
            Message::HavePiece { file_index, piece_index } => {
                let fi: usize = file_index as usize;
                let pi: usize = piece_index as usize;
                if fi < self.peer_avail.len() {
                    assert(before.schedulers[fi as int].wf());
                    let num: usize = ctx.schedulers[fi].num_pieces();
                    let mut bits: Vec<bool> = self.peer_avail[fi].as_bitfield(num);
                    if pi < num && !bits[pi] {
                        ctx.schedulers[fi].add_peer_have(pi);
                        bits[pi] = true;
                    }
                    assert(bits@ =~= bits_after(msg, mine.bits(before, fi as int)));
                    assert(fit(bits@, num as nat) =~= bits@);
                    self.peer_avail[fi] = PeerAvail::Bitmap(bits);
                    assert(ctx@ =~= before.with_scheduler(fi as int, ctx@.schedulers[fi as int]));
                }
            },
            Message::Bye { reason: _ } => {
                return Step::Close;
            },
            _ => {},
        }
        proof {
            assert(before.same_shape(ctx@));
            lemma_has_block_shape(before, ctx@);
        }
        Step::Continue
    }
}

impl Coordinator {
    /// Takes the peer out of the counts, as the session ends in whatever way.
    pub fn leave(&mut self, ctx: &mut TorrentCtx)
        requires
            old(self).wf(),
            old(ctx).wf(),
            old(self)@.fits(old(ctx)@),
        ensures
            final(self).wf(),
            final(ctx).wf(),
            final(self)@.fits(final(ctx)@),
            final(self)@ == old(self)@.left(),
            final(ctx)@ == old(self)@.ctx_after_leave(old(ctx)@),
    {
        let ghost mine = self@;
        let ghost before = ctx@;
        let ghost target = mine.ctx_after_leave(before);
        let mut fi: usize = 0;
        while fi < self.peer_avail.len()
            invariant
                fi <= mine.peer_avail.len(),
                mine == old(self)@,
                before == old(ctx)@,
                mine.wf(),
                before.wf(),
                mine.fits(before),
                target == mine.ctx_after_leave(before),
                self@ == (CoordView { peer_avail: self@.peer_avail, ..mine }),
                self@.peer_avail.len() == mine.peer_avail.len(),
                forall|f: int|
                    #![trigger self@.peer_avail[f]]
                    0 <= f < mine.peer_avail.len() ==> self@.peer_avail[f] == (if f < fi {
                        PeerAvail::Unknown
                    } else {
                        mine.peer_avail[f]
                    }),
                ctx.wf(),
                ctx@ == (CtxView { schedulers: ctx@.schedulers, ..before }),
                ctx@.schedulers.len() == before.schedulers.len(),
                forall|f: int|
                    #![trigger ctx@.schedulers[f]]
                    0 <= f < before.schedulers.len() ==> ctx@.schedulers[f] == (if f < fi {
                        target.schedulers[f]
                    } else {
                        before.schedulers[f]
                    }),
            decreases mine.peer_avail.len() - fi,
        {
            assert(self@.peer_avail[fi as int] == mine.peer_avail[fi as int]);
            assert(ctx@.schedulers[fi as int] == before.schedulers[fi as int]);
            assert(before.schedulers[fi as int].wf());
            let num: usize = ctx.schedulers[fi].num_pieces();
            let bits: Vec<bool> = self.peer_avail[fi].as_bitfield(num);
            let ghost mid = ctx@;
            ctx.schedulers[fi].remove_peer_bitfield(bits.as_slice());
            self.peer_avail[fi] = PeerAvail::Unknown;
            assert(ctx@ =~= mid.with_scheduler(fi as int, target.schedulers[fi as int]));
            fi = fi + 1;
        }
        proof {
            assert(self@ =~= mine.left());
            assert(ctx@ =~= target);
            assert(before.same_shape(ctx@));
            lemma_has_block_shape(before, ctx@);
        }
    }

    /// Records that a block arrived on stream `stream_id`; verifies its piece with `root_of` when
    /// that completes it, and has the piece announced when it is accepted.
    pub fn on_block_ok<F: Fn(&[[u8; 32]]) -> [u8; 32]>(
        &mut self,
        ctx: &mut TorrentCtx,
        stream_id: usize,
        task: BlockTask,
        hash: [u8; 32],
        root_of: &F,
    ) -> (step: Step)
        requires
            old(self).wf(),
            old(ctx).wf(),
            old(self)@.fits(old(ctx)@),
            old(ctx)@.arrival_ok(task, hash, *root_of),
        ensures
            final(self).wf(),
            final(ctx).wf(),
            final(self)@.fits(final(ctx)@),
            final(self)@ == old(self)@.ok_counted(stream_id),
            old(ctx)@.arrival_outcome(task, hash, *root_of, step, final(ctx)@),
    {
        let ghost before = ctx@;
        let fi: usize = task.fi;
        let pi: u32 = task.pi;
        let ghost s = before.schedulers[fi as int];
        assert(s.wf());
        self.free_slot(stream_id);
        let ready: bool = ctx.schedulers[fi].mark_block_done(pi, task.bi, hash);
        let ghost mid = before.block_done(fi as int, pi as int, task.bi as int, hash);
        assert(ctx@ =~= mid);
        let accepted: bool = if ready {
            proof {
                lemma_completed_has_hashes(s, pi as int, task.bi as int, hash);
            }
            ctx.verify_and_complete(fi, pi, root_of)
        } else {
            false
        };
        self.blocks_ok = self.blocks_ok + 1;
        if self.blocks_ok >= INSTABILITY_RESET_WINDOW {
            self.recent_fails = 0;
            self.blocks_ok = 0;
        }
        proof {
            assert(before.same_shape(ctx@));
            lemma_fits_shape(old(self)@, before, ctx@);
        }
        if accepted {
            let file_index: u16 = #[verifier::truncate] (fi as u16);
            Step::Announce(Message::HavePiece { file_index, piece_index: pi })
        } else {
            Step::Continue
        }
    }

    /// Records that a block did not arrive on stream `stream_id`.
    pub fn on_block_fail(&mut self, ctx: &mut TorrentCtx, stream_id: usize, task: BlockTask)
        requires
            old(self).wf(),
            old(ctx).wf(),
            old(self)@.fits(old(ctx)@),
            old(ctx)@.has_block(task.fi as int, task.pi as int, task.bi as int),
            old(self).recent_fails < u32::MAX,
        ensures
            final(self).wf(),
            final(ctx).wf(),
            final(self)@.fits(final(ctx)@),
            final(self)@ == old(self)@.fail_counted(stream_id),
            final(ctx)@ == old(ctx)@.block_failed(task.fi as int, task.pi as int, task.bi as int),
    {
        let ghost before = ctx@;
        self.free_slot(stream_id);
        stream_open_failed(ctx, task);
        self.recent_fails = self.recent_fails + 1;
        proof {
            assert(before.same_shape(ctx@));
            lemma_fits_shape(old(self)@, before, ctx@);
        }
    }

    /// Records that stream `stream_id` is gone: the block that it was fetching is given back. With
    /// no stream left the session fails.
    pub fn on_stream_dead(&mut self, ctx: &mut TorrentCtx, stream_id: usize) -> (step: Step)
        requires
            old(self).wf(),
            old(ctx).wf(),
            old(self)@.fits(old(ctx)@),
        ensures
            final(self).wf(),
            final(ctx).wf(),
            final(self)@.fits(final(ctx)@),
            final(self)@ == (CoordView {
                slots: dropped(old(self)@.slots, stream_id),
                ..old(self)@
            }),
            final(ctx)@ == (match active_of(old(self)@.slots, stream_id) {
                Some(t) => old(ctx)@.block_failed(t.fi as int, t.pi as int, t.bi as int),
                None => old(ctx)@,
            }),
            step == (if final(self)@.slots.len() == 0 {
                Step::Fail(PeerError::AllStreamsDead)
            } else {
                Step::Continue
            }),
    {
        let ghost before = ctx@;
        match self.slot_index(stream_id) {
            Some(i) => {
                let slot: StreamSlot = self.slots.remove(i);
                match slot.active {
                    Some(task) => {
                        stream_open_failed(ctx, task);
                    },
                    None => {},
                }
            },
            None => {},
        }
        proof {
            assert(before.same_shape(ctx@));
            lemma_fits_shape(old(self)@, before, ctx@);
            assert(self@.fits(ctx@));
        }
        if self.slots.is_empty() {
            Step::Fail(PeerError::AllStreamsDead)
        } else {
            Step::Continue
        }
    }

    /// Whether [`Coordinator::handle_event`] can handle the event.
    pub fn can_handle<F: Fn(&[[u8; 32]]) -> [u8; 32]>(
        &self,
        ctx: &TorrentCtx,
        event: &PeerEvent,
        root_of: &F,
    ) -> (r: bool)
        requires
            self.wf(),
            ctx.wf(),
            self@.fits(ctx@),
            forall|hashes: &[[u8; 32]]| #[trigger] call_requires(*root_of, (hashes,)),
        ensures
            r == self@.event_ok(ctx@, *event, *root_of),
    {
        match event {
            PeerEvent::Control(msg) => self.control_room(ctx, msg),
            PeerEvent::BlockOk { stream_id: _, fi, pi, bi, hash: _ } => {
                if !ctx.has_block(*fi, *pi, *bi) {
                    return false;
                }
                assert(ctx@.schedulers[*fi as int].wf());
                !ctx.schedulers[*fi].completes_piece(*pi, *bi) || ctx.root_listed(*fi, *pi)
            },
            PeerEvent::BlockFail { stream_id: _, fi, pi, bi } => ctx.has_block(*fi, *pi, *bi)
                && self.recent_fails < u32::MAX,
            _ => true,
        }
    }

    /// Handles whatever happened on the connection.
    pub fn handle_event<F: Fn(&[[u8; 32]]) -> [u8; 32]>(
        &mut self,
        ctx: &mut TorrentCtx,
        event: PeerEvent,
        root_of: &F,
    ) -> (step: Step)
        requires
            old(self).wf(),
            old(ctx).wf(),
            old(self)@.fits(old(ctx)@),
            old(self)@.event_ok(old(ctx)@, event, *root_of),
        ensures
            final(self).wf(),
            final(ctx).wf(),
            final(self)@.fits(final(ctx)@),
            old(self)@.event_outcome(
                old(ctx)@,
                event,
                *root_of,
                step,
                final(self)@,
                final(ctx)@,
            ),
    {
        match event {
            PeerEvent::Control(msg) => self.on_control(ctx, msg),
            PeerEvent::ControlFailed(why) => Step::Fail(PeerError::Connection(why)),
            PeerEvent::ControlClosed => Step::Close,
            PeerEvent::BlockOk { stream_id, fi, pi, bi, hash } => self.on_block_ok(
                ctx,
                stream_id,
                BlockTask { fi, pi, bi },
                hash,
                root_of,
            ),
            PeerEvent::BlockFail { stream_id, fi, pi, bi } => {
                self.on_block_fail(ctx, stream_id, BlockTask { fi, pi, bi });
                Step::Continue
            },
            PeerEvent::StreamDead { stream_id } => self.on_stream_dead(ctx, stream_id),
            PeerEvent::StreamsClosed => Step::Close,
            PeerEvent::KeepAliveDue => Step::Send(Message::KeepAlive),
        }
    }
}

/// A piece whose last block arrives has all its digests.
proof fn lemma_completed_has_hashes(s: SchedulerView, pi: int, bi: int, hash: [u8; 32])
    requires
        s.wf(),
        s.has_block(pi, bi),
        s.completes_piece(pi, bi),
    ensures
        s.block_done(pi, bi, hash).hashes_known(pi),
        !s.piece_done[pi],
{
    let after = s.block_done(pi, bi, hash);
    assert(s.block_hashes[pi].len() == s.num_blocks(pi));
    s.lemma_completed(pi, bi);
    assert forall|b: int|
        #![trigger after.block_hashes[pi][b]]
        0 <= b < after.num_blocks(pi) implies after.block_hashes[pi][b] is Some by {
        if b != bi {
            assert(s.block_state[pi][b] is Done);
            assert(s.has_block(pi, b));
            assert(s.block_hashes[pi][b] is Some);
        }
    }
}

} // verus!
