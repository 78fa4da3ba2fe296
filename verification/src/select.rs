//! Choice of the next block over all the files of a download.

use crate::context::{same_but_file, CtxView, TorrentCtx};
use crate::scheduler::availability::has_bit;
use crate::scheduler::blocks::{least, pending_over};
use crate::scheduler::effects::{
    law_any_block, law_block_in_flight_is_handed_out, law_handing_out, law_least_count,
    law_pending_block_is_handed_out, law_rarest_pending_block, rarer_or_earlier, same_but_piece,
    streams_on,
};
use crate::scheduler::laws::{law_complete_file_rests, law_verified_piece_rests};
use crate::scheduler::pick::Want;
use crate::scheduler::{BlockState, BlockTask, Priority, SchedulerView, StreamsPerBlock};
use crate::wire::{is_none_set, law_known_pieces, none_set, PeerAvail};

use vstd::prelude::*;

verus! {

/// A file that at most this many peers have is rare.
pub const LOW_AVAIL: u32 = 1;

/// One pass over the files in search of a block.
#[derive(Clone, Copy, Debug, PartialEq, Eq, Structural)]
pub enum Pass {
    /// Pending blocks of the files of that priority, only the rare ones where so asked.
    Ranked { priority: Priority, rare_only: bool },
    /// Pending blocks of the files of normal priority or less.
    Unranked,
    /// Blocks of any file, those in flight included.
    Redundant { limits: StreamsPerBlock },
}

impl Pass {
    /// The pass looks at a file with scheduler `s`.
    pub open spec fn admits(self, s: SchedulerView) -> bool {
        match self {
            Pass::Ranked { priority, rare_only } => s.priority == priority && (rare_only ==> least(
                s.availability,
            ) <= LOW_AVAIL),
            Pass::Unranked => s.priority.rank() < Priority::High.rank(),
            Pass::Redundant { limits } => true,
        }
    }

    /// The block that the pass takes from a file with scheduler `s`, for a peer that has `bits`.
    pub open spec fn choice(self, s: SchedulerView, bits: Seq<bool>) -> Option<(int, int)> {
        if !self.admits(s) {
            None
        } else {
            match self {
                Pass::Redundant { limits } => s.any_choice(bits, limits),
                _ => s.choice(bits, Want::Pending),
            }
        }
    }
}

/// The passes over pending blocks: user priority, the rare files of a level before the other
/// files of the next one; then the files of normal priority or less.
pub open spec fn pending_passes() -> Seq<Pass> {
    seq![
        Pass::Ranked { priority: Priority::Maximum, rare_only: true },
        Pass::Ranked { priority: Priority::VeryHigh, rare_only: true },
        Pass::Ranked { priority: Priority::Maximum, rare_only: false },
        Pass::Ranked { priority: Priority::Higher, rare_only: true },
        Pass::Ranked { priority: Priority::VeryHigh, rare_only: false },
        Pass::Ranked { priority: Priority::High, rare_only: true },
        Pass::Ranked { priority: Priority::Higher, rare_only: false },
        Pass::Ranked { priority: Priority::High, rare_only: false },
        Pass::Unranked,
    ]
}

/// All passes: those over pending blocks, then the one that adds streams to blocks in flight.
pub open spec fn all_passes(limits: StreamsPerBlock) -> Seq<Pass> {
    pending_passes().push(Pass::Redundant { limits })
}

/// A block picked in a file: file, and piece and block within it.
pub struct Picked {
    pub fi: int,
    pub at: (int, int),
}

/// What `pass` takes from file `fi` for a peer that has `avail`.
pub open spec fn file_choice(
    ctx: CtxView,
    avail: Seq<PeerAvail>,
    pass: Pass,
    fi: int,
) -> Option<(int, int)> {
    let s = ctx.schedulers[fi];
    pass.choice(s, avail[fi].bits(s.num_pieces as nat))
}

/// What `pass` takes from the first file, from `fi` on, that has something for it.
pub open spec fn pass_pick(ctx: CtxView, avail: Seq<PeerAvail>, pass: Pass, fi: int) -> Option<
    Picked,
>
    decreases avail.len() - fi,
{
    if fi >= avail.len() {
        None
    } else {
        match file_choice(ctx, avail, pass, fi) {
            Some(at) => Some(Picked { fi, at }),
            None => pass_pick(ctx, avail, pass, fi + 1),
        }
    }
}

/// What the first pass, from the `k`th on, takes that finds something.
pub open spec fn pick_from(ctx: CtxView, avail: Seq<PeerAvail>, passes: Seq<Pass>, k: int) -> Option<
    Picked,
>
    decreases passes.len() - k,
{
    if k >= passes.len() {
        None
    } else {
        match pass_pick(ctx, avail, passes[k], 0) {
            Some(p) => Some(p),
            None => pick_from(ctx, avail, passes, k + 1),
        }
    }
}

/// What the passes take.
pub open spec fn pick(ctx: CtxView, avail: Seq<PeerAvail>, passes: Seq<Pass>) -> Option<Picked> {
    pick_from(ctx, avail, passes, 0)
}

/// The task for a picked block.
pub open spec fn picked_task(ctx: CtxView, p: Option<Picked>) -> Option<BlockTask> {
    match p {
        Some(p) => Some(ctx.schedulers[p.fi].task_for(p.at)),
        None => None,
    }
}

/// The state after a block was picked: one more stream on it.
pub open spec fn picked_ctx(ctx: CtxView, p: Option<Picked>) -> CtxView {
    match p {
        Some(p) => ctx.with_scheduler(p.fi, ctx.schedulers[p.fi].stream_added(p.at)),
        None => ctx,
    }
}

/// How many blocks are pending over the first `n` files.
pub open spec fn pending_below(ctx: CtxView, n: int) -> nat
    decreases n,
{
    if n <= 0 {
        0
    } else {
        pending_below(ctx, n - 1) + pending_over(ctx.schedulers[n - 1].block_state)
    }
}

/// How many blocks are pending over all files.
pub open spec fn total_pending(ctx: CtxView) -> nat {
    pending_below(ctx, ctx.schedulers.len() as int)
}

proof fn lemma_pending_below_mono(ctx: CtxView, n: int, m: int)
    requires
        0 <= n <= m,
    ensures
        pending_below(ctx, n) <= pending_below(ctx, m),
    decreases m - n,
{
    if n < m {
        lemma_pending_below_mono(ctx, n, m - 1);
    }
}

/// Nothing is chosen for a peer that has nothing.
proof fn lemma_nothing_to_choose(s: SchedulerView, bits: Seq<bool>, pass: Pass)
    requires
        none_set(bits),
    ensures
        pass.choice(s, bits) is None,
{
    s.lemma_choice(bits, Want::Pending);
    match pass {
        Pass::Redundant { limits } => {
            s.lemma_choice(bits, Want::InFlightBelow(limits.typical));
            s.lemma_choice(bits, Want::InFlightBelow(limits.max));
        },
        _ => {},
    }
}

impl Pass {
    /// Whether the pass looks at the file.
    fn check(self, priority: Priority, min_availability: u32) -> (r: bool)
        ensures
            forall|s: SchedulerView|
                s.priority == priority && least(s.availability) == min_availability ==> r
                    == #[trigger] self.admits(s),
    {
        match self {
            Pass::Ranked { priority: wanted, rare_only } => priority == wanted && (!rare_only
                || min_availability <= LOW_AVAIL),
            Pass::Unranked => !priority.at_least_high(),
            Pass::Redundant { limits: _ } => true,
        }
    }
}

/// Makes one pass over the files.
fn pick_in_pass(ctx: &mut TorrentCtx, peer_avail: &[PeerAvail], pass: Pass) -> (task: Option<
    BlockTask,
>)
    requires
        old(ctx).wf(),
        peer_avail@.len() <= old(ctx)@.schedulers.len(),
    ensures
        final(ctx).wf(),
        task == picked_task(old(ctx)@, pass_pick(old(ctx)@, peer_avail@, pass, 0)),
        final(ctx)@ == picked_ctx(old(ctx)@, pass_pick(old(ctx)@, peer_avail@, pass, 0)),
{
    let ghost before = ctx@;
    let mut fi: usize = 0;
    while fi < peer_avail.len()
        invariant
            fi <= peer_avail@.len(),
            peer_avail@.len() <= ctx@.schedulers.len(),
            ctx.wf(),
            ctx@ == before,
            before == old(ctx)@,
            pass_pick(before, peer_avail@, pass, 0) == pass_pick(
                before,
                peer_avail@,
                pass,
                fi as int,
            ),
        decreases peer_avail@.len() - fi,
    {
        let ghost s = before.schedulers[fi as int];
        assert(s.wf());
        let priority: Priority = ctx.schedulers[fi].priority();
        let rarity: u32 = ctx.schedulers[fi].min_availability();
        if pass.check(priority, rarity) {
            let num: usize = ctx.schedulers[fi].num_pieces();
            let bits: Vec<bool> = peer_avail[fi].as_bitfield(num);
            if is_none_set(bits.as_slice()) {
                proof {
                    lemma_nothing_to_choose(s, bits@, pass);
                }
            } else {
                let task: Option<BlockTask> = match pass {
                    Pass::Redundant { limits } => ctx.schedulers[fi].schedule(
                        bits.as_slice(),
                        limits,
                    ),
                    _ => ctx.schedulers[fi].schedule_pending(bits.as_slice()),
                };
                let ghost c = pass.choice(s, bits@);
                proof {
                    assert(ctx@.schedulers =~= before.schedulers.update(
                        fi as int,
                        s.after_choice(c),
                    ));
                    assert(ctx@ =~= before.with_scheduler(fi as int, s.after_choice(c)));
                }
                if task.is_some() {
                    assert(pass_pick(before, peer_avail@, pass, fi as int) == Some(
                        Picked { fi: fi as int, at: c->0 },
                    ));
                    return task;
                }
                assert(ctx@ =~= before);
            }
        }
        fi = fi + 1;
    }
    None
}

/// Makes the passes in turn until one finds a block.
fn pick_over(ctx: &mut TorrentCtx, peer_avail: &[PeerAvail], passes: &[Pass]) -> (task: Option<
    BlockTask,
>)
    requires
        old(ctx).wf(),
        peer_avail@.len() <= old(ctx)@.schedulers.len(),
    ensures
        final(ctx).wf(),
        task == picked_task(old(ctx)@, pick(old(ctx)@, peer_avail@, passes@)),
        final(ctx)@ == picked_ctx(old(ctx)@, pick(old(ctx)@, peer_avail@, passes@)),
{
    let ghost before = ctx@;
    let mut k: usize = 0;
    while k < passes.len()
        invariant
            k <= passes@.len(),
            peer_avail@.len() <= ctx@.schedulers.len(),
            ctx.wf(),
            ctx@ == before,
            before == old(ctx)@,
            pick_from(before, peer_avail@, passes@, 0) == pick_from(
                before,
                peer_avail@,
                passes@,
                k as int,
            ),
        decreases passes@.len() - k,
    {
        let task: Option<BlockTask> = pick_in_pass(ctx, peer_avail, passes[k]);
        if task.is_some() {
            return task;
        }
        k = k + 1;
    }
    None
}

/// The passes over pending blocks, in order.
fn list_pending_passes() -> (passes: Vec<Pass>)
    ensures
        passes@ == pending_passes(),
{
    let passes: Vec<Pass> = vec![
        Pass::Ranked { priority: Priority::Maximum, rare_only: true },
        Pass::Ranked { priority: Priority::VeryHigh, rare_only: true },
        Pass::Ranked { priority: Priority::Maximum, rare_only: false },
        Pass::Ranked { priority: Priority::Higher, rare_only: true },
        Pass::Ranked { priority: Priority::VeryHigh, rare_only: false },
        Pass::Ranked { priority: Priority::High, rare_only: true },
        Pass::Ranked { priority: Priority::Higher, rare_only: false },
        Pass::Ranked { priority: Priority::High, rare_only: false },
        Pass::Unranked,
    ];
    assert(passes@ =~= pending_passes());
    passes
}

/// Picks the next block for a stream that is already open: a pending one by user priority and
/// rarity, else one in flight that may have another stream.
pub fn pick_block(
    ctx: &mut TorrentCtx,
    peer_avail: &[PeerAvail],
    limits: StreamsPerBlock,
) -> (task: Option<BlockTask>)
    requires
        old(ctx).wf(),
        peer_avail@.len() <= old(ctx)@.schedulers.len(),
    ensures
        final(ctx).wf(),
        task == picked_task(old(ctx)@, pick(old(ctx)@, peer_avail@, all_passes(limits))),
        final(ctx)@ == picked_ctx(old(ctx)@, pick(old(ctx)@, peer_avail@, all_passes(limits))),
{
    let mut passes: Vec<Pass> = list_pending_passes();
    passes.push(Pass::Redundant { limits });
    pick_over(ctx, peer_avail, passes.as_slice())
}

/// Picks a pending block, in the same order as [`pick_block`], to decide whether another stream
/// is worth opening.
pub fn pick_pending_block(ctx: &mut TorrentCtx, peer_avail: &[PeerAvail]) -> (task: Option<
    BlockTask,
>)
    requires
        old(ctx).wf(),
        peer_avail@.len() <= old(ctx)@.schedulers.len(),
    ensures
        final(ctx).wf(),
        task == picked_task(old(ctx)@, pick(old(ctx)@, peer_avail@, pending_passes())),
        final(ctx)@ == picked_ctx(old(ctx)@, pick(old(ctx)@, peer_avail@, pending_passes())),
{
    let passes: Vec<Pass> = list_pending_passes();
    pick_over(ctx, peer_avail, passes.as_slice())
}

/// Counts the pending blocks of all files, unless there are too many for a `u32`.
fn count_pending(ctx: &TorrentCtx) -> (r: Option<u32>)
    requires
        ctx.wf(),
    ensures
        r == (if total_pending(ctx@) <= u32::MAX {
            Some(total_pending(ctx@) as u32)
        } else {
            None
        }),
{
    let mut n: u32 = 0;
    let mut fi: usize = 0;
    while fi < ctx.schedulers.len()
        invariant
            ctx.wf(),
            fi <= ctx.schedulers@.len(),
            n == pending_below(ctx@, fi as int),
        decreases ctx.schedulers@.len() - fi,
    {
        proof {
            lemma_pending_below_mono(ctx@, fi + 1, ctx@.schedulers.len() as int);
            assert(ctx@.schedulers[fi as int].wf());
        }
        match ctx.schedulers[fi].add_pending(n) {
            Some(m) => {
                n = m;
            },
            None => {
                return None;
            },
        }
        fi = fi + 1;
    }
    Some(n)
}

/// Whether the pending blocks of all files can be counted in a `u32`.
pub fn pending_countable(ctx: &TorrentCtx) -> (r: bool)
    requires
        ctx.wf(),
    ensures
        r == (total_pending(ctx@) <= u32::MAX),
{
    count_pending(ctx).is_some()
}

/// Counts the pending blocks of all files.
pub fn total_pending_blocks(ctx: &TorrentCtx) -> (n: u32)
    requires
        ctx.wf(),
        total_pending(ctx@) <= u32::MAX,
    ensures
        n == total_pending(ctx@),
{
    count_pending(ctx).unwrap()
}

/// Pass `k` takes block `p`, and before it no pass takes anything from any file, nor pass `k`
/// from an earlier file.
pub open spec fn is_first_pick(
    ctx: CtxView,
    avail: Seq<PeerAvail>,
    passes: Seq<Pass>,
    k: int,
    p: Picked,
) -> bool {
    &&& 0 <= k < passes.len()
    &&& 0 <= p.fi < avail.len()
    &&& file_choice(ctx, avail, passes[k], p.fi) == Some(p.at)
    &&& forall|j: int, f: int|
        #![trigger file_choice(ctx, avail, passes[j], f)]
        0 <= j <= k && 0 <= f < avail.len() && (j < k || f < p.fi) ==> file_choice(
            ctx,
            avail,
            passes[j],
            f,
        ) is None
}

/// No pass takes anything from any file.
pub open spec fn nothing_to_pick(ctx: CtxView, avail: Seq<PeerAvail>, passes: Seq<Pass>) -> bool {
    forall|j: int, f: int|
        #![trigger file_choice(ctx, avail, passes[j], f)]
        0 <= j < passes.len() && 0 <= f < avail.len() ==> file_choice(ctx, avail, passes[j], f)
            is None
}

/// The block that is picked is the first that any pass takes, pass by pass and, within a pass,
/// file by file; nothing is picked only when no pass takes anything.
pub proof fn law_pick_is_first(ctx: CtxView, avail: Seq<PeerAvail>, passes: Seq<Pass>) -> (k: int)
    ensures
        match pick(ctx, avail, passes) {
            Some(p) => is_first_pick(ctx, avail, passes, k, p),
            None => nothing_to_pick(ctx, avail, passes),
        },
{
    lemma_pick_from(ctx, avail, passes, 0)
}

proof fn lemma_pick_from(ctx: CtxView, avail: Seq<PeerAvail>, passes: Seq<Pass>, from: int) -> (k:
    int)
    requires
        0 <= from <= passes.len(),
        forall|j: int, f: int|
            #![trigger file_choice(ctx, avail, passes[j], f)]
            0 <= j < from && 0 <= f < avail.len() ==> file_choice(ctx, avail, passes[j], f) is None,
    ensures
        match pick_from(ctx, avail, passes, from) {
            Some(p) => is_first_pick(ctx, avail, passes, k, p),
            None => nothing_to_pick(ctx, avail, passes),
        },
    decreases passes.len() - from,
{
    if from >= passes.len() {
        from
    } else {
        lemma_pass_pick(ctx, avail, passes[from], 0);
        match pass_pick(ctx, avail, passes[from], 0) {
            Some(p) => from,
            None => lemma_pick_from(ctx, avail, passes, from + 1),
        }
    }
}

proof fn lemma_pass_pick(ctx: CtxView, avail: Seq<PeerAvail>, pass: Pass, from: int)
    requires
        0 <= from <= avail.len(),
    ensures
        match pass_pick(ctx, avail, pass, from) {
            Some(p) => {
                &&& from <= p.fi < avail.len()
                &&& file_choice(ctx, avail, pass, p.fi) == Some(p.at)
                &&& forall|f: int|
                    from <= f < p.fi ==> (#[trigger] file_choice(ctx, avail, pass, f)) is None
            },
            None => forall|f: int|
                from <= f < avail.len() ==> (#[trigger] file_choice(ctx, avail, pass, f)) is None,
        },
    decreases avail.len() - from,
{
    if from < avail.len() {
        match file_choice(ctx, avail, pass, from) {
            Some(at) => {},
            None => lemma_pass_pick(ctx, avail, pass, from + 1),
        }
    }
}

/// A block that a pass takes is one that the peer has, and of the kind that the pass looks for.
pub proof fn lemma_file_choice(ctx: CtxView, avail: Seq<PeerAvail>, pass: Pass, fi: int)
    ensures
        file_choice(ctx, avail, pass, fi) matches Some(c) ==> {
            let s = ctx.schedulers[fi];
            let bits = avail[fi].bits(s.num_pieces as nat);
            &&& s.has_block(c.0, c.1)
            &&& has_bit(bits, c.0)
            &&& match pass {
                Pass::Redundant { limits } => {
                    ||| s.eligible(bits, Want::Pending, c.0, c.1)
                    ||| s.eligible(bits, Want::InFlightBelow(limits.typical), c.0, c.1)
                    ||| s.eligible(bits, Want::InFlightBelow(limits.max), c.0, c.1)
                },
                _ => s.eligible(bits, Want::Pending, c.0, c.1),
            }
        },
{
    let s = ctx.schedulers[fi];
    let bits = avail[fi].bits(s.num_pieces as nat);
    s.lemma_choice(bits, Want::Pending);
    match pass {
        Pass::Redundant { limits } => {
            s.lemma_choice(bits, Want::InFlightBelow(limits.typical));
            s.lemma_choice(bits, Want::InFlightBelow(limits.max));
        },
        _ => {},
    }
}

/// A picked block is a block of a piece that the peer has and that has not arrived; it was pending
/// where only pending blocks are looked for.
pub proof fn law_picked_block(ctx: CtxView, avail: Seq<PeerAvail>, passes: Seq<Pass>)
    requires
        ctx.wf(),
        avail.len() <= ctx.schedulers.len(),
    ensures
        pick(ctx, avail, passes) matches Some(p) ==> {
            let s = ctx.schedulers[p.fi];
            &&& 0 <= p.fi < avail.len()
            &&& s.has_block(p.at.0, p.at.1)
            &&& has_bit(avail[p.fi].bits(s.num_pieces as nat), p.at.0)
            &&& !(s.block_state[p.at.0][p.at.1] is Done)
            &&& !(exists|j: int| 0 <= j < passes.len() && (#[trigger] passes[j]) is Redundant)
                ==> s.block_state[p.at.0][p.at.1] is Pending
        },
{
    let k = law_pick_is_first(ctx, avail, passes);
    match pick(ctx, avail, passes) {
        Some(p) => {
            lemma_file_choice(ctx, avail, passes[k], p.fi);
        },
        None => {},
    }
}

/// Only pending blocks are handed out by [`pick_pending_block`].
pub proof fn law_pending_pick_is_pending(ctx: CtxView, avail: Seq<PeerAvail>)
    requires
        ctx.wf(),
        avail.len() <= ctx.schedulers.len(),
    ensures
        pick(ctx, avail, pending_passes()) matches Some(p)
            ==> ctx.schedulers[p.fi].block_state[p.at.0][p.at.1] is Pending,
{
    law_picked_block(ctx, avail, pending_passes());
}

/// [`pick_block`] picks what [`pick_pending_block`] picks whenever that picks something; else no
/// file has a pending block for the peer, and what it picks is in flight.
pub proof fn law_pending_blocks_go_first(
    ctx: CtxView,
    avail: Seq<PeerAvail>,
    limits: StreamsPerBlock,
)
    requires
        ctx.wf(),
        avail.len() <= ctx.schedulers.len(),
    ensures
        pick(ctx, avail, pending_passes()) is Some ==> pick(ctx, avail, all_passes(limits)) == pick(
            ctx,
            avail,
            pending_passes(),
        ),
        pick(ctx, avail, pending_passes()) is None ==> {
            &&& forall|fi: int, pi: int, bi: int|
                0 <= fi < avail.len() ==> !#[trigger] ctx.schedulers[fi].eligible(
                    avail[fi].bits(ctx.schedulers[fi].num_pieces as nat),
                    Want::Pending,
                    pi,
                    bi,
                )
            &&& pick(ctx, avail, all_passes(limits)) matches Some(p)
                ==> ctx.schedulers[p.fi].block_state[p.at.0][p.at.1] is InFlight
        },
{
    lemma_prefix_pick(ctx, avail, pending_passes(), Pass::Redundant { limits }, 0);
    if pick(ctx, avail, pending_passes()) is None {
        let k = law_pick_is_first(ctx, avail, pending_passes());
        let passes = pending_passes();
        assert forall|fi: int, pi: int, bi: int| 0 <= fi < avail.len() implies !(
        #[trigger] ctx.schedulers[fi].eligible(
            avail[fi].bits(ctx.schedulers[fi].num_pieces as nat),
            Want::Pending,
            pi,
            bi,
        )) by {
            let s = ctx.schedulers[fi];
            let bits = avail[fi].bits(s.num_pieces as nat);
            let j: int = match s.priority {
                Priority::Maximum => 2,
                Priority::VeryHigh => 4,
                Priority::Higher => 6,
                Priority::High => 7,
                _ => 8,
            };
            assert(file_choice(ctx, avail, passes[j], fi) is None);
            assert(passes[j].admits(s));
            s.lemma_choice(bits, Want::Pending);
        }
        let k2 = law_pick_is_first(ctx, avail, all_passes(limits));
        match pick(ctx, avail, all_passes(limits)) {
            Some(p) => {
                lemma_file_choice(ctx, avail, all_passes(limits)[k2], p.fi);
            },
            None => {},
        }
    }
}

proof fn lemma_prefix_pick(
    ctx: CtxView,
    avail: Seq<PeerAvail>,
    passes: Seq<Pass>,
    last: Pass,
    k: int,
)
    requires
        0 <= k <= passes.len(),
    ensures
        pick_from(ctx, avail, passes, k) is Some ==> pick_from(ctx, avail, passes.push(last), k)
            == pick_from(ctx, avail, passes, k),
    decreases passes.len() - k,
{
    if k < passes.len() {
        assert(passes.push(last)[k] == passes[k]);
        lemma_prefix_pick(ctx, avail, passes, last, k + 1);
    }
}

/// A complete download has no pending block and nothing to pick.
pub proof fn law_complete_download_rests(
    ctx: CtxView,
    avail: Seq<PeerAvail>,
    limits: StreamsPerBlock,
)
    requires
        ctx.wf(),
        ctx.complete(),
        avail.len() <= ctx.schedulers.len(),
    ensures
        total_pending(ctx) == 0,
        pick(ctx, avail, all_passes(limits)) is None,
{
    lemma_complete_pending(ctx, ctx.schedulers.len() as int);
    let k = law_pick_is_first(ctx, avail, all_passes(limits));
    match pick(ctx, avail, all_passes(limits)) {
        Some(p) => {
            let s = ctx.schedulers[p.fi];
            let bits = avail[p.fi].bits(s.num_pieces as nat);
            assert(s.wf() && s.complete());
            law_complete_file_rests(s, bits, limits);
            lemma_file_choice(ctx, avail, all_passes(limits)[k], p.fi);
            assert(s.piece_done[p.at.0]);
            law_verified_piece_rests(s, bits, Want::Pending, p.at.0, p.at.1);
            law_verified_piece_rests(
                s,
                bits,
                Want::InFlightBelow(limits.typical),
                p.at.0,
                p.at.1,
            );
            law_verified_piece_rests(s, bits, Want::InFlightBelow(limits.max), p.at.0, p.at.1);
        },
        None => {},
    }
}

proof fn lemma_complete_pending(ctx: CtxView, n: int)
    requires
        ctx.wf(),
        ctx.complete(),
        n <= ctx.schedulers.len(),
    ensures
        pending_below(ctx, n) == 0,
    decreases n,
{
    if n > 0 {
        lemma_complete_pending(ctx, n - 1);
        let s = ctx.schedulers[n - 1];
        assert(s.wf() && s.complete());
        law_complete_file_rests(s, seq![], StreamsPerBlock { typical: 0, max: 0 });
    }
}

/// A block of piece `pi` of file `fi`, which the peer has, is pending.
pub open spec fn waiting(ctx: CtxView, avail: Seq<PeerAvail>, fi: int, pi: int, bi: int) -> bool {
    let s = ctx.schedulers[fi];
    &&& 0 <= fi < avail.len()
    &&& 0 <= pi < s.num_pieces
    &&& 0 <= bi < s.block_state[pi].len()
    &&& avail[fi].bits(s.num_pieces as nat)[pi]
    &&& s.block_state[pi][bi] is Pending
}

/// A block of piece `pi` of file `fi`, which the peer has, is in flight on fewer streams than
/// allowed.
pub open spec fn extendable(
    ctx: CtxView,
    avail: Seq<PeerAvail>,
    limits: StreamsPerBlock,
    fi: int,
    pi: int,
    bi: int,
) -> bool {
    let s = ctx.schedulers[fi];
    &&& 0 <= fi < avail.len()
    &&& 0 <= pi < s.num_pieces
    &&& 0 <= bi < s.block_state[pi].len()
    &&& avail[fi].bits(s.num_pieces as nat)[pi]
    &&& s.block_state[pi][bi] matches BlockState::InFlight(n) && (n < limits.typical || n
        < limits.max)
}

/// At most one peer has some piece of the file, or the file has no pieces.
pub open spec fn is_rare(s: SchedulerView) -> bool {
    s.availability.len() == 0 || exists|pi: int|
        0 <= pi < s.availability.len() && #[trigger] s.availability[pi] <= 1
}

/// When it is a file's turn: by priority from `Maximum` down to `High`, where a rare file takes its
/// turn ahead of the files that are not rare of the level above; then all the other files.
pub open spec fn turn(s: SchedulerView) -> int {
    match (s.priority, is_rare(s)) {
        (Priority::Maximum, true) => 1,
        (Priority::VeryHigh, true) => 2,
        (Priority::Maximum, false) => 3,
        (Priority::Higher, true) => 4,
        (Priority::VeryHigh, false) => 5,
        (Priority::High, true) => 6,
        (Priority::Higher, false) => 7,
        (Priority::High, false) => 8,
        _ => 9,
    }
}

/// The pass at which it is a file's turn looks at the file, and of the earlier ones none does.
proof fn lemma_turn(s: SchedulerView, k: int)
    ensures
        0 <= turn(s) - 1 < pending_passes().len(),
        pending_passes().len() == 9,
        pending_passes()[turn(s) - 1].admits(s),
        0 <= k < turn(s) - 1 ==> !pending_passes()[k].admits(s),
        0 <= k < 9 ==> !(pending_passes()[k] is Redundant),
{
    law_least_count(s.availability);
    let counts = s.availability;
    if is_rare(s) && counts.len() > 0 {
        let pi = choose|pi: int| 0 <= pi < counts.len() && #[trigger] counts[pi] <= 1;
        assert(least(counts) <= counts[pi]);
    }
    if !is_rare(s) {
        let pi = choose|pi: int| 0 <= pi < counts.len() && counts[pi] == least(counts);
        assert(counts[pi] > 1);
    }
    assert((least(counts) <= LOW_AVAIL) == is_rare(s));
}

/// A file with a pending block for the peer has something for the pass at which it is its turn.
proof fn lemma_waiting_has_choice(
    ctx: CtxView,
    avail: Seq<PeerAvail>,
    fi: int,
    pi: int,
    bi: int,
)
    requires
        ctx.wf(),
        avail.len() <= ctx.schedulers.len(),
        waiting(ctx, avail, fi, pi, bi),
    ensures
        file_choice(ctx, avail, pending_passes()[turn(ctx.schedulers[fi]) - 1], fi) is Some,
{
    let s = ctx.schedulers[fi];
    let bits = avail[fi].bits(s.num_pieces as nat);
    assert(s.wf());
    lemma_turn(s, turn(s) - 1);
    law_known_pieces(avail[fi], s.num_pieces as nat, pi);
    law_pending_block_is_handed_out(s, bits, StreamsPerBlock { typical: 0, max: 0 }, pi, bi);
}

/// As long as a file has a pending block of a piece that the peer has, such a block is picked: from
/// the file whose turn comes first, the first of them; of its rarest piece, and the earliest there.
/// Blocks in flight make no difference.
pub proof fn law_pending_pick_by_turn(
    ctx: CtxView,
    avail: Seq<PeerAvail>,
    limits: StreamsPerBlock,
    fi: int,
    pi: int,
    bi: int,
)
    requires
        ctx.wf(),
        avail.len() <= ctx.schedulers.len(),
        waiting(ctx, avail, fi, pi, bi),
    ensures
        pick(ctx, avail, all_passes(limits)) == pick(ctx, avail, pending_passes()),
        pick(ctx, avail, pending_passes()) matches Some(p) && {
            let s = ctx.schedulers[p.fi];
            &&& waiting(ctx, avail, p.fi, p.at.0, p.at.1)
            &&& turn(s) < turn(ctx.schedulers[fi]) || turn(s) == turn(ctx.schedulers[fi]) && p.fi
                <= fi
            &&& p.fi == fi ==> rarer_or_earlier(s, p.at.0, p.at.1, pi, bi)
        },
{
    let passes = pending_passes();
    let j = turn(ctx.schedulers[fi]) - 1;
    lemma_turn(ctx.schedulers[fi], j);
    lemma_waiting_has_choice(ctx, avail, fi, pi, bi);
    let k = law_pick_is_first(ctx, avail, passes);
    law_pending_blocks_go_first(ctx, avail, limits);
    match pick(ctx, avail, passes) {
        Some(p) => {
            let s = ctx.schedulers[p.fi];
            let bits = avail[p.fi].bits(s.num_pieces as nat);
            assert(s.wf());
            let own = turn(s) - 1;
            lemma_turn(s, k);
            assert(file_choice(ctx, avail, passes[k], p.fi) is Some);
            assert(file_choice(ctx, avail, passes[own], p.fi) == s.choice(bits, Want::Pending));
            assert(file_choice(ctx, avail, passes[k], p.fi) == s.choice(bits, Want::Pending));
            assert(k == own);
            law_rarest_pending_block(s, bits);
            law_known_pieces(avail[p.fi], s.num_pieces as nat, p.at.0);
            if p.fi == fi {
                law_known_pieces(avail[fi], s.num_pieces as nat, pi);
                assert(s.block_state[pi][bi] is Pending);
            }
        },
        None => {
            assert(file_choice(ctx, avail, passes[j], fi) is None);
        },
    }
}

/// A block that is picked among pending blocks is pending, and one of a piece that the peer has.
pub proof fn law_pending_pick_waits(ctx: CtxView, avail: Seq<PeerAvail>)
    requires
        ctx.wf(),
        avail.len() <= ctx.schedulers.len(),
    ensures
        pick(ctx, avail, pending_passes()) matches Some(p) ==> waiting(
            ctx,
            avail,
            p.fi,
            p.at.0,
            p.at.1,
        ),
{
    let passes = pending_passes();
    let k = law_pick_is_first(ctx, avail, passes);
    match pick(ctx, avail, passes) {
        Some(p) => {
            let s = ctx.schedulers[p.fi];
            let bits = avail[p.fi].bits(s.num_pieces as nat);
            assert(s.wf());
            lemma_turn(s, k);
            assert(file_choice(ctx, avail, passes[k], p.fi) == s.choice(bits, Want::Pending));
            law_rarest_pending_block(s, bits);
        },
        None => {},
    }
}

/// Where no pending block is left for the peer, a block in flight on fewer streams than allowed is
/// picked as long as there is one, from the first file that has one; otherwise nothing is.
pub proof fn law_redundant_pick(
    ctx: CtxView,
    avail: Seq<PeerAvail>,
    limits: StreamsPerBlock,
    fi: int,
    pi: int,
    bi: int,
)
    requires
        ctx.wf(),
        avail.len() <= ctx.schedulers.len(),
        forall|f: int, p: int, b: int| !#[trigger] waiting(ctx, avail, f, p, b),
    ensures
        pick(ctx, avail, all_passes(limits)) matches Some(p) ==> {
            &&& extendable(ctx, avail, limits, p.fi, p.at.0, p.at.1)
            &&& ctx.schedulers[p.fi].any_choice(
                avail[p.fi].bits(ctx.schedulers[p.fi].num_pieces as nat),
                limits,
            ) == Some(p.at)
        },
        extendable(ctx, avail, limits, fi, pi, bi) ==> (pick(ctx, avail, all_passes(limits)) matches
            Some(p) && p.fi <= fi),
{
    let passes = all_passes(limits);
    let k = law_pick_is_first(ctx, avail, passes);
    assert(passes[9] == (Pass::Redundant { limits }));
    if extendable(ctx, avail, limits, fi, pi, bi) {
        let s = ctx.schedulers[fi];
        let bits = avail[fi].bits(s.num_pieces as nat);
        assert(s.wf());
        law_known_pieces(avail[fi], s.num_pieces as nat, pi);
        law_block_in_flight_is_handed_out(s, bits, limits, pi, bi);
        assert(file_choice(ctx, avail, passes[9], fi) is Some);
    }
    match pick(ctx, avail, passes) {
        Some(p) => {
            let s = ctx.schedulers[p.fi];
            let bits = avail[p.fi].bits(s.num_pieces as nat);
            assert(s.wf());
            if k < 9 {
                assert(passes[k] == pending_passes()[k]);
                lemma_turn(s, k);
                assert(file_choice(ctx, avail, passes[k], p.fi) == s.choice(bits, Want::Pending));
                law_rarest_pending_block(s, bits);
                assert(waiting(ctx, avail, p.fi, p.at.0, p.at.1));
            }
            assert(file_choice(ctx, avail, passes[9], p.fi) == s.any_choice(bits, limits));
            law_any_block(s, bits, limits);
            assert(!waiting(ctx, avail, p.fi, p.at.0, p.at.1));
            law_known_pieces(avail[p.fi], s.num_pieces as nat, p.at.0);
        },
        None => {},
    }
}

/// A picked block has one stream more, and the task names it; nothing else changes, in its file or
/// in any other. Where nothing is picked, nothing changes.
pub proof fn law_picking_adds_a_stream(ctx: CtxView, p: Picked)
    requires
        ctx.wf(),
        0 <= p.fi < ctx.schedulers.len(),
        0 <= p.at.0 < ctx.schedulers[p.fi].num_pieces,
        0 <= p.at.1 < ctx.schedulers[p.fi].block_state[p.at.0].len(),
        !(ctx.schedulers[p.fi].block_state[p.at.0][p.at.1] is Done),
        ctx.schedulers[p.fi].block_state[p.at.0][p.at.1] != BlockState::InFlight(u32::MAX),
    ensures
        ({
            let s = ctx.schedulers[p.fi];
            let after = picked_ctx(ctx, Some(p));
            let task = picked_task(ctx, Some(p));
            let state = after.schedulers[p.fi].block_state[p.at.0][p.at.1];
            &&& task is Some
            &&& task->0.fi == p.fi
            &&& task->0.pi == p.at.0
            &&& task->0.bi == p.at.1
            &&& same_but_file(ctx, after, p.fi)
            &&& after.have == ctx.have
            &&& after.downloaded == ctx.downloaded
            &&& same_but_piece(s, after.schedulers[p.fi], p.at.0)
            &&& after.schedulers[p.fi].block_hashes == s.block_hashes
            &&& after.schedulers[p.fi].piece_done == s.piece_done
            &&& after.schedulers[p.fi].piece_verifying == s.piece_verifying
            &&& state is InFlight
            &&& streams_on(state) == streams_on(s.block_state[p.at.0][p.at.1]) + 1
            &&& forall|b: int|
                0 <= b < s.block_state[p.at.0].len() && b != p.at.1
                    ==> #[trigger] after.schedulers[p.fi].block_state[p.at.0][b]
                    == s.block_state[p.at.0][b]
        }),
        picked_task(ctx, None) is None,
        picked_ctx(ctx, None) == ctx,
{
    let s = ctx.schedulers[p.fi];
    assert(s.wf());
    assert(s.fi == p.fi);
    law_handing_out(s, p.at);
}

proof fn lemma_pending_below_change(ctx: CtxView, fi: int, s: SchedulerView, n: int)
    requires
        0 <= fi < ctx.schedulers.len(),
        0 <= n <= ctx.schedulers.len(),
    ensures
        pending_below(ctx.with_scheduler(fi, s), n) == pending_below(ctx, n) + (if fi < n {
            pending_over(s.block_state) - pending_over(ctx.schedulers[fi].block_state)
        } else {
            0
        }),
    decreases n,
{
    if n > 0 {
        lemma_pending_below_change(ctx, fi, s, n - 1);
    }
}

/// The number of pending blocks over all files follows each file: what one file has more or less,
/// the whole has more or less. Without files it is zero.
pub proof fn law_total_follows_each_file(ctx: CtxView, fi: int, s: SchedulerView)
    ensures
        0 <= fi < ctx.schedulers.len() ==> total_pending(ctx.with_scheduler(fi, s)) == total_pending(
            ctx,
        ) + pending_over(s.block_state) - pending_over(ctx.schedulers[fi].block_state),
        ctx.schedulers.len() == 0 ==> total_pending(ctx) == 0,
{
    if 0 <= fi < ctx.schedulers.len() {
        lemma_pending_below_change(ctx, fi, s, ctx.schedulers.len() as int);
    }
}

proof fn lemma_below_zero(ctx: CtxView, n: int)
    requires
        0 <= n <= ctx.schedulers.len(),
    ensures
        pending_below(ctx, n) == 0 <==> forall|fi: int|
            0 <= fi < n ==> pending_over((#[trigger] ctx.schedulers[fi]).block_state) == 0,
    decreases n,
{
    if n > 0 {
        lemma_below_zero(ctx, n - 1);
        assert(pending_below(ctx, n) == pending_below(ctx, n - 1) + pending_over(
            ctx.schedulers[n - 1].block_state,
        ));
    }
}

/// No block is pending over all files exactly when none is in any file.
pub proof fn law_no_file_pending(ctx: CtxView)
    ensures
        total_pending(ctx) == 0 <==> forall|fi: int|
            0 <= fi < ctx.schedulers.len() ==> pending_over(
                (#[trigger] ctx.schedulers[fi]).block_state,
            ) == 0,
{
    lemma_below_zero(ctx, ctx.schedulers.len() as int);
}

} // verus!
