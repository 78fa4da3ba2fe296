//! What holds of a session with a peer from its start to its end.

use super::coordinator::lemma_assigned_len;
use super::laws::{
    counted_once, law_leaving_restores_counts, law_peer_is_counted_once, law_streams_bounded,
    lemma_picked_wf, most_streams,
};
use super::{
    active_of, assigned, concerns, file_of, find_slot, CoordView, PeerEvent, Step, StreamSlot,
};
use crate::context::CtxView;
use crate::scheduler::availability::count_out;
use crate::select::{
    all_passes, law_pending_pick_is_pending, law_picked_block, pick, picked_ctx, picked_task, Pass,
};
use crate::wire::PeerAvail;

use vstd::prelude::*;

verus! {

/// A session and its download at one moment.
pub struct Moment {
    pub c: CoordView,
    pub ctx: CtxView,
}

impl Moment {
    /// Session and download keep their invariants and agree with each other.
    pub open spec fn valid(self) -> bool {
        self.c.wf() && self.ctx.wf() && self.c.fits(self.ctx)
    }
}

/// One of the first data streams is opened, idle.
pub open spec fn opens_idle(a: Moment, b: Moment) -> bool {
    &&& a.c.slots.len() < a.c.limits.default_streams
    &&& b.c == a.c.opened(None)
    &&& b.ctx == a.ctx
}

/// A data stream is opened for a block that is worth one.
pub open spec fn opens_planned(a: Moment, b: Moment) -> bool {
    &&& a.c.planned(a.ctx) is Some
    &&& b.c == a.c.opened(picked_task(a.ctx, a.c.planned(a.ctx)))
    &&& b.ctx == picked_ctx(a.ctx, a.c.planned(a.ctx))
}

/// A data stream is opened for a block that was worth one while the download was `then`. Others may
/// have touched the download since.
pub open spec fn opens_as_planned(then: CtxView, a: Moment, b: Moment) -> bool {
    &&& a.c.planned(then) is Some
    &&& b.c == a.c.opened(picked_task(then, a.c.planned(then)))
    &&& b.ctx == a.ctx
}

/// Idle streams are given blocks.
pub open spec fn assigns(a: Moment, b: Moment) -> bool {
    let given = assigned(
        a.c.slots,
        a.ctx,
        a.c.peer_avail,
        all_passes(a.c.limits.per_block),
        a.c.slots.len() as int,
    );
    b.c == (CoordView { slots: given.slots, ..a.c }) && b.ctx == given.ctx
}

/// Something happens on the connection and is handled.
pub open spec fn handles<F: Fn(&[[u8; 32]]) -> [u8; 32]>(root_of: F, a: Moment, b: Moment) -> bool {
    exists|event: PeerEvent, step: Step|
        #![trigger a.c.event_outcome(a.ctx, event, root_of, step, b.c, b.ctx)]
        a.c.event_ok(a.ctx, event, root_of) && a.c.event_outcome(
            a.ctx,
            event,
            root_of,
            step,
            b.c,
            b.ctx,
        )
}

/// The session does one thing.
pub open spec fn moves<F: Fn(&[[u8; 32]]) -> [u8; 32]>(root_of: F, a: Moment, b: Moment) -> bool {
    opens_idle(a, b) || opens_planned(a, b) || assigns(a, b) || handles(root_of, a, b)
}

/// From each of the moments to the next the session does one thing, and nobody else touches the
/// download.
pub open spec fn alone<F: Fn(&[[u8; 32]]) -> [u8; 32]>(root_of: F, moments: Seq<Moment>) -> bool
    decreases moments.len(),
{
    if moments.len() <= 1 {
        moments.len() == 1 && moments[0].valid()
    } else {
        &&& alone(root_of, moments.drop_last())
        &&& moments.last().valid()
        &&& moves(root_of, moments[moments.len() - 2], moments.last())
    }
}

/// From each of the moments to the next either the session does one thing, or it opens a stream that
/// it planned earlier, or something happens to the download alone.
pub open spec fn among_others<F: Fn(&[[u8; 32]]) -> [u8; 32]>(
    root_of: F,
    moments: Seq<Moment>,
) -> bool
    decreases moments.len(),
{
    if moments.len() <= 1 {
        moments.len() == 1 && moments[0].valid()
    } else {
        let a = moments[moments.len() - 2];
        let b = moments.last();
        &&& among_others(root_of, moments.drop_last())
        &&& b.valid()
        &&& {
            ||| moves(root_of, a, b)
            ||| exists|then: CtxView| #[trigger] opens_as_planned(then, a, b)
            ||| b.c == a.c
        }
    }
}

/// Another data stream is planned only below the limit and only for a block that has not arrived.
/// Beyond the default number it is planned only in the endgame or on an unstable connection; with
/// neither, only for a pending block.
pub proof fn law_stream_is_worth_opening(c: CoordView, ctx: CtxView)
    requires
        c.wf(),
        ctx.wf(),
        c.fits(ctx),
    ensures
        c.planned(ctx) matches Some(p) ==> {
            let state = ctx.schedulers[p.fi].block_state[p.at.0][p.at.1];
            &&& c.slots.len() < c.stream_cap(ctx)
            &&& c.slots.len() >= c.limits.default_streams ==> c.boosted(ctx)
            &&& ctx.has_block(p.fi, p.at.0, p.at.1)
            &&& !(state is Done)
            &&& !c.boosted(ctx) ==> state is Pending
        },
{
    law_picked_block(ctx, c.peer_avail, c.scale_passes(ctx));
    law_pending_pick_is_pending(ctx, c.peer_avail);
}

/// A session that starts without data streams never has more of them than the larger of its two
/// limits, whatever happens, and whatever others do to the download meanwhile.
pub proof fn law_session_streams_bounded<F: Fn(&[[u8; 32]]) -> [u8; 32]>(
    root_of: F,
    moments: Seq<Moment>,
)
    requires
        among_others(root_of, moments),
        moments[0].c.slots.len() == 0,
    ensures
        moments.last().valid(),
        moments.last().c.limits == moments[0].c.limits,
        moments.last().c.slots.len() <= most_streams(moments[0].c.limits),
        moments[0].c.limits.default_streams <= moments[0].c.limits.max_streams
            ==> moments.last().c.slots.len() <= moments[0].c.limits.max_streams,
    decreases moments.len(),
{
    if moments.len() > 1 {
        let earlier = moments.drop_last();
        law_session_streams_bounded(root_of, earlier);
        let a = moments[moments.len() - 2];
        let b = moments.last();
        assert(a == earlier.last());
        if assigns(a, b) {
            lemma_assigned_len(
                a.c.slots,
                a.ctx,
                a.c.peer_avail,
                all_passes(a.c.limits.per_block),
                a.c.slots.len() as int,
            );
        } else if handles(root_of, a, b) {
            lemma_event_streams(root_of, a, b);
        }
    }
}

/// No event adds a data stream or changes the limits.
proof fn lemma_event_streams<F: Fn(&[[u8; 32]]) -> [u8; 32]>(root_of: F, a: Moment, b: Moment)
    requires
        a.valid(),
        handles(root_of, a, b),
    ensures
        b.c.slots.len() <= a.c.slots.len(),
        b.c.limits == a.c.limits,
{
    let (event, step) = choose|event: PeerEvent, step: Step|
        #![trigger a.c.event_outcome(a.ctx, event, root_of, step, b.c, b.ctx)]
        a.c.event_ok(a.ctx, event, root_of) && a.c.event_outcome(
            a.ctx,
            event,
            root_of,
            step,
            b.c,
            b.ctx,
        );
    law_streams_bounded(a.c, a.ctx, event, root_of, step, b.c, b.ctx);
}

/// In every file the peer is counted once for each piece that it has, on top of `base`.
pub open spec fn counted_in_all(base: Seq<Seq<nat>>, m: Moment) -> bool {
    &&& base.len() == m.ctx.schedulers.len()
    &&& forall|fi: int|
        #![trigger m.ctx.schedulers[fi]]
        0 <= fi < base.len() ==> counted_once(
            base[fi],
            m.c.bits(m.ctx, fi),
            m.ctx.schedulers[fi].availability,
        )
}

/// The same counts and pieces in every file.
pub open spec fn same_counts(a: CtxView, b: CtxView) -> bool {
    &&& a.schedulers.len() == b.schedulers.len()
    &&& forall|fi: int|
        #![trigger b.schedulers[fi]]
        0 <= fi < a.schedulers.len() ==> {
            &&& b.schedulers[fi].availability == a.schedulers[fi].availability
            &&& b.schedulers[fi].num_pieces == a.schedulers[fi].num_pieces
        }
}

/// Where neither the counts nor what is known of the peer changes, it stays counted.
pub proof fn lemma_same_counts(base: Seq<Seq<nat>>, a: Moment, b: Moment)
    requires
        counted_in_all(base, a),
        same_counts(a.ctx, b.ctx),
        b.c.peer_avail == a.c.peer_avail,
    ensures
        counted_in_all(base, b),
{
    assert forall|fi: int|
        #![trigger b.ctx.schedulers[fi]]
        0 <= fi < base.len() implies counted_once(
        base[fi],
        b.c.bits(b.ctx, fi),
        b.ctx.schedulers[fi].availability,
    ) by {
        assert(a.c.bits(a.ctx, fi) == b.c.bits(b.ctx, fi));
    }
}

/// Picking a block changes no count.
proof fn lemma_picked_counts(ctx: CtxView, avail: Seq<PeerAvail>, passes: Seq<Pass>)
    requires
        ctx.wf(),
        avail.len() <= ctx.schedulers.len(),
    ensures
        same_counts(ctx, picked_ctx(ctx, pick(ctx, avail, passes))),
{
    law_picked_block(ctx, avail, passes);
}

/// Giving blocks to idle streams changes no count.
pub proof fn lemma_assigned_counts(
    slots: Seq<StreamSlot>,
    ctx: CtxView,
    avail: Seq<PeerAvail>,
    passes: Seq<Pass>,
    n: int,
)
    requires
        ctx.wf(),
        avail.len() <= ctx.schedulers.len(),
    ensures
        assigned(slots, ctx, avail, passes, n).ctx.wf(),
        same_counts(ctx, assigned(slots, ctx, avail, passes, n).ctx),
    decreases n,
{
    if n > 0 {
        lemma_assigned_counts(slots, ctx, avail, passes, n - 1);
        let prev = assigned(slots, ctx, avail, passes, n - 1).ctx;
        lemma_picked_wf(prev, avail, passes);
        lemma_picked_counts(prev, avail, passes);
    }
}

/// Whatever happens on the connection, the peer is counted once for each piece that it has.
proof fn lemma_event_counts<F: Fn(&[[u8; 32]]) -> [u8; 32]>(
    root_of: F,
    base: Seq<Seq<nat>>,
    a: Moment,
    b: Moment,
)
    requires
        a.valid(),
        handles(root_of, a, b),
        counted_in_all(base, a),
    ensures
        counted_in_all(base, b),
{
    let (event, step) = choose|event: PeerEvent, step: Step|
        #![trigger a.c.event_outcome(a.ctx, event, root_of, step, b.c, b.ctx)]
        a.c.event_ok(a.ctx, event, root_of) && a.c.event_outcome(
            a.ctx,
            event,
            root_of,
            step,
            b.c,
            b.ctx,
        );
    match event {
        PeerEvent::Control(msg) => {
            if concerns(msg, a.ctx) {
                let fi = file_of(msg)->0;
                let s = a.ctx.schedulers[fi];
                law_peer_is_counted_once(base[fi], msg, a.c.bits(a.ctx, fi), s.availability);
                assert forall|f: int|
                    #![trigger b.ctx.schedulers[f]]
                    0 <= f < base.len() implies counted_once(
                    base[f],
                    b.c.bits(b.ctx, f),
                    b.ctx.schedulers[f].availability,
                ) by {
                    if f != fi {
                        assert(b.ctx.schedulers[f] == a.ctx.schedulers[f]);
                        assert(b.c.peer_avail[f] == a.c.peer_avail[f]);
                    }
                }
            }
        },
        PeerEvent::StreamDead { stream_id } => {
            match active_of(a.c.slots, stream_id) {
                Some(t) => {
                    let i = find_slot(a.c.slots, stream_id)->0;
                    assert(0 <= i < a.c.slots.len() && a.c.slots[i].id == stream_id);
                    assert(a.c.slots[i].active == Some(t));
                    assert(a.ctx.has_block(t.fi as int, t.pi as int, t.bi as int));
                },
                None => {},
            }
            lemma_same_counts(base, a, b);
        },
        _ => lemma_same_counts(base, a, b),
    }
}

/// Whatever a session does, its peer is counted once for each piece that it has.
pub proof fn lemma_move_counts<F: Fn(&[[u8; 32]]) -> [u8; 32]>(
    root_of: F,
    base: Seq<Seq<nat>>,
    a: Moment,
    b: Moment,
)
    requires
        a.valid(),
        moves(root_of, a, b),
        counted_in_all(base, a),
    ensures
        counted_in_all(base, b),
{
    if opens_planned(a, b) {
        lemma_picked_counts(a.ctx, a.c.peer_avail, a.c.scale_passes(a.ctx));
        lemma_same_counts(base, a, b);
    } else if assigns(a, b) {
        lemma_assigned_counts(
            a.c.slots,
            a.ctx,
            a.c.peer_avail,
            all_passes(a.c.limits.per_block),
            a.c.slots.len() as int,
        );
        lemma_same_counts(base, a, b);
    } else if handles(root_of, a, b) {
        lemma_event_counts(root_of, base, a, b);
    } else {
        lemma_same_counts(base, a, b);
    }
}

/// As long as nobody else touches the counts, a peer is counted once for each piece that it has,
/// whatever the session does.
pub proof fn law_session_is_counted_once<F: Fn(&[[u8; 32]]) -> [u8; 32]>(
    root_of: F,
    base: Seq<Seq<nat>>,
    moments: Seq<Moment>,
)
    requires
        alone(root_of, moments),
        counted_in_all(base, moments[0]),
    ensures
        moments.last().valid(),
        counted_in_all(base, moments.last()),
    decreases moments.len(),
{
    if moments.len() > 1 {
        let earlier = moments.drop_last();
        law_session_is_counted_once(root_of, base, earlier);
        let a = moments[moments.len() - 2];
        let b = moments.last();
        assert(a == earlier.last());
        lemma_move_counts(root_of, base, a, b);
    }
}

/// A session leaves no trace in the counts: once a peer of whom nothing was known at the start
/// leaves, in whatever way, every file counts as it did at the start, as long as nobody else
/// touched the counts.
pub proof fn law_session_leaves_no_trace<F: Fn(&[[u8; 32]]) -> [u8; 32]>(
    root_of: F,
    moments: Seq<Moment>,
    fi: int,
)
    requires
        alone(root_of, moments),
        forall|f: int|
            0 <= f < moments[0].c.peer_avail.len() ==> #[trigger] moments[0].c.peer_avail[f]
                is Unknown,
        0 <= fi < moments[0].ctx.schedulers.len(),
    ensures
        ({
            let end = moments.last();
            &&& end.c.ctx_after_leave(end.ctx).schedulers.len() == moments[0].ctx.schedulers.len()
            &&& end.c.ctx_after_leave(end.ctx).schedulers[fi].availability
                == moments[0].ctx.schedulers[fi].availability
        }),
{
    let start = moments[0];
    lemma_starts_valid(root_of, moments);
    let base = Seq::new(
        start.ctx.schedulers.len(),
        |f: int| start.ctx.schedulers[f].availability.map_values(|n: u32| n as nat),
    );
    assert forall|f: int|
        #![trigger start.ctx.schedulers[f]]
        0 <= f < base.len() implies counted_once(
        base[f],
        start.c.bits(start.ctx, f),
        start.ctx.schedulers[f].availability,
    ) by {
        assert(start.ctx.schedulers[f].wf());
        assert(start.c.peer_avail[f] is Unknown);
    }
    law_session_is_counted_once(root_of, base, moments);
    let end = moments.last();
    let counts = end.ctx.schedulers[fi].availability;
    let bits = end.c.bits(end.ctx, fi);
    let left = count_out(counts, bits);
    let first = start.ctx.schedulers[fi].availability;
    assert(counted_once(base[fi], bits, counts));
    assert forall|pi: int| 0 <= pi < first.len() implies left[pi] == first[pi] by {
        law_leaving_restores_counts(base[fi], bits, counts, pi);
    }
    assert(left =~= first);
}

proof fn lemma_starts_valid<F: Fn(&[[u8; 32]]) -> [u8; 32]>(root_of: F, moments: Seq<Moment>)
    requires
        alone(root_of, moments),
    ensures
        moments.len() >= 1,
        moments[0].valid(),
    decreases moments.len(),
{
    if moments.len() > 1 {
        lemma_starts_valid(root_of, moments.drop_last());
    }
}

} // verus!
