//! What holds of all the sessions on one download together, however they interleave.

use super::laws::{counted_once, law_leaving_restores_counts};
use super::session::{
    counted_in_all, lemma_move_counts, lemma_same_counts, moves, same_counts, Moment,
};
use super::CoordView;
use crate::context::CtxView;
use crate::meta::Metainfo;
use crate::scheduler::availability::has_bit;
use crate::scheduler::laws::{lemma_peers_without, peers_with};

use vstd::prelude::*;

verus! {

/// A download and all the sessions on it at one moment.
pub struct Swarm {
    pub sessions: Seq<CoordView>,
    pub ctx: CtxView,
}

impl Swarm {
    /// Session `i`, with the download.
    pub open spec fn at(self, i: int) -> Moment {
        Moment { c: self.sessions[i], ctx: self.ctx }
    }

    /// Every session and the download keep their invariants and agree with each other.
    pub open spec fn valid(self) -> bool {
        &&& self.ctx.wf()
        &&& forall|i: int| 0 <= i < self.sessions.len() ==> (#[trigger] self.at(i)).valid()
    }

    /// What the peer of each session has of file `fi`.
    pub open spec fn bits(self, fi: int) -> Seq<Seq<bool>> {
        self.sessions.map_values(|c: CoordView| c.bits(self.ctx, fi))
    }

    /// How many sessions are with a peer that has piece `pi` of file `fi`.
    pub open spec fn sessions_with(self, fi: int, pi: int) -> nat {
        peers_with(self.bits(fi), pi)
    }

    /// The count of every piece is the number of sessions with a peer that has it.
    pub open spec fn counted(self) -> bool {
        forall|fi: int, pi: int|
            #![trigger self.ctx.schedulers[fi].availability[pi]]
            self.ctx.has_piece(fi, pi) ==> self.ctx.schedulers[fi].availability[pi]
                == self.sessions_with(fi, pi)
    }
}

/// A session begins with a peer of whom nothing is known.
pub open spec fn joins(a: Swarm, b: Swarm) -> bool {
    &&& b.ctx == a.ctx
    &&& b.sessions.len() == a.sessions.len() + 1
    &&& b.sessions.drop_last() == a.sessions
    &&& forall|fi: int|
        0 <= fi < b.sessions.last().peer_avail.len()
            ==> #[trigger] b.sessions.last().peer_avail[fi] is Unknown
}

/// Session `i` ends.
pub open spec fn leaves(a: Swarm, b: Swarm, i: int) -> bool {
    &&& 0 <= i < a.sessions.len()
    &&& b.sessions == a.sessions.remove(i)
    &&& b.ctx == a.sessions[i].ctx_after_leave(a.ctx)
}

/// Session `i` does one thing, or does half of it: picks a block for a stream that it opens later,
/// opens one that it planned earlier, or gives back a block.
pub open spec fn acts<F: Fn(&[[u8; 32]]) -> [u8; 32]>(
    root_of: F,
    a: Swarm,
    b: Swarm,
    i: int,
) -> bool {
    &&& 0 <= i < a.sessions.len()
    &&& b.sessions == a.sessions.update(i, b.sessions[i])
    &&& {
        ||| moves(root_of, a.at(i), b.at(i))
        ||| b.sessions[i].peer_avail == a.sessions[i].peer_avail && same_counts(a.ctx, b.ctx)
    }
}

/// Something else happens to the download, such as a new priority; no count changes.
pub open spec fn aside(a: Swarm, b: Swarm) -> bool {
    b.sessions == a.sessions && same_counts(a.ctx, b.ctx)
}

/// One thing happens.
pub open spec fn goes_on<F: Fn(&[[u8; 32]]) -> [u8; 32]>(root_of: F, a: Swarm, b: Swarm) -> bool {
    ||| joins(a, b)
    ||| exists|i: int| #[trigger] leaves(a, b, i)
    ||| exists|i: int| #[trigger] acts(root_of, a, b, i)
    ||| aside(a, b)
}

/// From each of `swarms` to the next one thing happens.
pub open spec fn interleaved<F: Fn(&[[u8; 32]]) -> [u8; 32]>(root_of: F, swarms: Seq<Swarm>) -> bool
    decreases swarms.len(),
{
    if swarms.len() <= 1 {
        swarms.len() == 1 && swarms[0].valid()
    } else {
        &&& interleaved(root_of, swarms.drop_last())
        &&& swarms.last().valid()
        &&& goes_on(root_of, swarms[swarms.len() - 2], swarms.last())
    }
}

/// The count of a piece is the number of sessions with a peer that has it, for any number of
/// sessions that come, go and interleave in any way.
pub proof fn law_counts_are_sessions<F: Fn(&[[u8; 32]]) -> [u8; 32]>(
    root_of: F,
    swarms: Seq<Swarm>,
)
    requires
        interleaved(root_of, swarms),
        swarms[0].counted(),
    ensures
        swarms.last().valid(),
        swarms.last().counted(),
    decreases swarms.len(),
{
    if swarms.len() > 1 {
        let earlier = swarms.drop_last();
        law_counts_are_sessions(root_of, earlier);
        assert(earlier.last() == swarms[swarms.len() - 2]);
        lemma_goes_on(root_of, earlier.last(), swarms.last());
    }
}

/// A download starts without sessions and without counts.
pub proof fn law_start_is_counted(meta: Metainfo, piece_counts: Seq<u32>, seeding: bool)
    ensures
        (Swarm {
            sessions: seq![],
            ctx: CtxView::start(meta, piece_counts, seeding),
        }).counted(),
{
}

/// Once every session has ended, no piece is counted, whatever went on before.
pub proof fn law_all_left_nothing_counted<F: Fn(&[[u8; 32]]) -> [u8; 32]>(
    root_of: F,
    swarms: Seq<Swarm>,
    fi: int,
    pi: int,
)
    requires
        interleaved(root_of, swarms),
        swarms[0].counted(),
        swarms.last().sessions.len() == 0,
        swarms.last().ctx.has_piece(fi, pi),
    ensures
        swarms.last().ctx.schedulers[fi].availability[pi] == 0,
{
    law_counts_are_sessions(root_of, swarms);
}

/// The counts that the sessions other than session `i` make up.
spec fn others(a: Swarm, i: int) -> Seq<Seq<nat>> {
    Seq::new(
        a.ctx.schedulers.len(),
        |fi: int|
            Seq::new(
                a.ctx.schedulers[fi].num_pieces as nat,
                |pi: int| peers_with(a.bits(fi).remove(i), pi),
            ),
    )
}

/// Of each session it holds that its peer is counted once, on top of the others.
proof fn lemma_on_top_of_others(a: Swarm, i: int)
    requires
        a.valid(),
        a.counted(),
        0 <= i < a.sessions.len(),
    ensures
        counted_in_all(others(a, i), a.at(i)),
{
    let base = others(a, i);
    assert(a.at(i).valid());
    assert forall|fi: int|
        #![trigger a.ctx.schedulers[fi]]
        0 <= fi < base.len() implies counted_once(
        base[fi],
        a.sessions[i].bits(a.ctx, fi),
        a.ctx.schedulers[fi].availability,
    ) by {
        let counts = a.ctx.schedulers[fi].availability;
        assert(a.ctx.schedulers[fi].wf());
        assert forall|pi: int|
            #![trigger counts[pi]]
            0 <= pi < base[fi].len() implies counts[pi] == base[fi][pi] + (if a.sessions[i].bits(
            a.ctx,
            fi,
        )[pi] {
            1nat
        } else {
            0nat
        }) by {
            assert(a.ctx.has_piece(fi, pi));
            lemma_peers_without(a.bits(fi), i, pi);
        }
    }
}

/// Where session `i` alone changed and its peer is still counted once on top of the others, the
/// counts are those of all sessions.
proof fn lemma_back_to_all(a: Swarm, b: Swarm, i: int)
    requires
        a.valid(),
        b.valid(),
        0 <= i < a.sessions.len(),
        b.sessions == a.sessions.update(i, b.sessions[i]),
        counted_in_all(others(a, i), b.at(i)),
    ensures
        b.counted(),
{
    let base = others(a, i);
    assert forall|fi: int, pi: int|
        #![trigger b.ctx.schedulers[fi].availability[pi]]
        b.ctx.has_piece(fi, pi) implies b.ctx.schedulers[fi].availability[pi] == b.sessions_with(
        fi,
        pi,
    ) by {
        assert(b.at(i).ctx.schedulers[fi] == b.ctx.schedulers[fi]);
        assert(counted_once(
            base[fi],
            b.sessions[i].bits(b.ctx, fi),
            b.ctx.schedulers[fi].availability,
        ));
        assert(a.ctx.schedulers[fi].wf() && b.ctx.schedulers[fi].wf());
        assert(b.bits(fi).remove(i) =~= a.bits(fi).remove(i));
        lemma_peers_without(b.bits(fi), i, pi);
    }
}

/// One thing that happens keeps the counts those of the sessions.
proof fn lemma_goes_on<F: Fn(&[[u8; 32]]) -> [u8; 32]>(root_of: F, a: Swarm, b: Swarm)
    requires
        a.valid(),
        b.valid(),
        a.counted(),
        goes_on(root_of, a, b),
    ensures
        b.counted(),
{
    if joins(a, b) {
        lemma_joins(a, b);
    } else if exists|i: int| #[trigger] leaves(a, b, i) {
        let i = choose|i: int| #[trigger] leaves(a, b, i);
        lemma_leaves(a, b, i);
    } else if exists|i: int| #[trigger] acts(root_of, a, b, i) {
        let i = choose|i: int| #[trigger] acts(root_of, a, b, i);
        lemma_on_top_of_others(a, i);
        assert(a.at(i).valid());
        if moves(root_of, a.at(i), b.at(i)) {
            lemma_move_counts(root_of, others(a, i), a.at(i), b.at(i));
        } else {
            lemma_same_counts(others(a, i), a.at(i), b.at(i));
        }
        lemma_back_to_all(a, b, i);
    } else {
        assert forall|fi: int, pi: int|
            #![trigger b.ctx.schedulers[fi].availability[pi]]
            b.ctx.has_piece(fi, pi) implies b.ctx.schedulers[fi].availability[pi]
            == b.sessions_with(fi, pi) by {
            assert(a.ctx.has_piece(fi, pi));
            assert(a.ctx.schedulers[fi].availability[pi] == a.sessions_with(fi, pi));
            assert(b.bits(fi) =~= a.bits(fi));
        }
    }
}

proof fn lemma_joins(a: Swarm, b: Swarm)
    requires
        b.valid(),
        a.counted(),
        joins(a, b),
    ensures
        b.counted(),
{
    let last = b.sessions.len() - 1;
    assert(b.at(last).valid());
    assert forall|fi: int, pi: int|
        #![trigger b.ctx.schedulers[fi].availability[pi]]
        b.ctx.has_piece(fi, pi) implies b.ctx.schedulers[fi].availability[pi] == b.sessions_with(
        fi,
        pi,
    ) by {
        assert(a.ctx.schedulers[fi].availability[pi] == a.sessions_with(fi, pi));
        assert(b.bits(fi).drop_last() =~= a.bits(fi));
        assert(b.sessions.last().peer_avail[fi] is Unknown);
        assert(!has_bit(b.bits(fi).last(), pi));
    }
}

proof fn lemma_leaves(a: Swarm, b: Swarm, i: int)
    requires
        a.valid(),
        a.counted(),
        leaves(a, b, i),
    ensures
        b.counted(),
{
    lemma_on_top_of_others(a, i);
    let base = others(a, i);
    assert forall|fi: int, pi: int|
        #![trigger b.ctx.schedulers[fi].availability[pi]]
        b.ctx.has_piece(fi, pi) implies b.ctx.schedulers[fi].availability[pi] == b.sessions_with(
        fi,
        pi,
    ) by {
        assert(a.at(i).ctx.schedulers[fi] == a.ctx.schedulers[fi]);
        law_leaving_restores_counts(
            base[fi],
            a.sessions[i].bits(a.ctx, fi),
            a.ctx.schedulers[fi].availability,
            pi,
        );
        assert(b.bits(fi) =~= a.bits(fi).remove(i));
    }
}

} // verus!
