//! The state of one active download, shared by all its peers.

use crate::meta::Metainfo;
use crate::scheduler::blocks::{fill, put};
use crate::scheduler::effects::{
    law_complete_file, law_known_digests, law_piece_fails, law_piece_is_verified, same_but_piece,
};
use crate::scheduler::{BlockScheduler, BlockState, Priority, SchedulerView, BLOCK_SIZE};
use crate::verify::same_digest;

use vstd::prelude::*;

verus! {

/// The state of one active download.
pub struct TorrentCtx {
    pub meta: Metainfo,
    /// One scheduler per file.
    pub schedulers: Vec<BlockScheduler>,
    /// `have[fi][pi]`: the piece is complete and verified, and announced to peers.
    pub have: Vec<Vec<bool>>,
    /// Bytes downloaded and verified.
    pub downloaded: u64,
    /// Peers connected at the moment.
    pub peer_count: usize,
}

/// What a [`TorrentCtx`] holds, as mathematical values.
#[verifier::ext_equal]
pub struct CtxView {
    pub meta: Metainfo,
    pub schedulers: Seq<SchedulerView>,
    pub have: Seq<Seq<bool>>,
    pub downloaded: u64,
    pub peer_count: usize,
}

impl View for TorrentCtx {
    type V = CtxView;

    open spec fn view(&self) -> CtxView {
        CtxView {
            meta: self.meta,
            schedulers: self.schedulers@.map_values(|s: BlockScheduler| s@),
            have: self.have@.map_values(|row: Vec<bool>| row@),
            downloaded: self.downloaded,
            peer_count: self.peer_count,
        }
    }
}

/// A scheduler of a file that is complete from the start.
pub open spec fn seeded(s: SchedulerView) -> SchedulerView {
    SchedulerView {
        block_state: Seq::new(
            s.block_state.len(),
            |pi: int| fill(s.block_state[pi], BlockState::Done),
        ),
        piece_done: fill(s.piece_done, true),
        ..s
    }
}

impl CtxView {
    /// The tables have an entry per file and per piece, every scheduler keeps its invariant, and
    /// pieces can be numbered by a `u32`.
    pub open spec fn wf(self) -> bool {
        &&& self.schedulers.len() == self.meta.files@.len()
        &&& self.have.len() == self.schedulers.len()
        &&& forall|fi: int|
            #![trigger self.schedulers[fi]]
            0 <= fi < self.schedulers.len() ==> {
                &&& self.schedulers[fi].wf()
                &&& self.schedulers[fi].fi == fi
                &&& self.schedulers[fi].num_pieces <= u32::MAX
                &&& self.have[fi].len() == self.schedulers[fi].num_pieces
            }
    }

    /// `(fi, pi)` names a piece.
    pub open spec fn has_piece(self, fi: int, pi: int) -> bool {
        0 <= fi < self.schedulers.len() && 0 <= pi < self.schedulers[fi].num_pieces
    }

    /// `(fi, pi, bi)` names a block.
    pub open spec fn has_block(self, fi: int, pi: int, bi: int) -> bool {
        0 <= fi < self.schedulers.len() && self.schedulers[fi].has_block(pi, bi)
    }

    /// The same files, pieces and blocks, whatever their state.
    pub open spec fn same_shape(self, other: CtxView) -> bool {
        &&& self.schedulers.len() == other.schedulers.len()
        &&& forall|fi: int|
            #![trigger self.schedulers[fi]]
            #![trigger other.schedulers[fi]]
            0 <= fi < self.schedulers.len() ==> {
                &&& self.schedulers[fi].num_pieces == other.schedulers[fi].num_pieces
                &&& self.schedulers[fi].piece_length == other.schedulers[fi].piece_length
                &&& self.schedulers[fi].last_piece_len == other.schedulers[fi].last_piece_len
            }
    }

    /// What is announced is what is verified.
    pub open spec fn in_step(self) -> bool {
        forall|fi: int, pi: int|
            #![trigger self.have[fi][pi]]
            self.has_piece(fi, pi) ==> self.have[fi][pi] == self.schedulers[fi].piece_done[pi]
    }

    /// The expected root of piece `pi` of file `fi`.
    pub open spec fn expected_root(self, fi: int, pi: int) -> [u8; 32] {
        self.meta.files@[fi].piece_hashes@[pi]
    }

    /// The torrent names an expected root for piece `pi` of file `fi`.
    pub open spec fn root_listed(self, fi: int, pi: int) -> bool {
        pi < self.meta.files@[fi].piece_hashes@.len()
    }

    /// File `fi` has scheduler `s`; the rest is as before.
    pub open spec fn with_scheduler(self, fi: int, s: SchedulerView) -> CtxView {
        CtxView { schedulers: self.schedulers.update(fi, s), ..self }
    }

    /// A stream gave up on a block of file `fi`.
    pub open spec fn block_failed(self, fi: int, pi: int, bi: int) -> CtxView {
        self.with_scheduler(fi, self.schedulers[fi].block_failed(pi, bi))
    }

    /// A block of file `fi` arrived with digest `hash`.
    pub open spec fn block_done(self, fi: int, pi: int, bi: int, hash: [u8; 32]) -> CtxView {
        self.with_scheduler(fi, self.schedulers[fi].block_done(pi, bi, hash))
    }

    /// Piece `pi` of file `fi` is accepted: announced, verified, and its bytes counted.
    pub open spec fn piece_accepted(self, fi: int, pi: int) -> CtxView {
        CtxView {
            have: put(self.have, fi, pi, true),
            schedulers: self.schedulers.update(fi, self.schedulers[fi].piece_verified(pi)),
            downloaded: self.downloaded.wrapping_add(
                self.meta.files@[fi].spec_piece_len(pi) as u64,
            ),
            ..self
        }
    }

    /// Piece `pi` of file `fi` is rejected and is to be downloaded again.
    pub open spec fn piece_rejected(self, fi: int, pi: int) -> CtxView {
        self.with_scheduler(fi, self.schedulers[fi].piece_hash_failed(pi))
    }

    /// Piece `pi` of file `fi` is judged by the root computed over its block digests.
    pub open spec fn piece_judged(self, fi: int, pi: int, root: [u8; 32]) -> CtxView {
        if root == self.expected_root(fi, pi) {
            self.piece_accepted(fi, pi)
        } else {
            self.piece_rejected(fi, pi)
        }
    }

    /// One peer more is connected.
    pub open spec fn peer_added(self) -> CtxView {
        CtxView { peer_count: self.peer_count.wrapping_add(1), ..self }
    }

    /// One peer less is connected.
    pub open spec fn peer_removed(self) -> CtxView {
        CtxView { peer_count: self.peer_count.wrapping_sub(1), ..self }
    }

    /// Every piece of every file is verified.
    pub open spec fn complete(self) -> bool {
        forall|fi: int|
            #![trigger self.schedulers[fi]]
            0 <= fi < self.schedulers.len() ==> self.schedulers[fi].complete()
    }

    /// The state in which a download starts: all pieces there when it only seeds, else none.
    pub open spec fn start(meta: Metainfo, piece_counts: Seq<u32>, seeding: bool) -> CtxView {
        CtxView {
            meta,
            schedulers: Seq::new(
                meta.files@.len(),
                |fi: int|
                    {
                        let fresh = SchedulerView::fresh(
                            fi as usize,
                            piece_counts[fi] as usize,
                            meta.files@[fi].piece_length,
                            meta.files@[fi].last_piece_length,
                        );
                        if seeding {
                            seeded(fresh)
                        } else {
                            fresh
                        }
                    },
            ),
            have: Seq::new(
                meta.files@.len(),
                |fi: int| Seq::new(piece_counts[fi] as nat, |pi: int| seeding),
            ),
            downloaded: 0,
            peer_count: 0,
        }
    }
}

impl TorrentCtx {
    /// See [`CtxView::wf`].
    pub open spec fn wf(&self) -> bool {
        self@.wf()
    }

    /// Starts a download of `meta`, whose file `fi` is stored as `piece_counts[fi]` pieces.
    pub fn new(meta: Metainfo, piece_counts: &[u32], seeding: bool) -> (ctx: Self)
        requires
            piece_counts@.len() == meta.files@.len(),
            forall|fi: int|
                #![trigger meta.files@[fi]]
                0 <= fi < meta.files@.len() ==> meta.files@[fi].piece_length % BLOCK_SIZE == 0
                    || piece_counts@[fi] == 0,
        ensures
            ctx.wf(),
            ctx@.in_step(),
            ctx@ == CtxView::start(meta, piece_counts@, seeding),
    {
        let mut schedulers: Vec<BlockScheduler> = Vec::new();
        let mut have: Vec<Vec<bool>> = Vec::new();
        let ghost target = CtxView::start(meta, piece_counts@, seeding);
        let mut fi: usize = 0;
        while fi < meta.files.len()
            invariant
                fi <= meta.files@.len(),
                piece_counts@.len() == meta.files@.len(),
                forall|fi: int|
                    #![trigger meta.files@[fi]]
                    0 <= fi < meta.files@.len() ==> meta.files@[fi].piece_length % BLOCK_SIZE == 0
                        || piece_counts@[fi] == 0,
                target == CtxView::start(meta, piece_counts@, seeding),
                schedulers.len() == fi,
                have.len() == fi,
                forall|f: int|
                    0 <= f < fi ==> (#[trigger] schedulers@[f])@ == target.schedulers[f]
                        && schedulers@[f]@.wf(),
                forall|f: int| 0 <= f < fi ==> (#[trigger] have@[f])@ == target.have[f],
            decreases meta.files@.len() - fi,
        {
            let num: usize = piece_counts[fi] as usize;
            let mut sched = BlockScheduler::new(
                fi,
                num,
                meta.files[fi].piece_length,
                meta.files[fi].last_piece_length,
            );
            if seeding {
                verify_all(&mut sched);
            }
            let row: Vec<bool> = vec![seeding; num];
            assert(row@ =~= target.have[fi as int]);
            assert(sched@ =~= target.schedulers[fi as int]);
            schedulers.push(sched);
            have.push(row);
            fi = fi + 1;
        }
        let ctx = TorrentCtx { meta, schedulers, have, downloaded: 0, peer_count: 0 };
        assert(ctx@ =~= target);
        assert forall|f: int|
            #![trigger ctx@.schedulers[f]]
            0 <= f < ctx@.schedulers.len() implies {
            &&& ctx@.schedulers[f].wf()
            &&& ctx@.schedulers[f].fi == f
            &&& ctx@.schedulers[f].num_pieces <= u32::MAX
            &&& ctx@.have[f].len() == ctx@.schedulers[f].num_pieces
        } by {
            assert(schedulers@[f]@ == target.schedulers[f]);
        }
        ctx
    }

    /// Whether `(fi, pi, bi)` names a block.
    pub fn has_block(&self, fi: usize, pi: u32, bi: u32) -> (r: bool)
        requires
            self.wf(),
        ensures
            r == self@.has_block(fi as int, pi as int, bi as int),
    {
        assert(fi < self.schedulers@.len() ==> self@.schedulers[fi as int].wf());
        fi < self.schedulers.len() && self.schedulers[fi].has_block(pi, bi)
    }

    /// Whether the torrent names an expected root for piece `pi` of file `fi`.
    pub fn root_listed(&self, fi: usize, pi: u32) -> (r: bool)
        requires
            self.wf(),
            fi < self.schedulers@.len(),
        ensures
            r == self@.root_listed(fi as int, pi as int),
    {
        (pi as usize) < self.meta.files[fi].piece_hashes.len()
    }

    /// The pieces of file `fi` that are complete and verified.
    pub fn our_bitfield(&self, fi: usize) -> (bits: Vec<bool>)
        requires
            self.wf(),
            fi < self.schedulers@.len(),
        ensures
            bits@ == self@.have[fi as int],
    {
        let bits: Vec<bool> = self.have[fi].clone();
        assert(bits@ =~= self@.have[fi as int]);
        bits
    }

    /// Whether every piece of every file is verified.
    pub fn is_complete(&self) -> (r: bool)
        requires
            self.wf(),
        ensures
            r == self@.complete(),
    {
        let mut fi: usize = 0;
        while fi < self.schedulers.len()
            invariant
                self.wf(),
                fi <= self.schedulers@.len(),
                forall|f: int| 0 <= f < fi ==> (#[trigger] self@.schedulers[f]).complete(),
            decreases self.schedulers@.len() - fi,
        {
            assert(self@.schedulers[fi as int].wf());
            if !self.schedulers[fi].is_complete() {
                return false;
            }
            fi = fi + 1;
        }
        true
    }

    /// Judges piece `pi` of file `fi` by `computed`, the root over its block digests: accepts it
    /// when that is the expected root, and else resets it. Returns whether it was accepted.
    pub fn judge_piece(&mut self, fi: usize, pi: u32, computed: [u8; 32]) -> (accepted: bool)
        requires
            old(self).wf(),
            old(self)@.has_piece(fi as int, pi as int),
            old(self)@.root_listed(fi as int, pi as int),
        ensures
            final(self).wf(),
            accepted == (computed == old(self)@.expected_root(fi as int, pi as int)),
            final(self)@ == old(self)@.piece_judged(fi as int, pi as int, computed),
    {
        let ghost before = self@;
        let p: usize = pi as usize;
        assert(before.schedulers[fi as int].wf());
        let piece_bytes: u64 = self.meta.files[fi].piece_len(pi) as u64;
        if same_digest(&computed, &self.meta.files[fi].piece_hashes[p]) {
            self.have[fi][p] = true;
            self.schedulers[fi].mark_piece_verified(pi);
            self.downloaded = self.downloaded.wrapping_add(piece_bytes);
            assert(self@.have =~= put(before.have, fi as int, p as int, true));
            assert(self@ =~= before.piece_accepted(fi as int, pi as int));
            true
        } else {
            self.schedulers[fi].mark_piece_hash_failed(pi);
            assert(self@ =~= before.piece_rejected(fi as int, pi as int));
            false
        }
    }

    /// Verifies piece `pi` of file `fi` by the root that `root_of` computes over the digests of
    /// its blocks, without reading the blocks again, and accepts or resets it. A piece with an
    /// unknown block digest is reset.
    ///
    /// This is for pieces that are not verified yet. A piece that was there from the start has no
    /// block digests: verifying it again resets it, while it stays announced (see
    /// [`law_verification_keeps_step`]).
    pub fn verify_and_complete<F: Fn(&[[u8; 32]]) -> [u8; 32]>(
        &mut self,
        fi: usize,
        pi: u32,
        root_of: &F,
    ) -> (accepted: bool)
        requires
            old(self).wf(),
            old(self)@.has_piece(fi as int, pi as int),
            old(self)@.schedulers[fi as int].hashes_known(pi as int) ==> old(self)@.root_listed(
                fi as int,
                pi as int,
            ),
            forall|hashes: &[[u8; 32]]|
                hashes@ == old(self)@.schedulers[fi as int].hashes_of(pi as int)
                    ==> #[trigger] call_requires(*root_of, (hashes,)),
        ensures
            final(self).wf(),
            old(self)@.verification_outcome(*root_of, fi as int, pi as int, accepted, final(self)@),
    {
        let ghost before = self@;
        assert(before.schedulers[fi as int].wf());
        match self.schedulers[fi].piece_block_hashes(pi) {
            None => {
                self.schedulers[fi].mark_piece_hash_failed(pi);
                assert(self@ =~= before.piece_rejected(fi as int, pi as int));
                false
            },
            Some(hashes) => {
                let computed: [u8; 32] = root_of(hashes.as_slice());
                self.judge_piece(fi, pi, computed)
            },
        }
    }

    /// Counts a peer that has connected.
    pub fn peer_connected(&mut self)
        requires
            old(self).wf(),
        ensures
            final(self).wf(),
            final(self)@ == (CtxView {
                peer_count: old(self).peer_count.wrapping_add(1),
                ..old(self)@
            }),
            final(self)@ == old(self)@.peer_added(),
    {
        self.peer_count = self.peer_count.wrapping_add(1);
    }

    /// Counts out a peer that has left.
    pub fn peer_disconnected(&mut self)
        requires
            old(self).wf(),
        ensures
            final(self).wf(),
            final(self)@ == (CtxView {
                peer_count: old(self).peer_count.wrapping_sub(1),
                ..old(self)@
            }),
            final(self)@ == old(self)@.peer_removed(),
    {
        self.peer_count = self.peer_count.wrapping_sub(1);
    }
}

impl CtxView {
    /// What verifying piece `pi` of file `fi` with `root_of` does: a piece with an unknown digest
    /// is rejected; any other is judged by a root that `root_of` gives for its digests.
    pub open spec fn verification_outcome<F: Fn(&[[u8; 32]]) -> [u8; 32]>(
        self,
        root_of: F,
        fi: int,
        pi: int,
        accepted: bool,
        after: CtxView,
    ) -> bool {
        if self.schedulers[fi].hashes_known(pi) {
            exists|hashes: &[[u8; 32]], root: [u8; 32]|
                {
                    &&& hashes@ == self.schedulers[fi].hashes_of(pi)
                    &&& #[trigger] call_ensures(root_of, (hashes,), root)
                    &&& accepted == (root == self.expected_root(fi, pi))
                    &&& after == self.piece_judged(fi, pi, root)
                }
        } else {
            !accepted && after == self.piece_rejected(fi, pi)
        }
    }
}

/// Marks every piece of a fresh scheduler as verified.
fn verify_all(sched: &mut BlockScheduler)
    requires
        old(sched).wf(),
        old(sched).num_pieces <= u32::MAX,
        forall|pi: int|
            #![trigger old(sched)@.piece_verifying[pi]]
            0 <= pi < old(sched).num_pieces ==> !old(sched)@.piece_verifying[pi],
    ensures
        final(sched).wf(),
        final(sched)@ == seeded(old(sched)@),
{
    let ghost before = sched@;
    let mut pi: usize = 0;
    while pi < sched.num_pieces
        invariant
            pi <= sched.num_pieces,
            sched.num_pieces <= u32::MAX,
            sched.wf(),
            before.wf(),
            forall|p: int|
                #![trigger before.piece_verifying[p]]
                0 <= p < before.num_pieces ==> !before.piece_verifying[p],
            sched@ == (SchedulerView {
                block_state: sched@.block_state,
                piece_done: sched@.piece_done,
                ..before
            }),
            forall|p: int|
                #![trigger sched@.block_state[p]]
                0 <= p < before.num_pieces ==> sched@.block_state[p] == (if p < pi {
                    fill(before.block_state[p], BlockState::Done)
                } else {
                    before.block_state[p]
                }),
            forall|p: int|
                #![trigger sched@.piece_done[p]]
                0 <= p < before.num_pieces ==> sched@.piece_done[p] == (if p < pi {
                    true
                } else {
                    before.piece_done[p]
                }),
        decreases sched.num_pieces - pi,
    {
        sched.mark_piece_verified(pi as u32);
        assert(!before.piece_verifying[pi as int]);
        assert(sched@.piece_verifying =~= before.piece_verifying);
        pi = pi + 1;
    }
    assert(sched@ =~= seeded(before));
}

/// A download that only seeds is complete from the start.
pub proof fn law_seeding_starts_complete(meta: Metainfo, piece_counts: Seq<u32>)
    ensures
        CtxView::start(meta, piece_counts, true).complete(),
{
}

/// At the start a piece is announced and verified exactly where the download only seeds, and no
/// peer is known to have it.
pub proof fn law_start(meta: Metainfo, piece_counts: Seq<u32>, seeding: bool, fi: int, pi: int)
    requires
        CtxView::start(meta, piece_counts, seeding).has_piece(fi, pi),
    ensures
        CtxView::start(meta, piece_counts, seeding).have[fi][pi] == seeding,
        CtxView::start(meta, piece_counts, seeding).schedulers[fi].piece_done[pi] == seeding,
        CtxView::start(meta, piece_counts, seeding).schedulers[fi].availability[pi] == 0,
{
}

/// A piece that is rejected is not announced and adds nothing to what is downloaded; one that is
/// accepted is announced, verified, and adds its length.
pub proof fn law_judgement(ctx: CtxView, fi: int, pi: int, root: [u8; 32])
    requires
        ctx.wf(),
        ctx.has_piece(fi, pi),
    ensures
        root != ctx.expected_root(fi, pi) ==> {
            &&& ctx.piece_judged(fi, pi, root).have == ctx.have
            &&& ctx.piece_judged(fi, pi, root).downloaded == ctx.downloaded
            &&& !ctx.piece_judged(fi, pi, root).schedulers[fi].piece_done[pi]
        },
        root == ctx.expected_root(fi, pi) ==> {
            &&& ctx.piece_judged(fi, pi, root).have[fi][pi]
            &&& ctx.piece_judged(fi, pi, root).schedulers[fi].piece_done[pi]
            &&& ctx.downloaded + ctx.meta.files@[fi].spec_piece_len(pi) <= u64::MAX
                ==> ctx.piece_judged(fi, pi, root).downloaded == ctx.downloaded
                + ctx.meta.files@[fi].spec_piece_len(pi)
        },
{
    assert(ctx.schedulers[fi].wf());
}

/// Judging a piece keeps what is announced in step with what is verified, with one exception: a
/// piece that was verified already and is now rejected stays announced.
pub proof fn law_judging_keeps_step(ctx: CtxView, fi: int, pi: int, root: [u8; 32])
    requires
        ctx.wf(),
        ctx.in_step(),
        ctx.has_piece(fi, pi),
    ensures
        ctx.piece_accepted(fi, pi).in_step(),
        ctx.piece_rejected(fi, pi).in_step() <==> !ctx.schedulers[fi].piece_done[pi],
        ctx.piece_judged(fi, pi, root).in_step() <==> root == ctx.expected_root(fi, pi)
            || !ctx.schedulers[fi].piece_done[pi],
{
    assert(ctx.schedulers[fi].wf());
    assert(ctx.have[fi][pi] == ctx.schedulers[fi].piece_done[pi]);
    let accepted = ctx.piece_accepted(fi, pi);
    assert forall|f: int, p: int|
        #![trigger accepted.have[f][p]]
        accepted.has_piece(f, p) implies accepted.have[f][p]
        == accepted.schedulers[f].piece_done[p] by {
        assert(ctx.has_piece(f, p));
        assert(ctx.have[f][p] == ctx.schedulers[f].piece_done[p]);
    }
    let rejected = ctx.piece_rejected(fi, pi);
    if ctx.schedulers[fi].piece_done[pi] {
        assert(rejected.has_piece(fi, pi));
        assert(rejected.have[fi][pi]);
    } else {
        assert forall|f: int, p: int|
            #![trigger rejected.have[f][p]]
            rejected.has_piece(f, p) implies rejected.have[f][p]
            == rejected.schedulers[f].piece_done[p] by {
            assert(ctx.has_piece(f, p));
            assert(ctx.have[f][p] == ctx.schedulers[f].piece_done[p]);
        }
    }
}

/// Verifying a piece keeps what is announced in step with what is verified, whatever comes of it,
/// with one exception: a piece that was verified already and is now rejected stays announced.
pub proof fn law_verification_keeps_step<F: Fn(&[[u8; 32]]) -> [u8; 32]>(
    ctx: CtxView,
    root_of: F,
    fi: int,
    pi: int,
    accepted: bool,
    after: CtxView,
)
    requires
        ctx.wf(),
        ctx.in_step(),
        ctx.has_piece(fi, pi),
        ctx.verification_outcome(root_of, fi, pi, accepted, after),
    ensures
        after.in_step() <==> accepted || !ctx.schedulers[fi].piece_done[pi],
{
    if ctx.schedulers[fi].hashes_known(pi) {
        let (hashes, root) = choose|hashes: &[[u8; 32]], root: [u8; 32]|
            {
                &&& hashes@ == ctx.schedulers[fi].hashes_of(pi)
                &&& #[trigger] call_ensures(root_of, (hashes,), root)
                &&& accepted == (root == ctx.expected_root(fi, pi))
                &&& after == ctx.piece_judged(fi, pi, root)
            };
        law_judging_keeps_step(ctx, fi, pi, root);
    } else {
        law_judging_keeps_step(ctx, fi, pi, ctx.expected_root(fi, pi));
    }
}

/// A download is complete exactly when every piece is announced.
pub proof fn law_complete_is_announced(ctx: CtxView)
    requires
        ctx.wf(),
        ctx.in_step(),
    ensures
        ctx.complete() <==> forall|fi: int, pi: int|
            #![trigger ctx.have[fi][pi]]
            ctx.has_piece(fi, pi) ==> ctx.have[fi][pi],
{
    if ctx.complete() {
        assert forall|fi: int, pi: int|
            #![trigger ctx.have[fi][pi]]
            ctx.has_piece(fi, pi) implies ctx.have[fi][pi] by {
            assert(ctx.schedulers[fi].complete());
        }
    }
    if forall|fi: int, pi: int|
        #![trigger ctx.have[fi][pi]]
        ctx.has_piece(fi, pi) ==> ctx.have[fi][pi] {
        assert forall|fi: int|
            #![trigger ctx.schedulers[fi]]
            0 <= fi < ctx.schedulers.len() implies ctx.schedulers[fi].complete() by {
            assert forall|pi: int|
                #![trigger ctx.schedulers[fi].piece_done[pi]]
                0 <= pi < ctx.schedulers[fi].num_pieces implies ctx.schedulers[fi].piece_done[pi] by {
                assert(ctx.has_piece(fi, pi));
                assert(ctx.have[fi][pi]);
            }
        }
    }
}

/// A peer that connects is one more, and one that leaves is one less, as long as the counter has
/// room; connecting and leaving again undo each other. Nothing else changes.
pub proof fn law_peer_count_returns(ctx: CtxView)
    ensures
        ctx.peer_added().peer_removed() == ctx,
        ctx.peer_removed().peer_added() == ctx,
        ctx.peer_count < usize::MAX ==> ctx.peer_added().peer_count == ctx.peer_count + 1,
        ctx.peer_count > 0 ==> ctx.peer_removed().peer_count == ctx.peer_count - 1,
        ctx.peer_added().schedulers == ctx.schedulers,
        ctx.peer_added().have == ctx.have,
        ctx.peer_added().downloaded == ctx.downloaded,
        ctx.peer_added().meta == ctx.meta,
{
}

/// Files, pieces, blocks and expected roots are found by their positions.
pub proof fn law_names(ctx: CtxView, fi: int, pi: int, bi: int)
    requires
        ctx.wf(),
    ensures
        ctx.has_piece(fi, pi) <==> 0 <= fi < ctx.have.len() && 0 <= pi < ctx.have[fi].len(),
        ctx.has_block(fi, pi, bi) <==> 0 <= fi < ctx.schedulers.len() && 0 <= pi
            < ctx.schedulers[fi].block_state.len() && 0 <= bi
            < ctx.schedulers[fi].block_state[pi].len(),
        ctx.root_listed(fi, pi) <==> pi < ctx.meta.files@[fi].piece_hashes@.len(),
        ctx.expected_root(fi, pi) == ctx.meta.files@[fi].piece_hashes@[pi],
{
    if 0 <= fi < ctx.schedulers.len() {
        assert(ctx.schedulers[fi].wf());
    }
}

/// A download starts with one scheduler per file, for as many pieces as are stored, whose blocks
/// are all there when it only seeds, and all pending otherwise.
pub proof fn law_start_of_each_block(
    meta: Metainfo,
    piece_counts: Seq<u32>,
    seeding: bool,
    fi: int,
    pi: int,
    bi: int,
)
    requires
        0 <= fi < meta.files@.len(),
        meta.files@.len() <= usize::MAX,
    ensures
        ({
            let ctx = CtxView::start(meta, piece_counts, seeding);
            let file = meta.files@[fi];
            let s = ctx.schedulers[fi];
            let len = if pi == piece_counts[fi] - 1 {
                file.last_piece_length
            } else {
                file.piece_length
            };
            &&& ctx.meta == meta
            &&& ctx.schedulers.len() == meta.files@.len()
            &&& ctx.have.len() == meta.files@.len()
            &&& ctx.downloaded == 0
            &&& ctx.peer_count == 0
            &&& s.fi == fi
            &&& s.num_pieces == piece_counts[fi]
            &&& s.piece_length == file.piece_length
            &&& s.last_piece_len == file.last_piece_length
            &&& s.priority == Priority::Normal
            &&& ctx.have[fi].len() == piece_counts[fi]
            &&& s.block_state.len() == piece_counts[fi]
            &&& 0 <= pi < piece_counts[fi] ==> {
                &&& s.block_state[pi].len() * 16384 >= len
                &&& s.block_state[pi].len() * 16384 < len + 16384
                &&& !s.piece_verifying[pi]
                &&& 0 <= bi < s.block_state[pi].len() ==> {
                    &&& s.block_hashes[pi][bi] is None
                    &&& seeding ==> s.block_state[pi][bi] is Done
                    &&& !seeding ==> s.block_state[pi][bi] is Pending
                }
            }
        }),
{
}

/// A download is complete exactly when no piece of any file is unverified.
pub proof fn law_complete_download(ctx: CtxView)
    requires
        ctx.wf(),
    ensures
        ctx.complete() <==> forall|fi: int|
            0 <= fi < ctx.schedulers.len() ==> !(#[trigger] ctx.schedulers[fi]).piece_done.contains(
                false,
            ),
{
    assert forall|fi: int| 0 <= fi < ctx.schedulers.len() implies (
    #[trigger] ctx.schedulers[fi]).complete() == !ctx.schedulers[fi].piece_done.contains(false) by {
        law_complete_file(ctx.schedulers[fi]);
    }
}

/// All files but file `fi` are as before, and so are the torrent and the number of peers.
pub open spec fn same_but_file(ctx: CtxView, after: CtxView, fi: int) -> bool {
    &&& after.meta == ctx.meta
    &&& after.peer_count == ctx.peer_count
    &&& after.schedulers.len() == ctx.schedulers.len()
    &&& after.have.len() == ctx.have.len()
    &&& forall|f: int|
        #![trigger after.schedulers[f]]
        #![trigger after.have[f]]
        0 <= f < ctx.schedulers.len() && f != fi ==> after.schedulers[f] == ctx.schedulers[f]
            && after.have[f] == ctx.have[f]
}

/// What happens to a block of a file happens to that file only, and neither announces anything nor
/// counts as downloaded.
pub proof fn law_blocks_change_their_file(
    ctx: CtxView,
    fi: int,
    pi: int,
    bi: int,
    hash: [u8; 32],
)
    requires
        ctx.wf(),
        0 <= fi < ctx.schedulers.len(),
    ensures
        same_but_file(ctx, ctx.block_done(fi, pi, bi, hash), fi),
        same_but_file(ctx, ctx.block_failed(fi, pi, bi), fi),
        ctx.block_done(fi, pi, bi, hash).have == ctx.have,
        ctx.block_failed(fi, pi, bi).have == ctx.have,
        ctx.block_done(fi, pi, bi, hash).downloaded == ctx.downloaded,
        ctx.block_failed(fi, pi, bi).downloaded == ctx.downloaded,
        ctx.block_done(fi, pi, bi, hash).schedulers[fi] == ctx.schedulers[fi].block_done(
            pi,
            bi,
            hash,
        ),
        ctx.block_failed(fi, pi, bi).schedulers[fi] == ctx.schedulers[fi].block_failed(pi, bi),
{
}

/// `after` is `ctx` with piece `pi` of file `fi` accepted: announced, verified, all its blocks
/// there, and its length added to what is downloaded, which wraps around.
pub open spec fn shows_accepted(ctx: CtxView, after: CtxView, fi: int, pi: int) -> bool {
    let file = ctx.meta.files@[fi];
    let len = if pi == file.piece_hashes@.len() - 1 {
        file.last_piece_length
    } else {
        file.piece_length
    };
    let s = after.schedulers[fi];
    &&& same_but_file(ctx, after, fi)
    &&& same_but_piece(ctx.schedulers[fi], s, pi)
    &&& after.downloaded == ctx.downloaded + len || after.downloaded == ctx.downloaded + len
        - 0x1_0000_0000_0000_0000
    &&& after.have[fi].len() == ctx.have[fi].len()
    &&& after.have[fi][pi]
    &&& forall|p: int|
        0 <= p < ctx.have[fi].len() && p != pi ==> #[trigger] after.have[fi][p] == ctx.have[fi][p]
    &&& s.piece_done[pi]
    &&& !s.piece_verifying[pi]
    &&& forall|b: int|
        0 <= b < s.block_state[pi].len() ==> #[trigger] s.block_state[pi][b] is Done
}

/// `after` is `ctx` with piece `pi` of file `fi` rejected: nothing announced, nothing downloaded,
/// and all its blocks to be fetched again.
pub open spec fn shows_rejected(ctx: CtxView, after: CtxView, fi: int, pi: int) -> bool {
    let s = after.schedulers[fi];
    &&& same_but_file(ctx, after, fi)
    &&& same_but_piece(ctx.schedulers[fi], s, pi)
    &&& after.downloaded == ctx.downloaded
    &&& after.have == ctx.have
    &&& !s.piece_done[pi]
    &&& !s.piece_verifying[pi]
    &&& forall|b: int|
        #![trigger s.block_state[pi][b]]
        #![trigger s.block_hashes[pi][b]]
        0 <= b < s.block_state[pi].len() ==> s.block_state[pi][b] is Pending
            && s.block_hashes[pi][b] is None
}

/// A piece whose root is the one that the torrent lists is accepted; one with any other root is
/// rejected.
pub proof fn law_listed_root_decides(ctx: CtxView, fi: int, pi: int, root: [u8; 32])
    requires
        ctx.wf(),
        0 <= fi < ctx.schedulers.len(),
        0 <= pi < ctx.schedulers[fi].num_pieces,
    ensures
        root == ctx.meta.files@[fi].piece_hashes@[pi] ==> shows_accepted(
            ctx,
            ctx.piece_judged(fi, pi, root),
            fi,
            pi,
        ),
        root != ctx.meta.files@[fi].piece_hashes@[pi] ==> shows_rejected(
            ctx,
            ctx.piece_judged(fi, pi, root),
            fi,
            pi,
        ),
        shows_rejected(ctx, ctx.piece_rejected(fi, pi), fi, pi),
{
    let s = ctx.schedulers[fi];
    assert(s.wf());
    law_piece_is_verified(s, pi);
    law_piece_fails(s, pi);
}

/// A piece is accepted exactly when the root over the digests of its blocks, all of them and in
/// their order, is the one that the torrent lists; else it is rejected. One with a digest missing
/// is rejected.
pub proof fn law_root_over_all_digests<F: Fn(&[[u8; 32]]) -> [u8; 32]>(
    ctx: CtxView,
    root_of: F,
    fi: int,
    pi: int,
    accepted: bool,
    after: CtxView,
)
    requires
        ctx.wf(),
        0 <= fi < ctx.schedulers.len(),
        0 <= pi < ctx.schedulers[fi].num_pieces,
        ctx.verification_outcome(root_of, fi, pi, accepted, after),
    ensures
        accepted ==> shows_accepted(ctx, after, fi, pi),
        !accepted ==> shows_rejected(ctx, after, fi, pi),
        ctx.schedulers[fi].block_hashes[pi].contains(None) ==> !accepted,
        !ctx.schedulers[fi].block_hashes[pi].contains(None) ==> exists|
            hashes: &[[u8; 32]],
            root: [u8; 32],
        |
            {
                &&& #[trigger] call_ensures(root_of, (hashes,), root)
                &&& hashes@.len() == ctx.schedulers[fi].block_hashes[pi].len()
                &&& forall|b: int|
                    0 <= b < hashes@.len() ==> Some(#[trigger] hashes@[b])
                        == ctx.schedulers[fi].block_hashes[pi][b]
                &&& accepted <==> root == ctx.meta.files@[fi].piece_hashes@[pi]
            },
{
    let s = ctx.schedulers[fi];
    assert(s.wf());
    law_known_digests(s, pi, 0);
    if s.hashes_known(pi) {
        let (hashes, root) = choose|hashes: &[[u8; 32]], root: [u8; 32]|
            {
                &&& hashes@ == s.hashes_of(pi)
                &&& #[trigger] call_ensures(root_of, (hashes,), root)
                &&& accepted == (root == ctx.expected_root(fi, pi))
                &&& after == ctx.piece_judged(fi, pi, root)
            };
        law_listed_root_decides(ctx, fi, pi, root);
        assert forall|b: int| 0 <= b < hashes@.len() implies Some(#[trigger] hashes@[b])
            == s.block_hashes[pi][b] by {
            law_known_digests(s, pi, b);
            if s.block_hashes[pi][b] is None {
                assert(s.block_hashes[pi].contains(None));
            }
        }
        assert(call_ensures(root_of, (hashes,), root));
    } else {
        law_listed_root_decides(ctx, fi, pi, ctx.expected_root(fi, pi));
    }
}

} // verus!
