use super::{BlockScheduler, BlockState, Priority, SchedulerView};

use vstd::prelude::*;

verus! {

/// `table` with the entry in row `i`, column `j` replaced.
pub open spec fn put<T>(table: Seq<Seq<T>>, i: int, j: int, value: T) -> Seq<Seq<T>> {
    table.update(i, table[i].update(j, value))
}

/// `row` with every entry replaced.
pub open spec fn fill<T>(row: Seq<T>, value: T) -> Seq<T> {
    Seq::new(row.len(), |j: int| value)
}

/// How many blocks of a piece are pending.
pub open spec fn pending_in(row: Seq<BlockState>) -> nat
    decreases row.len(),
{
    if row.len() == 0 {
        0
    } else {
        pending_in(row.drop_last()) + (if row.last() is Pending {
            1nat
        } else {
            0nat
        })
    }
}

/// How many blocks of a file are pending.
pub open spec fn pending_over(rows: Seq<Seq<BlockState>>) -> nat
    decreases rows.len(),
{
    if rows.len() == 0 {
        0
    } else {
        pending_over(rows.drop_last()) + pending_in(rows.last())
    }
}

/// The least count, or zero when there is none.
pub open spec fn least(counts: Seq<u32>) -> u32
    decreases counts.len(),
{
    if counts.len() == 0 {
        0
    } else if counts.len() == 1 || counts.last() < least(counts.drop_last()) {
        counts.last()
    } else {
        least(counts.drop_last())
    }
}

/// What is pending in the first pieces is no more than what is pending in all.
proof fn lemma_pending_prefix(rows: Seq<Seq<BlockState>>, n: int)
    requires
        0 <= n <= rows.len(),
    ensures
        pending_over(rows.take(n)) <= pending_over(rows),
    decreases rows.len() - n,
{
    if n == rows.len() {
        assert(rows.take(n) =~= rows);
    } else {
        lemma_pending_prefix(rows, n + 1);
        assert(rows.take(n + 1).drop_last() =~= rows.take(n));
    }
}

/// What is pending in the first blocks of a piece is no more than what is pending in all.
proof fn lemma_pending_row_prefix(row: Seq<BlockState>, n: int)
    requires
        0 <= n <= row.len(),
    ensures
        pending_in(row.take(n)) <= pending_in(row),
    decreases row.len() - n,
{
    if n == row.len() {
        assert(row.take(n) =~= row);
    } else {
        lemma_pending_row_prefix(row, n + 1);
        assert(row.take(n + 1).drop_last() =~= row.take(n));
    }
}

impl SchedulerView {
    /// Block `(pi, bi)` has arrived with digest `hash`. When that completes the piece, the piece
    /// goes under verification. A block that arrives once more changes nothing.
    pub open spec fn block_done(self, pi: int, bi: int, hash: [u8; 32]) -> SchedulerView {
        if self.block_state[pi][bi] is Done {
            self
        } else {
            SchedulerView {
                block_state: put(self.block_state, pi, bi, BlockState::Done),
                block_hashes: put(self.block_hashes, pi, bi, Some(hash)),
                piece_verifying: if self.completes_piece(pi, bi) {
                    self.piece_verifying.update(pi, true)
                } else {
                    self.piece_verifying
                },
                ..self
            }
        }
    }

    /// Block `(pi, bi)` is the only one of its piece that has not arrived.
    pub open spec fn completes_piece(self, pi: int, bi: int) -> bool {
        &&& !(self.block_state[pi][bi] is Done)
        &&& forall|b: int|
            #![trigger self.block_state[pi][b]]
            0 <= b < self.num_blocks(pi) && b != bi ==> self.block_state[pi][b] is Done
    }

    /// A stream gave up on block `(pi, bi)`: it is in flight on one stream less, and pending when
    /// that was the last one.
    pub open spec fn block_failed(self, pi: int, bi: int) -> SchedulerView {
        match self.block_state[pi][bi] {
            BlockState::InFlight(n) => SchedulerView {
                block_state: put(
                    self.block_state,
                    pi,
                    bi,
                    if n > 1 {
                        BlockState::InFlight((n - 1) as u32)
                    } else {
                        BlockState::Pending
                    },
                ),
                ..self
            },
            _ => self,
        }
    }

    /// Piece `pi` is verified: all its blocks count as arrived.
    pub open spec fn piece_verified(self, pi: int) -> SchedulerView {
        SchedulerView {
            block_state: self.block_state.update(
                pi,
                fill(self.block_state[pi], BlockState::Done),
            ),
            piece_done: self.piece_done.update(pi, true),
            piece_verifying: self.piece_verifying.update(pi, false),
            ..self
        }
    }

    /// Verification of piece `pi` failed: all its blocks are pending again, without digests.
    pub open spec fn piece_hash_failed(self, pi: int) -> SchedulerView {
        SchedulerView {
            block_state: self.block_state.update(
                pi,
                fill(self.block_state[pi], BlockState::Pending),
            ),
            block_hashes: self.block_hashes.update(pi, fill(self.block_hashes[pi], None)),
            piece_done: self.piece_done.update(pi, false),
            piece_verifying: self.piece_verifying.update(pi, false),
            ..self
        }
    }

    /// The digest of every block of piece `pi` is known.
    pub open spec fn hashes_known(self, pi: int) -> bool {
        forall|bi: int|
            #![trigger self.block_hashes[pi][bi]]
            0 <= bi < self.num_blocks(pi) ==> self.block_hashes[pi][bi] is Some
    }

    /// The digests of the blocks of piece `pi`, in order.
    pub open spec fn hashes_of(self, pi: int) -> Seq<[u8; 32]> {
        self.block_hashes[pi].map_values(|h: Option<[u8; 32]>| h->0)
    }

    /// Every piece is verified.
    pub open spec fn complete(self) -> bool {
        forall|pi: int|
            #![trigger self.piece_done[pi]]
            0 <= pi < self.num_pieces ==> self.piece_done[pi]
    }
}

impl BlockScheduler {
    /// Number of pieces of the file.
    pub fn num_pieces(&self) -> (n: usize)
        ensures
            n == self@.num_pieces,
    {
        self.num_pieces
    }

    /// The user's priority for the file.
    pub fn priority(&self) -> (p: Priority)
        ensures
            p == self@.priority,
    {
        self.priority
    }

    /// Sets the user's priority for the file.
    pub fn set_priority(&mut self, priority: Priority)
        requires
            old(self).wf(),
        ensures
            final(self).wf(),
            final(self)@ == (SchedulerView { priority, ..old(self)@ }),
    {
        self.priority = priority;
    }

    /// Whether `(pi, bi)` names a block of the file.
    pub fn has_block(&self, pi: u32, bi: u32) -> (r: bool)
        requires
            self.wf(),
        ensures
            r == self@.has_block(pi as int, bi as int),
    {
        assert((pi as int) < self.num_pieces ==> self@.block_state[pi as int].len()
            == self@.num_blocks(pi as int));
        (pi as usize) < self.num_pieces && (bi as usize) < self.block_state[pi as usize].len()
    }

    /// How many peers have the rarest piece; zero for a file without pieces.
    pub fn min_availability(&self) -> (m: u32)
        requires
            self.wf(),
        ensures
            m == least(self@.availability),
            forall|pi: int|
                0 <= pi < self.num_pieces ==> m <= #[trigger] self@.availability[pi],
            self.num_pieces > 0 ==> self@.availability.contains(m),
            self.num_pieces == 0 ==> m == 0,
    {
        if self.num_pieces == 0 {
            return 0;
        }
        let mut m: u32 = self.availability[0];
        let mut i: usize = 1;
        assert(self@.availability.take(1) =~= seq![self@.availability[0]]);
        while i < self.num_pieces
            invariant
                self.wf(),
                1 <= i <= self.num_pieces,
                m == least(self@.availability.take(i as int)),
                forall|p: int| 0 <= p < i ==> m <= #[trigger] self@.availability[p],
                exists|p: int| 0 <= p < i && m == #[trigger] self@.availability[p],
            decreases self.num_pieces - i,
        {
            assert(self@.availability.take(i + 1).drop_last() =~= self@.availability.take(i as int));
            if self.availability[i] < m {
                m = self.availability[i];
            }
            i = i + 1;
        }
        assert(self@.availability.take(i as int) =~= self@.availability);
        m
    }

    /// How many blocks of the file are pending.
    pub fn pending_blocks(&self) -> (n: u32)
        requires
            self.wf(),
            pending_over(self@.block_state) <= u32::MAX,
        ensures
            n == pending_over(self@.block_state),
    {
        match self.add_pending(0) {
            Some(n) => n,
            None => {
                assert(false);
                0
            },
        }
    }

    /// `n` more by as many blocks as are pending, unless that is too much for a `u32`.
    pub fn add_pending(&self, n: u32) -> (r: Option<u32>)
        requires
            self.wf(),
        ensures
            r == (if n + pending_over(self@.block_state) <= u32::MAX {
                Some((n + pending_over(self@.block_state)) as u32)
            } else {
                None
            }),
    {
        let mut sum: u32 = n;
        let mut pi: usize = 0;
        while pi < self.num_pieces
            invariant
                self.wf(),
                pi <= self.num_pieces,
                sum == n + pending_over(self@.block_state.take(pi as int)),
            decreases self.num_pieces - pi,
        {
            let ghost rows = self@.block_state;
            let ghost row = self@.block_state[pi as int];
            let ghost base = sum;
            proof {
                lemma_pending_prefix(rows, pi + 1);
                assert(rows.take(pi + 1).drop_last() =~= rows.take(pi as int));
            }
            let mut bi: usize = 0;
            while bi < self.block_state[pi].len()
                invariant
                    self.wf(),
                    pi < self.num_pieces,
                    row == self@.block_state[pi as int],
                    bi <= row.len(),
                    base + pending_in(row) <= n + pending_over(self@.block_state),
                    sum == base + pending_in(row.take(bi as int)),
                decreases row.len() - bi,
            {
                proof {
                    lemma_pending_row_prefix(row, bi + 1);
                    assert(row.take(bi + 1).drop_last() =~= row.take(bi as int));
                }
                match self.block_state[pi][bi] {
                    BlockState::Pending => {
                        if sum == u32::MAX {
                            return None;
                        }
                        sum = sum + 1;
                    },
                    _ => {},
                }
                bi = bi + 1;
            }
            assert(row.take(bi as int) =~= row);
            pi = pi + 1;
        }
        assert(self@.block_state.take(pi as int) =~= self@.block_state);
        Some(sum)
    }

    /// Whether every piece is verified.
    pub fn is_complete(&self) -> (r: bool)
        requires
            self.wf(),
        ensures
            r == self@.complete(),
    {
        let mut pi: usize = 0;
        while pi < self.num_pieces
            invariant
                self.wf(),
                pi <= self.num_pieces,
                forall|p: int| 0 <= p < pi ==> #[trigger] self@.piece_done[p],
            decreases self.num_pieces - pi,
        {
            if !self.piece_done[pi] {
                assert(!self@.piece_done[pi as int]);
                return false;
            }
            pi = pi + 1;
        }
        true
    }

    /// The digests of the blocks of piece `pi`, once all of them are known.
    pub fn piece_block_hashes(&self, pi: u32) -> (r: Option<Vec<[u8; 32]>>)
        requires
            self.wf(),
            pi < self.num_pieces,
        ensures
            r is Some <==> self@.hashes_known(pi as int),
            r matches Some(v) ==> v@ == self@.hashes_of(pi as int),
    {
        let p: usize = pi as usize;
        let mut hashes: Vec<[u8; 32]> = Vec::new();
        let ghost row = self@.block_hashes[pi as int];
        let mut bi: usize = 0;
        while bi < self.block_hashes[p].len()
            invariant
                self.wf(),
                p == pi,
                p < self.num_pieces,
                row == self@.block_hashes[pi as int],
                bi <= row.len(),
                hashes.len() == bi,
                forall|b: int| 0 <= b < bi ==> #[trigger] row[b] is Some,
                forall|b: int| 0 <= b < bi ==> #[trigger] hashes@[b] == row[b]->0,
            decreases row.len() - bi,
        {
            match self.block_hashes[p][bi] {
                Some(h) => {
                    hashes.push(h);
                },
                None => {
                    assert(self@.block_hashes[pi as int][bi as int] is None);
                    return None;
                },
            }
            bi = bi + 1;
        }
        assert(hashes@ =~= self@.hashes_of(pi as int));
        Some(hashes)
    }

    /// Records that block `(pi, bi)` has arrived with digest `hash`. Returns whether the piece is
    /// now complete and due for verification, which happens once per download of the piece.
    pub fn mark_block_done(&mut self, pi: u32, bi: u32, hash: [u8; 32]) -> (ready: bool)
        requires
            old(self).wf(),
            old(self)@.has_block(pi as int, bi as int),
        ensures
            final(self).wf(),
            final(self)@ == old(self)@.block_done(pi as int, bi as int, hash),
            ready == old(self)@.completes_piece(pi as int, bi as int),
    {
        let p: usize = pi as usize;
        let b: usize = bi as usize;
        let ghost before = self@;
        assert(before.block_state[pi as int].len() == before.num_blocks(pi as int));
        assert(before.block_hashes[pi as int].len() == before.num_blocks(pi as int));
        match self.block_state[p][b] {
            BlockState::Done => {
                return false;
            },
            _ => {},
        }
        self.block_state[p][b] = BlockState::Done;
        self.block_hashes[p][b] = Some(hash);
        proof {
            assert(self@.block_state =~= put(before.block_state, p as int, b as int, BlockState::Done));
            assert(self@.block_hashes =~= put(before.block_hashes, p as int, b as int, Some(hash)));
        }
        let ready: bool = self.all_done(p);
        assert(ready == before.completes_piece(p as int, b as int)) by {
            assert forall|x: int|
                #![trigger before.block_state[p as int][x]]
                0 <= x < before.num_blocks(p as int) && x != b implies
                before.block_state[p as int][x] == self@.block_state[p as int][x] by {}
            assert forall|x: int|
                #![trigger self@.block_state[p as int][x]]
                0 <= x < before.num_blocks(p as int) && x != b implies
                before.block_state[p as int][x] == self@.block_state[p as int][x] by {}
        }
        if ready {
            self.piece_verifying[p] = true;
        }
        proof {
            assert(self@ =~= before.block_done(p as int, b as int, hash));
            before.lemma_block_done_wf(p as int, b as int, hash);
        }
        ready
    }

    /// Whether every block of piece `p` has arrived.
    fn all_done(&self, p: usize) -> (r: bool)
        requires
            p < self.num_pieces,
            self@.shaped(),
        ensures
            r == self@.all_blocks_done(p as int),
    {
        let ghost row = self@.block_state[p as int];
        let mut bi: usize = 0;
        while bi < self.block_state[p].len()
            invariant
                self@.shaped(),
                p < self.num_pieces,
                row == self@.block_state[p as int],
                bi <= row.len(),
                forall|b: int| 0 <= b < bi ==> #[trigger] row[b] is Done,
            decreases row.len() - bi,
        {
            match self.block_state[p][bi] {
                BlockState::Done => {},
                _ => {
                    assert(!(self@.block_state[p as int][bi as int] is Done));
                    return false;
                },
            }
            bi = bi + 1;
        }
        true
    }

    /// Whether block `(pi, bi)` is the only one of its piece that has not arrived.
    pub fn completes_piece(&self, pi: u32, bi: u32) -> (r: bool)
        requires
            self.wf(),
            self@.has_block(pi as int, bi as int),
        ensures
            r == self@.completes_piece(pi as int, bi as int),
    {
        let p: usize = pi as usize;
        let b: usize = bi as usize;
        let ghost row = self@.block_state[pi as int];
        assert(row.len() == self@.num_blocks(pi as int));
        match self.block_state[p][b] {
            BlockState::Done => {
                return false;
            },
            _ => {},
        }
        let mut i: usize = 0;
        while i < self.block_state[p].len()
            invariant
                self.wf(),
                p == pi,
                b == bi,
                p < self.num_pieces,
                row == self@.block_state[pi as int],
                row.len() == self@.num_blocks(pi as int),
                i <= row.len(),
                forall|x: int| 0 <= x < i && x != b ==> (#[trigger] row[x]) is Done,
            decreases row.len() - i,
        {
            if i != b {
                match self.block_state[p][i] {
                    BlockState::Done => {},
                    _ => {
                        assert(!(self@.block_state[pi as int][i as int] is Done));
                        return false;
                    },
                }
            }
            i = i + 1;
        }
        true
    }

    /// Records that a stream gave up on block `(pi, bi)`.
    pub fn mark_block_failed(&mut self, pi: u32, bi: u32)
        requires
            old(self).wf(),
            old(self)@.has_block(pi as int, bi as int),
        ensures
            final(self).wf(),
            final(self)@ == old(self)@.block_failed(pi as int, bi as int),
    {
        let p: usize = pi as usize;
        let b: usize = bi as usize;
        let ghost before = self@;
        assert(before.block_state[pi as int].len() == before.num_blocks(pi as int));
        match self.block_state[p][b] {
            BlockState::InFlight(n) => {
                if n > 1 {
                    self.block_state[p][b] = BlockState::InFlight(n - 1);
                } else {
                    self.block_state[p][b] = BlockState::Pending;
                }
            },
            _ => {},
        }
        proof {
            assert(self@ =~= before.block_failed(p as int, b as int));
            before.lemma_block_failed_wf(p as int, b as int);
        }
    }

    /// Records that piece `pi` is verified.
    pub fn mark_piece_verified(&mut self, pi: u32)
        requires
            old(self).wf(),
            pi < old(self).num_pieces,
        ensures
            final(self).wf(),
            final(self)@ == old(self)@.piece_verified(pi as int),
    {
        let p: usize = pi as usize;
        let ghost before = self@;
        let nb: usize = self.block_state[p].len();
        let row: Vec<BlockState> = vec![BlockState::Done; nb];
        assert(row@ =~= fill(before.block_state[p as int], BlockState::Done));
        self.block_state[p] = row;
        self.piece_done[p] = true;
        self.piece_verifying[p] = false;
        proof {
            assert(self@ =~= before.piece_verified(p as int));
            before.lemma_piece_verified_wf(p as int);
        }
    }

    /// Records that the verification of piece `pi` failed: it is to be downloaded again.
    pub fn mark_piece_hash_failed(&mut self, pi: u32)
        requires
            old(self).wf(),
            pi < old(self).num_pieces,
        ensures
            final(self).wf(),
            final(self)@ == old(self)@.piece_hash_failed(pi as int),
    {
        let p: usize = pi as usize;
        let ghost before = self@;
        let nb: usize = self.block_state[p].len();
        let nh: usize = self.block_hashes[p].len();
        let row: Vec<BlockState> = vec![BlockState::Pending; nb];
        let hashes: Vec<Option<[u8; 32]>> = vec![None; nh];
        assert(row@ =~= fill(before.block_state[p as int], BlockState::Pending));
        assert(hashes@ =~= fill(before.block_hashes[p as int], None));
        self.block_state[p] = row;
        self.block_hashes[p] = hashes;
        self.piece_done[p] = false;
        self.piece_verifying[p] = false;
        proof {
            assert(self@ =~= before.piece_hash_failed(p as int));
            before.lemma_piece_hash_failed_wf(p as int);
        }
    }
}

impl SchedulerView {
    /// The arrival of a block keeps the invariant.
    pub proof fn lemma_block_done_wf(self, pi: int, bi: int, hash: [u8; 32])
        requires
            self.wf(),
            self.has_block(pi, bi),
        ensures
            self.block_done(pi, bi, hash).wf(),
    {
        let after = self.block_done(pi, bi, hash);
        if !(self.block_state[pi][bi] is Done) {
            assert(self.block_state[pi].len() == self.num_blocks(pi));
            assert(self.block_hashes[pi].len() == self.num_blocks(pi));
            assert forall|p: int|
                #![trigger after.block_state[p]]
                0 <= p < after.num_pieces implies after.block_state[p].len()
                == after.num_blocks(p) by {
                assert(self.block_state[p].len() == self.num_blocks(p));
            }
            assert forall|p: int|
                #![trigger after.block_hashes[p]]
                0 <= p < after.num_pieces implies after.block_hashes[p].len()
                == after.num_blocks(p) by {
                assert(self.block_hashes[p].len() == self.num_blocks(p));
            }
            assert forall|p: int, b: int|
                #![trigger after.block_state[p][b]]
                after.has_block(p, b) implies after.block_state[p][b] != BlockState::InFlight(0) by {
                if p != pi || b != bi {
                    assert(after.block_state[p][b] == self.block_state[p][b]);
                }
            }
            assert forall|p: int, b: int|
                #![trigger after.block_hashes[p][b]]
                after.has_block(p, b) && after.block_hashes[p][b] is Some implies
                after.block_state[p][b] is Done by {
                if p != pi || b != bi {
                    assert(after.block_hashes[p][b] == self.block_hashes[p][b]);
                    assert(after.block_state[p][b] == self.block_state[p][b]);
                }
            }
            assert forall|p: int|
                #![trigger after.piece_done[p]]
                0 <= p < after.num_pieces && after.piece_done[p] implies after.all_blocks_done(p)
                && !after.piece_verifying[p] by {
                assert(self.piece_done[p]);
                assert(self.all_blocks_done(p));
                assert(p != pi);
                assert(after.block_state[p] == self.block_state[p]);
            }
            assert forall|p: int|
                #![trigger after.piece_verifying[p]]
                0 <= p < after.num_pieces && after.piece_verifying[p] implies after.all_blocks_done(
                p,
            ) by {
                if p == pi {
                    assert(!self.piece_verifying[p]) by {
                        if self.piece_verifying[p] {
                            assert(self.all_blocks_done(p));
                        }
                    }
                    assert(self.completes_piece(pi, bi));
                    assert forall|b: int|
                        #![trigger after.block_state[p][b]]
                        0 <= b < after.num_blocks(p) implies after.block_state[p][b] is Done by {
                        if b != bi {
                            assert(after.block_state[p][b] == self.block_state[p][b]);
                        }
                    }
                } else {
                    assert(self.piece_verifying[p]);
                    assert(self.all_blocks_done(p));
                    assert(after.block_state[p] == self.block_state[p]);
                }
            }
        }
    }

    /// A piece that a block completes is not verified before.
    pub proof fn lemma_completed(self, pi: int, bi: int)
        requires
            self.wf(),
            self.has_block(pi, bi),
            self.completes_piece(pi, bi),
        ensures
            !self.piece_done[pi],
    {
        if self.piece_done[pi] {
            assert(self.all_blocks_done(pi));
        }
    }

    proof fn lemma_block_failed_wf(self, pi: int, bi: int)
        requires
            self.wf(),
            self.has_block(pi, bi),
        ensures
            self.block_failed(pi, bi).wf(),
    {
        let after = self.block_failed(pi, bi);
        if self.block_state[pi][bi] is InFlight {
            self.lemma_state_change_wf(pi, bi, after.block_state[pi][bi]);
            assert(self.block_state[pi].len() == self.num_blocks(pi));
            assert(after =~= SchedulerView {
                block_state: put(self.block_state, pi, bi, after.block_state[pi][bi]),
                ..self
            });
        }
    }

    /// Moving a block that has not arrived to another state short of arrival keeps the invariant.
    pub proof fn lemma_state_change_wf(self, pi: int, bi: int, state: BlockState)
        requires
            self.wf(),
            self.has_block(pi, bi),
            !(self.block_state[pi][bi] is Done),
            !(state is Done),
            state != BlockState::InFlight(0),
        ensures
            (SchedulerView { block_state: put(self.block_state, pi, bi, state), ..self }).wf(),
    {
        let after = SchedulerView { block_state: put(self.block_state, pi, bi, state), ..self };
        assert(self.block_state[pi].len() == self.num_blocks(pi));
        assert forall|p: int|
            #![trigger after.block_state[p]]
            0 <= p < after.num_pieces implies after.block_state[p].len() == after.num_blocks(p) by {
            assert(self.block_state[p].len() == self.num_blocks(p));
        }
        assert forall|p: int|
            #![trigger after.block_hashes[p]]
            0 <= p < after.num_pieces implies after.block_hashes[p].len() == after.num_blocks(p) by {
            assert(self.block_hashes[p].len() == self.num_blocks(p));
        }
        assert forall|p: int, b: int|
            #![trigger after.block_state[p][b]]
            after.has_block(p, b) implies after.block_state[p][b] != BlockState::InFlight(0) by {
            if p != pi || b != bi {
                assert(after.block_state[p][b] == self.block_state[p][b]);
            }
        }
        assert forall|p: int, b: int|
            #![trigger after.block_hashes[p][b]]
            after.has_block(p, b) && after.block_hashes[p][b] is Some implies
            after.block_state[p][b] is Done by {
            assert(self.block_hashes[p][b] is Some);
            assert(self.block_state[p][b] is Done);
            assert(after.block_state[p][b] == self.block_state[p][b]);
        }
        assert forall|p: int|
            #![trigger after.piece_done[p]]
            0 <= p < after.num_pieces && after.piece_done[p] implies after.all_blocks_done(p)
            && !after.piece_verifying[p] by {
            assert(self.piece_done[p]);
            assert(self.all_blocks_done(p));
            assert(p != pi);
            assert(after.block_state[p] == self.block_state[p]);
        }
        assert forall|p: int|
            #![trigger after.piece_verifying[p]]
            0 <= p < after.num_pieces && after.piece_verifying[p] implies after.all_blocks_done(p) by {
            assert(self.piece_verifying[p]);
            assert(self.all_blocks_done(p));
            assert(p != pi);
            assert(after.block_state[p] == self.block_state[p]);
        }
    }

    proof fn lemma_piece_verified_wf(self, pi: int)
        requires
            self.wf(),
            0 <= pi < self.num_pieces,
        ensures
            self.piece_verified(pi).wf(),
    {
        let after = self.piece_verified(pi);
        assert(after.block_hashes =~= self.block_hashes.update(pi, after.block_hashes[pi]));
        self.lemma_row_change(after, pi);
        assert(self.block_state[pi].len() == self.num_blocks(pi));
    }

    proof fn lemma_piece_hash_failed_wf(self, pi: int)
        requires
            self.wf(),
            0 <= pi < self.num_pieces,
        ensures
            self.piece_hash_failed(pi).wf(),
    {
        let after = self.piece_hash_failed(pi);
        self.lemma_row_change(after, pi);
        assert(self.block_state[pi].len() == self.num_blocks(pi));
        assert(self.block_hashes[pi].len() == self.num_blocks(pi));
    }

    /// Where only the row of piece `pi` changes, the invariant of the other rows carries over.
    proof fn lemma_row_change(self, after: SchedulerView, pi: int)
        requires
            self.wf(),
            0 <= pi < self.num_pieces,
            after.num_pieces == self.num_pieces,
            after.piece_length == self.piece_length,
            after.last_piece_len == self.last_piece_len,
            after.block_state == self.block_state.update(pi, after.block_state[pi]),
            after.block_hashes == self.block_hashes.update(pi, after.block_hashes[pi]),
            after.piece_done == self.piece_done.update(pi, after.piece_done[pi]),
            after.piece_verifying == self.piece_verifying.update(pi, after.piece_verifying[pi]),
        ensures
            forall|p: int|
                #![trigger after.block_state[p]]
                0 <= p < after.num_pieces && p != pi ==> after.block_state[p].len()
                    == after.num_blocks(p),
            forall|p: int|
                #![trigger after.block_hashes[p]]
                0 <= p < after.num_pieces && p != pi ==> after.block_hashes[p].len()
                    == after.num_blocks(p),
            forall|p: int, b: int|
                #![trigger after.block_state[p][b]]
                after.has_block(p, b) && p != pi ==> after.block_state[p][b]
                    != BlockState::InFlight(0),
            forall|p: int, b: int|
                #![trigger after.block_hashes[p][b]]
                after.has_block(p, b) && p != pi && after.block_hashes[p][b] is Some
                    ==> after.block_state[p][b] is Done,
            forall|p: int|
                #![trigger after.piece_done[p]]
                0 <= p < after.num_pieces && p != pi && after.piece_done[p]
                    ==> after.all_blocks_done(p) && !after.piece_verifying[p],
            forall|p: int|
                #![trigger after.piece_verifying[p]]
                0 <= p < after.num_pieces && p != pi && after.piece_verifying[p]
                    ==> after.all_blocks_done(p),
    {
        assert forall|p: int| 0 <= p < after.num_pieces && p != pi implies {
            &&& #[trigger] after.block_state[p] == self.block_state[p]
            &&& after.block_hashes[p] == self.block_hashes[p]
            &&& after.piece_done[p] == self.piece_done[p]
            &&& after.piece_verifying[p] == self.piece_verifying[p]
            &&& after.num_blocks(p) == self.num_blocks(p)
        } by {}
        assert forall|p: int|
            #![trigger after.block_hashes[p]]
            0 <= p < after.num_pieces && p != pi implies after.block_hashes[p].len()
            == after.num_blocks(p) by {
            assert(after.block_state[p] == self.block_state[p]);
        }
        assert forall|p: int, b: int|
            #![trigger after.block_hashes[p][b]]
            after.has_block(p, b) && p != pi && after.block_hashes[p][b] is Some implies
            after.block_state[p][b] is Done by {
            assert(after.block_state[p] == self.block_state[p]);
            assert(self.block_hashes[p][b] is Some);
        }
        assert forall|p: int|
            #![trigger after.piece_done[p]]
            0 <= p < after.num_pieces && p != pi && after.piece_done[p] implies
            after.all_blocks_done(p) && !after.piece_verifying[p] by {
            assert(after.block_state[p] == self.block_state[p]);
            assert(self.piece_done[p]);
            assert(self.all_blocks_done(p));
        }
        assert forall|p: int|
            #![trigger after.piece_verifying[p]]
            0 <= p < after.num_pieces && p != pi && after.piece_verifying[p] implies
            after.all_blocks_done(p) by {
            assert(after.block_state[p] == self.block_state[p]);
            assert(self.piece_verifying[p]);
            assert(self.all_blocks_done(p));
        }
    }
}

} // verus!
