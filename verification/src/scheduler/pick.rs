use super::availability::has_bit;
use super::blocks::put;
use super::effects::{law_block_in_flight_is_handed_out, law_pending_block_is_handed_out};
use super::{BlockScheduler, BlockState, BlockTask, SchedulerView, StreamsPerBlock};

use vstd::prelude::*;

verus! {

/// The kind of block that is looked for.
#[derive(Clone, Copy, Debug, PartialEq, Eq, Structural)]
pub enum Want {
    /// A block that nobody is fetching.
    Pending,
    /// A block in flight on fewer streams than that.
    InFlightBelow(u32),
}

impl Want {
    pub open spec fn accepts(self, state: BlockState) -> bool {
        match self {
            Want::Pending => state is Pending,
            Want::InFlightBelow(limit) => state is InFlight && state->InFlight_0 < limit,
        }
    }

    fn check(self, state: BlockState) -> (r: bool)
        ensures
            r == self.accepts(state),
    {
        match (self, state) {
            (Want::Pending, BlockState::Pending) => true,
            (Want::InFlightBelow(limit), BlockState::InFlight(n)) => n < limit,
            _ => false,
        }
    }
}

impl SchedulerView {
    /// Block `(pi, bi)` is of the wanted kind and the peer with bitfield `bits` has its piece.
    pub open spec fn eligible(self, bits: Seq<bool>, want: Want, pi: int, bi: int) -> bool {
        self.has_block(pi, bi) && has_bit(bits, pi) && want.accepts(self.block_state[pi][bi])
    }

    /// The rarer piece goes first; within a rarity the earlier piece, within a piece the earlier
    /// block.
    pub open spec fn no_later(self, p1: int, b1: int, p2: int, b2: int) -> bool {
        ||| self.availability[p1] < self.availability[p2]
        ||| self.availability[p1] == self.availability[p2] && p1 < p2
        ||| p1 == p2 && b1 <= b2
    }

    /// Block `(pi, bi)` is eligible and goes before every other eligible block.
    pub open spec fn is_first(self, bits: Seq<bool>, want: Want, pi: int, bi: int) -> bool {
        &&& self.eligible(bits, want, pi, bi)
        &&& forall|p: int, b: int|
            #![trigger self.eligible(bits, want, p, b)]
            self.eligible(bits, want, p, b) ==> self.no_later(pi, bi, p, b)
    }

    /// The eligible block that goes first, if any is eligible.
    pub open spec fn choice(self, bits: Seq<bool>, want: Want) -> Option<(int, int)> {
        if exists|pi: int, bi: int| self.is_first(bits, want, pi, bi) {
            Some(choose|c: (int, int)| self.is_first(bits, want, c.0, c.1))
        } else {
            None
        }
    }

    /// The block that one more stream is to fetch: a pending one, else one below the typical
    /// number of streams, else one below the maximal number.
    pub open spec fn any_choice(self, bits: Seq<bool>, limits: StreamsPerBlock) -> Option<
        (int, int),
    > {
        match self.choice(bits, Want::Pending) {
            Some(c) => Some(c),
            None => match self.choice(bits, Want::InFlightBelow(limits.typical)) {
                Some(c) => Some(c),
                None => self.choice(bits, Want::InFlightBelow(limits.max)),
            },
        }
    }

    /// The task that fetches block `c`.
    pub open spec fn task_for(self, c: (int, int)) -> BlockTask {
        BlockTask { fi: self.fi, pi: c.0 as u32, bi: c.1 as u32 }
    }

    /// One more stream fetches block `c`.
    pub open spec fn stream_added(self, c: (int, int)) -> SchedulerView {
        SchedulerView {
            block_state: put(
                self.block_state,
                c.0,
                c.1,
                match self.block_state[c.0][c.1] {
                    BlockState::Pending => BlockState::InFlight(1),
                    BlockState::InFlight(n) => BlockState::InFlight((n + 1) as u32),
                    BlockState::Done => BlockState::Done,
                },
            ),
            ..self
        }
    }

    /// The task for choice `c`, if a choice was made.
    pub open spec fn task_of(self, c: Option<(int, int)>) -> Option<BlockTask> {
        match c {
            Some(c) => Some(self.task_for(c)),
            None => None,
        }
    }

    /// The state after choice `c`: unchanged unless a choice was made.
    pub open spec fn after_choice(self, c: Option<(int, int)>) -> SchedulerView {
        match c {
            Some(c) => self.stream_added(c),
            None => self,
        }
    }

    /// At most one block goes first.
    proof fn lemma_first_is_choice(self, bits: Seq<bool>, want: Want, pi: int, bi: int)
        requires
            self.is_first(bits, want, pi, bi),
        ensures
            self.choice(bits, want) == Some((pi, bi)),
    {
        let c = choose|c: (int, int)| self.is_first(bits, want, c.0, c.1);
        assert(self.is_first(bits, want, (pi, bi).0, (pi, bi).1));
        assert(self.eligible(bits, want, c.0, c.1));
        assert(self.eligible(bits, want, pi, bi));
        assert(c == (pi, bi));
    }

    /// A block is chosen exactly when one is eligible, and the one chosen goes first.
    pub proof fn lemma_choice(self, bits: Seq<bool>, want: Want)
        ensures
            self.choice(bits, want) is None <==> forall|p: int, b: int|
                !#[trigger] self.eligible(bits, want, p, b),
            self.choice(bits, want) matches Some(c) ==> self.is_first(bits, want, c.0, c.1),
    {
        if exists|p: int, b: int| #[trigger] self.eligible(bits, want, p, b) {
            let (p, b) = choose|p: int, b: int| #[trigger] self.eligible(bits, want, p, b);
            let (x, y) = self.lemma_first_exists(bits, want, self.num_pieces as int, p, b);
            assert(self.is_first(bits, want, x, y));
            self.lemma_first_is_choice(bits, want, x, y);
        } else {
            if exists|pi: int, bi: int| self.is_first(bits, want, pi, bi) {
                let (pi, bi) = choose|pi: int, bi: int| self.is_first(bits, want, pi, bi);
                assert(self.eligible(bits, want, pi, bi));
            }
        }
    }

    /// Block `(pi, bi)` goes first among the eligible blocks of the first `n` pieces.
    spec fn is_first_below(
        self,
        bits: Seq<bool>,
        want: Want,
        n: int,
        pi: int,
        bi: int,
    ) -> bool {
        &&& self.eligible(bits, want, pi, bi)
        &&& forall|p: int, b: int|
            #![trigger self.eligible(bits, want, p, b)]
            p < n && self.eligible(bits, want, p, b) ==> self.no_later(pi, bi, p, b)
    }

    /// Among the eligible blocks of the first `n` pieces one goes first.
    proof fn lemma_first_exists(
        self,
        bits: Seq<bool>,
        want: Want,
        n: int,
        p: int,
        b: int,
    ) -> (c: (int, int))
        requires
            p < n,
            self.eligible(bits, want, p, b),
        ensures
            c.0 < n,
            self.is_first_below(bits, want, n, c.0, c.1),
        decreases n,
    {
        let last = n - 1;
        if exists|q: int, d: int| q < last && #[trigger] self.eligible(bits, want, q, d) {
            let (q, d) = choose|q: int, d: int|
                q < last && #[trigger] self.eligible(bits, want, q, d);
            let (x, y) = self.lemma_first_exists(bits, want, last, q, d);
            if exists|e: int| #[trigger] self.eligible(bits, want, last, e) {
                let e = choose|e: int| #[trigger] self.eligible(bits, want, last, e);
                let f = self.lemma_first_in_piece(bits, want, last, e);
                if self.availability[last] < self.availability[x] {
                    (last, f)
                } else {
                    (x, y)
                }
            } else {
                (x, y)
            }
        } else {
            assert(p == last);
            (last, self.lemma_first_in_piece(bits, want, last, b))
        }
    }

    /// Among the eligible blocks of a piece there is an earliest.
    proof fn lemma_first_in_piece(self, bits: Seq<bool>, want: Want, pi: int, bi: int) -> (f: int)
        requires
            self.eligible(bits, want, pi, bi),
        ensures
            self.eligible(bits, want, pi, f),
            forall|b: int|
                #![trigger self.eligible(bits, want, pi, b)]
                self.eligible(bits, want, pi, b) ==> f <= b,
        decreases bi,
    {
        if exists|c: int| c < bi && #[trigger] self.eligible(bits, want, pi, c) {
            let c = choose|c: int| c < bi && #[trigger] self.eligible(bits, want, pi, c);
            self.lemma_first_in_piece(bits, want, pi, c)
        } else {
            bi
        }
    }

    /// Handing out a chosen block keeps the invariant.
    pub proof fn lemma_stream_added_wf(self, bits: Seq<bool>, want: Want, c: (int, int))
        requires
            self.wf(),
            self.eligible(bits, want, c.0, c.1),
        ensures
            self.stream_added(c).wf(),
    {
        let state = self.stream_added(c).block_state[c.0][c.1];
        assert(self.block_state[c.0].len() == self.num_blocks(c.0));
        self.lemma_state_change_wf(c.0, c.1, state);
        assert(self.stream_added(c) =~= SchedulerView {
            block_state: put(self.block_state, c.0, c.1, state),
            ..self
        });
    }
}

impl BlockScheduler {
    /// Finds the block that goes first among the wanted ones that the peer has.
    fn find(&self, bits: &[bool], want: Want) -> (r: Option<(usize, usize)>)
        requires
            self.wf(),
        ensures
            r is Some <==> self@.choice(bits@, want) is Some,
            r matches Some(c) ==> self@.choice(bits@, want) == Some((c.0 as int, c.1 as int))
                && self@.is_first(bits@, want, c.0 as int, c.1 as int),
    {
        let mut best: Option<(usize, usize)> = None;
        let mut pi: usize = 0;
        while pi < self.num_pieces && pi < bits.len()
            invariant
                self.wf(),
                pi <= self.num_pieces,
                pi <= bits.len(),
                best is None ==> forall|p: int, b: int|
                    p < pi ==> !#[trigger] self@.eligible(bits@, want, p, b),
                best matches Some(c) ==> c.0 < pi && self@.eligible(
                    bits@,
                    want,
                    c.0 as int,
                    c.1 as int,
                ),
                best matches Some(c) ==> forall|p: int, b: int|
                    #![trigger self@.eligible(bits@, want, p, b)]
                    p < pi && self@.eligible(bits@, want, p, b) ==> self@.no_later(
                        c.0 as int,
                        c.1 as int,
                        p,
                        b,
                    ),
            decreases self.num_pieces - pi,
        {
            if bits[pi] {
                let better: bool = match best {
                    None => true,
                    Some(c) => self.availability[pi] < self.availability[c.0],
                };
                if better {
                    match self.first_in(pi, want) {
                        Some(bi) => {
                            assert(has_bit(bits@, pi as int));
                            assert(self@.eligible(bits@, want, pi as int, bi as int));
                            best = Some((pi, bi));
                        },
                        None => {},
                    }
                }
            }
            pi = pi + 1;
        }
        proof {
            self@.lemma_choice(bits@, want);
            match best {
                Some(c) => {
                    assert(self@.is_first(bits@, want, c.0 as int, c.1 as int));
                    self@.lemma_first_is_choice(bits@, want, c.0 as int, c.1 as int);
                },
                None => {},
            }
        }
        best
    }

    /// The first wanted block of piece `pi`.
    fn first_in(&self, pi: usize, want: Want) -> (r: Option<usize>)
        requires
            self.wf(),
            pi < self.num_pieces,
        ensures
            r is None ==> forall|b: int|
                #![trigger self@.block_state[pi as int][b]]
                0 <= b < self@.num_blocks(pi as int) ==> !want.accepts(
                    self@.block_state[pi as int][b],
                ),
            r matches Some(bi) ==> bi < self@.num_blocks(pi as int) && want.accepts(
                self@.block_state[pi as int][bi as int],
            ),
            r matches Some(bi) ==> forall|b: int|
                #![trigger self@.block_state[pi as int][b]]
                0 <= b < bi ==> !want.accepts(self@.block_state[pi as int][b]),
    {
        let ghost row = self@.block_state[pi as int];
        assert(row.len() == self@.num_blocks(pi as int));
        let mut bi: usize = 0;
        while bi < self.block_state[pi].len()
            invariant
                self.wf(),
                pi < self.num_pieces,
                row == self@.block_state[pi as int],
                bi <= row.len(),
                forall|b: int| 0 <= b < bi ==> !want.accepts(#[trigger] row[b]),
            decreases row.len() - bi,
        {
            if want.check(self.block_state[pi][bi]) {
                return Some(bi);
            }
            bi = bi + 1;
        }
        None
    }

    /// Hands out block `(pi, bi)` to one more stream.
    fn hand_out(&mut self, pi: usize, bi: usize) -> (task: BlockTask)
        requires
            old(self).wf(),
            old(self)@.has_block(pi as int, bi as int),
            old(self)@.block_state[pi as int][bi as int] != BlockState::InFlight(u32::MAX),
        ensures
            task == old(self)@.task_for((pi as int, bi as int)),
            final(self)@ == old(self)@.stream_added((pi as int, bi as int)),
    {
        let ghost before = self@;
        assert(before.block_state[pi as int].len() == before.num_blocks(pi as int));
        let state: BlockState = match self.block_state[pi][bi] {
            BlockState::Pending => BlockState::InFlight(1),
            BlockState::InFlight(n) => BlockState::InFlight(n + 1),
            BlockState::Done => BlockState::Done,
        };
        self.block_state[pi][bi] = state;
        assert(self@ =~= before.stream_added((pi as int, bi as int)));
        BlockTask { fi: self.fi, pi: pi as u32, bi: bi as u32 }
    }

    /// Hands out a pending block that the peer has, one of the rarest piece first.
    pub fn schedule_pending(&mut self, bits: &[bool]) -> (task: Option<BlockTask>)
        requires
            old(self).wf(),
        ensures
            final(self).wf(),
            task == old(self)@.task_of(old(self)@.choice(bits@, Want::Pending)),
            final(self)@ == old(self)@.after_choice(old(self)@.choice(bits@, Want::Pending)),
            forall|pi: int, bi: int|
                #![trigger old(self)@.block_state[pi][bi]]
                0 <= pi < old(self)@.num_pieces && 0 <= bi < old(self)@.block_state[pi].len() && pi
                    < bits@.len() && bits@[pi] && old(self)@.block_state[pi][bi] is Pending
                    ==> task is Some,
    {
        let ghost s = self@;
        proof {
            assert forall|pi: int, bi: int|
                #![trigger s.block_state[pi][bi]]
                0 <= pi < s.num_pieces && 0 <= bi < s.block_state[pi].len() && pi < bits@.len()
                    && bits@[pi] && s.block_state[pi][bi] is Pending implies s.choice(
                bits@,
                Want::Pending,
            ) is Some by {
                law_pending_block_is_handed_out(
                    s,
                    bits@,
                    StreamsPerBlock { typical: 0, max: 0 },
                    pi,
                    bi,
                );
            }
        }
        self.schedule_wanted(bits, Want::Pending)
    }

    /// Hands out the first wanted block that the peer has.
    fn schedule_wanted(&mut self, bits: &[bool], want: Want) -> (task: Option<BlockTask>)
        requires
            old(self).wf(),
        ensures
            final(self).wf(),
            task == old(self)@.task_of(old(self)@.choice(bits@, want)),
            final(self)@ == old(self)@.after_choice(old(self)@.choice(bits@, want)),
    {
        match self.find(bits, want) {
            Some((pi, bi)) => {
                proof {
                    self@.lemma_stream_added_wf(bits@, want, (pi as int, bi as int));
                }
                Some(self.hand_out(pi, bi))
            },
            None => None,
        }
    }

    /// Hands out a block that the peer has: a pending one, else one below the typical number of
    /// streams, else one below the maximal number.
    pub fn schedule(&mut self, bits: &[bool], limits: StreamsPerBlock) -> (task: Option<BlockTask>)
        requires
            old(self).wf(),
        ensures
            final(self).wf(),
            task == old(self)@.task_of(old(self)@.any_choice(bits@, limits)),
            final(self)@ == old(self)@.after_choice(old(self)@.any_choice(bits@, limits)),
            forall|pi: int, bi: int|
                #![trigger old(self)@.block_state[pi][bi]]
                0 <= pi < old(self)@.num_pieces && 0 <= bi < old(self)@.block_state[pi].len() && pi
                    < bits@.len() && bits@[pi] && (match old(self)@.block_state[pi][bi] {
                    BlockState::Pending => true,
                    BlockState::InFlight(n) => n < limits.typical || n < limits.max,
                    BlockState::Done => false,
                }) ==> task is Some,
    {
        let ghost s = self@;
        proof {
            assert forall|pi: int, bi: int|
                #![trigger s.block_state[pi][bi]]
                0 <= pi < s.num_pieces && 0 <= bi < s.block_state[pi].len() && pi < bits@.len()
                    && bits@[pi] && (match s.block_state[pi][bi] {
                    BlockState::Pending => true,
                    BlockState::InFlight(n) => n < limits.typical || n < limits.max,
                    BlockState::Done => false,
                }) implies s.any_choice(bits@, limits) is Some by {
                if s.block_state[pi][bi] is Pending {
                    law_pending_block_is_handed_out(s, bits@, limits, pi, bi);
                } else {
                    law_block_in_flight_is_handed_out(s, bits@, limits, pi, bi);
                }
            }
        }
        let pending: Option<BlockTask> = self.schedule_wanted(bits, Want::Pending);
        if pending.is_some() {
            return pending;
        }
        let second: Option<BlockTask> = self.schedule_wanted(
            bits,
            Want::InFlightBelow(limits.typical),
        );
        if second.is_some() {
            return second;
        }
        self.schedule_wanted(bits, Want::InFlightBelow(limits.max))
    }
}

} // verus!
