//! Block scheduling within one file.
//!
//! A block is the atomic unit of a request; a piece is a group of blocks and the unit of
//! verification. The scheduler hands out, in this order:
//!
//! 1. pending blocks, those of the rarest piece first;
//! 2. blocks in flight on fewer than the typical number of streams, for redundancy;
//! 3. blocks in flight on fewer than the maximal number of streams, when nothing better is left.

pub mod availability;
pub mod blocks;
pub mod effects;
pub mod laws;
pub mod pick;
pub mod types;

pub use types::{BlockState, BlockTask, Priority, StreamsPerBlock, BLOCK_SIZE};

use vstd::prelude::*;

verus! {

/// Number of blocks in a piece of `len` bytes; the last one may be short.
pub open spec fn blocks_in(len: u32) -> nat {
    ((len + BLOCK_SIZE - 1) / BLOCK_SIZE as int) as nat
}

/// Length of piece `pi` out of `num_pieces`: only the last one may differ from `piece_length`.
pub open spec fn piece_len_at(
    num_pieces: nat,
    piece_length: u32,
    last_piece_len: u32,
    pi: int,
) -> u32 {
    if pi + 1 == num_pieces {
        last_piece_len
    } else {
        piece_length
    }
}

/// Download scheduler for the blocks of one file.
pub struct BlockScheduler {
    pub fi: usize,
    pub piece_length: u32,
    pub last_piece_len: u32,
    pub num_pieces: usize,
    pub priority: Priority,
    /// State per block: `block_state[pi][bi]`.
    pub block_state: Vec<Vec<BlockState>>,
    /// SHA-256 digest of every block received: `block_hashes[pi][bi]`.
    pub block_hashes: Vec<Vec<Option<[u8; 32]>>>,
    /// Pieces downloaded in full and verified.
    pub piece_done: Vec<bool>,
    /// Pieces under verification, so that none is verified twice.
    pub piece_verifying: Vec<bool>,
    /// How many peers have each piece.
    pub availability: Vec<u32>,
}

/// What a [`BlockScheduler`] holds, as mathematical values.
#[verifier::ext_equal]
pub struct SchedulerView {
    pub fi: usize,
    pub piece_length: u32,
    pub last_piece_len: u32,
    pub num_pieces: usize,
    pub priority: Priority,
    pub block_state: Seq<Seq<BlockState>>,
    pub block_hashes: Seq<Seq<Option<[u8; 32]>>>,
    pub piece_done: Seq<bool>,
    pub piece_verifying: Seq<bool>,
    pub availability: Seq<u32>,
}

impl View for BlockScheduler {
    type V = SchedulerView;

    open spec fn view(&self) -> SchedulerView {
        SchedulerView {
            fi: self.fi,
            piece_length: self.piece_length,
            last_piece_len: self.last_piece_len,
            num_pieces: self.num_pieces,
            priority: self.priority,
            block_state: self.block_state@.map_values(|row: Vec<BlockState>| row@),
            block_hashes: self.block_hashes@.map_values(|row: Vec<Option<[u8; 32]>>| row@),
            piece_done: self.piece_done@,
            piece_verifying: self.piece_verifying@,
            availability: self.availability@,
        }
    }
}

impl SchedulerView {
    /// Length in bytes of piece `pi`.
    pub open spec fn piece_len(self, pi: int) -> u32 {
        piece_len_at(self.num_pieces as nat, self.piece_length, self.last_piece_len, pi)
    }

    /// Number of blocks of piece `pi`.
    pub open spec fn num_blocks(self, pi: int) -> nat {
        blocks_in(self.piece_len(pi))
    }

    /// `(pi, bi)` names a block of the file.
    pub open spec fn has_block(self, pi: int, bi: int) -> bool {
        0 <= pi < self.num_pieces && 0 <= bi < self.num_blocks(pi)
    }

    /// Every block of piece `pi` has arrived.
    pub open spec fn all_blocks_done(self, pi: int) -> bool {
        forall|bi: int|
            #![trigger self.block_state[pi][bi]]
            0 <= bi < self.num_blocks(pi) ==> self.block_state[pi][bi] is Done
    }

    /// The tables have the shape that the file asks for.
    pub open spec fn shaped(self) -> bool {
        &&& self.block_state.len() == self.num_pieces
        &&& self.block_hashes.len() == self.num_pieces
        &&& self.piece_done.len() == self.num_pieces
        &&& self.piece_verifying.len() == self.num_pieces
        &&& self.availability.len() == self.num_pieces
        &&& forall|pi: int|
            #![trigger self.block_state[pi]]
            0 <= pi < self.num_pieces ==> self.block_state[pi].len() == self.num_blocks(pi)
        &&& forall|pi: int|
            #![trigger self.block_hashes[pi]]
            0 <= pi < self.num_pieces ==> self.block_hashes[pi].len() == self.num_blocks(pi)
    }

    /// The tables agree with each other: a block in flight has a stream; only a block that has
    /// arrived has a digest, and it lacks one only in a piece that is verified already; a piece is
    /// verified or under verification, never both, only when all its blocks have arrived.
    pub open spec fn consistent(self) -> bool {
        &&& forall|pi: int, bi: int|
            #![trigger self.block_state[pi][bi]]
            self.has_block(pi, bi) ==> self.block_state[pi][bi] != BlockState::InFlight(0)
        &&& forall|pi: int, bi: int|
            #![trigger self.block_hashes[pi][bi]]
            self.has_block(pi, bi) && self.block_hashes[pi][bi] is Some
                ==> self.block_state[pi][bi] is Done
        &&& forall|pi: int, bi: int|
            #![trigger self.block_hashes[pi][bi]]
            self.has_block(pi, bi) && self.block_state[pi][bi] is Done && !self.piece_done[pi]
                ==> self.block_hashes[pi][bi] is Some
        &&& forall|pi: int|
            #![trigger self.piece_done[pi]]
            0 <= pi < self.num_pieces && self.piece_done[pi] ==> self.all_blocks_done(pi)
                && !self.piece_verifying[pi]
        &&& forall|pi: int|
            #![trigger self.piece_verifying[pi]]
            0 <= pi < self.num_pieces && self.piece_verifying[pi] ==> self.all_blocks_done(pi)
    }

    pub open spec fn wf(self) -> bool {
        self.shaped() && self.consistent()
    }

    /// The state in which the download of a file starts: nothing requested, nobody known.
    pub open spec fn fresh(
        fi: usize,
        num_pieces: usize,
        piece_length: u32,
        last_piece_len: u32,
    ) -> SchedulerView {
        let len_at = |pi: int|
            piece_len_at(num_pieces as nat, piece_length, last_piece_len, pi);
        SchedulerView {
            fi,
            piece_length,
            last_piece_len,
            num_pieces,
            priority: Priority::Normal,
            block_state: Seq::new(
                num_pieces as nat,
                |pi: int| Seq::new(blocks_in(len_at(pi)), |bi: int| BlockState::Pending),
            ),
            block_hashes: Seq::new(
                num_pieces as nat,
                |pi: int| Seq::new(blocks_in(len_at(pi)), |bi: int| None),
            ),
            piece_done: Seq::new(num_pieces as nat, |pi: int| false),
            piece_verifying: Seq::new(num_pieces as nat, |pi: int| false),
            availability: Seq::new(num_pieces as nat, |pi: int| 0u32),
        }
    }
}

/// Number of blocks in a piece of `len` bytes.
fn count_blocks(len: u32) -> (n: usize)
    ensures
        n == blocks_in(len),
{
    let whole: u32 = len / BLOCK_SIZE;
    if len % BLOCK_SIZE == 0 {
        whole as usize
    } else {
        whole as usize + 1
    }
}

impl BlockScheduler {
    /// See [`SchedulerView::wf`].
    pub open spec fn wf(&self) -> bool {
        self@.wf()
    }

    /// Creates the scheduler of file `fi`, at normal priority.
    ///
    /// `piece_length` is a multiple of [`BLOCK_SIZE`]; `last_piece_len` is the real length of the
    /// last piece.
    pub fn new(fi: usize, num_pieces: usize, piece_length: u32, last_piece_len: u32) -> (s: Self)
        requires
            piece_length % BLOCK_SIZE == 0 || num_pieces == 0,
        ensures
            s.wf(),
            s@ == SchedulerView::fresh(fi, num_pieces, piece_length, last_piece_len),
    {
        let mut block_state: Vec<Vec<BlockState>> = Vec::new();
        let mut block_hashes: Vec<Vec<Option<[u8; 32]>>> = Vec::new();
        let ghost target = SchedulerView::fresh(fi, num_pieces, piece_length, last_piece_len);
        let mut pi: usize = 0;
        while pi < num_pieces
            invariant
                pi <= num_pieces,
                target == SchedulerView::fresh(fi, num_pieces, piece_length, last_piece_len),
                block_state.len() == pi,
                block_hashes.len() == pi,
                forall|p: int| 0 <= p < pi ==> (#[trigger] block_state@[p])@ == target.block_state[p],
                forall|p: int|
                    0 <= p < pi ==> (#[trigger] block_hashes@[p])@ == target.block_hashes[p],
            decreases num_pieces - pi,
        {
            let len: u32 = if pi + 1 == num_pieces {
                last_piece_len
            } else {
                piece_length
            };
            let nb: usize = count_blocks(len);
            let states: Vec<BlockState> = vec![BlockState::Pending; nb];
            let hashes: Vec<Option<[u8; 32]>> = vec![None; nb];
            assert(states@ =~= target.block_state[pi as int]);
            assert(hashes@ =~= target.block_hashes[pi as int]);
            block_state.push(states);
            block_hashes.push(hashes);
            pi = pi + 1;
        }
        let s = BlockScheduler {
            fi,
            piece_length,
            last_piece_len,
            num_pieces,
            priority: Priority::Normal,
            block_state,
            block_hashes,
            piece_done: vec![false; num_pieces],
            piece_verifying: vec![false; num_pieces],
            availability: vec![0u32; num_pieces],
        };
        assert(s@ =~= target);
        s
    }
}

} // verus!
