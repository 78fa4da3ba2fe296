use vstd::prelude::*;

verus! {

/// Size in bytes of a block, the unit of one request on the wire: 16 KiB.
pub const BLOCK_SIZE: u32 = 16384;

/// Where a block is on its way from the peers.
#[derive(Clone, Copy, Debug, PartialEq, Eq, Structural)]
pub enum BlockState {
    /// Nobody is fetching it.
    Pending,
    /// It was handed out to that many streams that have not given it back. A stream whose session
    /// has ended gives nothing back.
    InFlight(u32),
    /// It has arrived.
    Done,
}

/// One block to fetch: file, piece within the file, block within the piece.
#[derive(Clone, Copy, Debug, PartialEq, Eq, Structural)]
pub struct BlockTask {
    pub fi: usize,
    pub pi: u32,
    pub bi: u32,
}

/// How much the user wants a file, from the least to the most.
#[derive(Clone, Copy, Debug, PartialEq, Eq, Structural)]
pub enum Priority {
    /// Anything under `Normal`; block selection does not tell those levels apart.
    Low,
    Normal,
    High,
    Higher,
    VeryHigh,
    Maximum,
}

impl Priority {
    /// Position of the level in the order of levels.
    pub open spec fn rank(self) -> int {
        match self {
            Priority::Low => 0,
            Priority::Normal => 1,
            Priority::High => 2,
            Priority::Higher => 3,
            Priority::VeryHigh => 4,
            Priority::Maximum => 5,
        }
    }

    /// Whether the level is `High` or more.
    pub fn at_least_high(self) -> (r: bool)
        ensures
            r == (self.rank() >= Priority::High.rank()),
            r == !(self is Low || self is Normal),
    {
        match self {
            Priority::Low => false,
            Priority::Normal => false,
            Priority::High => true,
            Priority::Higher => true,
            Priority::VeryHigh => true,
            Priority::Maximum => true,
        }
    }
}

/// How many streams may fetch one block at the same time.
#[derive(Clone, Copy, Debug, PartialEq, Eq, Structural)]
pub struct StreamsPerBlock {
    /// Below this many a block gets another stream for redundancy.
    pub typical: u32,
    /// Below this many a block gets another stream when nothing better is left.
    pub max: u32,
}

impl StreamsPerBlock {
    /// A block may have a stream, and the typical number is within the maximal one.
    pub open spec fn valid(self) -> bool {
        1 <= self.max && self.typical <= self.max
    }
}

} // verus!
