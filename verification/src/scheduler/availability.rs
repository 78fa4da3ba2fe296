use super::{BlockScheduler, SchedulerView};

use vstd::prelude::*;

verus! {

/// Piece `pi` is set in `bitfield`; a bitfield may be shorter or longer than the file.
pub open spec fn has_bit(bitfield: Seq<bool>, pi: int) -> bool {
    0 <= pi < bitfield.len() && bitfield[pi]
}

/// The counts once a peer with `bitfield` is counted too.
pub open spec fn count_in(counts: Seq<u32>, bitfield: Seq<bool>) -> Seq<u32> {
    Seq::new(
        counts.len(),
        |pi: int|
            if has_bit(bitfield, pi) {
                (counts[pi] + 1) as u32
            } else {
                counts[pi]
            },
    )
}

/// The counts once a peer with `bitfield` is no longer counted; no count falls under zero.
pub open spec fn count_out(counts: Seq<u32>, bitfield: Seq<bool>) -> Seq<u32> {
    Seq::new(
        counts.len(),
        |pi: int|
            if has_bit(bitfield, pi) && counts[pi] > 0 {
                (counts[pi] - 1) as u32
            } else {
                counts[pi]
            },
    )
}

/// No count is too large to count a peer with `bitfield`.
pub open spec fn has_room(counts: Seq<u32>, bitfield: Seq<bool>) -> bool {
    forall|pi: int|
        #![trigger counts[pi]]
        0 <= pi < counts.len() && has_bit(bitfield, pi) ==> counts[pi] < u32::MAX
}

impl BlockScheduler {
    /// Counts a new peer's bitfield. Bits past the end of the file are ignored.
    pub fn add_peer_bitfield(&mut self, bitfield: &[bool])
        requires
            old(self).wf(),
            has_room(old(self)@.availability, bitfield@),
        ensures
            final(self).wf(),
            final(self)@ == (SchedulerView {
                availability: count_in(old(self)@.availability, bitfield@),
                ..old(self)@
            }),
    {
        let ghost before = self@;
        let mut i: usize = 0;
        while i < bitfield.len()
            invariant
                i <= bitfield.len(),
                before.wf(),
                has_room(before.availability, bitfield@),
                self@ == (SchedulerView { availability: self@.availability, ..before }),
                self@.availability.len() == before.availability.len(),
                forall|p: int|
                    #![trigger self@.availability[p]]
                    0 <= p < before.availability.len() ==> self@.availability[p] == (if p < i {
                        count_in(before.availability, bitfield@)[p]
                    } else {
                        before.availability[p]
                    }),
            decreases bitfield.len() - i,
        {
            if i < self.num_pieces && bitfield[i] {
                assert(has_bit(bitfield@, i as int));
                assert(self@.availability[i as int] == before.availability[i as int]);
                self.availability[i] = self.availability[i] + 1;
            }
            i = i + 1;
        }
        assert(self@.availability =~= count_in(before.availability, bitfield@));
    }

    /// Counts a peer's announcement that it has piece `pi`; one past the end is ignored.
    pub fn add_peer_have(&mut self, pi: usize)
        requires
            old(self).wf(),
            pi < old(self).num_pieces ==> old(self)@.availability[pi as int] < u32::MAX,
        ensures
            final(self).wf(),
            final(self)@ == (SchedulerView {
                availability: if pi < old(self).num_pieces {
                    old(self)@.availability.update(
                        pi as int,
                        (old(self)@.availability[pi as int] + 1) as u32,
                    )
                } else {
                    old(self)@.availability
                },
                ..old(self)@
            }),
    {
        if pi < self.num_pieces {
            self.availability[pi] = self.availability[pi] + 1;
        }
    }

    /// Takes a peer's bitfield out of the counts when it leaves or replaces it.
    pub fn remove_peer_bitfield(&mut self, bitfield: &[bool])
        requires
            old(self).wf(),
        ensures
            final(self).wf(),
            final(self)@ == (SchedulerView {
                availability: count_out(old(self)@.availability, bitfield@),
                ..old(self)@
            }),
    {
        let ghost before = self@;
        let mut i: usize = 0;
        while i < bitfield.len()
            invariant
                i <= bitfield.len(),
                before.wf(),
                self@ == (SchedulerView { availability: self@.availability, ..before }),
                self@.availability.len() == before.availability.len(),
                forall|p: int|
                    #![trigger self@.availability[p]]
                    0 <= p < before.availability.len() ==> self@.availability[p] == (if p < i {
                        count_out(before.availability, bitfield@)[p]
                    } else {
                        before.availability[p]
                    }),
            decreases bitfield.len() - i,
        {
            if i < self.num_pieces && bitfield[i] && self.availability[i] > 0 {
                assert(has_bit(bitfield@, i as int));
                self.availability[i] = self.availability[i] - 1;
            }
            i = i + 1;
        }
        assert(self@.availability =~= count_out(before.availability, bitfield@));
    }
}

} // verus!
