//! Messages between peers, as far as the download logic reads or writes them.

use crate::scheduler::availability::has_bit;

use vstd::prelude::*;

verus! {

/// How a peer proves its identity in a hello.
#[derive(Clone, Copy, Debug, PartialEq, Eq, Structural)]
pub enum AuthPayload {
    /// Not at all.
    Absent,
}

/// A message of the protocol. A bitmap holds one entry per bit that was sent.
#[allow(inconsistent_fields)]
#[derive(Debug)]
pub enum Message {
    Hello { version: u32, peer_id: [u8; 32], info_hash: [u8; 32], auth: AuthPayload },
    HelloAck { accepted: bool, reason: Option<String> },
    KeepAlive,
    HaveAll { file_index: u16 },
    HaveNone { file_index: u16 },
    HaveBitmap { file_index: u16, bitmap: Vec<bool> },
    HavePiece { file_index: u16, piece_index: u32 },
    Bye { reason: String },
    /// Any other message.
    Other,
}

/// What is known of the pieces that a peer has of one file.
#[derive(Debug)]
pub enum PeerAvail {
    Unknown,
    HaveAll,
    HaveNone,
    Bitmap(Vec<bool>),
}

/// `bits` cut or padded with unset bits to `num` bits.
pub open spec fn fit(bits: Seq<bool>, num: nat) -> Seq<bool> {
    Seq::new(num, |pi: int| has_bit(bits, pi))
}

/// Every bit is set.
pub open spec fn all_set(bits: Seq<bool>) -> bool {
    forall|pi: int| 0 <= pi < bits.len() ==> #[trigger] bits[pi]
}

/// No bit is set.
pub open spec fn none_set(bits: Seq<bool>) -> bool {
    forall|pi: int| 0 <= pi < bits.len() ==> !#[trigger] bits[pi]
}

/// Cuts or pads `bits` to `num` bits.
pub fn fit_bits(bits: &[bool], num: usize) -> (r: Vec<bool>)
    ensures
        r@ == fit(bits@, num as nat),
{
    let mut r: Vec<bool> = Vec::new();
    let mut i: usize = 0;
    while i < num
        invariant
            i <= num,
            r@ == fit(bits@, i as nat),
        decreases num - i,
    {
        let bit: bool = i < bits.len() && bits[i];
        r.push(bit);
        i = i + 1;
        assert(r@ =~= fit(bits@, i as nat));
    }
    r
}

/// Whether every bit is set.
pub fn is_all_set(bits: &[bool]) -> (r: bool)
    ensures
        r == all_set(bits@),
{
    let mut i: usize = 0;
    while i < bits.len()
        invariant
            i <= bits@.len(),
            forall|pi: int| 0 <= pi < i ==> #[trigger] bits@[pi],
        decreases bits@.len() - i,
    {
        if !bits[i] {
            assert(!bits@[i as int]);
            return false;
        }
        i = i + 1;
    }
    true
}

/// Whether no bit is set.
pub fn is_none_set(bits: &[bool]) -> (r: bool)
    ensures
        r == none_set(bits@),
{
    let mut i: usize = 0;
    while i < bits.len()
        invariant
            i <= bits@.len(),
            forall|pi: int| 0 <= pi < i ==> !#[trigger] bits@[pi],
        decreases bits@.len() - i,
    {
        if bits[i] {
            assert(bits@[i as int]);
            return false;
        }
        i = i + 1;
    }
    true
}

impl PeerAvail {
    /// The pieces that the peer is known to have, out of `num`.
    pub open spec fn bits(self, num: nat) -> Seq<bool> {
        match self {
            PeerAvail::HaveAll => Seq::new(num, |pi: int| true),
            PeerAvail::Bitmap(v) => fit(v@, num),
            _ => Seq::new(num, |pi: int| false),
        }
    }

    /// The pieces that the peer is known to have, as a bitfield of `num` bits.
    pub fn as_bitfield(&self, num: usize) -> (r: Vec<bool>)
        ensures
            r@ == self.bits(num as nat),
    {
        match self {
            PeerAvail::HaveAll => {
                let r: Vec<bool> = vec![true; num];
                assert(r@ =~= self.bits(num as nat));
                r
            },
            PeerAvail::Bitmap(v) => fit_bits(v.as_slice(), num),
            PeerAvail::Unknown => {
                let r: Vec<bool> = vec![false; num];
                assert(r@ =~= self.bits(num as nat));
                r
            },
            PeerAvail::HaveNone => {
                let r: Vec<bool> = vec![false; num];
                assert(r@ =~= self.bits(num as nat));
                r
            },
        }
    }
}

/// `msg` announces that of file `fi` exactly the pieces in `bits` are there: in one word when
/// that is all or none of them, else by a bitmap. A file index takes its low 16 bits on the wire.
pub open spec fn announces(msg: Message, fi: usize, bits: Seq<bool>) -> bool {
    if all_set(bits) {
        msg == Message::HaveAll { file_index: fi as u16 }
    } else if none_set(bits) {
        msg == Message::HaveNone { file_index: fi as u16 }
    } else {
        &&& msg is HaveBitmap
        &&& msg->HaveBitmap_file_index == fi as u16
        &&& msg->bitmap@ == bits
    }
}

/// The announcement of the pieces `bits` of file `fi`.
pub fn availability_message(fi: usize, bits: Vec<bool>) -> (msg: Message)
    ensures
        announces(msg, fi, bits@),
{
    let file_index: u16 = #[verifier::truncate] (fi as u16);
    if is_all_set(bits.as_slice()) {
        Message::HaveAll { file_index }
    } else if is_none_set(bits.as_slice()) {
        Message::HaveNone { file_index }
    } else {
        Message::HaveBitmap { file_index, bitmap: bits }
    }
}

/// All bits are set where none is unset, and none is set where none is set.
pub proof fn law_all_or_none(bits: Seq<bool>)
    ensures
        all_set(bits) <==> !bits.contains(false),
        none_set(bits) <==> !bits.contains(true),
{
    if all_set(bits) && bits.contains(false) {
        let k = choose|k: int| 0 <= k < bits.len() && bits[k] == false;
        assert(bits[k]);
    }
    if none_set(bits) && bits.contains(true) {
        let k = choose|k: int| 0 <= k < bits.len() && bits[k] == true;
        assert(!bits[k]);
    }
    if !bits.contains(false) {
        assert forall|pi: int| 0 <= pi < bits.len() implies #[trigger] bits[pi] by {
            if !bits[pi] {
                assert(bits.contains(false));
            }
        }
    }
    if !bits.contains(true) {
        assert forall|pi: int| 0 <= pi < bits.len() implies !#[trigger] bits[pi] by {
            if bits[pi] {
                assert(bits.contains(true));
            }
        }
    }
}

/// Cutting and padding keeps every bit that there is room for, and adds none that is set.
pub proof fn law_fitting(bits: Seq<bool>, num: nat, pi: int)
    requires
        0 <= pi < num,
    ensures
        fit(bits, num).len() == num,
        pi < bits.len() ==> fit(bits, num)[pi] == bits[pi],
        pi >= bits.len() ==> !fit(bits, num)[pi],
{
}

/// A peer that has everything has every piece; one of whom nothing is known, or that has nothing,
/// has none; any other has what its bitmap says.
pub proof fn law_known_pieces(avail: PeerAvail, num: nat, pi: int)
    requires
        0 <= pi < num,
    ensures
        avail.bits(num).len() == num,
        avail is HaveAll ==> avail.bits(num)[pi],
        avail is HaveNone || avail is Unknown ==> !avail.bits(num)[pi],
        avail matches PeerAvail::Bitmap(v) ==> avail.bits(num)[pi] == (pi < v@.len() && v@[pi]),
{
}

/// A file is announced in one word where all of it is there or nothing, else piece by piece.
pub proof fn law_announced_in_one_word(msg: Message, fi: usize, bits: Seq<bool>)
    requires
        announces(msg, fi, bits),
    ensures
        !bits.contains(false) ==> msg == (Message::HaveAll { file_index: fi as u16 }),
        bits.contains(false) && !bits.contains(true) ==> msg == (Message::HaveNone {
            file_index: fi as u16,
        }),
        bits.contains(false) && bits.contains(true) ==> (msg matches Message::HaveBitmap {
            file_index,
            bitmap,
        } && file_index == fi as u16 && bitmap@ == bits),
{
    law_all_or_none(bits);
}

} // verus!
