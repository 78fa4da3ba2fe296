//! Trust on first use: the first certificate that a peer shows is the one that it has to show
//! from then on.

use crate::verify::{hashable, same_digest, sha256, sha256_of};

use vstd::prelude::*;
use vstd::string::*;

verus! {

/// Address of a peer.
#[allow(inconsistent_fields)]
#[derive(Clone, Copy, Debug, PartialEq, Eq, Structural)]
pub enum PeerAddr {
    V4 { ip: u32, port: u16 },
    V6 { ip: u128, port: u16, flowinfo: u32, scope_id: u32 },
}

/// The fingerprint that is stored for a peer.
#[derive(Debug)]
struct TofuEntry {
    peer: PeerAddr,
    fingerprint: [u8; 32],
}

/// Store of certificate fingerprints, one per peer. Only [`TofuStore::check`] and
/// [`TofuStore::verify_server_cert`] change it.
#[derive(Debug)]
pub struct TofuStore {
    entries: Vec<TofuEntry>,
}

/// What the store says of a certificate.
#[derive(Clone, Copy, Debug)]
pub enum TofuVerdict {
    /// The peer is new; its fingerprint is stored now.
    Stored,
    /// The fingerprint is the stored one.
    Matched,
    /// The fingerprint is another than the stored one: possibly an attack; refused.
    Changed { stored: [u8; 32] },
}

/// The entry of `peer`.
spec fn entry_of(entries: Seq<TofuEntry>, peer: PeerAddr) -> int {
    choose|i: int| 0 <= i < entries.len() && (#[trigger] entries[i]).peer == peer
}

/// `peer` has an entry.
spec fn has_entry(entries: Seq<TofuEntry>, peer: PeerAddr) -> bool {
    exists|i: int| 0 <= i < entries.len() && (#[trigger] entries[i]).peer == peer
}

impl View for TofuStore {
    type V = Map<PeerAddr, Seq<u8>>;

    closed spec fn view(&self) -> Map<PeerAddr, Seq<u8>> {
        Map::new(
            |peer: PeerAddr| has_entry(self.entries@, peer),
            |peer: PeerAddr| self.entries@[entry_of(self.entries@, peer)].fingerprint@,
        )
    }
}

/// The store takes a certificate with `fingerprint` from `peer`.
pub open spec fn trusts(store: Map<PeerAddr, Seq<u8>>, peer: PeerAddr, fingerprint: Seq<u8>) -> bool {
    !store.contains_key(peer) || store[peer] == fingerprint
}

/// The store after `peer` has shown a certificate with `fingerprint`: a new peer is stored.
pub open spec fn after_shown(
    store: Map<PeerAddr, Seq<u8>>,
    peer: PeerAddr,
    fingerprint: Seq<u8>,
) -> Map<PeerAddr, Seq<u8>> {
    if store.contains_key(peer) {
        store
    } else {
        store.insert(peer, fingerprint)
    }
}

/// `verdict` is what `store` says of a certificate with `fingerprint` from `peer`.
pub open spec fn is_verdict(
    store: Map<PeerAddr, Seq<u8>>,
    peer: PeerAddr,
    fingerprint: Seq<u8>,
    verdict: TofuVerdict,
) -> bool {
    if !store.contains_key(peer) {
        verdict is Stored
    } else if store[peer] == fingerprint {
        verdict is Matched
    } else {
        verdict is Changed && verdict->stored@ == store[peer]
    }
}

impl TofuStore {
    /// No peer has two entries.
    pub closed spec fn wf(&self) -> bool {
        forall|i: int, j: int|
            0 <= i < j < self.entries@.len() ==> (#[trigger] self.entries@[i]).peer
                != (#[trigger] self.entries@[j]).peer
    }

    /// An empty store.
    pub fn new() -> (store: Self)
        ensures
            store.wf(),
            store@ == Map::<PeerAddr, Seq<u8>>::empty(),
    {
        let store = TofuStore { entries: Vec::new() };
        assert(store@ =~= Map::<PeerAddr, Seq<u8>>::empty());
        store
    }

    /// Position of the entry of `peer`.
    fn position(&self, peer: PeerAddr) -> (r: Option<usize>)
        requires
            self.wf(),
        ensures
            r is Some <==> self@.contains_key(peer),
            r matches Some(i) ==> i < self.entries@.len() && self.entries@[i as int].peer == peer
                && self@[peer] == self.entries@[i as int].fingerprint@,
    {
        let mut i: usize = 0;
        while i < self.entries.len()
            invariant
                self.wf(),
                i <= self.entries@.len(),
                forall|j: int| 0 <= j < i ==> (#[trigger] self.entries@[j]).peer != peer,
            decreases self.entries@.len() - i,
        {
            if self.entries[i].peer == peer {
                assert(self.entries@[i as int].peer == peer);
                assert(has_entry(self.entries@, peer));
                assert(entry_of(self.entries@, peer) == i);
                return Some(i);
            }
            i = i + 1;
        }
        None
    }

    /// The fingerprint stored for `peer`, if any.
    pub fn get(&self, peer: PeerAddr) -> (r: Option<[u8; 32]>)
        requires
            self.wf(),
        ensures
            r is Some <==> self@.contains_key(peer),
            r matches Some(f) ==> f@ == self@[peer],
    {
        match self.position(peer) {
            Some(i) => Some(self.entries[i].fingerprint),
            None => None,
        }
    }

    /// Judges a certificate with `fingerprint` from `peer`. A new peer is stored; otherwise the
    /// store does not change.
    pub fn check(&mut self, peer: PeerAddr, fingerprint: [u8; 32]) -> (verdict: TofuVerdict)
        requires
            old(self).wf(),
        ensures
            final(self).wf(),
            is_verdict(old(self)@, peer, fingerprint@, verdict),
            final(self)@ == after_shown(old(self)@, peer, fingerprint@),
    {
        match self.position(peer) {
            None => {
                let ghost before = self.entries@;
                let ghost known = self@;
                self.entries.push(TofuEntry { peer, fingerprint });
                proof {
                    assert(!has_entry(before, peer));
                    lemma_entry_added(before, TofuEntry { peer, fingerprint });
                    assert(self@ =~= known.insert(peer, fingerprint@));
                }
                TofuVerdict::Stored
            },
            Some(i) => {
                if same_digest(&self.entries[i].fingerprint, &fingerprint) {
                    TofuVerdict::Matched
                } else {
                    TofuVerdict::Changed { stored: self.entries[i].fingerprint }
                }
            },
        }
    }

    /// Judges the certificate `end_entity`, in DER form, that `peer` has shown, by its SHA-256
    /// fingerprint.
    pub fn verify_server_cert(&mut self, peer: PeerAddr, end_entity: &[u8]) -> (verdict: TofuVerdict)
        requires
            old(self).wf(),
            hashable(end_entity@),
        ensures
            final(self).wf(),
            is_verdict(old(self)@, peer, sha256_of(end_entity@), verdict),
            final(self)@ == after_shown(old(self)@, peer, sha256_of(end_entity@)),
    {
        let fingerprint: [u8; 32] = sha256(end_entity);
        self.check(peer, fingerprint)
    }
}

impl Default for TofuStore {
    fn default() -> (store: Self)
        ensures
            store.wf(),
            store@ == Map::<PeerAddr, Seq<u8>>::empty(),
    {
        TofuStore::new()
    }
}

/// What adding the entry of a new peer does to look-ups.
proof fn lemma_entry_added(before: Seq<TofuEntry>, entry: TofuEntry)
    requires
        !has_entry(before, entry.peer),
        forall|i: int, j: int|
            0 <= i < j < before.len() ==> (#[trigger] before[i]).peer != (#[trigger] before[j]).peer,
    ensures
        has_entry(before.push(entry), entry.peer),
        entry_of(before.push(entry), entry.peer) == before.len(),
        forall|peer: PeerAddr|
            peer != entry.peer ==> #[trigger] has_entry(before.push(entry), peer) == has_entry(
                before,
                peer,
            ),
        forall|peer: PeerAddr|
            has_entry(before, peer) ==> #[trigger] entry_of(before.push(entry), peer) == entry_of(
                before,
                peer,
            ),
{
    let after = before.push(entry);
    assert(after[before.len() as int].peer == entry.peer);
    assert forall|peer: PeerAddr| peer != entry.peer implies #[trigger] has_entry(after, peer)
        == has_entry(before, peer) by {
        if has_entry(before, peer) {
            let i = entry_of(before, peer);
            assert(after[i].peer == peer);
        }
        if has_entry(after, peer) {
            let i = entry_of(after, peer);
            assert(before[i].peer == peer);
        }
    }
    assert forall|peer: PeerAddr| has_entry(before, peer) implies #[trigger] entry_of(after, peer)
        == entry_of(before, peer) by {
        let i = entry_of(before, peer);
        assert(before[i].peer == peer);
        assert(after[i].peer == peer);
        let j = entry_of(after, peer);
        assert(after[j].peer == peer);
        assert(j < before.len());
        assert(before[j].peer == peer);
        assert(i == j);
    }
}

/// The text of the error that refuses a peer at the address written `addr`.
pub fn violation_text(addr: &str) -> (s: String)
    ensures
        s@ == "TOFU violation: cert fingerprint changed for "@ + addr@,
{
    let mut s: String = "TOFU violation: cert fingerprint changed for ".to_owned();
    s.append(addr);
    s
}

/// The hexadecimal digit of value `n`.
pub open spec fn hex_digit(n: int) -> char {
    seq!['0', '1', '2', '3', '4', '5', '6', '7', '8', '9', 'a', 'b', 'c', 'd', 'e', 'f'][n]
}

/// Two hexadecimal digits per byte, the higher one first.
pub open spec fn hex_of(bytes: Seq<u8>) -> Seq<char> {
    Seq::new(
        bytes.len() * 2,
        |i: int|
            if i % 2 == 0 {
                hex_digit(bytes[i / 2] as int / 16)
            } else {
                hex_digit(bytes[i / 2] as int % 16)
            },
    )
}

/// The hexadecimal digit of value `n`, as a string.
fn digit(n: u8) -> (s: &'static str)
    requires
        n < 16,
    ensures
        s@ == seq![hex_digit(n as int)],
{
    proof {
        reveal_strlit("0");
        reveal_strlit("1");
        reveal_strlit("2");
        reveal_strlit("3");
        reveal_strlit("4");
        reveal_strlit("5");
        reveal_strlit("6");
        reveal_strlit("7");
        reveal_strlit("8");
        reveal_strlit("9");
        reveal_strlit("a");
        reveal_strlit("b");
        reveal_strlit("c");
        reveal_strlit("d");
        reveal_strlit("e");
        reveal_strlit("f");
    }
    match n {
        0 => "0",
        1 => "1",
        2 => "2",
        3 => "3",
        4 => "4",
        5 => "5",
        6 => "6",
        7 => "7",
        8 => "8",
        9 => "9",
        10 => "a",
        11 => "b",
        12 => "c",
        13 => "d",
        14 => "e",
        _ => "f",
    }
}

/// A fingerprint in lower-case hexadecimal.
pub fn fmt_fingerprint(f: &[u8; 32]) -> (s: String)
    ensures
        s@ == hex_of(f@),
{
    let mut s: String = String::new();
    let mut i: usize = 0;
    while i < 32
        invariant
            i <= 32,
            s@ == hex_of(f@.take(i as int)),
        decreases 32 - i,
    {
        let byte: u8 = f[i];
        s.append(digit(byte / 16));
        s.append(digit(byte % 16));
        i = i + 1;
        assert(s@ =~= hex_of(f@.take(i as int)));
    }
    assert(f@.take(32) =~= f@);
    s
}

/// The store after a history of certificates shown, each by a peer, in turn.
pub open spec fn after_history(
    store: Map<PeerAddr, Seq<u8>>,
    history: Seq<(PeerAddr, Seq<u8>)>,
) -> Map<PeerAddr, Seq<u8>>
    decreases history.len(),
{
    if history.len() == 0 {
        store
    } else {
        let shown = history.last();
        after_shown(after_history(store, history.drop_last()), shown.0, shown.1)
    }
}

/// A certificate that is refused changes nothing: the stored fingerprint stays.
pub proof fn law_refusal_changes_nothing(
    store: Map<PeerAddr, Seq<u8>>,
    peer: PeerAddr,
    fingerprint: Seq<u8>,
)
    requires
        !trusts(store, peer, fingerprint),
    ensures
        after_shown(store, peer, fingerprint) == store,
{
}

/// A peer that is not in the store is stored with what it showed; one that is there is matched
/// where it shows what is stored, and else refused, with what is stored. No other peer's entry
/// changes.
pub proof fn law_what_each_verdict_means(
    store: Map<PeerAddr, Seq<u8>>,
    peer: PeerAddr,
    fingerprint: Seq<u8>,
    verdict: TofuVerdict,
    other: PeerAddr,
)
    requires
        is_verdict(store, peer, fingerprint, verdict),
    ensures
        verdict is Stored <==> !store.contains_key(peer),
        verdict is Matched <==> store.contains_key(peer) && store[peer] == fingerprint,
        verdict is Changed <==> store.contains_key(peer) && store[peer] != fingerprint,
        verdict matches TofuVerdict::Changed { stored } ==> stored@ == store[peer],
        ({
            let after = after_shown(store, peer, fingerprint);
            &&& after.contains_key(peer)
            &&& verdict is Stored ==> after[peer] == fingerprint
            &&& !(verdict is Stored) ==> after[peer] == store[peer]
            &&& other != peer ==> (after.contains_key(other) <==> store.contains_key(other))
            &&& other != peer && store.contains_key(other) ==> after[other] == store[other]
        }),
{
}

/// The value of a digit in lower-case hexadecimal, or -1 for any other character.
pub open spec fn digit_value(c: char) -> int {
    if '0' <= c <= '9' {
        c as int - '0' as int
    } else if 'a' <= c <= 'f' {
        c as int - 'a' as int + 10
    } else {
        -1
    }
}

/// A fingerprint in hexadecimal reads back as its bytes, two digits each, the higher one first.
pub proof fn law_hex_reads_back(bytes: Seq<u8>, i: int)
    requires
        0 <= i < bytes.len(),
    ensures
        hex_of(bytes).len() == 2 * bytes.len(),
        0 <= digit_value(hex_of(bytes)[2 * i]) < 16,
        0 <= digit_value(hex_of(bytes)[2 * i + 1]) < 16,
        digit_value(hex_of(bytes)[2 * i]) * 16 + digit_value(hex_of(bytes)[2 * i + 1]) == bytes[i],
{
    let hi = bytes[i] as int / 16;
    let lo = bytes[i] as int % 16;
    lemma_digit(hi);
    lemma_digit(lo);
    assert(hex_of(bytes)[2 * i] == hex_digit(hi));
    assert((2 * i + 1) / 2 == i);
    assert(hex_of(bytes)[2 * i + 1] == hex_digit(lo));
}

proof fn lemma_digit(n: int)
    requires
        0 <= n < 16,
    ensures
        digit_value(hex_digit(n)) == n,
{
}

/// A certificate is refused exactly where the verdict is that it changed.
pub proof fn law_verdict_is_trust(
    store: Map<PeerAddr, Seq<u8>>,
    peer: PeerAddr,
    fingerprint: Seq<u8>,
    verdict: TofuVerdict,
)
    requires
        is_verdict(store, peer, fingerprint, verdict),
    ensures
        verdict is Changed <==> !trusts(store, peer, fingerprint),
{
}

/// Store and certificate alone decide: what is said twice of the same certificate from the same
/// peer, on the same store, is the same.
pub proof fn law_verdict_is_determined(
    store: Map<PeerAddr, Seq<u8>>,
    peer: PeerAddr,
    fingerprint: Seq<u8>,
    one: TofuVerdict,
    other: TofuVerdict,
)
    requires
        is_verdict(store, peer, fingerprint, one),
        is_verdict(store, peer, fingerprint, other),
    ensures
        one == other,
{
    match (one, other) {
        (TofuVerdict::Changed { stored: a }, TofuVerdict::Changed { stored: b }) => {
            assert(a =~= b);
        },
        _ => {},
    }
}

/// A stored fingerprint is never replaced or removed, whatever is shown by whomever, and through
/// whichever handle to the store.
pub proof fn law_stored_fingerprint_stays(
    store: Map<PeerAddr, Seq<u8>>,
    history: Seq<(PeerAddr, Seq<u8>)>,
    peer: PeerAddr,
)
    requires
        store.contains_key(peer),
    ensures
        after_history(store, history).contains_key(peer),
        after_history(store, history)[peer] == store[peer],
    decreases history.len(),
{
    if history.len() > 0 {
        law_stored_fingerprint_stays(store, history.drop_last(), peer);
    }
}

/// Trust on first use: a peer that is not in the store is trusted with whatever it shows first,
/// and from then on with that and nothing else, whatever was shown in between by whomever.
pub proof fn law_trust_on_first_use(
    store: Map<PeerAddr, Seq<u8>>,
    peer: PeerAddr,
    first: Seq<u8>,
    history: Seq<(PeerAddr, Seq<u8>)>,
    later: Seq<u8>,
)
    requires
        !store.contains_key(peer),
    ensures
        trusts(store, peer, first),
        trusts(after_history(after_shown(store, peer, first), history), peer, later) <==> later
            == first,
{
    law_stored_fingerprint_stays(after_shown(store, peer, first), history, peer);
}

/// What is stored for a peer is what it showed first. (That nothing is stored for a peer that
/// showed nothing is [`law_peers_do_not_interfere`].)
pub proof fn law_first_shown_is_stored(
    store: Map<PeerAddr, Seq<u8>>,
    history: Seq<(PeerAddr, Seq<u8>)>,
    peer: PeerAddr,
    i: int,
)
    requires
        !store.contains_key(peer),
        0 <= i < history.len(),
        history[i].0 == peer,
        forall|j: int| 0 <= j < i ==> (#[trigger] history[j]).0 != peer,
    ensures
        after_history(store, history).contains_key(peer),
        after_history(store, history)[peer] == history[i].1,
    decreases history.len(),
{
    let before = history.drop_last();
    assert forall|j: int| 0 <= j < i implies (#[trigger] before[j]).0 != peer by {
        assert(history[j].0 != peer);
    }
    if i == before.len() {
        law_peers_do_not_interfere(store, before, peer, history[i].1);
    } else {
        law_first_shown_is_stored(store, before, peer, i);
    }
}

/// What other peers show has no bearing on a peer.
pub proof fn law_peers_do_not_interfere(
    store: Map<PeerAddr, Seq<u8>>,
    history: Seq<(PeerAddr, Seq<u8>)>,
    peer: PeerAddr,
    fingerprint: Seq<u8>,
)
    requires
        forall|i: int| 0 <= i < history.len() ==> (#[trigger] history[i]).0 != peer,
    ensures
        trusts(after_history(store, history), peer, fingerprint) <==> trusts(
            store,
            peer,
            fingerprint,
        ),
        after_history(store, history).contains_key(peer) <==> store.contains_key(peer),
        store.contains_key(peer) ==> after_history(store, history)[peer] == store[peer],
    decreases history.len(),
{
    if history.len() > 0 {
        assert(history.last().0 != peer);
        assert forall|i: int| 0 <= i < history.drop_last().len() implies (
        #[trigger] history.drop_last()[i]).0 != peer by {
            assert(history[i].0 != peer);
        }
        law_peers_do_not_interfere(store, history.drop_last(), peer, fingerprint);
    }
}

} // verus!
