//! Bookkeeping of the peers that are downloading a file from this daemon.
//!
//! A guard adds its peer to the file's list when it is made and takes it out
//! again when the transfer ends, whichever way it ends.

use vstd::prelude::*;
use crate::entities::{TransferMap, peer_lists};
use crate::net::PeerAddr;

verus! {

broadcast use vstd::seq_lib::group_seq_properties;

/// `s` without the first occurrence of `p`; `s` itself if `p` does not occur.
pub open spec fn remove_first(s: Seq<PeerAddr>, p: PeerAddr) -> Seq<PeerAddr>
    decreases s.len(),
{
    if s.len() == 0 {
        s
    } else if s[0] == p {
        s.drop_first()
    } else {
        seq![s[0]] + remove_first(s.drop_first(), p)
    }
}

/// The peer lists after `peer` has been recorded for `name` (a transfer to it
/// started, or it offered the file): it goes last in the file's list, which is
/// made if the file had none.
pub open spec fn spec_add_peer(
    m: Map<Seq<char>, Seq<PeerAddr>>,
    name: Seq<char>,
    peer: PeerAddr,
) -> Map<Seq<char>, Seq<PeerAddr>> {
    if m.dom().contains(name) {
        m.insert(name, m[name].push(peer))
    } else {
        m.insert(name, seq![peer])
    }
}

/// Whether the end of the transfer of `name` to `peer` can be recorded: the
/// file has a list, and it is either a single entry or holds `peer`.
pub open spec fn can_release(
    m: Map<Seq<char>, Seq<PeerAddr>>,
    name: Seq<char>,
    peer: PeerAddr,
) -> bool {
    &&& m.dom().contains(name)
    &&& (m[name].len() == 1 || m[name].contains(peer))
}

/// The transfer lists after the transfer of `name` to `peer` has ended: a list
/// of one entry goes away with its file; otherwise the first occurrence of
/// `peer` leaves the list.
pub open spec fn spec_remove_peer(
    m: Map<Seq<char>, Seq<PeerAddr>>,
    name: Seq<char>,
    peer: PeerAddr,
) -> Map<Seq<char>, Seq<PeerAddr>> {
    if m[name].len() == 1 {
        m.remove(name)
    } else {
        m.insert(name, remove_first(m[name], peer))
    }
}

/// Every file in the map has at least one peer.
pub open spec fn lists_nonempty(m: Map<Seq<char>, Seq<PeerAddr>>) -> bool {
    forall|k: Seq<char>| #[trigger] m.dom().contains(k) ==> m[k].len() > 0
}

/// Removing the first occurrence at a known first position.
pub proof fn lemma_remove_first_at(s: Seq<PeerAddr>, p: PeerAddr, j: int)
    requires
        0 <= j < s.len(),
        s[j] == p,
        forall|k: int| 0 <= k < j ==> s[k] != p,
    ensures
        remove_first(s, p) == s.remove(j),
    decreases s.len(),
{
    if j == 0 {
        assert(s.drop_first() =~= s.remove(0));
    } else {
        lemma_remove_first_at(s.drop_first(), p, j - 1);
        assert(seq![s[0]] + s.drop_first().remove(j - 1) =~= s.remove(j));
    }
}

/// Pushing a peer and removing its first occurrence gives back the list when
/// the peer was not in it.
pub proof fn lemma_push_remove_first(s: Seq<PeerAddr>, p: PeerAddr)
    requires
        !s.contains(p),
    ensures
        remove_first(s.push(p), p) == s,
{
    let t = s.push(p);
    assert(t[s.len() as int] == p);
    assert forall|k: int| 0 <= k < s.len() implies t[k] != p by {
        assert(t[k] == s[k]);
    }
    lemma_remove_first_at(t, p, s.len() as int);
    assert(t.remove(s.len() as int) =~= s);
}

/// The multiset of a list loses one `p` when its first `p` is removed.
pub proof fn lemma_remove_first_multiset(s: Seq<PeerAddr>, p: PeerAddr)
    requires
        s.contains(p),
    ensures
        remove_first(s, p).to_multiset() == s.to_multiset().remove(p),
{
    let j = choose|j: int| 0 <= j < s.len() && s[j] == p && forall|k: int| 0 <= k < j ==> s[k] != p;
    assert(exists|j: int| 0 <= j < s.len() && s[j] == p && forall|k: int| 0 <= k < j ==> s[k] != p) by {
        let i = choose|i: int| 0 <= i < s.len() && s[i] == p;
        lemma_first_occurrence(s, p, i);
    }
    lemma_remove_first_at(s, p, j);
    s.to_multiset_ensures();
}

proof fn lemma_first_occurrence(s: Seq<PeerAddr>, p: PeerAddr, i: int)
    requires
        0 <= i < s.len(),
        s[i] == p,
    ensures
        exists|j: int| 0 <= j < s.len() && s[j] == p && forall|k: int| 0 <= k < j ==> s[k] != p,
    decreases i,
{
    if exists|k: int| 0 <= k < i && s[k] == p {
        let k = choose|k: int| 0 <= k < i && s[k] == p;
        lemma_first_occurrence(s, p, k);
    } else {
        assert(forall|k: int| 0 <= k < i ==> s[k] != p);
    }
}

/// The end of a transfer undoes its start: when every file in the map has a
/// peer, and `peer` was not already downloading `name`, recording the start
/// and then the end of that transfer gives back the map it started from.
pub proof fn law_transfer_end_undoes_start(
    m: Map<Seq<char>, Seq<PeerAddr>>,
    name: Seq<char>,
    peer: PeerAddr,
)
    requires
        lists_nonempty(m),
        m.dom().contains(name) ==> !m[name].contains(peer),
    ensures
        can_release(spec_add_peer(m, name, peer), name, peer),
        spec_remove_peer(spec_add_peer(m, name, peer), name, peer) == m,
{
    let added = spec_add_peer(m, name, peer);
    if m.dom().contains(name) {
        assert(m[name].len() > 0);
        assert(added[name] == m[name].push(peer));
        assert(added[name][m[name].len() as int] == peer);
        lemma_push_remove_first(m[name], peer);
        assert(spec_remove_peer(added, name, peer) =~= m);
    } else {
        assert(added[name] == seq![peer]);
        assert(spec_remove_peer(added, name, peer) =~= m);
    }
}

/// Whatever the lists hold, while a transfer runs its peer is in the file's
/// list, its end can be recorded, and its start and end leave the file's
/// peers the same as a multiset and every other file's list unchanged.
pub proof fn law_transfer_end_restores_peers(
    m: Map<Seq<char>, Seq<PeerAddr>>,
    name: Seq<char>,
    peer: PeerAddr,
)
    requires
        lists_nonempty(m),
    ensures
        spec_add_peer(m, name, peer)[name].contains(peer),
        can_release(spec_add_peer(m, name, peer), name, peer),
        ({
            let after = spec_remove_peer(spec_add_peer(m, name, peer), name, peer);
            &&& after.dom() == m.dom()
            &&& forall|k: Seq<char>| #[trigger] after.dom().contains(k) && k != name ==> after[k] == m[k]
            &&& m.dom().contains(name) ==> after[name].to_multiset() == m[name].to_multiset()
        }),
{
    let added = spec_add_peer(m, name, peer);
    let after = spec_remove_peer(added, name, peer);
    if m.dom().contains(name) {
        let s = m[name];
        assert(added[name] == s.push(peer));
        assert(s.push(peer)[s.len() as int] == peer);
        assert(s.push(peer).contains(peer));
        assert(s.len() > 0);
        lemma_remove_first_multiset(s.push(peer), peer);
        s.to_multiset_ensures();
        assert(after[name].to_multiset() =~= s.to_multiset());
        assert(after.dom() =~= m.dom());
    } else {
        assert(added[name] == seq![peer]);
        assert(after.dom() =~= m.dom());
    }
}

/// Starting and ending transfers keep every file's list nonempty.
pub proof fn law_transfer_keeps_lists_nonempty(
    m: Map<Seq<char>, Seq<PeerAddr>>,
    name: Seq<char>,
    peer: PeerAddr,
)
    requires
        lists_nonempty(m),
    ensures
        lists_nonempty(spec_add_peer(m, name, peer)),
        can_release(m, name, peer) ==> lists_nonempty(spec_remove_peer(m, name, peer)),
{
    if can_release(m, name, peer) && m[name].len() != 1 {
        let s = m[name];
        lemma_remove_first_multiset(s, peer);
        s.to_multiset_ensures();
        remove_first(s, peer).to_multiset_ensures();
    }
}

/// Records, for as long as it lives, that a peer is downloading a file from
/// this daemon.
pub struct TransferGuard {
    pub filename: String,
    pub peer: PeerAddr,
}

impl TransferGuard {
    /// Adds `peer` to the peers downloading `filename`, and returns the guard
    /// that will take it out again.
    pub fn new(transferring: &mut TransferMap, filename: String, peer: PeerAddr) -> (guard:
        TransferGuard)
        requires
            old(transferring).wf(),
        ensures
            final(transferring).wf(),
            peer_lists(*final(transferring)) == spec_add_peer(
                peer_lists(*old(transferring)),
                filename@,
                peer,
            ),
            guard.filename@ == filename@,
            guard.peer == peer,
    {
        let ghost before = peer_lists(*transferring);
        let name = filename.clone();
        match transferring.remove(&filename) {
            Some(mut peers) => {
                peers.push(peer);
                transferring.insert(filename, peers);
            },
            None => {
                let mut peers: Vec<PeerAddr> = Vec::new();
                peers.push(peer);
                transferring.insert(filename, peers);
            },
        }
        proof {
            assert(peer_lists(*transferring) =~= spec_add_peer(before, name@, peer));
        }
        TransferGuard { filename: name, peer }
    }

    /// Takes the guard's peer out of the file's list, dropping the list when
    /// it held one entry. Returns `false`, and changes nothing, when the file
    /// has no list or the list has several entries none of which is the peer.
    pub fn release(&self, transferring: &mut TransferMap) -> (released: bool)
        requires
            old(transferring).wf(),
        ensures
            final(transferring).wf(),
            released == can_release(peer_lists(*old(transferring)), self.filename@, self.peer),
            released ==> peer_lists(*final(transferring)) == spec_remove_peer(
                peer_lists(*old(transferring)),
                self.filename@,
                self.peer,
            ),
            !released ==> *final(transferring) == *old(transferring),
    {
        let ghost before = peer_lists(*transferring);
        let (count, pos) = match transferring.get(&self.filename) {
            None => {
                return false;
            },
            Some(peers) => (peers.len(), first_position(peers, &self.peer)),
        };
        if count == 1 {
            transferring.remove(&self.filename);
            proof {
                assert(peer_lists(*transferring) =~= spec_remove_peer(
                    before,
                    self.filename@,
                    self.peer,
                ));
            }
            return true;
        }
        match pos {
            None => false,
            Some(p) => {
                let mut peers = transferring.remove(&self.filename).unwrap();
                assert(peers@ == before[self.filename@]);
                peers.remove(p);
                let name = self.filename.clone();
                transferring.insert(name, peers);
                proof {
                    assert(peer_lists(*transferring) =~= spec_remove_peer(
                        before,
                        self.filename@,
                        self.peer,
                    ));
                }
                true
            },
        }
    }
}

/// Index of the first occurrence of `p` in `peers`.
fn first_position(peers: &Vec<PeerAddr>, p: &PeerAddr) -> (pos: Option<usize>)
    ensures
        match pos {
            Some(i) => {
                &&& i < peers@.len()
                &&& remove_first(peers@, *p) == peers@.remove(i as int)
                &&& peers@.contains(*p)
            },
            None => !peers@.contains(*p),
        },
{
    let mut i: usize = 0;
    while i < peers.len()
        invariant
            i <= peers@.len(),
            forall|k: int| 0 <= k < i ==> peers@[k] != *p,
        decreases peers@.len() - i,
    {
        if peers[i] == *p {
            proof {
                lemma_remove_first_at(peers@, *p, i as int);
            }
            return Some(i);
        }
        i = i + 1;
    }
    None
}

} // verus!
