//! The course of one download: which peers are asked for which ranges of
//! blocks, round after round, until every range has arrived or no peer is
//! left.
//!
//! Each round walks the ranges that are still missing, in order, and hands the
//! `i`-th of them to the `i`-th peer. Once a round has ended with ranges still
//! missing, the download counts as interrupted, and every later round first
//! drops, for each missing range, the peer at that range's position in the
//! list of ranges.

use vstd::prelude::*;
use crate::blocks::{BlockWatcher, Segment, fill_block_watcher, has_pending, has_range,
    spec_mark_done, spec_segments};
use crate::config::CHUNK_SIZE;
use crate::fsizes::{clear_fsizes, cleared, is_most_common_last, keep_size, law_most_common_last_unique,
    lemma_keep_size, sizes_of};
use crate::helpers::{blocks_count, ceil_div, spec_blocks_count};
use crate::entities::{BlockInfo, FileSizeOrInfo, HandshakeRequest};
use crate::net::PeerAddr;
use crate::plans::{TransferPlan, download_from_peer, plan_total, range_len, spec_plan};

verus! {

/// A range of blocks handed to a peer.
#[derive(Clone, Copy, Debug, PartialEq, Eq, Structural)]
pub struct Assignment {
    pub peer: PeerAddr,
    pub from_block: u32,
    pub to_block: u32,
}

/// A round over the ranges `lines` from position `k`, with `i` peers handed
/// out so far: whether it completes (`false` where a position falls outside
/// the list of peers), the ranges it hands out, and the peers left.
pub open spec fn round_from(
    lines: Seq<Segment>,
    k: int,
    i: int,
    peers: Seq<(PeerAddr, u64)>,
    interrupted: bool,
) -> (bool, Seq<Assignment>, Seq<(PeerAddr, u64)>)
    decreases lines.len() - k,
{
    if k < 0 || k >= lines.len() {
        (true, seq![], peers)
    } else if lines[k].done {
        round_from(lines, k + 1, i, peers, interrupted)
    } else if interrupted && k >= peers.len() {
        (false, seq![], peers)
    } else {
        let left = if interrupted { peers.remove(k) } else { peers };
        if interrupted && left.len() == 0 {
            (true, seq![], left)
        } else if i < 0 || i >= left.len() {
            (false, seq![], left)
        } else {
            let rest = round_from(lines, k + 1, i + 1, left, interrupted);
            (
                rest.0,
                seq![Assignment { peer: left[i].0, from_block: lines[k].from_block, to_block: lines[k].to_block }]
                    + rest.1,
                rest.2,
            )
        }
    }
}

/// The ranges from position `k` on that have not arrived, in order.
pub open spec fn missing_from(lines: Seq<Segment>, k: int) -> Seq<Segment>
    decreases lines.len() - k,
{
    if k < 0 || k >= lines.len() {
        seq![]
    } else if lines[k].done {
        missing_from(lines, k + 1)
    } else {
        seq![lines[k]] + missing_from(lines, k + 1)
    }
}

proof fn lemma_round_uninterrupted(lines: Seq<Segment>, k: int, i: int, peers: Seq<(PeerAddr, u64)>)
    requires
        0 <= k <= lines.len(),
        0 <= i,
        i + missing_from(lines, k).len() <= peers.len(),
    ensures
        ({
            let o = round_from(lines, k, i, peers, false);
            let m = missing_from(lines, k);
            &&& o.0
            &&& o.2 == peers
            &&& o.1.len() == m.len()
            &&& forall|j: int|
                0 <= j < m.len() ==> #[trigger] o.1[j] == (Assignment {
                    peer: peers[i + j].0,
                    from_block: m[j].from_block,
                    to_block: m[j].to_block,
                })
        }),
    decreases lines.len() - k,
{
    if k < lines.len() {
        if lines[k].done {
            lemma_round_uninterrupted(lines, k + 1, i, peers);
        } else {
            lemma_round_uninterrupted(lines, k + 1, i + 1, peers);
            let o = round_from(lines, k, i, peers, false);
            let rest = round_from(lines, k + 1, i + 1, peers, false);
            let m = missing_from(lines, k);
            let m1 = missing_from(lines, k + 1);
            assert forall|j: int| 0 <= j < m.len() implies #[trigger] o.1[j] == (Assignment {
                peer: peers[i + j].0,
                from_block: m[j].from_block,
                to_block: m[j].to_block,
            }) by {
                if j > 0 {
                    assert(o.1[j] == rest.1[j - 1]);
                    assert(m[j] == m1[j - 1]);
                }
            }
        }
    }
}

/// A round of a download that has not been interrupted hands the `j`-th
/// missing range to the `j`-th peer and keeps every peer, whenever there are
/// at least as many peers as missing ranges.
pub proof fn law_round_without_interruption(lines: Seq<Segment>, peers: Seq<(PeerAddr, u64)>)
    requires
        missing_from(lines, 0).len() <= peers.len(),
    ensures
        ({
            let o = round_from(lines, 0, 0, peers, false);
            let m = missing_from(lines, 0);
            &&& o.0
            &&& o.2 == peers
            &&& o.1.len() == m.len()
            &&& forall|j: int|
                0 <= j < m.len() ==> #[trigger] o.1[j] == (Assignment {
                    peer: peers[j].0,
                    from_block: m[j].from_block,
                    to_block: m[j].to_block,
                })
        }),
{
    lemma_round_uninterrupted(lines, 0, 0, peers);
}

proof fn lemma_missing_all(lines: Seq<Segment>, k: int)
    requires
        0 <= k <= lines.len(),
        forall|j: int| 0 <= j < lines.len() ==> !(#[trigger] lines[j]).done,
    ensures
        missing_from(lines, k) == lines.subrange(k, lines.len() as int),
    decreases lines.len() - k,
{
    if k < lines.len() {
        lemma_missing_all(lines, k + 1);
        assert(seq![lines[k]] + lines.subrange(k + 1, lines.len() as int) =~= lines.subrange(
            k,
            lines.len() as int,
        ));
    } else {
        assert(lines.subrange(k, lines.len() as int) =~= seq![]);
    }
}

proof fn lemma_skip_done(
    lines: Seq<Segment>,
    k: int,
    i: int,
    peers: Seq<(PeerAddr, u64)>,
    interrupted: bool,
)
    requires
        0 <= k <= lines.len(),
        forall|j: int| 0 <= j < k ==> (#[trigger] lines[j]).done,
    ensures
        round_from(lines, 0, i, peers, interrupted) == round_from(lines, k, i, peers, interrupted),
        missing_from(lines, 0) == missing_from(lines, k),
    decreases k,
{
    if k > 0 {
        lemma_skip_done(lines, k - 1, i, peers, interrupted);
        assert(lines[k - 1].done);
    }
}

proof fn lemma_interrupted_counts(lines: Seq<Segment>, k: int, i: int, peers: Seq<(PeerAddr, u64)>)
    requires
        0 <= k,
    ensures
        ({
            let o = round_from(lines, k, i, peers, true);
            &&& o.2.len() <= peers.len()
            &&& o.0 && o.2.len() > 0 ==> o.2.len() + missing_from(lines, k).len() == peers.len()
                && o.1.len() == missing_from(lines, k).len()
        }),
    decreases lines.len() - k,
{
    if k < lines.len() {
        if lines[k].done {
            lemma_interrupted_counts(lines, k + 1, i, peers);
        } else if k < peers.len() {
            let left = peers.remove(k);
            if left.len() > 0 && 0 <= i < left.len() {
                lemma_interrupted_counts(lines, k + 1, i + 1, left);
            }
        }
    }
}

/// After an interruption, a round drops a peer for every missing range it
/// reaches before handing that range out: the first missing range, at
/// position `k`, goes to the first peer of the list without its `k`-th peer,
/// the round never ends with as many peers as it started with, and a round
/// that completes with peers left has dropped exactly one per missing range
/// and handed out every missing range.
pub proof fn law_interrupted_round_drops_peers(lines: Seq<Segment>, peers: Seq<(PeerAddr, u64)>, k: int)
    requires
        0 <= k < lines.len(),
        k < peers.len(),
        forall|j: int| 0 <= j < k ==> (#[trigger] lines[j]).done,
        !lines[k].done,
    ensures
        ({
            let o = round_from(lines, 0, 0, peers, true);
            let m = missing_from(lines, 0);
            &&& o.2.len() < peers.len()
            &&& peers.len() > 1 ==> o.1.len() > 0 && o.1[0] == (Assignment {
                peer: peers.remove(k)[0].0,
                from_block: lines[k].from_block,
                to_block: lines[k].to_block,
            })
            &&& peers.len() == 1 ==> o.0 && o.1.len() == 0 && o.2.len() == 0
            &&& o.0 && o.2.len() > 0 ==> o.2.len() == peers.len() - m.len() && o.1.len() == m.len()
        }),
{
    lemma_skip_done(lines, k, 0, peers, true);
    lemma_interrupted_counts(lines, 0, 0, peers);
    let left = peers.remove(k);
    if left.len() > 0 {
        lemma_interrupted_counts(lines, k + 1, 1, left);
    }
}

/// The first round of a download hands every range of the split to a peer of
/// its own: the `j`-th range to the `j`-th peer.
pub proof fn law_first_round_assigns_every_range(blocks: u32, peers: Seq<(PeerAddr, u64)>)
    requires
        0 < peers.len() <= u32::MAX,
    ensures
        ({
            let lines = spec_segments(blocks, peers.len() as u32);
            let o = round_from(lines, 0, 0, peers, false);
            &&& o.0
            &&& o.2 == peers
            &&& o.1.len() == lines.len()
            &&& forall|j: int|
                0 <= j < lines.len() ==> #[trigger] o.1[j] == (Assignment {
                    peer: peers[j].0,
                    from_block: lines[j].from_block,
                    to_block: lines[j].to_block,
                })
        }),
{
    let n = peers.len() as u32;
    assert(n as int == peers.len());
    let lines = spec_segments(blocks, n);
    assert(lines.len() <= n);
    lemma_missing_all(lines, 0);
    assert(lines.subrange(0, lines.len() as int) =~= lines);
    law_round_without_interruption(lines, peers);
}

/// The download cannot be set up from the peers that report the trusted size:
/// their number truncated to `u32` is zero, the size rounded up to whole
/// chunks passes `u64::MAX`, or the block count reaches `u32::MAX`.
pub open spec fn unworkable(clean: Seq<(PeerAddr, u64)>) -> bool {
    ||| (clean.len() as u32) == 0
    ||| clean[0].1 + CHUNK_SIZE - 1 > u64::MAX
    ||| spec_blocks_count(clean[0].1, CHUNK_SIZE) == u32::MAX
}

/// A download is set up whenever the peers that report the trusted size fit
/// the limits of the block arithmetic: when some peer answered, the kept
/// peers number at most `u32::MAX`, the trusted size rounded up to whole
/// chunks stays within `u64`, and its block count stays below `u32::MAX`,
/// no way of keeping peers leaves the download unworkable, so `start` gives
/// a session. The kept peers are then never empty.
pub proof fn law_start_within_bounds(sized: Seq<(PeerAddr, u64)>, clean: Seq<(PeerAddr, u64)>)
    requires
        sized.len() > 0,
        cleared(sized, clean),
        clean.len() <= u32::MAX,
        clean[0].1 + 4095 <= u64::MAX,
        ceil_div(clean[0].1 as int, 4096) < u32::MAX,
    ensures
        clean.len() > 0,
        !exists|other: Seq<(PeerAddr, u64)>| cleared(sized, other) && unworkable(other),
{
    let c = choose|c: u64| is_most_common_last(sizes_of(sized), c) && clean == keep_size(sized, c);
    lemma_keep_size(sized, c);
    assert(clean.len() > 0);
    assert(clean.len() as u32 == clean.len());
    let size = clean[0].1 as int;
    let q = ceil_div(size, 4096);
    assert(q >= 0) by (nonlinear_arith)
        requires q == (size + 4096 - 1) / 4096, size >= 0;
    assert(((clean[0].1 + CHUNK_SIZE - 1) / (CHUNK_SIZE as int)) == q);
    assert(q as u32 == q);
    assert(spec_blocks_count(clean[0].1, CHUNK_SIZE) != u32::MAX);
    assert(!unworkable(clean));
    if exists|other: Seq<(PeerAddr, u64)>| cleared(sized, other) && unworkable(other) {
        let other = choose|other: Seq<(PeerAddr, u64)>| cleared(sized, other) && unworkable(other);
        let c2 = choose|c2: u64| is_most_common_last(sizes_of(sized), c2) && other == keep_size(sized, c2);
        law_most_common_last_unique(sizes_of(sized), c, c2);
        assert(other == clean);
    }
}

/// The block count of a file as the standalone daemon takes it: its whole
/// blocks only, truncated to `u32`.
pub open spec fn whole_blocks(file_size: u64) -> u32 {
    ((file_size as int) / (CHUNK_SIZE as int)) as u32
}

/// The standalone daemon cannot set up a download from these peers: their
/// number truncated to `u32` is zero, or the whole blocks reach `u32::MAX`.
pub open spec fn unworkable_whole(clean: Seq<(PeerAddr, u64)>) -> bool {
    ||| (clean.len() as u32) == 0
    ||| whole_blocks(clean[0].1) == u32::MAX
}

/// One download in progress.
pub struct DownloadSession {
    file_name: String,
    file_size: u64,
    watcher: BlockWatcher,
    peers: Vec<(PeerAddr, u64)>,
    interrupted: bool,
}

impl DownloadSession {
    /// The ranges and which of them have arrived.
    pub closed spec fn spec_segments(&self) -> Seq<Segment> {
        self.watcher@
    }

    /// The peers still in use, with the size they reported.
    pub closed spec fn spec_peers(&self) -> Seq<(PeerAddr, u64)> {
        self.peers@
    }

    /// Whether a round has ended with ranges missing.
    pub closed spec fn spec_interrupted(&self) -> bool {
        self.interrupted
    }

    /// Size of the file.
    pub closed spec fn spec_file_size(&self) -> u64 {
        self.file_size
    }

    /// Name of the file.
    pub closed spec fn spec_file_name(&self) -> Seq<char> {
        self.file_name@
    }

    /// The ranges are distinct.
    pub closed spec fn wf(&self) -> bool {
        self.watcher.wf()
    }

    /// Sets up the download of `file_name` from the peers that answered with
    /// a size: it keeps those that report the trusted size, takes that size,
    /// and splits its blocks among them. `None` when no peer answered, or the
    /// download cannot be set up from the peers kept.
    pub fn start(file_name: String, sized_peers: Vec<(PeerAddr, u64)>) -> (s: Option<
        DownloadSession,
    >)
        ensures
            match s {
                Some(s) => {
                    &&& s.wf()
                    &&& sized_peers@.len() > 0
                    &&& cleared(sized_peers@, s.spec_peers())
                    &&& !unworkable(s.spec_peers())
                    &&& s.spec_file_size() == s.spec_peers()[0].1
                    &&& s.spec_file_name() == file_name@
                    &&& s.spec_segments() == spec_segments(
                        spec_blocks_count(s.spec_file_size(), CHUNK_SIZE),
                        s.spec_peers().len() as u32,
                    )
                    &&& !s.spec_interrupted()
                },
                None => sized_peers@.len() == 0 || exists|clean: Seq<(PeerAddr, u64)>|
                    cleared(sized_peers@, clean) && unworkable(clean),
            },
    {
        if sized_peers.len() == 0 {
            return None;
        }
        let clean = match clear_fsizes(sized_peers) {
            Ok(clean) => clean,
            Err(_) => {
                return None;
            },
        };
        let ghost kept = clean@;
        let peers_count: u32 = #[verifier::truncate] (clean.len() as u32);
        if peers_count == 0 {
            assert(cleared(sized_peers@, kept) && unworkable(kept));
            return None;
        }
        proof {
            assert(clean@.len() > 0);
        }
        let file_size = clean[0].1;
        if file_size > u64::MAX - (CHUNK_SIZE as u64 - 1) {
            assert(cleared(sized_peers@, kept) && unworkable(kept));
            return None;
        }
        let blocks = blocks_count(file_size, CHUNK_SIZE);
        if blocks == u32::MAX {
            assert(cleared(sized_peers@, kept) && unworkable(kept));
            return None;
        }
        let watcher = match fill_block_watcher(blocks, peers_count) {
            Ok(w) => w,
            Err(_) => {
                return None;
            },
        };
        Some(DownloadSession { file_name, file_size, watcher, peers: clean, interrupted: false })
    }

    /// Sets up a download as the standalone daemon does: as `start`, but the
    /// file is split by its whole blocks only.
    pub fn start_whole_blocks(file_name: String, sized_peers: Vec<(PeerAddr, u64)>) -> (s: Option<
        DownloadSession,
    >)
        ensures
            match s {
                Some(s) => {
                    &&& s.wf()
                    &&& sized_peers@.len() > 0
                    &&& cleared(sized_peers@, s.spec_peers())
                    &&& !unworkable_whole(s.spec_peers())
                    &&& s.spec_file_size() == s.spec_peers()[0].1
                    &&& s.spec_file_name() == file_name@
                    &&& s.spec_segments() == spec_segments(
                        whole_blocks(s.spec_file_size()),
                        s.spec_peers().len() as u32,
                    )
                    &&& !s.spec_interrupted()
                },
                None => sized_peers@.len() == 0 || exists|clean: Seq<(PeerAddr, u64)>|
                    cleared(sized_peers@, clean) && unworkable_whole(clean),
            },
    {
        if sized_peers.len() == 0 {
            return None;
        }
        let clean = match clear_fsizes(sized_peers) {
            Ok(clean) => clean,
            Err(_) => {
                return None;
            },
        };
        let ghost kept = clean@;
        let peers_count: u32 = #[verifier::truncate] (clean.len() as u32);
        if peers_count == 0 {
            assert(cleared(sized_peers@, kept) && unworkable_whole(kept));
            return None;
        }
        let file_size = clean[0].1;
        let blocks: u32 = #[verifier::truncate] ((file_size / CHUNK_SIZE as u64) as u32);
        if blocks == u32::MAX {
            assert(cleared(sized_peers@, kept) && unworkable_whole(kept));
            return None;
        }
        let watcher = match fill_block_watcher(blocks, peers_count) {
            Ok(w) => w,
            Err(_) => {
                return None;
            },
        };
        Some(DownloadSession { file_name, file_size, watcher, peers: clean, interrupted: false })
    }

    /// Name of the file.
    pub fn file_name(&self) -> (name: &String)
        ensures
            name@ == self.spec_file_name(),
    {
        &self.file_name
    }

    /// Size of the file.
    pub fn file_size(&self) -> (size: u64)
        ensures
            size == self.spec_file_size(),
    {
        self.file_size
    }

    /// Number of ranges.
    pub fn segment_count(&self) -> (n: usize)
        ensures
            n == self.spec_segments().len(),
    {
        self.watcher.len()
    }

    /// Whether another round is due: some range is missing and some peer left.
    pub fn is_active(&self) -> (b: bool)
        ensures
            b == (has_pending(self.spec_segments()) && self.spec_peers().len() > 0),
    {
        self.watcher.any_pending() && self.peers.len() > 0
    }

    /// Whether every range has arrived.
    pub fn is_complete(&self) -> (b: bool)
        ensures
            b == !has_pending(self.spec_segments()),
    {
        !self.watcher.any_pending()
    }

    /// Hands out the missing ranges for the next round, dropping peers first
    /// when the download is interrupted. `None`, and nothing changed, when a
    /// range's position or a peer's falls outside the list of peers.
    pub fn schedule_round(&mut self) -> (r: Option<Vec<Assignment>>)
        ensures
            final(self).spec_segments() == old(self).spec_segments(),
            final(self).spec_interrupted() == old(self).spec_interrupted(),
            final(self).spec_file_size() == old(self).spec_file_size(),
            final(self).spec_file_name() == old(self).spec_file_name(),
            final(self).wf() == old(self).wf(),
            ({
                let outcome = round_from(
                    old(self).spec_segments(),
                    0,
                    0,
                    old(self).spec_peers(),
                    old(self).spec_interrupted(),
                );
                match r {
                    Some(a) => outcome.0 && a@ == outcome.1 && final(self).spec_peers()
                        == outcome.2,
                    None => !outcome.0 && final(self).spec_peers() == old(self).spec_peers(),
                }
            }),
    {
        let lines = self.watcher.snapshot();
        let interrupted = self.interrupted;
        let mut peers: Vec<(PeerAddr, u64)> = Vec::new();
        let mut c: usize = 0;
        while c < self.peers.len()
            invariant
                *self == *old(self),
                c <= self.peers@.len(),
                peers@ == self.peers@.subrange(0, c as int),
            decreases self.peers@.len() - c,
        {
            peers.push(self.peers[c]);
            c = c + 1;
        }
        proof {
            assert(peers@ =~= self.peers@);
            assert(peers@ == old(self).spec_peers());
            assert(lines@ == old(self).spec_segments());
        }
        let ghost whole = round_from(lines@, 0, 0, peers@, interrupted);
        let mut assigned: Vec<Assignment> = Vec::new();
        let mut k: usize = 0;
        let mut i: usize = 0;
        while k < lines.len()
            invariant
                *self == *old(self),
                lines@ == old(self).spec_segments(),
                interrupted == old(self).spec_interrupted(),
                whole == round_from(
                    old(self).spec_segments(),
                    0,
                    0,
                    old(self).spec_peers(),
                    old(self).spec_interrupted(),
                ),
                k <= lines@.len(),
                i <= k,
                ({
                    let rest = round_from(lines@, k as int, i as int, peers@, interrupted);
                    whole == (rest.0, assigned@ + rest.1, rest.2)
                }),
            decreases lines@.len() - k,
        {
            let g = lines[k];
            if !g.done {
                if interrupted {
                    if k >= peers.len() {
                        return None;
                    }
                    peers.remove(k);
                    if peers.len() == 0 {
                        proof {
                            assert(assigned@ + seq![] == assigned@);
                        }
                        self.peers = peers;
                        return Some(assigned);
                    }
                }
                if i >= peers.len() {
                    return None;
                }
                let ghost before = assigned@;
                assigned.push(Assignment { peer: peers[i].0, from_block: g.from_block, to_block: g.to_block });
                proof {
                    let rest = round_from(lines@, k + 1, i + 1, peers@, interrupted);
                    assert(assigned@ + rest.1 == before + (seq![Assignment { peer: peers@[i as int].0, from_block: g.from_block, to_block: g.to_block }] + rest.1));
                }
                i = i + 1;
            }
            k = k + 1;
        }
        proof {
            assert(assigned@ + seq![] == assigned@);
        }
        self.peers = peers;
        Some(assigned)
    }

    /// Records that the range `from..to` has arrived; `false`, and nothing
    /// changed, when the download has no such range.
    pub fn mark_done(&mut self, from: u32, to: u32) -> (found: bool)
        requires
            old(self).wf(),
        ensures
            final(self).wf(),
            found == has_range(old(self).spec_segments(), from, to),
            final(self).spec_segments() == spec_mark_done(old(self).spec_segments(), from, to),
            final(self).spec_peers() == old(self).spec_peers(),
            final(self).spec_interrupted() == old(self).spec_interrupted(),
            final(self).spec_file_size() == old(self).spec_file_size(),
            final(self).spec_file_name() == old(self).spec_file_name(),
    {
        self.watcher.mark_done(from, to)
    }

    /// What to ask the peer of `assignment` for, and the pieces to read back:
    /// a request for its range of the file, and the plan of that range.
    pub fn range_request(&self, assignment: &Assignment) -> (r: (HandshakeRequest, TransferPlan))
        ensures
            r.0.filename@ == self.spec_file_name(),
            r.0.action == FileSizeOrInfo::Info(
                BlockInfo { from_block: assignment.from_block, to_block: assignment.to_block },
            ),
            r.1 == spec_plan(self.spec_file_size(), CHUNK_SIZE, assignment.from_block, assignment.to_block),
            r.1.offset == CHUNK_SIZE * assignment.from_block,
            plan_total(r.1) == range_len(
                self.spec_file_size(),
                CHUNK_SIZE,
                assignment.from_block,
                assignment.to_block,
            ),
    {
        let info = BlockInfo { from_block: assignment.from_block, to_block: assignment.to_block };
        let request = HandshakeRequest {
            filename: self.file_name.clone(),
            action: FileSizeOrInfo::Info(info),
        };
        let plan = download_from_peer(
            self.file_size,
            CHUNK_SIZE,
            assignment.from_block,
            assignment.to_block,
        );
        (request, plan)
    }

    /// Records how fetching the range `from..to` ended: a range that arrived
    /// is marked done; after a failed fetch nothing changes. Returns whether a
    /// range was marked.
    pub fn record_fetch(&mut self, from: u32, to: u32, fetched: bool) -> (marked: bool)
        requires
            old(self).wf(),
        ensures
            final(self).wf(),
            marked == (fetched && has_range(old(self).spec_segments(), from, to)),
            final(self).spec_segments() == if fetched {
                spec_mark_done(old(self).spec_segments(), from, to)
            } else {
                old(self).spec_segments()
            },
            final(self).spec_peers() == old(self).spec_peers(),
            final(self).spec_interrupted() == old(self).spec_interrupted(),
            final(self).spec_file_size() == old(self).spec_file_size(),
            final(self).spec_file_name() == old(self).spec_file_name(),
    {
        if fetched {
            self.mark_done(from, to)
        } else {
            false
        }
    }

    /// Ends a round: when ranges are still missing, the download is from now
    /// on interrupted.
    pub fn end_round(&mut self)
        ensures
            final(self).spec_interrupted() == (old(self).spec_interrupted() || has_pending(
                old(self).spec_segments(),
            )),
            final(self).spec_segments() == old(self).spec_segments(),
            final(self).spec_peers() == old(self).spec_peers(),
            final(self).spec_file_size() == old(self).spec_file_size(),
            final(self).spec_file_name() == old(self).spec_file_name(),
            final(self).wf() == old(self).wf(),
    {
        if self.watcher.any_pending() && !self.interrupted {
            self.interrupted = true;
        }
    }
}

} // verus!
