//! Splitting a file into ranges of blocks, one range for each peer, and
//! keeping track of the ranges that have arrived.

use vstd::prelude::*;

verus! {

/// A range of blocks, from `from_block` up to but excluding `to_block`, and
/// whether it has been downloaded.
#[derive(Clone, Copy, Debug, PartialEq, Eq, Structural)]
pub struct Segment {
    pub from_block: u32,
    pub to_block: u32,
    pub done: bool,
}

/// The ranges into which `fill_block_watcher` splits `blocks` blocks for
/// `peers` peers, in order. With fewer blocks than peers, each block is a range;
/// otherwise each peer gets `blocks / peers` blocks and the last peer the rest.
/// The last range always reaches one block past `blocks`.
pub open spec fn spec_segments(blocks: u32, peers: u32) -> Seq<Segment> {
    if blocks < peers {
        Seq::new(
            blocks as nat,
            |i: int|
                Segment {
                    from_block: i as u32,
                    to_block: (if i == blocks - 1 {
                        i + 2
                    } else {
                        i + 1
                    }) as u32,
                    done: false,
                },
        )
    } else {
        let per = blocks / peers;
        Seq::new(
            peers as nat,
            |i: int|
                Segment {
                    from_block: (i * per) as u32,
                    to_block: (if i == peers - 1 {
                        blocks + 1
                    } else {
                        (i + 1) * per
                    }) as u32,
                    done: false,
                },
        )
    }
}

/// The ranges of blocks of one download and which of them have arrived. No
/// range occurs twice.
pub struct BlockWatcher {
    segments: Vec<Segment>,
}

impl View for BlockWatcher {
    type V = Seq<Segment>;

    closed spec fn view(&self) -> Seq<Segment> {
        self.segments@
    }
}

/// No two segments have the same range.
pub open spec fn ranges_distinct(s: Seq<Segment>) -> bool {
    forall|i: int, j: int|
        #![trigger s[i], s[j]]
        0 <= i < s.len() && 0 <= j < s.len() && i != j ==> (s[i].from_block, s[i].to_block) != (
            s[j].from_block,
            s[j].to_block,
        )
}

/// Some segment has not arrived yet.
pub open spec fn has_pending(s: Seq<Segment>) -> bool {
    exists|i: int| 0 <= i < s.len() && !(#[trigger] s[i]).done
}

/// The segments after the range `from..to` has arrived.
pub open spec fn spec_mark_done(s: Seq<Segment>, from: u32, to: u32) -> Seq<Segment> {
    s.map_values(
        |g: Segment|
            if g.from_block == from && g.to_block == to {
                Segment { done: true, ..g }
            } else {
                g
            },
    )
}

/// Some segment has the range `from..to`.
pub open spec fn has_range(s: Seq<Segment>, from: u32, to: u32) -> bool {
    exists|i: int| 0 <= i < s.len() && (#[trigger] s[i]).from_block == from && s[i].to_block == to
}

impl BlockWatcher {
    /// Its ranges are distinct.
    pub open spec fn wf(&self) -> bool {
        ranges_distinct(self@)
    }

    /// Number of segments.
    pub fn len(&self) -> (n: usize)
        ensures
            n == self@.len(),
    {
        self.segments.len()
    }

    /// The segments, in order.
    pub fn segments(&self) -> (s: &Vec<Segment>)
        ensures
            s@ == self@,
    {
        &self.segments
    }

    /// A copy of the segments, in order.
    pub fn snapshot(&self) -> (s: Vec<Segment>)
        ensures
            s@ == self@,
    {
        let mut s: Vec<Segment> = Vec::new();
        let mut i: usize = 0;
        while i < self.segments.len()
            invariant
                i <= self.segments@.len(),
                s@ == self.segments@.subrange(0, i as int),
            decreases self.segments@.len() - i,
        {
            s.push(self.segments[i]);
            i = i + 1;
        }
        assert(s@ == self.segments@.subrange(0, self.segments@.len() as int));
        s
    }

    /// Whether some segment has not arrived yet.
    pub fn any_pending(&self) -> (b: bool)
        ensures
            b == has_pending(self@),
    {
        let mut i: usize = 0;
        while i < self.segments.len()
            invariant
                i <= self.segments@.len(),
                forall|j: int| 0 <= j < i ==> (#[trigger] self.segments@[j]).done,
            decreases self.segments@.len() - i,
        {
            if !self.segments[i].done {
                return true;
            }
            i = i + 1;
        }
        false
    }

    /// Records that the range `from..to` has arrived. Returns `false`, and
    /// changes nothing, when no segment has that range.
    pub fn mark_done(&mut self, from: u32, to: u32) -> (found: bool)
        requires
            old(self).wf(),
        ensures
            final(self).wf(),
            found == has_range(old(self)@, from, to),
            final(self)@ == spec_mark_done(old(self)@, from, to),
    {
        let ghost before = self@;
        let mut i: usize = 0;
        while i < self.segments.len()
            invariant
                i <= self.segments@.len(),
                before == self.segments@,
                before == old(self)@,
                ranges_distinct(before),
                forall|j: int|
                    0 <= j < i ==> !((#[trigger] self.segments@[j]).from_block == from
                        && self.segments@[j].to_block == to),
            decreases self.segments@.len() - i,
        {
            if self.segments[i].from_block == from && self.segments[i].to_block == to {
                let g = self.segments[i];
                assert(has_range(before, from, to)) by {
                    assert(before[i as int].from_block == from);
                }
                self.segments.set(i, Segment { from_block: g.from_block, to_block: g.to_block, done: true });
                proof {
                    assert(self@ =~= spec_mark_done(before, from, to)) by {
                        assert forall|j: int| 0 <= j < before.len() && j != i implies !(
                        before[j].from_block == from && before[j].to_block == to) by {
                            assert(ranges_distinct(before));
                            assert((before[j].from_block, before[j].to_block) != (
                                before[i as int].from_block,
                                before[i as int].to_block,
                            ));
                        }
                    }
                    assert(ranges_distinct(self@)) by {
                        assert forall|a: int, b: int|
                            #![trigger self@[a], self@[b]]
                            0 <= a < self@.len() && 0 <= b < self@.len() && a != b implies (
                            self@[a].from_block,
                            self@[a].to_block,
                        ) != (self@[b].from_block, self@[b].to_block) by {
                            assert(before[a].from_block == self@[a].from_block);
                            assert(before[b].from_block == self@[b].from_block);
                            assert(before[a].to_block == self@[a].to_block);
                            assert(before[b].to_block == self@[b].to_block);
                        }
                    }
                }
                return true;
            }
            i = i + 1;
        }
        proof {
            assert(self@ =~= spec_mark_done(before, from, to));
        }
        false
    }
}

proof fn lemma_step_bounds(i: int, peers: int, blocks: int)
    requires
        0 <= i < peers,
        peers <= blocks,
        peers > 0,
    ensures
        (i + 1) * (blocks / peers) <= blocks,
        i * (blocks / peers) < (i + 1) * (blocks / peers),
        i * (blocks / peers) + (blocks / peers) == (i + 1) * (blocks / peers),
        (i * (blocks / peers)) < blocks + 1,
{
    let per = blocks / peers;
    assert(per >= 1) by (nonlinear_arith)
        requires peers <= blocks, peers > 0, per == blocks / peers;
    assert(per * peers <= blocks) by (nonlinear_arith)
        requires peers > 0, per == blocks / peers, blocks >= 0;
    assert((i + 1) * per <= peers * per) by (nonlinear_arith)
        requires i + 1 <= peers, per >= 1;
    assert(peers * per == per * peers) by (nonlinear_arith);
    assert(i * per < (i + 1) * per) by (nonlinear_arith)
        requires per >= 1;
    assert(i * per + per == (i + 1) * per) by (nonlinear_arith);
}

/// The split of `blocks` blocks among `peers` peers covers blocks `0` to
/// `blocks + 1` with ranges that follow each other without gap or overlap,
/// every range but the last ending at or before block `blocks`.
pub proof fn law_segments_cover(blocks: u32, peers: u32)
    requires
        peers > 0,
        blocks < u32::MAX,
    ensures
        ({
            let s = spec_segments(blocks, peers);
            &&& s.len() == if blocks < peers { blocks as nat } else { peers as nat }
            &&& s.len() > 0 ==> s[0].from_block == 0 && s.last().to_block == blocks + 1
                && s.last().from_block <= blocks
            &&& forall|k: int|
                0 <= k < s.len() - 1 ==> (#[trigger] s[k]).to_block == s[k + 1].from_block
                    && s[k].to_block <= blocks
            &&& forall|k: int| 0 <= k < s.len() ==> (#[trigger] s[k]).from_block < s[k].to_block
                && !s[k].done
        }),
{
    let s = spec_segments(blocks, peers);
    if blocks >= peers {
        assert forall|k: int| 0 <= k < s.len() implies (#[trigger] s[k]).from_block < s[k].to_block by {
            lemma_step_bounds(k, peers as int, blocks as int);
        }
        assert forall|k: int| 0 <= k < s.len() - 1 implies (#[trigger] s[k]).to_block == s[k + 1].from_block
            && s[k].to_block <= blocks by {
            lemma_step_bounds(k, peers as int, blocks as int);
        }
        if s.len() > 0 {
            lemma_step_bounds(peers - 1, peers as int, blocks as int);
            assert(s[0].from_block == 0);
        }
    }
}

/// Every range of the split but the last spans the same number of blocks:
/// `blocks / peers` of them, or one when there are fewer blocks than peers;
/// the last range takes the rest, up to one block past `blocks`.
pub proof fn law_segments_even(blocks: u32, peers: u32)
    requires
        peers > 0,
        blocks < u32::MAX,
    ensures
        ({
            let s = spec_segments(blocks, peers);
            let width = if blocks < peers { 1 } else { blocks / peers };
            &&& forall|k: int| 0 <= k < s.len() - 1 ==> (#[trigger] s[k]).to_block - s[k].from_block == width
            &&& s.len() > 0 ==> s.last().to_block - s.last().from_block >= width
        }),
{
    let s = spec_segments(blocks, peers);
    if blocks >= peers {
        let per = blocks / peers;
        assert forall|k: int| 0 <= k < s.len() - 1 implies (#[trigger] s[k]).to_block - s[k].from_block
            == per by {
            lemma_step_bounds(k, peers as int, blocks as int);
        }
        lemma_step_bounds(peers - 1, peers as int, blocks as int);
        assert(per * peers <= blocks) by (nonlinear_arith)
            requires peers > 0, per == blocks / peers, blocks >= 0;
        assert((peers - 1) * per + per == per * peers) by (nonlinear_arith);
    }
}

/// Splits `blocks` blocks into ranges for `peers_count` peers, none of them
/// downloaded yet. The ranges follow each other without gap from block 0 to
/// one block past `blocks`; there are `blocks` of them when there are fewer
/// blocks than peers, and one per peer otherwise.
pub fn fill_block_watcher(blocks: u32, peers_count: u32) -> (r: Result<BlockWatcher, std::io::Error>)
    requires
        peers_count > 0,
        blocks < u32::MAX,
    ensures
        match r {
            Ok(w) => {
                &&& w.wf()
                &&& w@ == spec_segments(blocks, peers_count)
                &&& w@.len() == if blocks < peers_count { blocks as nat } else { peers_count as nat }
                &&& w@.len() > 0 ==> w@[0].from_block == 0 && w@.last().to_block == blocks + 1
                &&& forall|k: int|
                    0 <= k < w@.len() - 1 ==> (#[trigger] w@[k]).to_block == w@[k + 1].from_block
                &&& forall|k: int|
                    0 <= k < w@.len() ==> (#[trigger] w@[k]).from_block < w@[k].to_block
                        && !w@[k].done
            },
            Err(_) => false,
        },
{
    let mut segments: Vec<Segment> = Vec::new();
    let ghost target = spec_segments(blocks, peers_count);
    if blocks < peers_count {
        let mut i: u32 = 0;
        while i < blocks
            invariant
                i <= blocks,
                blocks < peers_count,
                target == spec_segments(blocks, peers_count),
                segments@ == target.subrange(0, i as int),
            decreases blocks - i,
        {
            if i == blocks - 1 {
                segments.push(Segment { from_block: i, to_block: i + 2, done: false });
            } else {
                segments.push(Segment { from_block: i, to_block: i + 1, done: false });
            }
            proof {
                assert(segments@ =~= target.subrange(0, i + 1));
            }
            i = i + 1;
        }
    } else {
        let blocks_per_peer = blocks / peers_count;
        let mut i: u32 = 0;
        while i < peers_count
            invariant
                i <= peers_count,
                peers_count <= blocks < u32::MAX,
                blocks_per_peer == blocks / peers_count,
                target == spec_segments(blocks, peers_count),
                segments@ == target.subrange(0, i as int),
            decreases peers_count - i,
        {
            proof {
                lemma_step_bounds(i as int, peers_count as int, blocks as int);
            }
            let fblock = i * blocks_per_peer;
            let mut lblock = fblock + blocks_per_peer;
            if i == peers_count - 1 {
                lblock = blocks + 1;
            }
            segments.push(Segment { from_block: fblock, to_block: lblock, done: false });
            proof {
                assert(segments@ =~= target.subrange(0, i + 1));
            }
            i = i + 1;
        }
    }
    proof {
        assert(segments@ =~= target);
        let n = target.len();
        law_segments_cover(blocks, peers_count);
        assert forall|a: int, b: int|
            #![trigger target[a], target[b]]
            0 <= a < n && 0 <= b < n && a != b implies (target[a].from_block, target[a].to_block)
            != (target[b].from_block, target[b].to_block) by {
            if blocks >= peers_count {
                let per = blocks as int / peers_count as int;
                lemma_step_bounds(a, peers_count as int, blocks as int);
                lemma_step_bounds(b, peers_count as int, blocks as int);
                if a < b {
                    assert(a * per < b * per) by (nonlinear_arith) requires a < b, per >= 1;
                } else {
                    assert(b * per < a * per) by (nonlinear_arith) requires b < a, per >= 1;
                }
            }
        }
    }
    Ok(BlockWatcher { segments })
}

} // verus!
