//! Which bytes of a file go over the wire for a range of blocks.
//!
//! The range of blocks `from..to` stands for the bytes of the file from
//! `from * chunk_size` up to `to * chunk_size`, cut at the end of the file.
//! Both ends move them the same way: whole chunks first, then what is left of
//! the file's last block as one shorter piece. The sharing end
//! (`transfer_to_peer`) and the downloading end (`download_from_peer`) follow
//! the same plan, `spec_plan`, for every range.

use vstd::prelude::*;
use crate::blocks::{Segment, law_segments_cover, spec_segments};
use crate::config::CHUNK_SIZE;
use crate::helpers::{ceil_div, spec_blocks_count};

verus! {

/// The reads (or writes) for one range of blocks: first `full_chunks` pieces
/// of `chunk_len` bytes, then `tail_chunks` pieces of `tail_len` bytes,
/// starting at byte `offset` of the file.
#[derive(Clone, Copy, Debug, PartialEq, Eq, Structural)]
pub struct TransferPlan {
    pub offset: u64,
    pub full_chunks: u32,
    pub chunk_len: usize,
    pub tail_chunks: u32,
    pub tail_len: usize,
}

/// Number of bytes a plan moves.
pub open spec fn plan_total(p: TransferPlan) -> int {
    p.full_chunks * p.chunk_len + p.tail_chunks * p.tail_len
}

/// Where block `block` begins in a file of `file_size` bytes, or the end of
/// the file when the block begins past it.
pub open spec fn block_start(file_size: u64, chunk_size: usize, block: u32) -> int {
    if block * chunk_size < file_size {
        block * chunk_size
    } else {
        file_size as int
    }
}

/// Number of bytes of the file that blocks `from..to` hold.
pub open spec fn range_len(file_size: u64, chunk_size: usize, from: u32, to: u32) -> int {
    if from <= to {
        block_start(file_size, chunk_size, to) - block_start(file_size, chunk_size, from)
    } else {
        0
    }
}

/// The plan for blocks `from..to`: from the start of block `from`, the bytes
/// of the range as whole chunks, then the rest as one shorter piece.
pub open spec fn spec_plan(file_size: u64, chunk_size: usize, from: u32, to: u32) -> TransferPlan {
    let len = range_len(file_size, chunk_size, from, to);
    TransferPlan {
        offset: (chunk_size * from) as u64,
        full_chunks: (len / (chunk_size as int)) as u32,
        chunk_len: chunk_size,
        tail_chunks: if len % (chunk_size as int) == 0 { 0 } else { 1 },
        tail_len: (len % (chunk_size as int)) as usize,
    }
}

proof fn lemma_block_start(file_size: u64, chunk_size: usize, from: u32, to: u32)
    requires
        chunk_size > 0,
        from <= to,
    ensures
        0 <= block_start(file_size, chunk_size, from) <= block_start(file_size, chunk_size, to)
            <= file_size,
        range_len(file_size, chunk_size, from, to) <= (to - from) * chunk_size,
{
    let c = chunk_size as int;
    assert(from * c <= to * c) by (nonlinear_arith)
        requires from <= to, c > 0;
    assert(to * c - from * c == (to - from) * c) by (nonlinear_arith);
    assert(0 <= from * c) by (nonlinear_arith)
        requires c > 0;
}

proof fn lemma_plan_pieces(file_size: u64, chunk_size: usize, from: u32, to: u32)
    requires
        chunk_size > 0,
    ensures
        ({
            let p = spec_plan(file_size, chunk_size, from, to);
            let len = range_len(file_size, chunk_size, from, to);
            &&& p.full_chunks as int == len / (chunk_size as int)
            &&& p.tail_len as int == len % (chunk_size as int)
            &&& plan_total(p) == len
            &&& p.tail_chunks <= 1
            &&& p.tail_len < chunk_size
        }),
{
    let c = chunk_size as int;
    let len = range_len(file_size, chunk_size, from, to);
    if from <= to {
        lemma_block_start(file_size, chunk_size, from, to);
    }
    assert(0 <= len <= (if from <= to { (to - from) * c } else { 0 }));
    let q = len / c;
    let r = len % c;
    assert(len == q * c + r && 0 <= r < c && 0 <= q) by (nonlinear_arith)
        requires c > 0, len >= 0, q == len / c, r == len % c;
    if from <= to {
        assert(q <= to - from) by (nonlinear_arith)
            requires len == q * c + r, 0 <= r, len <= (to - from) * c, c > 0;
    } else {
        assert(q == 0) by (nonlinear_arith)
            requires len == q * c + r, 0 <= r < c, len == 0, c > 0, q >= 0;
    }
    let p = spec_plan(file_size, chunk_size, from, to);
    assert(p.full_chunks as int == q);
    assert(p.tail_len as int == r);
    if r == 0 {
        assert(plan_total(p) == q * c);
    } else {
        assert(plan_total(p) == q * c + 1 * r);
    }
}

fn plan(file_size: u64, chunk_size: usize, from: u32, to: u32) -> (p: TransferPlan)
    requires
        chunk_size > 0,
        chunk_size as int * from <= u64::MAX,
    ensures
        p == spec_plan(file_size, chunk_size, from, to),
{
    proof {
        lemma_plan_pieces(file_size, chunk_size, from, to);
        if from <= to {
            lemma_block_start(file_size, chunk_size, from, to);
        }
    }
    let c: u128 = chunk_size as u128;
    let size: u128 = file_size as u128;
    assert(c * (from as u128) <= 0xffff_ffff_ffff_ffff_u128 * 0xffff_ffff_u128) by (nonlinear_arith)
        requires c <= 0xffff_ffff_ffff_ffff_u128, from <= 0xffff_ffff_u32;
    assert(c * (to as u128) <= 0xffff_ffff_ffff_ffff_u128 * 0xffff_ffff_u128) by (nonlinear_arith)
        requires c <= 0xffff_ffff_ffff_ffff_u128, to <= 0xffff_ffff_u32;
    let start_raw: u128 = c * (from as u128);
    let end_raw: u128 = c * (to as u128);
    assert(start_raw == from * chunk_size && end_raw == to * chunk_size) by (nonlinear_arith)
        requires start_raw == c * from, end_raw == c * to, c == chunk_size;
    let start: u128 = if start_raw < size { start_raw } else { size };
    let end: u128 = if end_raw < size { end_raw } else { size };
    assert(start == block_start(file_size, chunk_size, from));
    assert(end == block_start(file_size, chunk_size, to));
    let len: u128 = if from <= to { end - start } else { 0 };
    assert(len == range_len(file_size, chunk_size, from, to));
    let full: u32 = (len / c) as u32;
    let rest: usize = (len % c) as usize;
    let tail_chunks: u32 = if rest == 0 { 0 } else { 1 };
    let offset: u64 = chunk_size as u64 * from as u64;
    TransferPlan { offset, full_chunks: full, chunk_len: chunk_size, tail_chunks, tail_len: rest }
}

/// The pieces that a download from a peer reads for blocks `from..to` of a
/// file of `file_size` bytes: the bytes from `from * chunk_size` up to
/// `to * chunk_size`, cut at the end of the file, starting at the offset of
/// block `from`.
pub fn download_from_peer(file_size: u64, chunk_size: usize, from: u32, to: u32) -> (p: TransferPlan)
    requires
        chunk_size > 0,
        chunk_size as int * from <= u64::MAX,
    ensures
        p == spec_plan(file_size, chunk_size, from, to),
        p.offset == chunk_size * from,
        plan_total(p) == range_len(file_size, chunk_size, from, to),
{
    proof {
        lemma_plan_pieces(file_size, chunk_size, from, to);
    }
    plan(file_size, chunk_size, from, to)
}

/// The pieces that a transfer to a peer sends for blocks `from..to` of a
/// file of `file_size` bytes: the same as the downloading end reads.
pub fn transfer_to_peer(file_size: u64, chunk_size: usize, from: u32, to: u32) -> (p: TransferPlan)
    requires
        chunk_size > 0,
        chunk_size as int * from <= u64::MAX,
    ensures
        p == spec_plan(file_size, chunk_size, from, to),
        p.offset == chunk_size * from,
        plan_total(p) == range_len(file_size, chunk_size, from, to),
{
    proof {
        lemma_plan_pieces(file_size, chunk_size, from, to);
    }
    plan(file_size, chunk_size, from, to)
}

/// A plan for blocks `from..to` moves exactly the bytes of the file from
/// `from * chunk_size` up to `to * chunk_size`, cut at the end of the file:
/// whole chunks, then at most one shorter piece.
pub proof fn law_plan_moves_range(file_size: u64, chunk_size: usize, from: u32, to: u32)
    requires
        chunk_size > 0,
        from <= to,
    ensures
        ({
            let p = spec_plan(file_size, chunk_size, from, to);
            let end = if to * chunk_size < file_size { to * chunk_size } else { file_size as int };
            &&& p.offset == (from * chunk_size) as u64
            &&& p.chunk_len == chunk_size
            &&& p.tail_chunks <= 1
            &&& p.tail_len < chunk_size
            &&& from * chunk_size < file_size ==> plan_total(p) == end - from * chunk_size
            &&& from * chunk_size >= file_size ==> plan_total(p) == 0
        }),
{
    lemma_plan_pieces(file_size, chunk_size, from, to);
    lemma_block_start(file_size, chunk_size, from, to);
}

/// Bytes that the plans of the ranges `segs` move, in total.
pub open spec fn split_total(file_size: u64, chunk_size: usize, segs: Seq<Segment>) -> int
    decreases segs.len(),
{
    if segs.len() == 0 {
        0
    } else {
        split_total(file_size, chunk_size, segs.drop_last()) + plan_total(
            spec_plan(file_size, chunk_size, segs.last().from_block, segs.last().to_block),
        )
    }
}

/// Ranges that follow each other without gap from block 0.
pub open spec fn contiguous_from_zero(segs: Seq<Segment>) -> bool {
    &&& segs.len() > 0 ==> segs[0].from_block == 0
    &&& forall|j: int|
        0 <= j < segs.len() - 1 ==> (#[trigger] segs[j]).to_block == segs[j + 1].from_block
    &&& forall|j: int| 0 <= j < segs.len() ==> (#[trigger] segs[j]).from_block <= segs[j].to_block
}

/// Over ranges that follow each other from block 0, the plans of the first
/// `k` ranges move the bytes up to where range `k` begins.
proof fn lemma_prefix_totals(file_size: u64, chunk_size: usize, segs: Seq<Segment>, k: int)
    requires
        chunk_size > 0,
        contiguous_from_zero(segs),
        0 <= k <= segs.len(),
    ensures
        split_total(file_size, chunk_size, segs.subrange(0, k)) == if k == 0 {
            0
        } else {
            block_start(file_size, chunk_size, segs[k - 1].to_block)
        },
    decreases k,
{
    if k == 0 {
        assert(segs.subrange(0, 0) =~= Seq::<Segment>::empty());
    } else {
        lemma_prefix_totals(file_size, chunk_size, segs, k - 1);
        let g = segs[k - 1];
        assert(segs.subrange(0, k).drop_last() =~= segs.subrange(0, k - 1));
        assert(segs.subrange(0, k).last() == g);
        lemma_plan_pieces(file_size, chunk_size, g.from_block, g.to_block);
        if k == 1 {
            assert(block_start(file_size, chunk_size, 0) == 0) by (nonlinear_arith)
                requires chunk_size > 0;
        } else {
            assert(segs[k - 2].to_block == g.from_block);
        }
    }
}

/// Over ranges that follow each other from block 0, each range's bytes begin
/// where the bytes of the ranges before it end, and all of them together are
/// the file up to where the last range ends.
pub proof fn law_ranges_read_in_order(file_size: u64, chunk_size: usize, segs: Seq<Segment>)
    requires
        chunk_size > 0,
        contiguous_from_zero(segs),
    ensures
        forall|k: int|
            0 <= k < segs.len() ==> split_total(file_size, chunk_size, #[trigger] segs.subrange(0, k))
                == block_start(file_size, chunk_size, segs[k].from_block),
        segs.len() > 0 ==> split_total(file_size, chunk_size, segs) == block_start(
            file_size,
            chunk_size,
            segs.last().to_block,
        ),
{
    assert forall|k: int| 0 <= k < segs.len() implies split_total(
        file_size,
        chunk_size,
        #[trigger] segs.subrange(0, k),
    ) == block_start(file_size, chunk_size, segs[k].from_block) by {
        lemma_prefix_totals(file_size, chunk_size, segs, k);
        if k == 0 {
            assert(block_start(file_size, chunk_size, 0) == 0) by (nonlinear_arith)
                requires chunk_size > 0;
        } else {
            assert(segs[k - 1].to_block == segs[k].from_block);
        }
    }
    if segs.len() > 0 {
        lemma_prefix_totals(file_size, chunk_size, segs, segs.len() as int);
        assert(segs.subrange(0, segs.len() as int) =~= segs);
    }
}

/// A download split as `DownloadSession::start` splits it reads the file
/// exactly: the ranges' bytes follow each other from the start of the file,
/// and together they are the whole file.
pub proof fn law_split_reads_file(file_size: u64, peers: u32)
    requires
        peers > 0,
        ceil_div(file_size as int, CHUNK_SIZE as int) < u32::MAX,
    ensures
        ({
            let segs = spec_segments(spec_blocks_count(file_size, CHUNK_SIZE), peers);
            &&& forall|k: int|
                0 <= k < segs.len() ==> split_total(file_size, CHUNK_SIZE, #[trigger] segs.subrange(0, k))
                    == block_start(file_size, CHUNK_SIZE, segs[k].from_block)
            &&& split_total(file_size, CHUNK_SIZE, segs) == file_size
        }),
{
    let size = file_size as int;
    let c = ceil_div(size, 4096);
    assert(c * 4096 >= size && c >= 0) by (nonlinear_arith)
        requires c == (size + 4096 - 1) / 4096, size >= 0;
    let blocks = spec_blocks_count(file_size, CHUNK_SIZE);
    assert(blocks as int == if c < 1 { 1 } else { c });
    assert(blocks as int * 4096 >= size);
    law_segments_cover(blocks, peers);
    let segs = spec_segments(blocks, peers);
    assert(contiguous_from_zero(segs));
    law_ranges_read_in_order(file_size, CHUNK_SIZE, segs);
    let last = segs.last().to_block;
    assert(last == blocks + 1);
    assert(last * 4096 >= size) by (nonlinear_arith)
        requires last == blocks + 1, blocks * 4096 >= size;
}

} // verus!
