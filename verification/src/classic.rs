//! The standalone daemon: its names for the shared types, and the places
//! where its decisions differ from the workspace daemon's.
//!
//! It answers a request to download a file it shares with its own message,
//! and splits a file by its whole blocks only; it sends blocks by the same
//! plan as the workspace daemon.

use vstd::prelude::*;
use crate::blocks::{BlockWatcher, law_segments_cover, spec_segments};
use crate::config::CHUNK_SIZE;
use crate::download::whole_blocks;
use crate::daemon::{DaemonEffect, action_outcome, action_servable, reported_sizes,
    any_not_shared, HandshakeStep};
use crate::entities::{Action, FileInfo as SizeAnswer, BlockInfo, FileState, HandshakeRequest,
    HandshakeResponse, PathMap, Response, TransferMap};
use crate::fsizes::cleared;
use crate::net::PeerAddr;
use crate::plans::{TransferPlan, block_start, contiguous_from_zero, law_ranges_read_in_order,
    plan_total, range_len, spec_plan, split_total};

verus! {

/// A request from the client.
pub type Command = Action;

/// The answer to the client.
pub type Answer = Response;

/// What a daemon knows of files.
pub type DataTemp = FileState;

/// First message between daemons.
pub type FirstRequest = HandshakeRequest;

/// A range of blocks.
pub type FileInfo = BlockInfo;

/// Size request or range request.
pub type FileSizeorInfo = crate::entities::FileSizeOrInfo;

/// Answer to a size request.
pub type AnswerToFirstRequest = HandshakeResponse;

/// The size, or that the file is not shared.
pub type EnumAnswer = SizeAnswer;

/// Serves a request of the client as `action_processor` does, refusing the
/// download of a shared file with "You already own this file, and even
/// sharing!".
pub fn command_processor(
    com: &Command,
    data: &mut DataTemp,
    transferring: &TransferMap,
    downloading: &Vec<String>,
) -> (r: (Answer, DaemonEffect))
    requires
        old(data).wf(),
        transferring.wf(),
        action_servable(*com),
    ensures
        final(data).wf(),
        action_outcome(
            *com,
            *old(data),
            *final(data),
            *transferring,
            downloading@,
            "You already own this file, and even sharing!"@,
            r.0,
            r.1,
        ),
{
    crate::daemon::process_action(
        com,
        data,
        transferring,
        downloading,
        "You already own this file, and even sharing!",
    )
}

/// Keeps the peers that report the most common file size, as `clear_fsizes`.
pub fn remove_other_fsizes_in_vec(peers: Vec<(PeerAddr, u64)>) -> (r: Result<
    Vec<(PeerAddr, u64)>,
    std::io::Error,
>)
    requires
        peers@.len() > 0,
    ensures
        match r {
            Ok(kept) => cleared(peers@, kept@),
            Err(_) => false,
        },
{
    crate::fsizes::clear_fsizes(peers)
}

/// Splits `blocks` blocks among `peers_count` peers, as the workspace
/// daemon's `fill_block_watcher`.
pub fn fill_block_watcher(blocks: u32, peers_count: u32) -> (r: Result<BlockWatcher, std::io::Error>)
    requires
        peers_count > 0,
        blocks < u32::MAX,
    ensures
        match r {
            Ok(w) => w.wf() && w@ == spec_segments(blocks, peers_count),
            Err(_) => false,
        },
{
    crate::blocks::fill_block_watcher(blocks, peers_count)
}

/// Collects the answers of peers to a size request, as `get_fsizes`.
pub fn get_fsize_on_each_peer(replies: &Vec<(PeerAddr, SizeAnswer)>) -> (r: (
    Vec<(PeerAddr, u64)>,
    bool,
))
    ensures
        r.0@ == reported_sizes(replies@),
        r.1 == any_not_shared(replies@),
{
    crate::daemon::get_fsizes(replies)
}

/// Decides on the first message of another daemon, as `handle_handshake`.
pub fn handle_first_share_request(shared: &PathMap, request: &FirstRequest) -> (step: Option<
    HandshakeStep,
>)
    requires
        shared.wf(),
    ensures
        match request.action {
            crate::entities::FileSizeOrInfo::Size => match step {
                Some(HandshakeStep::Refuse { response }) => !shared@.dom().contains(
                    request.filename@,
                ) && response.filename@ == request.filename@ && response.answer
                    == SizeAnswer::NotExist,
                Some(HandshakeStep::ReportSize { filename, path }) => shared@.dom().contains(
                    request.filename@,
                ) && filename@ == request.filename@ && path == shared@[request.filename@],
                _ => false,
            },
            crate::entities::FileSizeOrInfo::Info(info) => match step {
                Some(HandshakeStep::Transfer { info: i, filename, path }) => shared@.dom().contains(
                    request.filename@,
                ) && i == info && filename@ == request.filename@ && path
                    == shared@[request.filename@],
                None => !shared@.dom().contains(request.filename@),
                _ => false,
            },
        },
{
    crate::daemon::handle_handshake(shared, request)
}

/// The pieces that the standalone daemon sends for blocks `from..to`: the
/// same plan as both ends of the workspace daemon follow.
pub fn share_to_peer(file_size: u64, chunk_size: usize, from: u32, to: u32) -> (p: TransferPlan)
    requires
        chunk_size > 0,
        chunk_size as int * from <= u64::MAX,
    ensures
        p == spec_plan(file_size, chunk_size, from, to),
        p.offset == chunk_size * from,
        plan_total(p) == range_len(file_size, chunk_size, from, to),
{
    crate::plans::transfer_to_peer(file_size, chunk_size, from, to)
}

/// Splitting a file by its whole blocks, as the standalone daemon does, the
/// ranges' bytes follow each other from the start of the file and together
/// are the whole file, for a file of at least one block.
pub proof fn law_whole_block_download_reads_file(file_size: u64, peers: u32)
    requires
        peers > 0,
        CHUNK_SIZE <= file_size,
        (file_size as int) / (CHUNK_SIZE as int) < u32::MAX,
    ensures
        ({
            let segs = spec_segments(whole_blocks(file_size), peers);
            &&& forall|k: int|
                0 <= k < segs.len() ==> split_total(file_size, CHUNK_SIZE, #[trigger] segs.subrange(0, k))
                    == block_start(file_size, CHUNK_SIZE, segs[k].from_block)
            &&& split_total(file_size, CHUNK_SIZE, segs) == file_size
        }),
{
    let size = file_size as int;
    let q = size / 4096;
    assert(size < (q + 1) * 4096 && q >= 1) by (nonlinear_arith)
        requires size >= 4096, q == size / 4096;
    let w = whole_blocks(file_size);
    assert(w as int == q);
    law_segments_cover(w, peers);
    let segs = spec_segments(w, peers);
    assert(contiguous_from_zero(segs));
    law_ranges_read_in_order(file_size, CHUNK_SIZE, segs);
    assert(segs.last().to_block == q + 1);
}

} // verus!
