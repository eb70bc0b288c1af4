//! The daemon's decisions: what it answers its client, what it answers other
//! daemons, and how it keeps its lists.

use vstd::prelude::*;
use crate::entities::{
    Action, BlockInfo, FileInfo, FileSizeOrInfo, FileState, HandshakeRequest, HandshakeResponse,
    PathMap, Response, TransferMap, peer_lists,
};
use crate::net::{PeerAddr, copy_peers};
use crate::paths::{share_name, share_name_of};
use crate::text::owned;
use crate::config::CHUNK_SIZE;
use crate::plans::{TransferPlan, spec_plan, transfer_to_peer};
use crate::transfer::{TransferGuard, spec_add_peer};

verus! {

/// What the daemon does, besides answering, after a request of its client.
pub enum DaemonEffect {
    /// Nothing more.
    Nothing,
    /// Download `file_name` from `peers` into `save_path`; when `wait` holds,
    /// answer only once the download has ended.
    StartDownload { file_name: String, save_path: String, peers: Vec<PeerAddr>, wait: bool },
    /// Send the scan request to the multicast group.
    SendScanRequest,
}

/// A copy of a list of names.
pub fn copy_names(names: &Vec<String>) -> (copy: Vec<String>)
    ensures
        copy@ == names@,
{
    let mut copy: Vec<String> = Vec::new();
    let mut i: usize = 0;
    while i < names.len()
        invariant
            i <= names@.len(),
            copy@ == names@.subrange(0, i as int),
        decreases names@.len() - i,
    {
        copy.push(names[i].clone());
        i = i + 1;
    }
    assert(copy@ == names@.subrange(0, names@.len() as int));
    copy
}

/// The daemon's answer and next step for `action`, with `already_sharing` as
/// the message that refuses the download of a file this daemon shares.
pub open spec fn action_outcome(
    action: Action,
    data: FileState,
    new_data: FileState,
    transferring: TransferMap,
    downloading: Seq<String>,
    already_sharing: Seq<char>,
    response: Response,
    effect: DaemonEffect,
) -> bool {
    match action {
        Action::Share { file_path } => {
            &&& new_data.available == data.available
            &&& new_data.shared@ == data.shared@.insert(share_name_of(file_path@)->Some_0, file_path)
            &&& response is Success
            &&& effect is Nothing
        },
        Action::Download { file_name, save_path, wait } => {
            &&& new_data == data
            &&& if !data.available@.dom().contains(file_name@) {
                &&& response matches Response::Error(m) && m@ == "File is not available to download!"@
                &&& effect is Nothing
            } else if data.shared@.dom().contains(file_name@) {
                &&& response matches Response::Error(m) && m@ == already_sharing
                &&& effect is Nothing
            } else {
                &&& response is Success
                &&& effect matches DaemonEffect::StartDownload { file_name: f, save_path: s, peers, wait: w }
                &&& f@ == file_name@
                &&& s@ == save_path@
                &&& peers@ == data.available@[file_name@]@
                &&& w == wait
            }
        },
        Action::Scan => {
            &&& new_data.available@ == Map::<Seq<char>, Vec<PeerAddr>>::empty()
            &&& new_data.shared == data.shared
            &&& response is Success
            &&& effect is SendScanRequest
        },
        Action::Ls => {
            &&& new_data == data
            &&& response matches Response::Ls { available_map } && available_map.wf() && peer_lists(
                available_map,
            ) == peer_lists(data.available)
            &&& effect is Nothing
        },
        Action::Status => {
            &&& new_data == data
            &&& response matches Response::Status { transferring_map, shared_map, downloading_map }
                && transferring_map.wf() && peer_lists(transferring_map) == peer_lists(transferring)
                && shared_map.wf() && shared_map@ == data.shared@ && downloading_map@ == downloading
            &&& effect is Nothing
        },
    }
}

/// Once a file is shared, a request to download it is refused, whatever the
/// daemon knows of other peers.
pub proof fn law_shared_file_is_not_downloaded(
    share: Action,
    download: Action,
    d1: FileState,
    d2: FileState,
    d3: FileState,
    transferring: TransferMap,
    downloading: Seq<String>,
    already_sharing: Seq<char>,
    r1: Response,
    e1: DaemonEffect,
    r2: Response,
    e2: DaemonEffect,
)
    requires
        share matches Action::Share { file_path } && download matches Action::Download {
            file_name,
            ..
        } && share_name_of(file_path@) == Some(file_name@),
        action_outcome(share, d1, d2, transferring, downloading, already_sharing, r1, e1),
        action_outcome(download, d2, d3, transferring, downloading, already_sharing, r2, e2),
    ensures
        r2 is Error,
        e2 is Nothing,
        d3 == d2,
{
}

/// A download is started exactly for a file that some peer offers and this
/// daemon does not share, from exactly the peers that offer it; a file no
/// peer offers is refused as not available, a shared one as already shared.
/// The daemon's lists do not change either way.
pub proof fn law_download_only_offered_files(
    action: Action,
    data: FileState,
    new_data: FileState,
    transferring: TransferMap,
    downloading: Seq<String>,
    already_sharing: Seq<char>,
    r: Response,
    e: DaemonEffect,
)
    requires
        action is Download,
        action_outcome(action, data, new_data, transferring, downloading, already_sharing, r, e),
    ensures
        new_data == data,
        ({
            let name = action->Download_file_name@;
            &&& (r is Success) == (data.available@.dom().contains(name) && !data.shared@.dom().contains(name))
            &&& r is Success ==> (e matches DaemonEffect::StartDownload { file_name, peers, .. }
                && file_name@ == name && peers@ == data.available@[name]@)
            &&& !(r is Success) ==> e is Nothing
            &&& !data.available@.dom().contains(name) ==> (r matches Response::Error(m) && m@
                == "File is not available to download!"@)
            &&& data.available@.dom().contains(name) && data.shared@.dom().contains(name) ==> (
            r matches Response::Error(m) && m@ == already_sharing)
        }),
{
}

/// Sharing a file records its path under its name, and changes nothing
/// else: every other shared file and every downloadable file stay as they
/// were.
pub proof fn law_share_records_path(
    action: Action,
    data: FileState,
    new_data: FileState,
    transferring: TransferMap,
    downloading: Seq<String>,
    already_sharing: Seq<char>,
    r: Response,
    e: DaemonEffect,
    name: Seq<char>,
)
    requires
        action is Share,
        share_name_of(action->Share_file_path@) == Some(name),
        action_outcome(action, data, new_data, transferring, downloading, already_sharing, r, e),
    ensures
        new_data.shared@.dom() == data.shared@.dom().insert(name),
        new_data.shared@[name] == action->Share_file_path,
        forall|k: Seq<char>| #[trigger] data.shared@.dom().contains(k) && k != name ==> new_data.shared@[k]
            == data.shared@[k],
        new_data.available == data.available,
        r is Success,
{
}

/// After a scan request, the daemon lists no downloadable file until answers
/// to the scan arrive.
pub proof fn law_scan_forgets_available_files(
    d1: FileState,
    d2: FileState,
    d3: FileState,
    transferring: TransferMap,
    downloading: Seq<String>,
    already_sharing: Seq<char>,
    r1: Response,
    e1: DaemonEffect,
    r2: Response,
    e2: DaemonEffect,
)
    requires
        action_outcome(Action::Scan, d1, d2, transferring, downloading, already_sharing, r1, e1),
        action_outcome(Action::Ls, d2, d3, transferring, downloading, already_sharing, r2, e2),
    ensures
        r2 matches Response::Ls { available_map } && peer_lists(available_map)
            == Map::<Seq<char>, Seq<PeerAddr>>::empty(),
{
    assert(peer_lists(d2.available) =~= Map::<Seq<char>, Seq<PeerAddr>>::empty());
}

/// The request can be served: a shared path names a file.
pub open spec fn action_servable(action: Action) -> bool {
    action matches Action::Share { file_path } ==> share_name_of(file_path@) is Some
}

pub(crate) fn process_action(
    action: &Action,
    data: &mut FileState,
    transferring: &TransferMap,
    downloading: &Vec<String>,
    already_sharing: &str,
) -> (r: (Response, DaemonEffect))
    requires
        old(data).wf(),
        transferring.wf(),
        action_servable(*action),
    ensures
        final(data).wf(),
        action_outcome(
            *action,
            *old(data),
            *final(data),
            *transferring,
            downloading@,
            already_sharing@,
            r.0,
            r.1,
        ),
{
    match action {
        Action::Share { file_path } => {
            let name = share_name(file_path.as_str()).unwrap();
            data.shared.insert(name, file_path.clone());
            (Response::Success, DaemonEffect::Nothing)
        },
        Action::Download { file_name, save_path, wait } => {
            match data.available.get(file_name) {
                None => (
                    Response::Error(owned("File is not available to download!")),
                    DaemonEffect::Nothing,
                ),
                Some(peers) => {
                    if data.shared.contains_key(file_name) {
                        (Response::Error(owned(already_sharing)), DaemonEffect::Nothing)
                    } else {
                        let peers = copy_peers(peers);
                        (
                            Response::Success,
                            DaemonEffect::StartDownload {
                                file_name: file_name.clone(),
                                save_path: save_path.clone(),
                                peers,
                                wait: *wait,
                            },
                        )
                    }
                },
            }
        },
        Action::Scan => {
            data.available.clear();
            (Response::Success, DaemonEffect::SendScanRequest)
        },
        Action::Ls => {
            (Response::Ls { available_map: data.available.duplicate() }, DaemonEffect::Nothing)
        },
        Action::Status => {
            (
                Response::Status {
                    transferring_map: transferring.duplicate(),
                    shared_map: data.shared.duplicate(),
                    downloading_map: copy_names(downloading),
                },
                DaemonEffect::Nothing,
            )
        },
    }
}

/// Serves a request of the client: shares a file under its name, refuses or
/// starts a download, forgets the downloadable files before a scan, or
/// reports the downloadable files or the daemon's status.
pub fn action_processor(
    action: &Action,
    data: &mut FileState,
    transferring: &TransferMap,
    downloading: &Vec<String>,
) -> (r: (Response, DaemonEffect))
    requires
        old(data).wf(),
        transferring.wf(),
        action_servable(*action),
    ensures
        final(data).wf(),
        action_outcome(
            *action,
            *old(data),
            *final(data),
            *transferring,
            downloading@,
            "You are already sharing this file!"@,
            r.0,
            r.1,
        ),
{
    process_action(action, data, transferring, downloading, "You are already sharing this file!")
}

/// Whether the client's request can be served; a request to share a path that
/// names no file cannot.
pub fn is_servable(action: &Action) -> (b: bool)
    ensures
        b == action_servable(*action),
{
    match action {
        Action::Share { file_path } => share_name(file_path.as_str()).is_some(),
        _ => true,
    }
}

/// What a sharing daemon does with the first message of another daemon.
pub enum HandshakeStep {
    /// The file is not shared: send this answer and stop.
    Refuse { response: HandshakeResponse },
    /// Send the size of the file at `path`, under `filename`, and stop.
    ReportSize { filename: String, path: String },
    /// Send the blocks `info` of the file at `path`.
    Transfer { info: BlockInfo, filename: String, path: String },
}

/// Decides on the first message of another daemon: a request for the size
/// of a file that is not shared is refused, one for a shared file is answered
/// with its size, and a request for blocks of a shared file starts the
/// transfer. `None` for a request for blocks of a file that is not shared,
/// which cannot be served.
pub fn handle_handshake(shared: &PathMap, request: &HandshakeRequest) -> (step: Option<
    HandshakeStep,
>)
    requires
        shared.wf(),
    ensures
        match request.action {
            FileSizeOrInfo::Size => match step {
                Some(HandshakeStep::Refuse { response }) => !shared@.dom().contains(
                    request.filename@,
                ) && response.filename@ == request.filename@ && response.answer
                    == FileInfo::NotExist,
                Some(HandshakeStep::ReportSize { filename, path }) => shared@.dom().contains(
                    request.filename@,
                ) && filename@ == request.filename@ && path == shared@[request.filename@],
                _ => false,
            },
            FileSizeOrInfo::Info(info) => match step {
                Some(HandshakeStep::Transfer { info: i, filename, path }) => shared@.dom().contains(
                    request.filename@,
                ) && i == info && filename@ == request.filename@ && path
                    == shared@[request.filename@],
                None => !shared@.dom().contains(request.filename@),
                _ => false,
            },
        },
{
    match request.action {
        FileSizeOrInfo::Size => match shared.get(&request.filename) {
            None => Some(
                HandshakeStep::Refuse {
                    response: HandshakeResponse {
                        filename: request.filename.clone(),
                        answer: FileInfo::NotExist,
                    },
                },
            ),
            Some(path) => Some(
                HandshakeStep::ReportSize { filename: request.filename.clone(), path: path.clone() },
            ),
        },
        FileSizeOrInfo::Info(info) => match shared.get(&request.filename) {
            None => None,
            Some(path) => Some(
                HandshakeStep::Transfer {
                    info,
                    filename: request.filename.clone(),
                    path: path.clone(),
                },
            ),
        },
    }
}

/// The peers that reported a size, with it, in order.
pub open spec fn reported_sizes(replies: Seq<(PeerAddr, FileInfo)>) -> Seq<(PeerAddr, u64)>
    decreases replies.len(),
{
    if replies.len() == 0 {
        seq![]
    } else {
        let rest = reported_sizes(replies.drop_last());
        match replies.last().1 {
            FileInfo::Size(n) => rest.push((replies.last().0, n)),
            FileInfo::NotExist => rest,
        }
    }
}

/// The peer and size of a reply that reports a size.
pub open spec fn size_pair(reply: (PeerAddr, FileInfo)) -> (PeerAddr, u64) {
    (reply.0, reply.1->Size_0)
}

/// Every reply that reports a size is kept, with its peer, in the order the
/// replies came, and no other: the size answers are the replies that hold a
/// size, each taken as (peer, size).
pub proof fn law_every_size_reply_is_kept(replies: Seq<(PeerAddr, FileInfo)>)
    ensures
        reported_sizes(replies) == replies.filter(|r: (PeerAddr, FileInfo)| r.1 is Size).map_values(
            |r: (PeerAddr, FileInfo)| size_pair(r),
        ),
    decreases replies.len(),
{
    reveal(Seq::filter);
    let pred = |r: (PeerAddr, FileInfo)| r.1 is Size;
    let f = |r: (PeerAddr, FileInfo)| size_pair(r);
    if replies.len() == 0 {
        assert(replies.filter(pred).map_values(f) =~= Seq::<(PeerAddr, u64)>::empty());
    } else {
        let t = replies.drop_last();
        law_every_size_reply_is_kept(t);
        let sub = t.filter(pred);
        assert(replies.filter(pred) == if pred(replies.last()) { sub.push(replies.last()) } else { sub });
        if pred(replies.last()) {
            assert(sub.push(replies.last()).map_values(f) =~= sub.map_values(f).push(f(replies.last())));
        }
    }
}

/// Some peer answered that it does not share the file.
pub open spec fn any_not_shared(replies: Seq<(PeerAddr, FileInfo)>) -> bool {
    exists|i: int| 0 <= i < replies.len() && (#[trigger] replies[i]).1 == FileInfo::NotExist
}

/// The list of files is to be refreshed exactly when some reply carries no
/// size: the sizes kept are then fewer than the replies.
pub proof fn law_refresh_when_a_size_is_missing(replies: Seq<(PeerAddr, FileInfo)>)
    ensures
        any_not_shared(replies) == (reported_sizes(replies).len() < replies.len()),
        reported_sizes(replies).len() <= replies.len(),
    decreases replies.len(),
{
    if replies.len() > 0 {
        let t = replies.drop_last();
        law_refresh_when_a_size_is_missing(t);
        if any_not_shared(t) {
            let i = choose|i: int| 0 <= i < t.len() && (#[trigger] t[i]).1 == FileInfo::NotExist;
            assert(replies[i] == t[i]);
        }
        if replies.last().1 == FileInfo::NotExist {
            assert(replies[replies.len() - 1].1 == FileInfo::NotExist);
        }
        if any_not_shared(replies) {
            let i = choose|i: int| 0 <= i < replies.len() && (#[trigger] replies[i]).1 == FileInfo::NotExist;
            if i < t.len() {
                assert(t[i] == replies[i]);
            }
        }
    }
}

/// Starts serving a step of the handshake to `peer`: for a transfer, records
/// that `peer` is downloading the file and gives the guard that will take it
/// out again, with the pieces to send from a file of `file_size` bytes; any
/// other step starts no transfer and leaves the lists as they are.
pub fn begin_transfer(
    transferring: &mut TransferMap,
    step: &HandshakeStep,
    peer: PeerAddr,
    file_size: u64,
) -> (r: Option<(TransferGuard, TransferPlan)>)
    requires
        old(transferring).wf(),
    ensures
        final(transferring).wf(),
        match *step {
            HandshakeStep::Transfer { info, filename, .. } => {
                &&& r matches Some((guard, plan))
                &&& guard.filename@ == filename@
                &&& guard.peer == peer
                &&& plan == spec_plan(file_size, CHUNK_SIZE, info.from_block, info.to_block)
                &&& peer_lists(*final(transferring)) == spec_add_peer(
                    peer_lists(*old(transferring)),
                    filename@,
                    peer,
                )
            },
            _ => r is None && *final(transferring) == *old(transferring),
        },
{
    match step {
        HandshakeStep::Transfer { info, filename, .. } => {
            let guard = TransferGuard::new(transferring, filename.clone(), peer);
            let plan = transfer_to_peer(file_size, CHUNK_SIZE, info.from_block, info.to_block);
            Some((guard, plan))
        },
        _ => None,
    }
}

/// Collects the answers of peers to a request for a file's size: the peers
/// that reported a size, with it, in order, and whether the list of files
/// should be refreshed because some peer no longer shares the file.
pub fn get_fsizes(replies: &Vec<(PeerAddr, FileInfo)>) -> (r: (Vec<(PeerAddr, u64)>, bool))
    ensures
        r.0@ == reported_sizes(replies@),
        r.1 == any_not_shared(replies@),
{
    let mut peers: Vec<(PeerAddr, u64)> = Vec::new();
    let mut refresh = false;
    let mut i: usize = 0;
    while i < replies.len()
        invariant
            i <= replies@.len(),
            peers@ == reported_sizes(replies@.subrange(0, i as int)),
            refresh == any_not_shared(replies@.subrange(0, i as int)),
        decreases replies@.len() - i,
    {
        let ghost prefix = replies@.subrange(0, i as int);
        let ghost next = replies@.subrange(0, i + 1);
        proof {
            assert(next.drop_last() == prefix);
            assert(next.last() == replies@[i as int]);
        }
        match replies[i].1 {
            FileInfo::Size(n) => {
                peers.push((replies[i].0, n));
            },
            FileInfo::NotExist => {
                refresh = true;
                proof {
                    assert(next[i as int].1 == FileInfo::NotExist);
                }
            },
        }
        proof {
            if any_not_shared(next) && !refresh {
                let j = choose|j: int| 0 <= j < next.len() && (#[trigger] next[j]).1 == FileInfo::NotExist;
                assert(j != i);
                assert(prefix[j] == next[j]);
            }
            if any_not_shared(prefix) {
                let j = choose|j: int| 0 <= j < prefix.len() && (#[trigger] prefix[j]).1 == FileInfo::NotExist;
                assert(next[j] == prefix[j]);
            }
        }
        i = i + 1;
    }
    proof {
        assert(replies@.subrange(0, replies@.len() as int) == replies@);
    }
    (peers, refresh)
}

/// Adds `name` to the files being downloaded.
pub fn start_downloading(downloading: &mut Vec<String>, name: String)
    ensures
        final(downloading)@ == old(downloading)@.push(name),
{
    downloading.push(name);
}

/// The names of `names` other than `name`, in order.
pub open spec fn without_name(names: Seq<String>, name: Seq<char>) -> Seq<String>
    decreases names.len(),
{
    if names.len() == 0 {
        seq![]
    } else {
        let rest = without_name(names.drop_last(), name);
        if names.last()@ == name {
            rest
        } else {
            rest.push(names.last())
        }
    }
}

proof fn lemma_without_absent(names: Seq<String>, name: Seq<char>)
    requires
        forall|i: int| 0 <= i < names.len() ==> (#[trigger] names[i])@ != name,
    ensures
        without_name(names, name) == names,
    decreases names.len(),
{
    if names.len() > 0 {
        let t = names.drop_last();
        assert forall|i: int| 0 <= i < t.len() implies (#[trigger] t[i])@ != name by {
            assert(t[i] == names[i]);
        }
        lemma_without_absent(t, name);
        assert(names[names.len() - 1]@ != name);
        assert(t.push(names.last()) =~= names);
    }
}

/// A download that starts and then finishes leaves the list of downloads as
/// it was, when the file was not being downloaded already.
pub proof fn law_download_list_restored(names: Seq<String>, name: String)
    requires
        forall|i: int| 0 <= i < names.len() ==> (#[trigger] names[i])@ != name@,
    ensures
        without_name(names.push(name), name@) == names,
{
    let pushed = names.push(name);
    assert(pushed.drop_last() =~= names);
    lemma_without_absent(names, name@);
}

/// Removes every entry `name` from the files being downloaded.
pub fn finish_downloading(downloading: &mut Vec<String>, name: &String)
    ensures
        final(downloading)@ == without_name(old(downloading)@, name@),
{
    let ghost before = downloading@;
    let mut kept: Vec<String> = Vec::new();
    let mut i: usize = 0;
    while i < downloading.len()
        invariant
            before == downloading@,
            i <= downloading@.len(),
            kept@ == without_name(downloading@.subrange(0, i as int), name@),
        decreases downloading@.len() - i,
    {
        proof {
            assert(downloading@.subrange(0, i + 1).drop_last() == downloading@.subrange(0, i as int));
        }
        if downloading[i] != *name {
            kept.push(downloading[i].clone());
        }
        i = i + 1;
    }
    proof {
        assert(downloading@.subrange(0, downloading@.len() as int) == downloading@);
    }
    *downloading = kept;
}

/// The range of blocks that a request asks for; none, `0..0`, for a request
/// for the size.
pub fn requested_range(action: &FileSizeOrInfo) -> (range: (u32, u32))
    ensures
        range == match *action {
            FileSizeOrInfo::Info(info) => (info.from_block, info.to_block),
            FileSizeOrInfo::Size => (0u32, 0u32),
        },
{
    match action {
        FileSizeOrInfo::Info(info) => (info.from_block, info.to_block),
        FileSizeOrInfo::Size => (0, 0),
    }
}

} // verus!
