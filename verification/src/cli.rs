//! The client: from its command line to a request, and from the daemon's
//! answer to the lines it shows.

use vstd::prelude::*;
use crate::entities::{Action, PathMap, PeerMap, Response, TransferMap, peer_lists};
use crate::name_map::names_of;
use crate::net::{PeerAddr, PeerIp};
use crate::text::{owned, str_eq};

verus! {

/// What the command line holds: the subcommand, whether it came with
/// arguments, the path (`share`) or save directory (`download`), the file
/// name (`download`) and the wait flag (`download`).
pub struct CliArgs {
    pub subcommand: Option<String>,
    pub args_present: bool,
    pub file_path: Option<String>,
    pub file_name: Option<String>,
    pub wait: bool,
}

/// Why the command line makes no request.
#[derive(Clone, Copy, Debug, PartialEq, Eq, Structural)]
pub enum CliError {
    NoPathForSharing,
    FileDoesNotExist,
    NoFileName,
    WrongAction,
}

/// The text of an error.
pub open spec fn cli_error_text(e: CliError) -> Seq<char> {
    match e {
        CliError::NoPathForSharing => "No path for sharing!"@,
        CliError::FileDoesNotExist => "File does not exists!"@,
        CliError::NoFileName => "No file name to download!"@,
        CliError::WrongAction => "Wrong action!"@,
    }
}

impl CliError {
    /// The text of the error.
    pub fn message(&self) -> (text: String)
        ensures
            text@ == cli_error_text(*self),
    {
        match self {
            CliError::NoPathForSharing => owned("No path for sharing!"),
            CliError::FileDoesNotExist => owned("File does not exists!"),
            CliError::NoFileName => owned("No file name to download!"),
            CliError::WrongAction => owned("Wrong action!"),
        }
    }
}

/// The subcommand is `name`.
pub open spec fn is_subcommand(args: CliArgs, name: Seq<char>) -> bool {
    args.subcommand matches Some(s) && s@ == name
}

/// The command line holds what its subcommand needs: a path to share, or the
/// name of a file to download, whenever it came with arguments.
pub open spec fn args_complete(args: CliArgs) -> bool {
    &&& is_subcommand(args, "share"@) && args.args_present ==> args.file_path is Some
    &&& is_subcommand(args, "download"@) && args.args_present ==> args.file_name is Some
}

/// The request for a command line, `path_is_file` telling whether the path
/// to share names an existing file.
pub open spec fn request_for(args: CliArgs, path_is_file: bool, r: Result<Action, CliError>) -> bool {
    if is_subcommand(args, "share"@) {
        if !args.args_present {
            r == Err::<Action, CliError>(CliError::NoPathForSharing)
        } else if path_is_file {
            r matches Ok(Action::Share { file_path }) && file_path@ == args.file_path->Some_0@
        } else {
            r == Err::<Action, CliError>(CliError::FileDoesNotExist)
        }
    } else if is_subcommand(args, "scan"@) {
        r matches Ok(Action::Scan)
    } else if is_subcommand(args, "ls"@) {
        r matches Ok(Action::Ls)
    } else if is_subcommand(args, "download"@) {
        if !args.args_present {
            r == Err::<Action, CliError>(CliError::NoFileName)
        } else {
            &&& r matches Ok(Action::Download { file_name, save_path, wait })
            &&& file_name@ == args.file_name->Some_0@
            &&& save_path@ == match args.file_path {
                Some(p) => p@,
                None => Seq::<char>::empty(),
            }
            &&& wait == args.wait
        }
    } else if is_subcommand(args, "status"@) {
        r matches Ok(Action::Status)
    } else {
        r == Err::<Action, CliError>(CliError::WrongAction)
    }
}

/// Each subcommand makes its own request and no other: `scan`, `ls` and
/// `status` always, `share` when it names an existing file (and then that
/// path), `download` when it came with arguments (and then the file name and
/// the wait flag of the command line); anything else makes no request.
pub proof fn law_request_follows_subcommand(args: CliArgs, path_is_file: bool, r: Result<Action, CliError>)
    requires
        request_for(args, path_is_file, r),
    ensures
        (r matches Ok(Action::Scan)) == is_subcommand(args, "scan"@),
        (r matches Ok(Action::Ls)) == is_subcommand(args, "ls"@),
        (r matches Ok(Action::Status)) == is_subcommand(args, "status"@),
        (r matches Ok(Action::Share { .. })) == (is_subcommand(args, "share"@) && args.args_present
            && path_is_file),
        (r matches Ok(Action::Download { .. })) == (is_subcommand(args, "download"@)
            && args.args_present),
        r matches Ok(Action::Share { file_path }) ==> file_path@ == args.file_path->Some_0@,
        r matches Ok(Action::Download { file_name, wait, .. }) ==> file_name@ == args.file_name->Some_0@
            && wait == args.wait,
{
    reveal_strlit("share");
    reveal_strlit("scan");
    reveal_strlit("ls");
    reveal_strlit("download");
    reveal_strlit("status");
    // The subcommands differ in length, hence in text.
    assert("share"@.len() == 5 && "scan"@.len() == 4 && "ls"@.len() == 2);
    assert("download"@.len() == 8 && "status"@.len() == 6);
}

fn subcommand_is(args: &CliArgs, name: &str) -> (b: bool)
    ensures
        b == is_subcommand(*args, name@),
{
    match &args.subcommand {
        Some(s) => str_eq(s.as_str(), name),
        None => false,
    }
}

/// Turns the command line into the request for the daemon: share a file that
/// exists, scan, list, download a file by name (into the given directory, the
/// current one by default), or show the status.
pub fn process_actions(args: &CliArgs, path_is_file: bool) -> (r: Result<Action, CliError>)
    requires
        args_complete(*args),
    ensures
        request_for(*args, path_is_file, r),
{
    if subcommand_is(args, "share") {
        if !args.args_present {
            return Err(CliError::NoPathForSharing);
        }
        if path_is_file {
            let file_path = args.file_path.as_ref().unwrap().clone();
            Ok(Action::Share { file_path })
        } else {
            Err(CliError::FileDoesNotExist)
        }
    } else if subcommand_is(args, "scan") {
        Ok(Action::Scan)
    } else if subcommand_is(args, "ls") {
        Ok(Action::Ls)
    } else if subcommand_is(args, "download") {
        if !args.args_present {
            return Err(CliError::NoFileName);
        }
        let save_path = match &args.file_path {
            Some(p) => p.clone(),
            None => String::new(),
        };
        let file_name = args.file_name.as_ref().unwrap().clone();
        Ok(Action::Download { file_name, save_path, wait: args.wait })
    } else if subcommand_is(args, "status") {
        Ok(Action::Status)
    } else {
        Err(CliError::WrongAction)
    }
}

/// A line that the client shows.
pub enum OutputLine {
    /// A heading, shown as information.
    Heading(String),
    /// An error of the daemon.
    Failure(String),
    /// A file, shown indented.
    Entry(String),
    /// A peer's address, shown indented twice.
    Peer(PeerIp),
}

/// What an output line shows.
pub ghost enum LineView {
    Heading(Seq<char>),
    Failure(Seq<char>),
    Entry(Seq<char>),
    Peer(PeerIp),
}

impl View for OutputLine {
    type V = LineView;

    open spec fn view(&self) -> LineView {
        match self {
            OutputLine::Heading(s) => LineView::Heading(s@),
            OutputLine::Failure(s) => LineView::Failure(s@),
            OutputLine::Entry(s) => LineView::Entry(s@),
            OutputLine::Peer(ip) => LineView::Peer(*ip),
        }
    }
}

/// The lines of a list of names.
pub open spec fn entry_lines(names: Seq<Seq<char>>) -> Seq<LineView> {
    names.map_values(|n: Seq<char>| LineView::Entry(n))
}

/// The lines of a list of peers.
pub open spec fn peer_lines(peers: Seq<PeerAddr>) -> Seq<LineView> {
    peers.map_values(|p: PeerAddr| LineView::Peer(p.spec_ip()))
}

/// The lines of the shared files, each followed by the peers it is being
/// transferred to.
pub open spec fn sharing_lines(names: Seq<Seq<char>>, transferring: Map<Seq<char>, Seq<PeerAddr>>) -> Seq<
    LineView,
>
    decreases names.len(),
{
    if names.len() == 0 {
        seq![]
    } else {
        sharing_lines(names.drop_last(), transferring) + seq![LineView::Entry(names.last())] + if transferring.dom().contains(names.last()) {
            peer_lines(transferring[names.last()])
        } else {
            seq![]
        }
    }
}

/// The lines the client shows for an answer of the daemon.
pub open spec fn response_lines(response: Response) -> Seq<LineView> {
    match response {
        Response::Ls { available_map } => seq![LineView::Heading("Files available to download:"@)]
            + entry_lines(available_map.key_seq()),
        Response::Status { transferring_map, shared_map, downloading_map } => seq![
            LineView::Heading("Sharing:"@),
        ] + sharing_lines(shared_map.key_seq(), peer_lists(transferring_map)) + seq![
            LineView::Heading("Downloading:"@),
        ] + entry_lines(names_of(downloading_map@)),
        Response::Error(e) => seq![LineView::Failure(e@)],
        Response::Success => seq![],
    }
}

proof fn lemma_sharing_prefix(names: Seq<Seq<char>>, t: Map<Seq<char>, Seq<PeerAddr>>, k: int)
    requires
        0 <= k <= names.len(),
    ensures
        sharing_lines(names.subrange(0, k), t).len() <= sharing_lines(names, t).len(),
        forall|j: int|
            0 <= j < sharing_lines(names.subrange(0, k), t).len() ==> sharing_lines(names, t)[j]
                == #[trigger] sharing_lines(names.subrange(0, k), t)[j],
    decreases names.len(),
{
    if k == names.len() {
        assert(names.subrange(0, k) =~= names);
    } else {
        let d = names.drop_last();
        assert(d.subrange(0, k) =~= names.subrange(0, k));
        lemma_sharing_prefix(d, t, k);
    }
}

/// The peers shown for a shared file in the `Sharing:` list.
pub open spec fn shown_peers(t: Map<Seq<char>, Seq<PeerAddr>>, name: Seq<char>) -> Seq<PeerAddr> {
    if t.dom().contains(name) {
        t[name]
    } else {
        seq![]
    }
}

/// In the daemon's status, every shared file is shown followed by one line
/// for each peer it is being transferred to, in the order of its list, and
/// then by the next shared file, or by the `Downloading:` heading after the
/// last one.
pub proof fn law_status_shows_every_peer(
    transferring_map: TransferMap,
    shared_map: PathMap,
    downloading_map: Vec<String>,
    k: int,
)
    requires
        0 <= k < shared_map.key_seq().len(),
    ensures
        ({
            let names = shared_map.key_seq();
            let t = peer_lists(transferring_map);
            let lines = response_lines(Response::Status { transferring_map, shared_map, downloading_map });
            let ps = shown_peers(t, names[k]);
            let at = 1 + sharing_lines(names.subrange(0, k), t).len() as int;
            &&& lines[at] == LineView::Entry(names[k])
            &&& forall|j: int| 0 <= j < ps.len() ==> lines[at + 1 + j] == LineView::Peer(#[trigger] ps[j].spec_ip())
            &&& lines[at + 1 + ps.len()] == if k + 1 < names.len() {
                LineView::Entry(names[k + 1])
            } else {
                LineView::Heading("Downloading:"@)
            }
        }),
{
    let names = shared_map.key_seq();
    let t = peer_lists(transferring_map);
    let lines = response_lines(Response::Status { transferring_map, shared_map, downloading_map });
    let ps = shown_peers(t, names[k]);
    let full = sharing_lines(names, t);
    let pre = sharing_lines(names.subrange(0, k), t);
    let sub1 = names.subrange(0, k + 1);
    assert(sub1.drop_last() =~= names.subrange(0, k));
    assert(sub1.last() == names[k]);
    let pre1 = sharing_lines(sub1, t);
    assert(pre1 =~= pre + seq![LineView::Entry(names[k])] + peer_lines(ps));
    lemma_sharing_prefix(names, t, k + 1);
    let tail = seq![LineView::Heading("Downloading:"@)] + entry_lines(names_of(downloading_map@));
    assert(lines =~= seq![LineView::Heading("Sharing:"@)] + full + tail);
    let pl = pre.len() as int;
    assert(lines[1 + pl] == full[pl]);
    assert(full[pl] == pre1[pl]);
    assert forall|j: int| 0 <= j < ps.len() implies lines[1 + pl + 1 + j] == LineView::Peer(
        #[trigger] ps[j].spec_ip(),
    ) by {
        assert(pre1[pl + 1 + j] == peer_lines(ps)[j]);
        assert(full[pl + 1 + j] == pre1[pl + 1 + j]);
    }
    let at = pre1.len() as int;
    if k + 1 < names.len() {
        let sub2 = names.subrange(0, k + 2);
        assert(sub2.drop_last() =~= sub1);
        assert(sub2.last() == names[k + 1]);
        lemma_sharing_prefix(names, t, k + 2);
        let pre2 = sharing_lines(sub2, t);
        assert(pre2[at] == LineView::Entry(names[k + 1]));
        assert(full[at] == pre2[at]);
    } else {
        assert(sub1 =~= names);
        assert(lines[1 + full.len() as int] == tail[0]);
    }
}

/// The list of downloadable files shows its heading and then every file,
/// one line each, in the map's order.
pub proof fn law_listing_shows_every_file(available_map: PeerMap)
    ensures
        ({
            let names = available_map.key_seq();
            let lines = response_lines(Response::Ls { available_map });
            &&& lines.len() == 1 + names.len()
            &&& lines[0] == LineView::Heading("Files available to download:"@)
            &&& forall|i: int| 0 <= i < names.len() ==> lines[1 + i] == LineView::Entry(#[trigger] names[i])
        }),
{
}

/// An error of the daemon is shown as one failure line with its text, and a
/// plain success shows nothing.
pub proof fn law_error_and_success_lines(e: String)
    ensures
        response_lines(Response::Error(e)) == seq![LineView::Failure(e@)],
        response_lines(Response::Success).len() == 0,
{
}

/// The views of output lines.
pub open spec fn lines_view(lines: Seq<OutputLine>) -> Seq<LineView> {
    lines.map_values(|l: OutputLine| l@)
}

proof fn lemma_lines_view_push(s: Seq<OutputLine>, x: OutputLine)
    ensures
        lines_view(s.push(x)) == lines_view(s).push(x@),
{
    assert(lines_view(s.push(x)) =~= lines_view(s).push(x@));
}

fn push_entries(lines: &mut Vec<OutputLine>, names: &Vec<String>)
    ensures
        lines_view(final(lines)@) == lines_view(old(lines)@) + entry_lines(names_of(names@)),
{
    let ghost start = lines_view(lines@);
    let mut i: usize = 0;
    while i < names.len()
        invariant
            i <= names@.len(),
            lines_view(lines@) == start + entry_lines(names_of(names@.subrange(0, i as int))),
        decreases names@.len() - i,
    {
        let ghost old_lines = lines@;
        lines.push(OutputLine::Entry(names[i].clone()));
        proof {
            lemma_lines_view_push(old_lines, lines@.last());
            assert(lines@ == old_lines.push(lines@.last()));
            assert(entry_lines(names_of(names@.subrange(0, i + 1))) =~= entry_lines(
                names_of(names@.subrange(0, i as int)),
            ).push(LineView::Entry(names@[i as int]@)));
            assert(lines_view(lines@) =~= start + entry_lines(names_of(names@.subrange(0, i + 1))));
        }
        i = i + 1;
    }
    proof {
        assert(names@.subrange(0, names@.len() as int) =~= names@);
    }
}

fn push_peers(lines: &mut Vec<OutputLine>, peers: &Vec<PeerAddr>)
    ensures
        lines_view(final(lines)@) == lines_view(old(lines)@) + peer_lines(peers@),
{
    let ghost start = lines_view(lines@);
    let mut i: usize = 0;
    while i < peers.len()
        invariant
            i <= peers@.len(),
            lines_view(lines@) == start + peer_lines(peers@.subrange(0, i as int)),
        decreases peers@.len() - i,
    {
        let ghost old_lines = lines@;
        lines.push(OutputLine::Peer(peers[i].ip()));
        proof {
            lemma_lines_view_push(old_lines, lines@.last());
            assert(lines@ == old_lines.push(lines@.last()));
            assert(peer_lines(peers@.subrange(0, i + 1)) =~= peer_lines(peers@.subrange(0, i as int)).push(
                LineView::Peer(peers@[i as int].spec_ip()),
            ));
            assert(lines_view(lines@) =~= start + peer_lines(peers@.subrange(0, i + 1)));
        }
        i = i + 1;
    }
    proof {
        assert(peers@.subrange(0, peers@.len() as int) =~= peers@);
    }
}

fn push_sharing(lines: &mut Vec<OutputLine>, names: &Vec<String>, transferring: &TransferMap)
    requires
        transferring.wf(),
    ensures
        lines_view(final(lines)@) == lines_view(old(lines)@) + sharing_lines(
            names_of(names@),
            peer_lists(*transferring),
        ),
{
    let ghost start = lines_view(lines@);
    let ghost tm = peer_lists(*transferring);
    let mut i: usize = 0;
    while i < names.len()
        invariant
            i <= names@.len(),
            transferring.wf(),
            tm == peer_lists(*transferring),
            lines_view(lines@) == start + sharing_lines(names_of(names@.subrange(0, i as int)), tm),
        decreases names@.len() - i,
    {
        let ghost before = lines_view(lines@);
        let ghost prefix = names_of(names@.subrange(0, i as int));
        let ghost next = names_of(names@.subrange(0, i + 1));
        proof {
            assert(next.drop_last() =~= prefix);
            assert(next.last() == names@[i as int]@);
        }
        let ghost old_lines = lines@;
        lines.push(OutputLine::Entry(names[i].clone()));
        proof {
            lemma_lines_view_push(old_lines, lines@.last());
            assert(lines@ == old_lines.push(lines@.last()));
        }
        let ghost mid = lines_view(lines@);
        match transferring.get(&names[i]) {
            Some(peers) => {
                push_peers(lines, peers);
            },
            None => {},
        }
        proof {
            assert(sharing_lines(next, tm) == sharing_lines(prefix, tm) + seq![LineView::Entry(next.last())] + if tm.dom().contains(next.last()) {
                peer_lines(tm[next.last()])
            } else {
                seq![]
            });
            assert(lines_view(lines@) =~= start + sharing_lines(next, tm));
        }
        i = i + 1;
    }
    proof {
        assert(names@.subrange(0, names@.len() as int) =~= names@);
    }
}

/// The lines the client shows for an answer of the daemon: the files
/// available to download; or the shared files, each with the peers it is
/// being transferred to, then the files being downloaded; or the daemon's
/// error; nothing for a plain success.
pub fn process_daemon_response(response: &Response) -> (lines: Vec<OutputLine>)
    requires
        response matches Response::Ls { available_map } ==> available_map.wf(),
        response matches Response::Status { transferring_map, shared_map, .. } ==> transferring_map.wf()
            && shared_map.wf(),
    ensures
        lines_view(lines@) == response_lines(*response),
{
    let mut lines: Vec<OutputLine> = Vec::new();
    match response {
        Response::Ls { available_map } => {
            lines.push(OutputLine::Heading(owned("Files available to download:")));
            proof {
                assert(lines_view(lines@) =~= seq![LineView::Heading("Files available to download:"@)]);
            }
            push_entries(&mut lines, available_map.keys());
        },
        Response::Status { transferring_map, shared_map, downloading_map } => {
            lines.push(OutputLine::Heading(owned("Sharing:")));
            proof {
                assert(lines_view(lines@) =~= seq![LineView::Heading("Sharing:"@)]);
            }
            push_sharing(&mut lines, shared_map.keys(), transferring_map);
            let ghost old_lines = lines@;
            lines.push(OutputLine::Heading(owned("Downloading:")));
            proof {
                lemma_lines_view_push(old_lines, lines@.last());
                assert(lines@ == old_lines.push(lines@.last()));
            }
            push_entries(&mut lines, downloading_map);
        },
        Response::Error(e) => {
            lines.push(OutputLine::Failure(e.clone()));
        },
        Response::Success => {},
    }
    proof {
        assert(lines_view(lines@) =~= response_lines(*response));
    }
    lines
}

} // verus!
