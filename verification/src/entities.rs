//! The messages exchanged by client and daemons, and the daemon's state.

use vstd::prelude::*;
use crate::name_map::NameMap;
use crate::net::PeerAddr;

verus! {

/// A request from the client to its daemon.
pub enum Action {
    /// Announce a local file for sharing.
    Share { file_path: String },
    /// Discover peers and their shared files on the local network.
    Scan,
    /// List files currently known as downloadable (from the last scan).
    Ls,
    /// Download a file.
    Download {
        /// File name, as the peers advertise it.
        file_name: String,
        /// Where the downloaded file goes.
        save_path: String,
        /// Whether the client waits until the download completes.
        wait: bool,
    },
    /// Show shared, downloading and transferring files.
    Status,
}

/// Map from file names to the peers that have them.
pub type PeerMap = NameMap<Vec<PeerAddr>>;

/// Map from file names to the peers currently downloading them from us.
pub type TransferMap = NameMap<Vec<PeerAddr>>;

/// Map from shared file names to their local paths.
pub type PathMap = NameMap<String>;

/// The answer of the daemon to its client.
pub enum Response {
    /// The request succeeded.
    Success,
    /// The request failed, with a message.
    Error(String),
    /// Files that can be downloaded, each with the peers that share it.
    Ls { available_map: PeerMap },
    /// What the daemon shares, transfers and downloads.
    Status {
        transferring_map: TransferMap,
        shared_map: PathMap,
        downloading_map: Vec<String>,
    },
}

/// A range of blocks, from `from_block` up to but excluding `to_block`.
#[derive(Clone, Copy, Debug, PartialEq, Eq, Structural)]
pub struct BlockInfo {
    pub from_block: u32,
    pub to_block: u32,
}

/// Answer to a request for the size of a file.
#[derive(Clone, Copy, Debug, PartialEq, Eq, Structural)]
pub enum FileInfo {
    /// The file is shared and has this many bytes.
    Size(u64),
    /// The file is not shared.
    NotExist,
}

/// What a downloading peer asks of a sharing one.
#[derive(Clone, Copy, Debug, PartialEq, Eq, Structural)]
pub enum FileSizeOrInfo {
    /// Send this range of blocks.
    Info(BlockInfo),
    /// Tell the size of the file.
    Size,
}

/// First message of a downloading peer to a sharing one.
pub struct HandshakeRequest {
    pub filename: String,
    pub action: FileSizeOrInfo,
}

/// Answer of a sharing peer to a request for a file's size.
pub struct HandshakeResponse {
    pub filename: String,
    pub answer: FileInfo,
}

/// Size of a file in bytes.
pub type FileSize = u64;

/// What a daemon knows of files: those it can download and those it shares.
pub struct FileState {
    /// File name to the peers that share it.
    pub available: PeerMap,
    /// File name to its local path.
    pub shared: PathMap,
}

/// The lists of peers of a map, as sequences.
pub open spec fn peer_lists(m: PeerMap) -> Map<Seq<char>, Seq<PeerAddr>> {
    m@.map_values(|v: Vec<PeerAddr>| v@)
}

impl FileState {
    /// Both maps are well formed.
    pub open spec fn wf(&self) -> bool {
        &&& self.available.wf()
        &&& self.shared.wf()
    }

    /// A state that knows no file.
    pub fn new() -> (state: FileState)
        ensures
            state.wf(),
            state.available@ == Map::<Seq<char>, Vec<PeerAddr>>::empty(),
            state.shared@ == Map::<Seq<char>, String>::empty(),
    {
        FileState { available: NameMap::new(), shared: NameMap::new() }
    }
}

/// The daemon's file state, as the core types name it.
pub type DataTemp = FileState;

/// The answer to the client, as the core types name it.
pub type Answer = Response;

/// The opening message between daemons, as the core types name it.
pub type FirstRequest = HandshakeRequest;

/// The request kind, as the core types name it.
pub type FileSizeorInfo = FileSizeOrInfo;

/// The size answer, as the core types name it.
pub type AnswerToFirstRequest = HandshakeResponse;

} // verus!
