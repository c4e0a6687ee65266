//! The requests the CLI sends the daemon, its answers, and how the daemon
//! answers each one.
use vstd::prelude::*;
use vstd::string::StringExecFns;
use vstd::utf8::encode_utf8;

use super::state::{kept_entries, ClientState, ClientError, DownloadState};

verus! {

broadcast use vstd::string::group_string_axioms;

/// A request of the CLI to the daemon.
#[derive(Debug, Clone)]
pub enum IpcRequest {
    /// State of every active flow.
    Status,
    /// Starts or resumes a flow.
    FlowStart { id: String },
    /// Pauses a flow.
    FlowPause { id: String },
    /// Removes a flow from the list.
    FlowStop { id: String },
    /// Number of peers of a flow.
    FlowPeers { id: String },
    /// Liveness check.
    Ping,
    /// Asks the daemon to stop.
    Shutdown,
}

/// The daemon's answer.
#[derive(Debug, Clone)]
pub enum IpcResponse {
    /// The active flows.
    Status { flows: Vec<IpcFlowInfo> },
    /// Done, nothing to report.
    Success,
    /// Peers connected to the flow asked for.
    Peers { count: usize },
    /// The request failed.
    Error { message: String },
    /// Answer to `Ping`.
    Pong,
}

/// Live information on an active flow.
#[derive(Debug, Clone)]
pub struct IpcFlowInfo {
    pub id: String,
    pub name: String,
    /// `"downloading"` or `"seeding"`.
    pub state: String,
    pub downloaded: u64,
    pub total_size: u64,
    pub peers: usize,
}

/// What the daemon reads of an active flow to answer requests.
#[derive(Debug, Clone)]
pub struct FlowSnapshot {
    pub id: String,
    pub name: String,
    /// Every piece is verified.
    pub complete: bool,
    pub downloaded: u64,
    pub total_size: u64,
    pub peers: usize,
}

/// `info` reports `flow`.
pub open spec fn reports(info: IpcFlowInfo, flow: FlowSnapshot) -> bool {
    &&& info.id@ == flow.id@
    &&& info.name@ == flow.name@
    &&& info.state@ == (if flow.complete { "seeding"@ } else { "downloading"@ })
    &&& info.downloaded == flow.downloaded
    &&& info.total_size == flow.total_size
    &&& info.peers == flow.peers
}

/// `k` is the first active flow with this id.
pub open spec fn first_active(flows: Seq<FlowSnapshot>, id: Seq<char>, k: int) -> bool {
    &&& 0 <= k < flows.len()
    &&& flows[k].id@ == id
    &&& forall|j: int| 0 <= j < k ==> (#[trigger] flows[j]).id@ != id
}

/// The message of a request naming an inactive flow.
pub open spec fn not_active_message(id: Seq<char>) -> Seq<char> {
    "flow '"@ + id + "' not active in daemon"@
}

/// The message of a request naming an unknown flow.
pub open spec fn not_found_message(id: Seq<char>) -> Seq<char> {
    "flow '"@ + id + "' not found"@
}

/// The message of a request naming an inactive flow, built piece by piece.
fn format_not_active(id: &str) -> (res: String)
    ensures
        res@ == not_active_message(id@),
{
    let mut s = String::from_str("flow '");
    s.append(id);
    s.append("' not active in daemon");
    s
}

/// The message of a request naming an unknown flow, built piece by piece.
fn format_not_found(id: &str) -> (res: String)
    ensures
        res@ == not_found_message(id@),
{
    let mut s = String::from_str("flow '");
    s.append(id);
    s.append("' not found");
    s
}

/// The answer to a failed change of the flow table.
fn error_response(e: ClientError) -> (res: IpcResponse)
    ensures
        match e {
            ClientError::FlowNotFound(id) => res matches IpcResponse::Error { message } && message@ == not_found_message(id@),
        },
{
    match e {
        ClientError::FlowNotFound(id) => IpcResponse::Error { message: format_not_found(id.as_str()) },
    }
}

/// The answer to `Status`: one entry per active flow, in order.
fn status_response(flows: &[FlowSnapshot]) -> (res: IpcResponse)
    ensures
        res matches IpcResponse::Status { flows: infos } && infos@.len() == flows@.len()
            && forall|i: int| 0 <= i < flows@.len() ==> reports(#[trigger] infos@[i], flows@[i]),
{
    let mut infos: Vec<IpcFlowInfo> = Vec::new();
    let mut i: usize = 0;
    while i < flows.len()
        invariant
            i <= flows@.len(),
            infos@.len() == i,
            forall|k: int| 0 <= k < i ==> reports(#[trigger] infos@[k], flows@[k]),
        decreases flows@.len() - i,
    {
        let f = &flows[i];
        let state = if f.complete { "seeding".to_string() } else { "downloading".to_string() };
        infos.push(IpcFlowInfo {
            id: f.id.clone(),
            name: f.name.clone(),
            state,
            downloaded: f.downloaded,
            total_size: f.total_size,
            peers: f.peers,
        });
        i = i + 1;
    }
    IpcResponse::Status { flows: infos }
}

/// Answers a request from the active flows and the flow table. `Status` and
/// `FlowPeers` read the active flows; `FlowStart`, `FlowPause` and
/// `FlowStop` change the table (the caller saves it when the answer is
/// `Success`); `Ping` and `Shutdown` need neither.
#[verifier::loop_isolation(false)]
pub fn dispatch(req: &IpcRequest, flows: &[FlowSnapshot], state: &mut ClientState) -> (res: IpcResponse)
    requires
        old(state).wf(),
    ensures
        final(state).wf(),
        match req {
            IpcRequest::Ping => res is Pong && final(state).flows@ == old(state).flows@,
            IpcRequest::Shutdown => res is Success && final(state).flows@ == old(state).flows@,
            IpcRequest::Status => final(state).flows@ == old(state).flows@
                && (res matches IpcResponse::Status { flows: infos } && infos@.len() == flows@.len()
                && forall|i: int| 0 <= i < flows@.len() ==> reports(#[trigger] infos@[i], flows@[i])),
            IpcRequest::FlowPeers { id } => final(state).flows@ == old(state).flows@
                && ((exists|k: int| first_active(flows@, id@, k)) ==> exists|k: int|
                    first_active(flows@, id@, k) && res == (IpcResponse::Peers { count: flows@[k].peers }))
                && (!(exists|k: int| first_active(flows@, id@, k)) ==> (res matches IpcResponse::Error { message }
                    && message@ == not_active_message(id@))),
            IpcRequest::FlowStart { id } => match old(state).lookup(encode_utf8(id@)) {
                Some(k) => res is Success && final(state).flows@ == old(state).flows@.update(
                    k,
                    old(state).flows@[k].with_state(DownloadState::Downloading),
                ),
                None => (res matches IpcResponse::Error { message } && message@ == not_found_message(id@))
                    && final(state).flows@ == old(state).flows@,
            },
            IpcRequest::FlowPause { id } => match old(state).lookup(encode_utf8(id@)) {
                Some(k) => res is Success && final(state).flows@ == old(state).flows@.update(
                    k,
                    old(state).flows@[k].with_state(DownloadState::Paused),
                ),
                None => (res matches IpcResponse::Error { message } && message@ == not_found_message(id@))
                    && final(state).flows@ == old(state).flows@,
            },
            IpcRequest::FlowStop { id } => match old(state).lookup(encode_utf8(id@)) {
                Some(k) => res is Success && final(state).flows@ == kept_entries(old(state).flows@, encode_utf8(id@)),
                None => (res matches IpcResponse::Error { message } && message@ == not_found_message(id@))
                    && final(state).flows@ == old(state).flows@,
            },
        },
{
    match req {
        IpcRequest::Ping => IpcResponse::Pong,
        IpcRequest::Shutdown => IpcResponse::Success,
        IpcRequest::Status => status_response(flows),
        IpcRequest::FlowPeers { id } => {
            let mut i: usize = 0;
            while i < flows.len()
                invariant
                    i <= flows@.len(),
                    forall|j: int| 0 <= j < i ==> (#[trigger] flows@[j]).id@ != id@,
                decreases flows@.len() - i,
            {
                if flows[i].id == *id {
                    assert(first_active(flows@, id@, i as int));
                    assert forall|k: int| first_active(flows@, id@, k) implies k == i by {
                        if k > i {
                            assert(flows@[i as int].id@ != id@);
                        }
                    }
                    return IpcResponse::Peers { count: flows[i].peers };
                }
                i = i + 1;
            }
            IpcResponse::Error { message: format_not_active(id.as_str()) }
        },
        IpcRequest::FlowStart { id } => match state.set_state(id.as_str(), DownloadState::Downloading) {
            Ok(()) => IpcResponse::Success,
            Err(e) => error_response(e),
        },
        IpcRequest::FlowPause { id } => match state.set_state(id.as_str(), DownloadState::Paused) {
            Ok(()) => IpcResponse::Success,
            Err(e) => error_response(e),
        },
        IpcRequest::FlowStop { id } => match state.remove_flow(id.as_str()) {
            Ok(()) => IpcResponse::Success,
            Err(e) => error_response(e),
        },
    }
}

} // verus!
