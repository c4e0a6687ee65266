//! The command line's commands, as plain values.
use vstd::prelude::*;
use vstd::string::StringExecFns;
use vstd::utf8::is_char_boundary;
use vstd::utf8::encode_utf8;

verus! {

broadcast use vstd::string::group_string_axioms;

/// The command line: an optional configuration file and a command.
#[derive(Debug, Clone)]
pub struct Cli {
    /// Configuration file (default `~/.submarine/config.json`).
    pub config: Option<String>,
    pub command: Commands,
}

/// Top-level commands.
#[derive(Debug, Clone)]
pub enum Commands {
    /// Flow management.
    Flow { action: FlowAction },
    /// State of every download.
    Status,
    /// Runs the server (tracker, DHT and QUIC endpoint).
    Serve { background: bool, stop: bool },
}

/// Flow commands.
#[derive(Debug, Clone)]
pub enum FlowAction {
    /// Queues a flow from its metadata file.
    Add { path: String, save: Option<String>, priority: u8 },
    /// Starts or resumes a download.
    Start { id: String },
    /// Pauses a download.
    Pause { id: String },
    /// Removes a flow.
    Stop { id: String },
    /// Shows a flow's peers.
    Peers { id: String },
    /// Creates a metadata file from a file or directory.
    Create {
        path: String,
        name: Option<String>,
        trackers: Vec<String>,
        comment: Option<String>,
        priority: u8,
        output: Option<String>,
    },
}

/// The text followed by an ellipsis.
fn with_ellipsis(head: &str) -> (res: String)
    ensures
        res@ == head@ + "…"@,
{
    let mut s = head.to_string();
    s.append("…");
    s
}

/// Text cut to fit `max` bytes: text that fits is kept whole; longer text
/// keeps its first `max - 1` bytes followed by an ellipsis.
pub fn truncate(s: &str, max: usize) -> (res: String)
    requires
        encode_utf8(s@).len() > max ==> max >= 1 && is_char_boundary(encode_utf8(s@), max - 1 as int),
    ensures
        encode_utf8(s@).len() <= max ==> res@ == s@,
        encode_utf8(s@).len() > max ==> exists|head: Seq<char>|
            #[trigger] encode_utf8(head) == encode_utf8(s@).take(max - 1) && res@ == head + "…"@,
{
    let n = s.as_bytes().len();
    if n <= max {
        return s.to_string();
    }
    let (head, _) = s.split_at(max - 1);
    assert(encode_utf8(head@) == encode_utf8(s@).take(max - 1));
    let r = with_ellipsis(head);
    assert(encode_utf8(head@) == encode_utf8(s@).take(max - 1) && r@ == head@ + "…"@);
    r
}

} // verus!
