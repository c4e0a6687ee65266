//! How the tracker answers a client's message.
use vstd::prelude::*;
use vstd::string::StringExecFns;
use vstd::utf8::encode_utf8;

use crate::hexstr::{hex_decode, hex_decode_spec, hex_encode, hex_encode_spec};
use crate::protocol::bytes::{bytes_equal, copy_array32};
use super::table::{
    announce_outcome, completion_outcome, count_live, parse_hex32, parse_hex32_spec, purge_spec, remove_spec, scrape_outcome, upsert_spec,
    PeerTable, TrackerError, HexError, PEER_TTL_SECS,
};
use super::types::{AnnounceResponse, PeerInfo, PeerRecord, ScrapeResponse, TrackerMessage, TrackerResponse};

verus! {

broadcast use vstd::utf8::encode_utf8_decode_utf8, vstd::string::group_string_axioms;

/// Tracker settings.
#[derive(Debug, Clone)]
pub struct ServerConfig {
    /// QUIC listening address.
    pub bind_addr: String,
    /// Clients must send the token.
    pub require_auth: bool,
    /// The valid token, when authentication is required.
    pub auth_token: Option<String>,
    /// Announce interval suggested to clients, in seconds.
    pub announce_interval: u32,
    /// Least interval between announces, in seconds.
    pub min_interval: u32,
}

impl Default for ServerConfig {
    fn default() -> (res: Self)
        ensures
            res.bind_addr@ == "0.0.0.0:6969"@,
            !res.require_auth,
            res.auth_token is None,
            res.announce_interval == 1800,
            res.min_interval == 60,
    {
        ServerConfig {
            bind_addr: "0.0.0.0:6969".to_string(),
            require_auth: false,
            auth_token: None,
            announce_interval: 1800,
            min_interval: 60,
        }
    }
}

/// The client may be served: no authentication is required, or it sent the
/// configured token.
pub open spec fn auth_ok(config: ServerConfig, token: Option<Seq<char>>) -> bool {
    !config.require_auth || (config.auth_token matches Some(e) && token matches Some(t) && e@ == t)
}

/// The characters of an optional string.
pub open spec fn opt_chars(s: Option<String>) -> Option<Seq<char>> {
    match s {
        Some(t) => Some(t@),
        None => None,
    }
}

/// The client may be served; see [`auth_ok`].
pub fn check_auth(token: Option<&str>, config: &ServerConfig) -> (res: bool)
    ensures
        res == auth_ok(
            *config,
            match token {
                Some(t) => Some(t@),
                None => None,
            },
        ),
{
    if !config.require_auth {
        return true;
    }
    match (&config.auth_token, token) {
        (Some(expected), Some(provided)) => {
            let same = bytes_equal(expected.as_str().as_bytes(), provided.as_bytes());
            proof {
                if same {
                    assert(encode_utf8(expected@) == encode_utf8(provided@));
                    assert(decode_utf8_of(encode_utf8(expected@)) == decode_utf8_of(encode_utf8(provided@)));
                }
            }
            same
        },
        _ => false,
    }
}

/// `decode_utf8`, named for the injectivity step above.
spec fn decode_utf8_of(b: Seq<u8>) -> Seq<char> {
    vstd::utf8::decode_utf8(b)
}

/// The message of a refused client.
pub open spec fn auth_required_message() -> Seq<char> {
    "autenticación requerida"@
}

/// The message of a scrape for a malformed info hash.
pub open spec fn invalid_hash_message() -> Seq<char> {
    "info_hash inválido"@
}

/// The decimal digits of `n`.
pub open spec fn decimal(n: nat) -> Seq<char>
    decreases n,
{
    if n < 10 {
        seq![(48 + n) as char]
    } else {
        decimal(n / 10).push((48 + n % 10) as char)
    }
}

/// A character that `{:?}` prints as itself between single quotes: a
/// printable ASCII character other than a quote or a backslash.
pub open spec fn plain_debug_char(c: char) -> bool {
    32 <= c as u32 <= 126 && c != '\'' && c != '\\'
}

/// The digit `d` as text.
fn digit_text(d: usize) -> (res: &'static str)
    requires
        d < 10,
    ensures
        res@ == seq![(48 + d) as char],
{
    proof {
        reveal_strlit("0");
        reveal_strlit("1");
        reveal_strlit("2");
        reveal_strlit("3");
        reveal_strlit("4");
        reveal_strlit("5");
        reveal_strlit("6");
        reveal_strlit("7");
        reveal_strlit("8");
        reveal_strlit("9");
    }
    match d {
        0 => "0",
        1 => "1",
        2 => "2",
        3 => "3",
        4 => "4",
        5 => "5",
        6 => "6",
        7 => "7",
        8 => "8",
        _ => "9",
    }
}

/// The decimal digits of `n`.
fn decimal_text(n: usize) -> (res: String)
    ensures
        res@ == decimal(n as nat),
    decreases n,
{
    if n < 10 {
        String::from_str(digit_text(n))
    } else {
        let mut s = decimal_text(n / 10);
        s.append(digit_text(n % 10));
        s
    }
}

/// The text `{:?}` writes for the character `c`.
pub uninterp spec fn char_debug(c: char) -> Seq<char>;

/// Calls `format!("{:?}")` on a character: the text named by
/// [`char_debug`], which for a plain character (see [`plain_debug_char`]) is
/// the character between single quotes.
#[verifier::external_body]
fn char_debug_text(c: char) -> (res: String)
    ensures
        res@ == char_debug(c),
        plain_debug_char(c) ==> res@ == seq!['\'', c, '\''],
{
    format!("{c:?}")
}

/// The text of table error `e` when the offending character, if any, is
/// written `shown`: why the hash is not 64 hex digits.
pub open spec fn error_text(e: TrackerError, shown: Seq<char>) -> Seq<char> {
    match e {
        TrackerError::InvalidInfoHash(HexError::WrongLength(n)) => "invalid info hash: expected 64 hex chars, got "@
            + decimal(n as nat),
        TrackerError::InvalidInfoHash(HexError::InvalidChar { c, index }) => "invalid info hash: Invalid character "@
            + shown + " at position "@ + decimal(index as nat),
    }
}

/// `t` is the text of table error `e`, with the offending character as
/// `{:?}` prints it (for a plain character, the character between single
/// quotes).
pub open spec fn describes(e: TrackerError, t: Seq<char>) -> bool {
    match e {
        TrackerError::InvalidInfoHash(HexError::WrongLength(n)) => t == error_text(e, Seq::empty()),
        TrackerError::InvalidInfoHash(HexError::InvalidChar { c, index }) => {
            &&& t == error_text(e, char_debug(c))
            &&& plain_debug_char(c) ==> char_debug(c) == seq!['\'', c, '\'']
        },
    }
}

/// The text of table error `e` with the offending character written
/// `shown`; see [`error_text`].
pub fn compose_error(e: TrackerError, shown: &str) -> (res: String)
    ensures
        res@ == error_text(e, shown@),
{
    match e {
        TrackerError::InvalidInfoHash(HexError::WrongLength(n)) => {
            let mut s = String::from_str("invalid info hash: expected 64 hex chars, got ");
            let d = decimal_text(n);
            s.append(d.as_str());
            s
        },
        TrackerError::InvalidInfoHash(HexError::InvalidChar { c, index }) => {
            let mut s = String::from_str("invalid info hash: Invalid character ");
            s.append(shown);
            s.append(" at position ");
            let d = decimal_text(index);
            s.append(d.as_str());
            s
        },
    }
}

/// The text of a table error; see [`describes`].
pub fn describe_error(e: TrackerError) -> (res: String)
    ensures
        describes(e, res@),
{
    match e {
        TrackerError::InvalidInfoHash(HexError::WrongLength(_)) => compose_error(e, ""),
        TrackerError::InvalidInfoHash(HexError::InvalidChar { c, .. }) => {
            let q = char_debug_text(c);
            compose_error(e, q.as_str())
        },
    }
}

/// `info` lists `r`: its peer id in hex and its address.
pub open spec fn lists(info: PeerInfo, r: PeerRecord) -> bool {
    info.peer_id@ == hex_encode_spec(r.peer_id@) && info.addr == r.addr
}

proof fn lemma_remove_len(s: Seq<PeerRecord>, ih: Seq<u8>, pid: Seq<u8>)
    ensures
        remove_spec(s, ih, pid).len() <= s.len(),
    decreases s.len(),
{
    if s.len() > 0 {
        lemma_remove_len(s.drop_last(), ih, pid);
    }
}

proof fn lemma_purge_len(s: Seq<PeerRecord>, ih: Seq<u8>, cutoff: int)
    ensures
        purge_spec(s, ih, cutoff).len() <= s.len(),
    decreases s.len(),
{
    if s.len() > 0 {
        lemma_purge_len(s.drop_last(), ih, cutoff);
    }
}

/// An announce adds at most one record.
proof fn lemma_announce_len(old: Seq<PeerRecord>, new: Seq<PeerRecord>, req: super::types::AnnounceRequest, now: i64, res: Result<Vec<PeerRecord>, TrackerError>)
    requires
        announce_outcome(old, new, req, now, res),
    ensures
        new.len() <= old.len() + 1,
{
    match parse_hex32_spec(req.info_hash@) {
        Err(_) => {},
        Ok(ih) => match parse_hex32_spec(req.peer_id@) {
            Err(_) => {},
            Ok(pid) => {
                if req.event == super::types::AnnounceEvent::Stopped {
                    lemma_remove_len(old, ih, pid);
                    lemma_purge_len(remove_spec(old, ih, pid), ih, now - PEER_TTL_SECS);
                } else {
                    let r = choose|r: PeerRecord| super::table::record_for(r, req, ih, pid, now) && new == purge_spec(
                        upsert_spec(old, r),
                        ih,
                        now - PEER_TTL_SECS,
                    );
                    lemma_purge_len(upsert_spec(old, r), ih, now - PEER_TTL_SECS);
                }
            },
        },
    }
}

/// The peers of an answer, in order.
fn peer_list(records: &Vec<PeerRecord>) -> (res: Vec<PeerInfo>)
    ensures
        res@.len() == records@.len(),
        forall|i: int| 0 <= i < records@.len() ==> lists(#[trigger] res@[i], records@[i]),
{
    let mut out: Vec<PeerInfo> = Vec::new();
    let mut i: usize = 0;
    while i < records.len()
        invariant
            i <= records@.len(),
            out@.len() == i,
            forall|k: int| 0 <= k < i ==> lists(#[trigger] out@[k], records@[k]),
        decreases records@.len() - i,
    {
        let r = &records[i];
        out.push(PeerInfo { peer_id: hex_encode(&r.peer_id), addr: r.addr.clone() });
        i = i + 1;
    }
    out
}

/// Answers a client's message at Unix time `now`. A client that fails
/// authentication is refused and changes nothing. An announce goes to the
/// peer table (see [`PeerTable::announce_at`]); its answer lists the
/// returned peers with the flow's live filler and drainer counts and the
/// configured intervals. A scrape of a hash that is not 32 bytes of hex is
/// refused; otherwise it answers the flow's counts.
pub fn handle_message(table: &mut PeerTable, config: &ServerConfig, msg: &TrackerMessage, now: i64) -> (res: TrackerResponse)
    requires
        now >= 0,
        old(table).records@.len() < u32::MAX,
        old(table).completions@.len() < u32::MAX,
    ensures
        match msg {
            TrackerMessage::Announce { auth_token, req } => {
                &&& !auth_ok(*config, opt_chars(*auth_token)) ==> (res matches TrackerResponse::Error { message }
                    && message@ == auth_required_message()) && final(table).records@ == old(table).records@
                    && final(table).completions@ == old(table).completions@
                &&& auth_ok(*config, opt_chars(*auth_token)) ==> completion_outcome(
                    old(table).completions@,
                    final(table).completions@,
                    *req,
                )
                &&& auth_ok(*config, opt_chars(*auth_token)) ==> exists|out: Result<Vec<PeerRecord>, TrackerError>|
                    #[trigger] announce_outcome(old(table).records@, final(table).records@, *req, now, out) && match out {
                        Err(e) => res matches TrackerResponse::Error { message } && describes(e, message@),
                        Ok(peers) => res matches TrackerResponse::Announce(a) && {
                            &&& a.interval == config.announce_interval
                            &&& a.min_interval == Some(config.min_interval)
                            &&& a.peers@.len() == peers@.len()
                            &&& forall|i: int| 0 <= i < peers@.len() ==> lists(#[trigger] a.peers@[i], peers@[i])
                            &&& a.complete == count_live(
                                final(table).records@,
                                parse_hex32_spec(req.info_hash@)->Ok_0,
                                now - PEER_TTL_SECS,
                                0,
                            )
                            &&& a.incomplete == count_live(
                                final(table).records@,
                                parse_hex32_spec(req.info_hash@)->Ok_0,
                                now - PEER_TTL_SECS,
                                1,
                            )
                        },
                    }
            },
            TrackerMessage::Scrape { auth_token, info_hash } => {
                &&& final(table).records@ == old(table).records@
                &&& final(table).completions@ == old(table).completions@
                &&& !auth_ok(*config, opt_chars(*auth_token)) ==> (res matches TrackerResponse::Error { message }
                    && message@ == auth_required_message())
                &&& auth_ok(*config, opt_chars(*auth_token)) ==> match hex_decode_spec(encode_utf8(info_hash@)) {
                    Some(v) => if v.len() == 32 {
                        res matches TrackerResponse::Scrape(sr) && scrape_outcome(
                            old(table).records@,
                            old(table).completions@,
                            v,
                            now,
                            (sr.complete, sr.incomplete, sr.downloaded),
                        )
                    } else {
                        res matches TrackerResponse::Error { message } && message@ == invalid_hash_message()
                    },
                    None => res matches TrackerResponse::Error { message } && message@ == invalid_hash_message(),
                }
            },
        },
{
    match msg {
        TrackerMessage::Announce { auth_token, req } => {
            let token = match auth_token {
                Some(t) => Some(t.as_str()),
                None => None,
            };
            if !check_auth(token, config) {
                return TrackerResponse::Error { message: "autenticación requerida".to_string() };
            }
            let out = table.announce_at(req, now);
            let ghost out_g = out;
            proof {
                lemma_announce_len(old(table).records@, table.records@, *req, now, out);
            }
            assert(announce_outcome(old(table).records@, table.records@, *req, now, out_g));
            match out {
                Err(e) => TrackerResponse::Error { message: describe_error(e) },
                Ok(peers) => {
                    assert(parse_hex32_spec(req.info_hash@) is Ok);
                    let ih = match parse_hex32(req.info_hash.as_str()) {
                        Ok(a) => a,
                        Err(_) => [0u8; 32],
                    };
                    assert(ih@ == parse_hex32_spec(req.info_hash@)->Ok_0);
                    let (complete, incomplete, d) = table.scrape_at(&ih, now);
                    let list = peer_list(&peers);
                    let a = AnnounceResponse {
                        interval: config.announce_interval,
                        min_interval: Some(config.min_interval),
                        peers: list,
                        complete,
                        incomplete,
                    };
                    assert(a.peers@.len() == peers@.len());
                    assert(out_g == Ok::<Vec<PeerRecord>, TrackerError>(peers));
                    TrackerResponse::Announce(a)
                },
            }
        },
        TrackerMessage::Scrape { auth_token, info_hash } => {
            let token = match auth_token {
                Some(t) => Some(t.as_str()),
                None => None,
            };
            if !check_auth(token, config) {
                return TrackerResponse::Error { message: "autenticación requerida".to_string() };
            }
            match hex_decode(info_hash.as_str().as_bytes()) {
                Ok(v) => {
                    if v.len() == 32 {
                        let ih = copy_array32(v.as_slice(), 0);
                        assert(v@.subrange(0, 32) =~= v@);
                        let (complete, incomplete, downloaded) = table.scrape_at(&ih, now);
                        TrackerResponse::Scrape(ScrapeResponse { complete, incomplete, downloaded })
                    } else {
                        TrackerResponse::Error { message: "info_hash inválido".to_string() }
                    }
                },
                Err(_) => TrackerResponse::Error { message: "info_hash inválido".to_string() },
            }
        },
    }
}

} // verus!
