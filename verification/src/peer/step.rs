//! One step of a peer session: a message from the peer changes what we know
//! of it and says what the session does next.
use vstd::prelude::*;

use crate::protocol::bitmap::decode_bitmap;
use crate::protocol::priority::Priority;
use super::state::{after_have_piece, without_request, AvailabilityView, SessionState};

verus! {

/// A message read from the peer's control stream, as the session sees it.
#[derive(Debug, Clone)]
pub enum SessionEvent {
    KeepAlive,
    HaveAll { file_index: u16 },
    HaveNone { file_index: u16 },
    HavePiece { file_index: u16, piece_index: u32 },
    HaveBitmap { file_index: u16, bitmap: Vec<u8> },
    Request { file_index: u16, piece_index: u32, begin: u32, length: u32 },
    Piece { file_index: u16, piece_index: u32, begin: u32 },
    Cancel { file_index: u16, piece_index: u32, begin: u32 },
    PriorityHint { file_index: u16, priority: Priority },
    /// The peer refused one of our requests.
    Reject,
    /// The peer ends the session.
    Bye,
    /// A hello, or a hash message that the data streams handle.
    Other,
}

/// What the session does after a message.
#[derive(Debug, Clone, Copy, PartialEq, Eq, Structural)]
pub enum SessionAction {
    /// Nothing more.
    Nothing,
    /// Hand the message to the session's handler.
    Notify,
    /// Ask the handler for the block and answer the peer; see
    /// [`request_reply`].
    Answer { file_index: u16, piece_index: u32, begin: u32, length: u32 },
    /// End the session: the peer left.
    Close,
}

/// The session's state after `ev` took it from `before`, and the action
/// that follows.
pub open spec fn session_step(before: SessionState, after: SessionState, ev: SessionEvent, res: SessionAction) -> bool {
    &&& after.num_files == before.num_files
    &&& match ev {
        SessionEvent::HaveAll { file_index } => after.avail() == before.avail().insert(file_index, AvailabilityView::HaveAll)
            && after.pending@ == before.pending@ && res == SessionAction::Notify,
        SessionEvent::HaveNone { file_index } => after.avail() == before.avail().insert(file_index, AvailabilityView::HaveNone)
            && after.pending@ == before.pending@ && res == SessionAction::Notify,
        SessionEvent::HavePiece { file_index, piece_index } => after.avail() == before.avail().insert(
            file_index,
            after_have_piece(
                if before.avail().contains_key(file_index) { Some(before.avail()[file_index]) } else { None },
                piece_index as nat,
            ),
        ) && after.pending@ == before.pending@ && res == SessionAction::Notify,
        SessionEvent::HaveBitmap { file_index, bitmap } => after.avail() == before.avail().insert(
            file_index,
            AvailabilityView::Bitmap(decode_bitmap(bitmap@, 8 * bitmap@.len())),
        ) && after.pending@ == before.pending@ && res == SessionAction::Notify,
        SessionEvent::Request { file_index, piece_index, begin, length } => after.avail() == before.avail()
            && after.pending@ == before.pending@ && res == (SessionAction::Answer { file_index, piece_index, begin, length }),
        SessionEvent::Piece { file_index, piece_index, begin } => after.avail() == before.avail()
            && after.pending@ == without_request(before.pending@, file_index, piece_index, begin)
            && res == SessionAction::Notify,
        SessionEvent::Cancel { file_index, piece_index, begin } => after.avail() == before.avail()
            && after.pending@ == without_request(before.pending@, file_index, piece_index, begin)
            && res == SessionAction::Nothing,
        SessionEvent::PriorityHint { .. } => after.avail() == before.avail() && after.pending@ == before.pending@
            && res == SessionAction::Notify,
        SessionEvent::Bye => after.avail() == before.avail() && after.pending@ == before.pending@ && res
            == SessionAction::Close,
        _ => after.avail() == before.avail() && after.pending@ == before.pending@ && res == SessionAction::Nothing,
    }
}

impl SessionState {
    /// Takes in one message from the peer: announcements of what it has
    /// update the file's availability and go to the handler; a received
    /// block or a cancel drops the matching pending request (the block also
    /// goes to the handler); a request is answered; a goodbye ends the
    /// session; anything else is ignored.
    pub fn on_event(&mut self, ev: &SessionEvent) -> (res: SessionAction)
        requires
            ev matches SessionEvent::HavePiece { piece_index, .. } ==> piece_index < usize::MAX,
            ev matches SessionEvent::HaveBitmap { bitmap, .. } ==> 8 * bitmap@.len() <= usize::MAX,
        ensures
            session_step(*old(self), *final(self), *ev, res),
            // What each message leads to, message by message: everything the
            // peer tells about its pieces, a received block and a priority hint
            // go to the handler; a request is answered with its own fields; a
            // goodbye closes the session; the rest asks for nothing.
            res == SessionAction::Notify <==> (ev is HaveAll || ev is HaveNone || ev is HavePiece || ev is HaveBitmap
                || ev is Piece || ev is PriorityHint),
            ev is PriorityHint ==> res == SessionAction::Notify,
            *ev matches SessionEvent::Request { file_index, piece_index, begin, length } ==> res == (SessionAction::Answer {
                file_index,
                piece_index,
                begin,
                length,
            }),
            res == SessionAction::Close <==> ev is Bye,
            res == SessionAction::Nothing <==> (ev is KeepAlive || ev is Cancel || ev is Reject || ev is Other),
            // Only a received block or a cancel touches the pending requests,
            // and only announcements change what the peer is known to have.
            !(ev is Piece || ev is Cancel) ==> final(self).pending@ == old(self).pending@,
            !(ev is HaveAll || ev is HaveNone || ev is HavePiece || ev is HaveBitmap) ==> final(self).avail() == old(self).avail(),
    {
        match ev {
            SessionEvent::HaveAll { file_index } => {
                self.apply_have_all(*file_index);
                SessionAction::Notify
            },
            SessionEvent::HaveNone { file_index } => {
                self.apply_have_none(*file_index);
                SessionAction::Notify
            },
            SessionEvent::HavePiece { file_index, piece_index } => {
                self.apply_have_piece(*file_index, *piece_index);
                SessionAction::Notify
            },
            SessionEvent::HaveBitmap { file_index, bitmap } => {
                self.apply_have_bitmap(*file_index, bitmap.as_slice());
                SessionAction::Notify
            },
            SessionEvent::Request { file_index, piece_index, begin, length } => SessionAction::Answer {
                file_index: *file_index,
                piece_index: *piece_index,
                begin: *begin,
                length: *length,
            },
            SessionEvent::Piece { file_index, piece_index, begin } => {
                self.remove_pending(*file_index, *piece_index, *begin);
                SessionAction::Notify
            },
            SessionEvent::Cancel { file_index, piece_index, begin } => {
                self.remove_pending(*file_index, *piece_index, *begin);
                SessionAction::Nothing
            },
            SessionEvent::PriorityHint { .. } => SessionAction::Notify,
            SessionEvent::Bye => SessionAction::Close,
            _ => SessionAction::Nothing,
        }
    }
}

/// The answer to a block request.
#[derive(Debug, Clone, PartialEq, Eq)]
pub enum RequestReply {
    /// The block's data.
    Piece { file_index: u16, piece_index: u32, begin: u32, data: Vec<u8> },
    /// A refusal, naming the request.
    Reject { file_index: u16, piece_index: u32, begin: u32, length: u32 },
}

/// The answer to a request once the handler was asked: the block when the
/// handler gave its data, else a refusal.
pub fn request_reply(file_index: u16, piece_index: u32, begin: u32, length: u32, data: Option<Vec<u8>>) -> (res: RequestReply)
    ensures
        match data {
            Some(d) => res == (RequestReply::Piece { file_index, piece_index, begin, data: d }),
            None => res == (RequestReply::Reject { file_index, piece_index, begin, length }),
        },
{
    match data {
        Some(d) => RequestReply::Piece { file_index, piece_index, begin, data: d },
        None => RequestReply::Reject { file_index, piece_index, begin, length },
    }
}

} // verus!
