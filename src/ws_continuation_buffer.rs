use vstd::prelude::*;
use vstd::utf8::{decode_utf8, valid_utf8};

verus! {

/// A WebSocket frame of a fragmented message, with its payload.
#[derive(Debug)]
pub enum ContinuationFrameItem {
    FirstText(Vec<u8>),
    FirstBinary(Vec<u8>),
    Continue(Vec<u8>),
    Last(Vec<u8>),
}

/// What handling one frame gives: more frames are awaited, or the whole message.
#[derive(Debug)]
pub enum HandledItem {
    Continue,
    Binary(Vec<u8>),
    Text(String),
}

/// Frames out of order, or a text message that is not UTF-8 (its bytes kept).
#[derive(Debug)]
pub enum WsContinuationBufferError {
    TransitionFromFirstToContinue,
    TransitionFromFirstToLast,
    TransitionFromContinueToFirstText,
    TransitionFromContinueToFirstBinary,
    FromUtf8Error(Vec<u8>),
}

#[derive(Clone, Copy, PartialEq, Eq, Structural)]
enum FirstType {
    Binary,
    Text,
}

#[derive(Clone, Copy, PartialEq, Eq, Structural)]
enum BufferTransitionState {
    AcceptingFirstItem,
    AcceptingContinueOrLast(FirstType),
}

/// Relies on `String::from_utf8`: it succeeds exactly on valid UTF-8, with
/// the decoded text; on failure the error gives the bytes back.
#[verifier::external_body]
fn string_from_utf8(v: Vec<u8>) -> (r: Result<String, Vec<u8>>)
    ensures
        r is Ok == valid_utf8(v@),
        r is Ok ==> r->Ok_0@ == decode_utf8(v@),
        r is Err ==> r->Err_0@ == v@,
{
    String::from_utf8(v).map_err(|e| e.into_bytes())
}

/// Joins the frames of a fragmented WebSocket message.
pub struct WsContinuationBuffer {
    state: BufferTransitionState,
    bytes: Vec<u8>,
}

impl Default for WsContinuationBuffer {
    fn default() -> (r: Self)
        ensures
            r.waiting() is None,
            r.buffered().len() == 0,
    {
        WsContinuationBuffer { state: BufferTransitionState::AcceptingFirstItem, bytes: Vec::new() }
    }
}

impl WsContinuationBuffer {
    /// `None` while awaiting a first frame; else whether the message is text.
    pub closed spec fn waiting(&self) -> Option<bool> {
        match self.state {
            BufferTransitionState::AcceptingFirstItem => None,
            BufferTransitionState::AcceptingContinueOrLast(t) => Some(t == FirstType::Text),
        }
    }

    /// The payload gathered so far.
    pub closed spec fn buffered(&self) -> Seq<u8> {
        self.bytes@
    }

    fn clear(&mut self)
        ensures
            final(self).waiting() is None,
            final(self).buffered().len() == 0,
    {
        self.state = BufferTransitionState::AcceptingFirstItem;
        self.bytes.clear();
    }

    /// Takes the next frame. A first frame starts a message, continuation
    /// frames extend it, and the last frame completes it; any other order is
    /// an error that drops the message.
    pub fn handle_msg(&mut self, item: ContinuationFrameItem) -> (r: Result<HandledItem, WsContinuationBufferError>)
        requires
            old(self).waiting() is None ==> old(self).buffered().len() == 0,
        ensures
            final(self).waiting() is None ==> final(self).buffered().len() == 0,
            match (old(self).waiting(), item) {
                (None, ContinuationFrameItem::FirstText(b)) => r is Ok && r->Ok_0 is Continue
                    && final(self).waiting() == Some(true) && final(self).buffered() == b@,
                (None, ContinuationFrameItem::FirstBinary(b)) => r is Ok && r->Ok_0 is Continue
                    && final(self).waiting() == Some(false) && final(self).buffered() == b@,
                (None, ContinuationFrameItem::Continue(_)) => r is Err
                    && r->Err_0 is TransitionFromFirstToContinue && final(self).waiting() is None,
                (None, ContinuationFrameItem::Last(_)) => r is Err
                    && r->Err_0 is TransitionFromFirstToLast && final(self).waiting() is None,
                (Some(_), ContinuationFrameItem::FirstText(_)) => r is Err
                    && r->Err_0 is TransitionFromContinueToFirstText && final(self).waiting() is None,
                (Some(_), ContinuationFrameItem::FirstBinary(_)) => r is Err
                    && r->Err_0 is TransitionFromContinueToFirstBinary && final(self).waiting() is None,
                (Some(t), ContinuationFrameItem::Continue(b)) => r is Ok && r->Ok_0 is Continue
                    && final(self).waiting() == Some(t) && final(self).buffered() == old(self).buffered()
                    + b@,
                (Some(t), ContinuationFrameItem::Last(b)) => {
                    let whole = old(self).buffered() + b@;
                    &&& final(self).waiting() is None
                    &&& !t ==> r is Ok && r->Ok_0 is Binary && r->Ok_0->Binary_0@ == whole
                    &&& t && valid_utf8(whole) ==> r is Ok && r->Ok_0 is Text && r->Ok_0->Text_0@
                        == decode_utf8(whole)
                    &&& t && !valid_utf8(whole) ==> r is Err && r->Err_0 is FromUtf8Error
                        && r->Err_0->FromUtf8Error_0@ == whole
                },
            },
    {
        match (self.state, item) {
            (BufferTransitionState::AcceptingFirstItem, ContinuationFrameItem::FirstText(mut b)) => {
                self.state = BufferTransitionState::AcceptingContinueOrLast(FirstType::Text);
                self.bytes.append(&mut b);
                Ok(HandledItem::Continue)
            },
            (BufferTransitionState::AcceptingFirstItem, ContinuationFrameItem::FirstBinary(mut b)) => {
                self.state = BufferTransitionState::AcceptingContinueOrLast(FirstType::Binary);
                self.bytes.append(&mut b);
                Ok(HandledItem::Continue)
            },
            (BufferTransitionState::AcceptingFirstItem, ContinuationFrameItem::Continue(_)) => {
                self.clear();
                Err(WsContinuationBufferError::TransitionFromFirstToContinue)
            },
            (BufferTransitionState::AcceptingFirstItem, ContinuationFrameItem::Last(_)) => {
                self.clear();
                Err(WsContinuationBufferError::TransitionFromFirstToLast)
            },
            (BufferTransitionState::AcceptingContinueOrLast(_), ContinuationFrameItem::FirstText(_)) => {
                self.clear();
                Err(WsContinuationBufferError::TransitionFromContinueToFirstText)
            },
            (BufferTransitionState::AcceptingContinueOrLast(_), ContinuationFrameItem::FirstBinary(_)) => {
                self.clear();
                Err(WsContinuationBufferError::TransitionFromContinueToFirstBinary)
            },
            (BufferTransitionState::AcceptingContinueOrLast(_), ContinuationFrameItem::Continue(mut b)) => {
                self.bytes.append(&mut b);
                Ok(HandledItem::Continue)
            },
            (BufferTransitionState::AcceptingContinueOrLast(return_type), ContinuationFrameItem::Last(mut b)) => {
                self.bytes.append(&mut b);
                let full_message_bytes = self.bytes.clone();
                self.clear();
                match return_type {
                    FirstType::Binary => Ok(HandledItem::Binary(full_message_bytes)),
                    FirstType::Text => match string_from_utf8(full_message_bytes) {
                        Ok(text) => Ok(HandledItem::Text(text)),
                        Err(bytes) => Err(WsContinuationBufferError::FromUtf8Error(bytes)),
                    },
                }
            },
        }
    }
}

} // verus!
