use crypto_paths::ws_continuation_buffer::ContinuationFrameItem::{Continue, FirstBinary, FirstText, Last};
use crypto_paths::ws_continuation_buffer::WsContinuationBufferError::{
    TransitionFromContinueToFirstBinary, TransitionFromContinueToFirstText, TransitionFromFirstToContinue,
    TransitionFromFirstToLast,
};
use crypto_paths::ws_continuation_buffer::{
    ContinuationFrameItem, HandledItem, WsContinuationBuffer, WsContinuationBufferError,
};

#[test]
fn test_ws_continuation_buffer() {
    let mut buffer = WsContinuationBuffer::default();

    let first_error_item = Continue("starting with Continue".as_bytes().to_vec());
    assert!(matches!(buffer.handle_msg(first_error_item), Err(TransitionFromFirstToContinue)));

    let first_error_item = Last("starting with Last".as_bytes().to_vec());
    assert!(matches!(buffer.handle_msg(first_error_item), Err(TransitionFromFirstToLast)));

    let item = FirstBinary("First Binary".as_bytes().to_vec());
    assert!(matches!(buffer.handle_msg(item), Ok(HandledItem::Continue)));
    let item = FirstBinary("First Binary Again".as_bytes().to_vec());
    assert!(matches!(buffer.handle_msg(item), Err(TransitionFromContinueToFirstBinary)));

    let item = FirstText("First Text".as_bytes().to_vec());
    assert!(matches!(buffer.handle_msg(item), Ok(HandledItem::Continue)));
    let item = FirstText("First Text Again".as_bytes().to_vec());
    assert!(matches!(buffer.handle_msg(item), Err(TransitionFromContinueToFirstText)));

    let bytes_in_order: Vec<u8> = (0u8..255u8).collect();
    let chunks = bytes_in_order.chunks(10);
    assert!(chunks.len() >= 3, "We must have at least 3 chunks to execute this test");
    let last_index = chunks.len() - 1;
    for (idx, chunk) in chunks.enumerate() {
        let bytes = chunk.to_owned();
        match (idx == 0, idx == last_index) {
            (true, _) => {
                let r = buffer.handle_msg(FirstBinary(bytes));
                assert!(matches!(r, Ok(HandledItem::Continue)));
            }
            (_, false) => {
                let r = buffer.handle_msg(Continue(bytes));
                assert!(matches!(r, Ok(HandledItem::Continue)));
            }
            (_, true) => {
                let r = buffer.handle_msg(Last(bytes));
                assert!(matches!(r, Ok(HandledItem::Binary(vec_result)) if vec_result.eq(&bytes_in_order)));
            }
        }
    }

    let cont = buffer.handle_msg(FirstText(b"first".to_vec()));
    assert!(matches!(cont, Ok(HandledItem::Continue)));
    let cont = buffer.handle_msg(Continue(b"continue".to_vec()));
    assert!(matches!(cont, Ok(HandledItem::Continue)));
    let last = buffer.handle_msg(Last(b"last".to_vec()));
    assert!(matches!(last, Ok(HandledItem::Text(text)) if text.eq("firstcontinuelast")));
}

#[test]
fn invalid_utf8_text_is_refused_with_its_bytes() {
    let mut buffer = WsContinuationBuffer::default();
    assert!(matches!(buffer.handle_msg(ContinuationFrameItem::FirstText(vec![0xff])), Ok(HandledItem::Continue)));
    match buffer.handle_msg(ContinuationFrameItem::Last(vec![0xfe])) {
        Err(WsContinuationBufferError::FromUtf8Error(bytes)) => assert_eq!(bytes, vec![0xff, 0xfe]),
        _ => panic!("invalid UTF-8 must be refused"),
    }
    assert!(matches!(buffer.handle_msg(ContinuationFrameItem::FirstBinary(vec![1])), Ok(HandledItem::Continue)));
}
