use variant_pca::chunked_read::{ChunkedRead, ReadAction, ReadError, ReadEvent, CHUNK_SIZE};

#[test]
fn requests_are_bounded_by_one_chunk() {
    assert_eq!(CHUNK_SIZE, 1024 * 1024);
    let mut state = ChunkedRead::new(3 * CHUNK_SIZE + 5);
    assert_eq!(state.on_event(ReadEvent::Opened), ReadAction::Request(CHUNK_SIZE));
    assert_eq!(state.total_read(), 0);
    assert!(!state.is_complete());
}

#[test]
fn short_file_is_requested_whole() {
    let mut state = ChunkedRead::new(10);
    assert_eq!(state.next_action(), ReadAction::Request(10));
    assert_eq!(state.on_event(ReadEvent::Opened), ReadAction::Request(10));
}

#[test]
fn file_that_cannot_be_opened() {
    let mut state = ChunkedRead::new(10);
    assert_eq!(state.on_event(ReadEvent::OpenFailed), ReadAction::Abort(ReadError::Open));
    assert_eq!(state.total_read(), 0);
}

#[test]
fn failed_request() {
    let mut state = ChunkedRead::new(10);
    assert_eq!(state.on_event(ReadEvent::Delivered(&[1, 2, 3])), ReadAction::Request(7));
    assert_eq!(state.on_event(ReadEvent::Failed), ReadAction::Abort(ReadError::Io));
    assert_eq!(state.buffer, vec![1, 2, 3]);
}

#[test]
fn short_deliveries_are_followed_by_more_requests() {
    let mut state = ChunkedRead::new(10);
    assert_eq!(state.on_event(ReadEvent::Delivered(&[1, 2, 3])), ReadAction::Request(7));
    assert_eq!(state.total_read(), 3);
    assert_eq!(
        state.on_event(ReadEvent::Delivered(&[4, 5, 6, 7, 8, 9])),
        ReadAction::Request(1)
    );
    assert!(!state.is_complete());
    assert_eq!(state.on_event(ReadEvent::Delivered(&[10])), ReadAction::Finish);
    assert!(state.is_complete());
    assert_eq!(state.next_action(), ReadAction::Finish);
    assert_eq!(state.into_buffer(), vec![1, 2, 3, 4, 5, 6, 7, 8, 9, 10]);
}

#[test]
fn early_end_of_file_is_a_truncated_read() {
    let mut state = ChunkedRead::new(10);
    assert_eq!(
        state.on_event(ReadEvent::Delivered(&[1, 2, 3, 4, 5, 6, 7, 8])),
        ReadAction::Request(2)
    );
    assert_eq!(state.on_event(ReadEvent::Delivered(&[])), ReadAction::Abort(ReadError::Truncated));
    assert_eq!(state.total_read(), 8);
    assert_eq!(state.buffer, vec![1, 2, 3, 4, 5, 6, 7, 8]);
}

#[test]
fn end_of_file_at_the_start_is_a_truncated_read() {
    let mut state = ChunkedRead::new(1);
    assert_eq!(state.on_event(ReadEvent::Delivered(&[])), ReadAction::Abort(ReadError::Truncated));
}

#[test]
fn load_of_nothing_is_complete_at_once() {
    let mut state = ChunkedRead::new(0);
    assert!(state.is_complete());
    assert_eq!(state.on_event(ReadEvent::Opened), ReadAction::Finish);
    assert_eq!(state.into_buffer(), Vec::<u8>::new());
}

#[test]
fn last_request_is_the_remainder() {
    let length = CHUNK_SIZE + 7;
    let mut state = ChunkedRead::new(length);
    let chunk = vec![9u8; CHUNK_SIZE];
    assert_eq!(state.on_event(ReadEvent::Delivered(&chunk)), ReadAction::Request(7));
    assert_eq!(
        state.on_event(ReadEvent::Delivered(&[1, 2, 3, 4, 5, 6, 7])),
        ReadAction::Finish
    );
    let buffer = state.into_buffer();
    assert_eq!(buffer.len(), length);
    assert_eq!(buffer[CHUNK_SIZE - 1], 9);
    assert_eq!(buffer[CHUNK_SIZE], 1);
    assert_eq!(buffer[length - 1], 7);
}

#[test]
fn whole_chunks_in_a_row() {
    let mut state = ChunkedRead::new(2 * CHUNK_SIZE);
    let chunk = vec![0u8; CHUNK_SIZE];
    assert_eq!(state.on_event(ReadEvent::Delivered(&chunk)), ReadAction::Request(CHUNK_SIZE));
    assert_eq!(state.on_event(ReadEvent::Delivered(&chunk)), ReadAction::Finish);
}
