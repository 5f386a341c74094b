use broadcast_core::connection::{new_message, Connection};
use broadcast_core::frame::encode_frame;
use broadcast_core::FrameError;

#[test]
fn fresh_connection_is_idle() {
    let c = Connection::new(3);
    assert_eq!(c.get_token(), 3);
    assert!(c.pending().is_none());
}

#[test]
fn receive_then_extract_one_message() {
    let mut c = Connection::new(0);
    let payload: Vec<u8> = vec![10, 20, 30];
    let framed = encode_frame(&payload);
    c.receive(&framed[..2]);
    assert_eq!(c.extract_message(), Ok(None));
    c.receive(&framed[2..]);
    let got = c.extract_message().unwrap().unwrap();
    assert_eq!(got, payload);
    assert_eq!(c.extract_message(), Ok(None));
}

#[test]
fn extract_rejects_oversized_header() {
    let mut c = Connection::new(0);
    // Declares 0x01000000 payload bytes, far above the maximum.
    c.receive(&[1, 0, 0, 0]);
    assert_eq!(c.extract_message(), Err(FrameError::Oversized));
}

#[test]
fn enqueue_signals_write_interest_once() {
    let mut c = Connection::new(0);
    let m1 = new_message(vec![1, 2, 3]);
    let m2 = new_message(vec![4]);
    assert!(c.enqueue(m1), "first message must switch write interest on");
    assert!(!c.enqueue(m2), "a non-empty queue keeps its interest");
}

#[test]
fn partial_write_resumes_without_loss() {
    let mut c = Connection::new(0);
    let bytes: Vec<u8> = vec![1, 2, 3, 4, 5, 6, 7];
    c.enqueue(new_message(bytes.clone()));

    let first = c.pending().unwrap();
    assert_eq!(first, bytes);
    // The socket accepted only three bytes.
    let drained = c.advance(3);
    assert!(!drained);

    let rest = c.pending().unwrap();
    assert_eq!(rest, vec![4, 5, 6, 7]);
    let mut sent: Vec<u8> = Vec::new();
    sent.extend(&first[..3]);
    sent.extend(&rest);
    assert_eq!(sent, bytes, "every byte sent exactly once");

    let drained = c.advance(rest.len());
    assert!(drained, "the queue advances exactly once the message completes");
    assert!(c.pending().is_none());
}

#[test]
fn queue_sends_messages_in_order() {
    let mut c = Connection::new(0);
    c.enqueue(new_message(vec![1, 1]));
    c.enqueue(new_message(vec![2]));
    assert_eq!(c.pending().unwrap(), vec![1, 1]);
    assert!(!c.advance(2), "a second message is still queued");
    assert_eq!(c.pending().unwrap(), vec![2]);
    assert!(c.advance(1));
    assert!(c.pending().is_none());
}
