use broadcast_core::frame::encode_frame;
use broadcast_core::server::plan_event;
use broadcast_core::{FrameError, Server, LISTENER_TOKEN};

fn server_with_clients(max: usize, n: usize) -> Server {
    let mut s = Server::new(max).unwrap();
    for i in 0..n {
        assert_eq!(s.available_token(), Some(i));
    }
    s
}

#[test]
fn new_rejects_colliding_maximum() {
    assert!(Server::new(LISTENER_TOKEN).is_none());
    assert!(Server::new(LISTENER_TOKEN + 1).is_none());
    assert!(Server::new(LISTENER_TOKEN - 1).is_some());
    assert!(Server::new(127).is_some());
}

#[test]
fn capacity_limits_live_connections() {
    let mut s = server_with_clients(2, 2);
    assert_eq!(s.client_count(), 2);
    // The third concurrent accept is refused; the table is unchanged.
    assert_eq!(s.available_token(), None);
    assert_eq!(s.client_count(), 2);
}

#[test]
fn removed_token_is_reused() {
    let mut s = server_with_clients(3, 3);
    s.remove_client(1);
    assert!(s.get_client(1).is_none());
    assert_eq!(s.client_count(), 2);
    // The freed slot is the only vacancy, so the next accept reuses it.
    assert_eq!(s.available_token(), Some(1));
    assert_eq!(s.client_count(), 3);
}

#[test]
fn lowest_vacant_token_first() {
    let mut s = server_with_clients(3, 3);
    s.remove_client(2);
    s.remove_client(0);
    assert_eq!(s.available_token(), Some(0));
    assert_eq!(s.available_token(), Some(2));
    assert_eq!(s.available_token(), None);
}

#[test]
fn broadcast_reaches_every_live_connection() {
    let mut s = server_with_clients(4, 3);
    let payload: Vec<u8> = vec![b'h', b'i'];
    let framed = encode_frame(&payload);

    assert!(s.receive_bytes(1, &framed));
    let regs = s.process_message(1).unwrap().unwrap();
    // Every live connection had an empty queue, so all three must newly
    // ask for write readiness — the sender included.
    let mut regs_sorted = regs.clone();
    regs_sorted.sort();
    assert_eq!(regs_sorted, vec![0, 1, 2]);

    for t in 0..3 {
        let b = s.pending_bytes(t).unwrap();
        assert_eq!(b, framed, "connection {} got exactly the framed message", t);
    }
    // Exactly one copy each: draining it leaves the queue empty.
    for t in 0..3 {
        let b = s.pending_bytes(t).unwrap();
        assert!(s.mark_written(t, b.len()));
        assert!(s.pending_bytes(t).is_none());
    }
}

#[test]
fn two_buffered_messages_broadcast_in_turn() {
    let mut s = server_with_clients(2, 2);
    let first = encode_frame(&vec![1u8]);
    let second = encode_frame(&vec![2u8, 2]);
    let mut both = first.clone();
    both.extend(second.iter());

    assert!(s.receive_bytes(0, &both));
    assert!(s.process_message(0).unwrap().is_some());
    assert!(s.process_message(0).unwrap().is_some());
    assert_eq!(s.process_message(0), Ok(None));

    for t in 0..2 {
        let b = s.pending_bytes(t).unwrap();
        assert_eq!(b, first);
        assert!(!s.mark_written(t, b.len()), "the second message still waits");
        let b = s.pending_bytes(t).unwrap();
        assert_eq!(b, second);
        assert!(s.mark_written(t, b.len()));
    }
}

#[test]
fn partial_write_then_rest_at_server() {
    let mut s = server_with_clients(2, 1);
    let framed = encode_frame(&vec![9u8; 6]);
    assert!(s.receive_bytes(0, &framed));
    s.process_message(0).unwrap().unwrap();

    let b = s.pending_bytes(0).unwrap();
    assert_eq!(b.len(), 10);
    assert!(!s.mark_written(0, 4));
    let rest = s.pending_bytes(0).unwrap();
    assert_eq!(rest, b[4..].to_vec());
    assert!(s.mark_written(0, rest.len()));
    assert!(s.pending_bytes(0).is_none());
}

#[test]
fn removal_leaves_others_untouched() {
    let mut s = server_with_clients(3, 3);
    s.remove_client(1);
    assert!(s.get_client(0).is_some());
    assert!(s.get_client(1).is_none());
    assert!(s.get_client(2).is_some());

    // A broadcast from a survivor reaches the survivors only.
    let framed = encode_frame(&vec![7u8]);
    assert!(s.receive_bytes(0, &framed));
    s.process_message(0).unwrap().unwrap();
    assert_eq!(s.pending_bytes(0).unwrap(), framed);
    assert!(s.pending_bytes(1).is_none());
    assert_eq!(s.pending_bytes(2).unwrap(), framed);
}

#[test]
fn oversized_frame_is_an_error_and_nothing_is_delivered() {
    let mut s = server_with_clients(3, 3);
    // A header declaring far more than the per-message maximum.
    assert!(s.receive_bytes(2, &[0xff, 0xff, 0xff, 0xff]));
    assert_eq!(s.process_message(2), Err(FrameError::Oversized));
    // The dispatcher removes the offender; no one received anything.
    s.remove_client(2);
    assert!(s.get_client(2).is_none());
    for t in 0..3 {
        assert!(s.pending_bytes(t).is_none());
    }
    assert_eq!(s.client_count(), 2);
}

#[test]
fn occupants_carry_their_own_token() {
    let mut s = server_with_clients(3, 3);
    for t in 0..3 {
        assert_eq!(s.get_client(t).unwrap().get_token(), t);
    }
    s.remove_client(0);
    assert_eq!(s.available_token(), Some(0));
    assert_eq!(s.get_client(0).unwrap().get_token(), 0);
}

#[test]
fn stale_tokens_are_dropped_silently() {
    let mut s = server_with_clients(2, 1);
    assert!(!s.receive_bytes(1, &[1, 2, 3]));
    assert_eq!(s.process_message(1), Ok(None));
    assert!(s.pending_bytes(1).is_none());
    // The reserved listener token never resolves to a connection.
    assert!(s.get_client(LISTENER_TOKEN).is_none());
}

#[test]
fn event_policy_routes_by_token_and_readiness() {
    let p = plan_event(LISTENER_TOKEN, false, true, false);
    assert!(p.accept && !p.read && !p.flush && !p.remove_now);

    let p = plan_event(4, false, true, false);
    assert!(p.read && !p.accept && !p.flush && !p.remove_now);

    let p = plan_event(4, false, false, true);
    assert!(p.flush && !p.read && !p.accept && !p.remove_now);

    let p = plan_event(4, false, true, true);
    assert!(p.read && p.flush && !p.accept);

    // Error readiness wins over everything else.
    let p = plan_event(4, true, true, true);
    assert!(p.remove_now && !p.read && !p.flush && !p.accept);
}

#[test]
fn incomplete_frame_waits_for_more_bytes() {
    let mut s = server_with_clients(2, 2);
    let framed = encode_frame(&vec![3u8, 3, 3]);
    assert!(s.receive_bytes(0, &framed[..5]));
    assert_eq!(s.process_message(0), Ok(None));
    assert!(s.pending_bytes(1).is_none());
    assert!(s.receive_bytes(0, &framed[5..]));
    s.process_message(0).unwrap().unwrap();
    assert_eq!(s.pending_bytes(1).unwrap(), framed);
}
