use broadcast_core::frame::{encode_frame, try_extract, FrameError, HEADER_LEN};
use broadcast_core::MAX_PAYLOAD_LEN;

#[test]
fn encode_exact_bytes() {
    let payload: Vec<u8> = vec![b'h', b'e', b'l', b'l', b'o'];
    let framed = encode_frame(&payload);
    assert_eq!(framed, vec![0u8, 0, 0, 5, b'h', b'e', b'l', b'l', b'o']);
}

#[test]
fn encode_empty_payload() {
    let payload: Vec<u8> = vec![];
    let framed = encode_frame(&payload);
    assert_eq!(framed, vec![0u8, 0, 0, 0]);
    assert_eq!(framed.len(), HEADER_LEN);
}

#[test]
fn encode_big_endian_header() {
    let payload: Vec<u8> = vec![7u8; 258];
    let framed = encode_frame(&payload);
    assert_eq!(&framed[..4], &[0u8, 0, 1, 2]);
    assert_eq!(framed.len(), 4 + 258);
}

#[test]
fn extract_round_trip() {
    let payload: Vec<u8> = vec![1, 2, 3, 4, 5, 6];
    let mut buf = encode_frame(&payload);
    let got = try_extract(&mut buf, MAX_PAYLOAD_LEN).unwrap().unwrap();
    assert_eq!(got, payload);
    assert!(buf.is_empty());
}

#[test]
fn extract_needs_full_header() {
    let mut buf: Vec<u8> = vec![0, 0, 0];
    let r = try_extract(&mut buf, MAX_PAYLOAD_LEN);
    assert_eq!(r, Ok(None));
    assert_eq!(buf, vec![0, 0, 0]);
}

#[test]
fn extract_across_partial_reads() {
    let payload: Vec<u8> = vec![9, 8, 7];
    let framed = encode_frame(&payload);
    let mut buf: Vec<u8> = Vec::new();
    for (i, b) in framed.iter().enumerate() {
        buf.push(*b);
        let r = try_extract(&mut buf, MAX_PAYLOAD_LEN);
        if i + 1 < framed.len() {
            assert_eq!(r, Ok(None), "no message before the last byte");
        } else {
            assert_eq!(r.unwrap().unwrap(), payload);
        }
    }
    assert!(buf.is_empty());
    assert_eq!(try_extract(&mut buf, MAX_PAYLOAD_LEN), Ok(None));
}

#[test]
fn extract_keeps_trailing_bytes() {
    let payload: Vec<u8> = vec![42, 43];
    let mut buf = encode_frame(&payload);
    buf.push(0);
    buf.push(0);
    let got = try_extract(&mut buf, MAX_PAYLOAD_LEN).unwrap().unwrap();
    assert_eq!(got, payload);
    assert_eq!(buf, vec![0, 0]);
}

#[test]
fn extract_two_messages_in_order() {
    let first: Vec<u8> = vec![1];
    let second: Vec<u8> = vec![2, 2];
    let mut buf = encode_frame(&first);
    buf.extend(encode_frame(&second));
    assert_eq!(try_extract(&mut buf, MAX_PAYLOAD_LEN).unwrap().unwrap(), first);
    assert_eq!(try_extract(&mut buf, MAX_PAYLOAD_LEN).unwrap().unwrap(), second);
    assert_eq!(try_extract(&mut buf, MAX_PAYLOAD_LEN), Ok(None));
}

#[test]
fn oversized_declared_length_rejected() {
    // A header alone suffices: it declares one byte more than the maximum.
    let above = (MAX_PAYLOAD_LEN + 1) as u32;
    let mut buf: Vec<u8> = vec![
        (above >> 24) as u8,
        (above >> 16) as u8,
        (above >> 8) as u8,
        above as u8,
    ];
    let r = try_extract(&mut buf, MAX_PAYLOAD_LEN);
    assert_eq!(r, Err(FrameError::Oversized));
    assert_eq!(buf.len(), 4);
}

#[test]
fn length_at_maximum_accepted() {
    let payload: Vec<u8> = vec![5u8; MAX_PAYLOAD_LEN];
    let mut buf = encode_frame(&payload);
    let got = try_extract(&mut buf, MAX_PAYLOAD_LEN).unwrap().unwrap();
    assert_eq!(got.len(), MAX_PAYLOAD_LEN);
    assert!(buf.is_empty());
}
