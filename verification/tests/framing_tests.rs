use meshcore::framing::{decode, encode, FrameError, MAX_FRAME};

#[test]
fn roundtrip_and_partial() {
    // An encoded control message: seq 7, heartbeat at 123 ms.
    let body: Vec<u8> = vec![0x10, 0x07, 0x52, 0x02, 0x08, 123];
    let bytes = encode(&body);
    let mut buf = bytes[..3].to_vec();
    assert!(decode(&mut buf).unwrap().is_none());
    buf.extend_from_slice(&bytes[3..]);
    let got = decode(&mut buf).unwrap().unwrap();
    assert_eq!(got, body);
    assert_eq!(got[1], 7);
    assert!(buf.is_empty());
}

#[test]
fn frame_has_a_big_endian_length() {
    let f = encode(&[1, 2, 3]);
    assert_eq!(f, vec![0, 0, 0, 3, 1, 2, 3]);
    let e = encode(&vec![0u8; 300]);
    assert_eq!(&e[..4], &[0, 0, 1, 44]);
}

#[test]
fn two_frames_come_out_in_order() {
    let mut buf = encode(&[1]);
    buf.extend(encode(&[2, 2]));
    assert_eq!(decode(&mut buf).unwrap(), Some(vec![1]));
    assert_eq!(decode(&mut buf).unwrap(), Some(vec![2, 2]));
    assert_eq!(decode(&mut buf).unwrap(), None);
}

#[test]
fn oversized_frames_are_refused() {
    let n = (MAX_FRAME + 1) as u32;
    let mut buf = n.to_be_bytes().to_vec();
    assert_eq!(decode(&mut buf), Err(FrameError::TooLarge(MAX_FRAME + 1)));
    assert_eq!(buf.len(), 4);
}
