use bitturbulence::protocol::auth::AuthPayload;
use bitturbulence::protocol::codec::{Frame, MessageCodec, MAX_FRAME_SIZE};
use bitturbulence::protocol::error::ProtocolError;
use bitturbulence::protocol::info_hash::InfoHash;
use bitturbulence::protocol::priority::Priority;

fn rt(auth: AuthPayload) {
    let encoded = auth.encode();
    let (decoded, used) = AuthPayload::decode(&encoded).unwrap();
    assert_eq!(auth, decoded);
    assert_eq!(used, encoded.len());
}

#[test]
fn none() {
    rt(AuthPayload::NoAuth);
}

#[test]
fn certificate() {
    rt(AuthPayload::Certificate);
}

#[test]
fn token() {
    rt(AuthPayload::Token([0xAB; 32]));
}

#[test]
fn credentials() {
    rt(AuthPayload::Credentials { user: "jordi".into(), password_hash: [0x42; 32] });
}

#[test]
fn auth_encoding_layout() {
    assert_eq!(AuthPayload::NoAuth.encode(), vec![0u8]);
    assert_eq!(AuthPayload::Certificate.encode(), vec![3u8]);
    let enc = AuthPayload::Credentials { user: "ab".into(), password_hash: [7; 32] }.encode();
    assert_eq!(&enc[..5], &[1u8, 0, 2, b'a', b'b']);
    assert_eq!(enc.len(), 5 + 32);
}

#[test]
fn auth_decode_errors() {
    assert_eq!(
        AuthPayload::decode(&[]),
        Err(ProtocolError::InvalidMessageLength { expected: 1, got: 0 })
    );
    assert_eq!(AuthPayload::decode(&[9]), Err(ProtocolError::InvalidAuthTag(9)));
    assert_eq!(
        AuthPayload::decode(&[2, 1, 2, 3]),
        Err(ProtocolError::InvalidMessageLength { expected: 32, got: 3 })
    );
    assert_eq!(
        AuthPayload::decode(&[1, 0]),
        Err(ProtocolError::InvalidMessageLength { expected: 2, got: 1 })
    );
    assert_eq!(
        AuthPayload::decode(&[1, 0, 3, b'x']),
        Err(ProtocolError::InvalidMessageLength { expected: 35, got: 1 })
    );
    let mut bad_user = vec![1u8, 0, 1, 0xFF];
    bad_user.extend_from_slice(&[0u8; 32]);
    assert_eq!(AuthPayload::decode(&bad_user), Err(ProtocolError::Utf8));
}

#[test]
fn auth_decode_leaves_trailing_bytes() {
    let mut buf = AuthPayload::Token([1; 32]).encode();
    buf.extend_from_slice(&[0xEE, 0xEE]);
    let (a, used) = AuthPayload::decode(&buf).unwrap();
    assert_eq!(a, AuthPayload::Token([1; 32]));
    assert_eq!(used, 33);
}

fn frame_rt(payload: &[u8]) -> Frame {
    let mut codec = MessageCodec;
    let mut buf = Vec::new();
    codec.encode(payload, &mut buf).unwrap();
    let f = codec.decode(&mut buf).unwrap().unwrap();
    assert!(buf.is_empty());
    f
}

#[test]
fn keepalive() {
    assert_eq!(frame_rt(&[]), Frame::KeepAlive);
}

#[test]
fn have_piece() {
    let payload = vec![7u8, 0, 0, 0, 0, 0, 7];
    assert_eq!(frame_rt(&payload), Frame::Payload(payload.clone()));
}

#[test]
fn partial() {
    let mut c = MessageCodec;
    let mut b = vec![0u8, 0, 0];
    assert!(c.decode(&mut b).unwrap().is_none());
    assert_eq!(b, vec![0u8, 0, 0]);
}

#[test]
fn too_large() {
    let mut c = MessageCodec;
    let mut b = ((MAX_FRAME_SIZE + 1) as u32).to_be_bytes().to_vec();
    assert_eq!(c.decode(&mut b), Err(ProtocolError::FrameTooLarge(MAX_FRAME_SIZE + 1)));
}

#[test]
fn frame_header_is_big_endian_length() {
    let mut c = MessageCodec;
    let mut dst = vec![0xAAu8];
    c.encode(&[1, 2, 3], &mut dst).unwrap();
    assert_eq!(dst, vec![0xAA, 0, 0, 0, 3, 1, 2, 3]);
}

#[test]
fn incomplete_payload_waits() {
    let mut c = MessageCodec;
    let mut b = vec![0u8, 0, 0, 4, 1, 2];
    assert_eq!(c.decode(&mut b), Ok(None));
    assert_eq!(b.len(), 6);
}

#[test]
fn two_frames_decode_in_order() {
    let mut c = MessageCodec;
    let mut buf = Vec::new();
    c.encode(&[1], &mut buf).unwrap();
    c.encode(&[], &mut buf).unwrap();
    c.encode(&[2, 3], &mut buf).unwrap();
    assert_eq!(c.decode(&mut buf), Ok(Some(Frame::Payload(vec![1]))));
    assert_eq!(c.decode(&mut buf), Ok(Some(Frame::KeepAlive)));
    assert_eq!(c.decode(&mut buf), Ok(Some(Frame::Payload(vec![2, 3]))));
    assert_eq!(c.decode(&mut buf), Ok(None));
}

#[test]
fn display_is_64_hex_chars() {
    let h = InfoHash::from_info_bytes(b"hello");
    assert_eq!(h.to_string().len(), 64);
}

#[test]
fn wrong_length_errors() {
    assert!(InfoHash::from_bytes(&[0u8; 31]).is_err());
    assert!(InfoHash::from_bytes(&[0u8; 33]).is_err());
}

#[test]
fn correct_length_ok() {
    assert!(InfoHash::from_bytes(&[0u8; 32]).is_ok());
}

#[test]
fn info_hash_hex_and_bytes() {
    let mut arr = [0u8; 32];
    arr[0] = 0xAB;
    arr[31] = 0x01;
    let h = InfoHash::from_array(arr);
    assert_eq!(h.as_bytes(), &arr);
    let hex = h.to_string();
    assert!(hex.starts_with("ab00"));
    assert!(hex.ends_with("0001"));
    assert_eq!(InfoHash::from_bytes(&[0u8; 5]), Err(ProtocolError::InvalidInfoHashLength(5)));
    let h2 = InfoHash::from_info_bytes(b"abc");
    assert_eq!(h2.to_string(), "ba7816bf8f01cfea414140de5dae2223b00361a396177a9cb410ff61f20015ad");
}

#[test]
fn roundtrip() {
    for v in 0u8..=8 {
        let p = Priority::from_u8(v).unwrap();
        assert_eq!(p.as_u8(), v);
    }
}

#[test]
fn invalid_value_errors() {
    assert!(Priority::from_u8(9).is_err());
    assert!(Priority::from_u8(255).is_err());
    assert_eq!(Priority::from_u8(9), Err(ProtocolError::InvalidPriority(9)));
}

#[test]
fn ordering() {
    assert!(Priority::Maximum > Priority::Minimum);
    assert!(Priority::High > Priority::Normal);
    assert!(Priority::Normal > Priority::Low);
}

#[test]
fn priority_default_level_is_normal() {
    assert_eq!(Priority::default_level(), Priority::Normal);
    assert_eq!(Priority::default(), Priority::Normal);
    assert_eq!(Priority::Normal.as_u8(), 4);
}
