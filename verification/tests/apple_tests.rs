use whereami::apple::{
    decode_length_delimited, decode_reply, decode_response, decode_tag, decode_varint,
    encode_bytes, encode_request, encode_string, encode_varint, encode_varint_field,
    parse_location, parse_wifi_device, skip_field, AppleReplyError, ProtoError,
};

fn varint(v: u64) -> Vec<u8> {
    let mut b = Vec::new();
    encode_varint(&mut b, v);
    b
}

#[test]
fn varint_encoding_examples() {
    assert_eq!(varint(0), vec![0]);
    assert_eq!(varint(1), vec![1]);
    assert_eq!(varint(127), vec![127]);
    assert_eq!(varint(128), vec![0x80, 0x01]);
    assert_eq!(varint(300), vec![0xAC, 0x02]);
    assert_eq!(varint(u64::MAX).len(), 10);
}

#[test]
fn varint_round_trips() {
    for v in [0u64, 1, 127, 128, 300, 1 << 35, u64::MAX - 1, u64::MAX] {
        let mut b = varint(v);
        b.push(0x55);
        assert_eq!(decode_varint(&b, 0), Ok((v, b.len() - 1)));
    }
}

#[test]
fn varint_errors() {
    assert_eq!(decode_varint(&[], 0), Err(ProtoError::UnexpectedEnd));
    assert_eq!(decode_varint(&[0x80, 0x80], 0), Err(ProtoError::UnexpectedEnd));
    assert_eq!(decode_varint(&[1, 2], 7), Err(ProtoError::UnexpectedEnd));
    assert_eq!(decode_varint(&[0xFF; 11], 0), Err(ProtoError::VarintTooLong));
}

#[test]
fn field_helpers() {
    let mut b = Vec::new();
    encode_varint_field(&mut b, 3, 0);
    encode_varint_field(&mut b, 4, 1);
    assert_eq!(b, vec![0x18, 0x00, 0x20, 0x01]);
    assert_eq!(decode_tag(&b, 0), Ok((3, 0, 1)));
    assert_eq!(skip_field(&b, 1, 0), Ok(2));
    let mut s = Vec::new();
    encode_string(&mut s, 1, "AB");
    assert_eq!(s, vec![0x0A, 2, b'A', b'B']);
    let mut d = Vec::new();
    encode_bytes(&mut d, 2, &s);
    assert_eq!(d[0], 0x12);
    assert_eq!(decode_length_delimited(&d, 1), Ok((&s[..], d.len())));
    assert_eq!(decode_length_delimited(&[5, 1], 0), Err(ProtoError::LengthPastEnd));
    assert_eq!(skip_field(&[1, 2, 3], 0, 1), Err(ProtoError::Truncated64));
    assert_eq!(skip_field(&[1, 2, 3], 0, 5), Err(ProtoError::Truncated32));
    assert_eq!(skip_field(&[1, 2, 3, 4], 0, 5), Ok(4));
    assert_eq!(skip_field(&[1], 0, 3), Err(ProtoError::UnknownWireType(3)));
}

#[test]
fn envelope_length_field_matches_payload() {
    let bssids: Vec<String> = (0..300).map(|i| format!("AA:BB:CC:DD:{:02X}:{:02X}", i / 256, i % 256)).collect();
    let env = encode_request(&bssids);
    assert!(env.len() >= 50);
    let len = u32::from_be_bytes([env[46], env[47], env[48], env[49]]) as usize;
    assert_eq!(len, env.len() - 50);
    assert!(len > 255, "payload must not be truncated to one byte");
    assert_eq!(&env[0..9], b"\x00\x01\x00\x05en_US");
}

fn location(lat: i64, lon: i64) -> Vec<u8> {
    let mut l = Vec::new();
    encode_varint_field(&mut l, 1, lat as u64);
    encode_varint_field(&mut l, 2, lon as u64);
    l
}

fn device(bssid: &str, lat: i64, lon: i64) -> Vec<u8> {
    let mut d = Vec::new();
    encode_string(&mut d, 1, bssid);
    encode_bytes(&mut d, 2, &location(lat, lon));
    d
}

#[test]
fn location_and_device_parsing() {
    assert_eq!(parse_location(&location(5_570_725_000, 1_258_559_800)), Ok((5_570_725_000, 1_258_559_800)));
    assert_eq!(parse_location(&location(-1, -2)), Ok((-1, -2)));
    assert_eq!(parse_location(&[]), Ok((0, 0)));
    let fix = parse_wifi_device(&device("aa:bb:cc:dd:ee:ff", 100, 200)).unwrap().unwrap();
    assert_eq!(fix.bssid, "AA:BB:CC:DD:EE:FF");
    assert_eq!(fix.lat_e8, 100);
    assert_eq!(fix.lon_e8, 200);
    // Apple's "not found" sentinel (-180, -180).
    assert!(parse_wifi_device(&device("aa:bb:cc:dd:ee:ff", -18_000_000_000, -18_000_000_000)).unwrap().is_none());
    // No location: no fix.
    let mut d = Vec::new();
    encode_string(&mut d, 1, "aa:bb:cc:dd:ee:ff");
    assert!(parse_wifi_device(&d).unwrap().is_none());
}

#[test]
fn response_keeps_only_requested_bssids() {
    let mut body = Vec::new();
    encode_bytes(&mut body, 2, &device("aa:bb:cc:dd:ee:ff", 1, 2));
    encode_bytes(&mut body, 2, &device("11:22:33:44:55:66", 3, 4));
    encode_varint_field(&mut body, 9, 7);
    let requested = vec!["AA:BB:CC:DD:EE:FF".to_string()];
    let fixes = decode_response(&body, &requested).unwrap();
    assert_eq!(fixes.len(), 1);
    assert_eq!(fixes[0].bssid, "AA:BB:CC:DD:EE:FF");

    let mut reply = vec![0u8; 10];
    reply.extend_from_slice(&body);
    let fixes = decode_reply(200, "200 OK", &reply, &requested).unwrap();
    assert_eq!(fixes.len(), 1);
    match decode_reply(200, "200 OK", &reply[..5], &requested) {
        Err(AppleReplyError::TooShort(5)) => {}
        _ => panic!("expected TooShort"),
    }
    let e = decode_reply(503, "503 Service Unavailable", &reply, &requested).unwrap_err();
    assert_eq!(e.message(), "Apple WPS returned HTTP 503 Service Unavailable");
    assert_eq!(AppleReplyError::TooShort(5).message(), "Apple WPS response too short (5 bytes)");
    assert_eq!(ProtoError::VarintTooLong.message(), "varint too long");
}

#[test]
fn decoder_survives_garbage() {
    let requested = vec!["AA:BB:CC:DD:EE:FF".to_string()];
    for data in [&[0xFFu8; 3][..], &[0x12, 0xFF, 0xFF, 0xFF, 0xFF, 0x0F][..], &[0x0B][..]] {
        assert!(decode_response(data, &requested).is_err());
    }
    let env = encode_request(&requested);
    let _ = decode_response(&env, &requested);
}
