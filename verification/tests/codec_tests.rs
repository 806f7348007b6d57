use product::codec::{
    encode_ant_request, encode_eight_request, encode_sensor_request, decode_ant_ack,
    decode_eight_reply, decode_sensor_ack, handshake_frame, pack_bcast_ack, BcastPkg, LoginPkg,
};
use product::crc::crc32_range;
use product::StationError;

fn le16_push(v: u16, out: &mut Vec<u8>) {
    out.push((v % 256) as u8);
    out.push((v / 256) as u8);
}

fn le32_push(v: u32, out: &mut Vec<u8>) {
    out.push((v & 0xFF) as u8);
    out.push(((v >> 8) & 0xFF) as u8);
    out.push(((v >> 16) & 0xFF) as u8);
    out.push(((v >> 24) & 0xFF) as u8);
}

fn with_crc(mut body: Vec<u8>) -> Vec<u8> {
    let n = body.len();
    let crc = crc32_range(&body, 0, n);
    le32_push(crc, &mut body);
    body
}

#[test]
fn crc_matches_the_reference_value() {
    let v: Vec<u8> = "123456789".as_bytes().to_vec();
    assert_eq!(crc32_range(&v, 0, 9), 0xCBF43926);
}

fn sample_login_bytes() -> Vec<u8> {
    let mut body: Vec<u8> = vec![0xFE, 0x01];
    le16_push(44, &mut body);
    le16_push(0x2001, &mut body);
    body.extend_from_slice(&[0x11, 0x22, 0x33, 0x44, 0x55, 0x66]);
    body.extend_from_slice(&[0x41u8; 32]);
    with_crc(body)
}

#[test]
fn login_decode_then_reencode_reproduces_the_bytes() {
    let bytes = sample_login_bytes();
    assert_eq!(bytes.len(), 48);
    let pkg = LoginPkg::unpack(&bytes).unwrap();
    assert_eq!(pkg.preamble, 0xFE);
    assert_eq!(pkg.sid, 0x01);
    assert_eq!(pkg.length, 44);
    assert_eq!(pkg.cmd, 0x2001);
    assert_eq!(pkg.mac, vec![0x11, 0x22, 0x33, 0x44, 0x55, 0x66]);
    assert_eq!(pkg.sn, vec![0x41u8; 32]);
    let again = pkg.pack();
    assert_eq!(again, bytes);
}

#[test]
fn login_with_bad_crc_is_a_decode_error() {
    let mut bytes = sample_login_bytes();
    bytes[47] ^= 0xFF;
    match LoginPkg::unpack(&bytes) {
        Err(e) => assert_eq!(e, StationError::Decode),
        Ok(_) => panic!("a corrupted checksum must be rejected"),
    }
}

#[test]
fn login_with_wrong_length_field_is_a_decode_error() {
    let mut body: Vec<u8> = vec![0xFE, 0x01];
    le16_push(43, &mut body);
    le16_push(0x2001, &mut body);
    body.extend_from_slice(&[0u8; 38]);
    let bytes = with_crc(body);
    assert!(LoginPkg::unpack(&bytes).is_err());
    assert!(LoginPkg::unpack(&vec![0u8; 47]).is_err());
}

#[test]
fn handshake_is_the_fixed_nine_bytes() {
    assert_eq!(handshake_frame(), vec![0xFE, 0x01, 0x05, 0x00, 0x06, 0x65, 0xE6, 0xCD, 0x99]);
}

#[test]
fn ant_request_layout() {
    let frame = encode_ant_request(38, 5);
    assert_eq!(frame.len(), 12);
    assert_eq!(&frame[0..8], &[0x00, 0x00, 0x08, 0x00, 0x70, 0x20, 38, 5]);
    let crc = crc32_range(&frame, 0, 8);
    assert_eq!(frame[8], (crc & 0xFF) as u8);
    assert_eq!(frame[11], ((crc >> 24) & 0xFF) as u8);
}

fn ant_ack_bytes(status: u16) -> Vec<u8> {
    let mut body: Vec<u8> = vec![0xFE, 0x00];
    le16_push(18, &mut body);
    le16_push(0x2070, &mut body);
    le16_push(status, &mut body);
    body.extend_from_slice(&[9, 8, 7, 6, 5, 4, 3, 2, 1, 0]);
    with_crc(body)
}

#[test]
fn ant_ack_success_yields_the_signal_vector() {
    let frame = ant_ack_bytes(0x40);
    let rssi = decode_ant_ack(&frame).unwrap();
    assert_eq!(rssi, vec![9, 8, 7, 6, 5, 4, 3, 2, 1, 0]);
}

#[test]
fn ant_ack_nonsuccess_status_is_an_application_error() {
    let frame = ant_ack_bytes(0x0005);
    match decode_ant_ack(&frame) {
        Err(e) => assert_eq!(e, StationError::Application(5)),
        Ok(_) => panic!("a failure status must be reported"),
    }
}

#[test]
fn ant_ack_with_bad_crc_is_a_decode_error() {
    let mut frame = ant_ack_bytes(0x40);
    frame[20] ^= 1;
    match decode_ant_ack(&frame) {
        Err(e) => assert_eq!(e, StationError::Decode),
        Ok(_) => panic!("a corrupted frame must be rejected"),
    }
}

#[test]
fn sensor_request_layout() {
    let frame = encode_sensor_request(2);
    assert_eq!(frame.len(), 11);
    assert_eq!(&frame[0..7], &[0x00, 0x00, 0x07, 0x00, 0x72, 0x20, 2]);
}

#[test]
fn sensor_ack_reads_signed_values() {
    let mut body: Vec<u8> = vec![0xFE, 0x00];
    le16_push(20, &mut body);
    le16_push(0x2072, &mut body);
    le16_push(0x40, &mut body);
    le32_push(0xFFFF_FFFF, &mut body);
    le32_push(2, &mut body);
    le32_push(0x8000_0000, &mut body);
    let frame = with_crc(body);
    let vals = decode_sensor_ack(&frame).unwrap();
    assert_eq!(vals, vec![-1, 2, i32::MIN]);
}

#[test]
fn eight_request_layout() {
    let ids: Vec<u32> = vec![0x01020304];
    let frame = encode_eight_request(&ids, 60, 38);
    assert_eq!(frame.len(), 48);
    assert_eq!(&frame[0..6], &[0xFE, 0x00, 0x2C, 0x00, 0x74, 0x20]);
    assert_eq!(&frame[6..10], &[0x01, 0x02, 0x03, 0x04]);
    assert_eq!(&frame[10..42], &[0u8; 32]);
    assert_eq!(frame[42], 60);
    assert_eq!(frame[43], 38);
    let crc = crc32_range(&frame, 0, 44);
    assert_eq!(frame[44], (crc & 0xFF) as u8);
}

#[test]
fn eight_reply_yields_the_angle_text_bytes() {
    let json = "{}".as_bytes();
    let length = (json.len() + 8) as u16;
    let mut body: Vec<u8> = vec![0xFE, 0x00];
    le16_push(length, &mut body);
    le16_push(0x2074, &mut body);
    le16_push(0x40, &mut body);
    body.extend_from_slice(json);
    let frame = with_crc(body);
    assert_eq!(frame.len(), length as usize + 4);
    let text = decode_eight_reply(&frame).unwrap();
    assert_eq!(text, json.to_vec());
}

#[test]
fn eight_reply_with_bad_crc_is_a_decode_error() {
    let json = "{}".as_bytes();
    let length = (json.len() + 8) as u16;
    let mut body: Vec<u8> = vec![0xFE, 0x00];
    le16_push(length, &mut body);
    le16_push(0x2074, &mut body);
    le16_push(0x40, &mut body);
    body.extend_from_slice(json);
    let mut frame = with_crc(body);
    let n = frame.len();
    frame[n - 1] ^= 0x80;
    match decode_eight_reply(&frame) {
        Err(e) => assert_eq!(e, StationError::Decode),
        Ok(_) => panic!("a corrupted frame must be rejected"),
    }
}

#[test]
fn bcast_probe_and_ack() {
    let mut probe: Vec<u8> = Vec::new();
    le16_push(0x1234, &mut probe);
    probe.extend_from_slice(&[1, 2, 3, 4, 5, 6]);
    probe.extend_from_slice(&[0x76u8; 32]);
    probe.extend_from_slice(&[192, 168, 1, 9]);
    let pkg = BcastPkg::unpack_from_slice(&probe).unwrap();
    assert_eq!(pkg.head, 0x1234);
    assert_eq!(pkg.mac, vec![1, 2, 3, 4, 5, 6]);
    assert_eq!(pkg.ip, vec![192, 168, 1, 9]);
    assert!(BcastPkg::unpack_from_slice(&vec![0u8; 43]).is_err());

    let ack = pack_bcast_ack(&vec![10, 0, 0, 1], 12345);
    let mut expect: Vec<u8> = Vec::new();
    le16_push(0xFFFE, &mut expect);
    expect.extend_from_slice(&[10, 0, 0, 1]);
    le16_push(12345, &mut expect);
    le32_push(0x44332211, &mut expect);
    assert_eq!(ack, expect);
}
