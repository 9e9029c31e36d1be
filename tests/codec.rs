use datagram_layer::frame::take_frames;
use datagram_layer::package::{DecodeError, Package, PackageType};

fn decode(bytes: &[u8]) -> Result<Package, DecodeError> {
    Package::from(bytes)
}

#[test]
fn decode_handshake_frame() {
    let p = decode(&[0x00, 0x00, 0xff]).unwrap();
    assert_eq!(p.pack_type(), PackageType::Handshake);
    assert_eq!(p.data(), &vec![0x00u8]);
}

#[test]
fn encode_userdata_frame() {
    let p = Package::from_data(PackageType::Userdata, &[0x41, 0x42]);
    let bytes: Vec<u8> = p.encode().into_iter().collect();
    assert_eq!(bytes, vec![0x03, 0x41, 0x42, 0xff]);
}

#[test]
fn round_trip_every_type() {
    let types = [
        PackageType::Handshake,
        PackageType::WaveHand,
        PackageType::Userdata,
        PackageType::PeerConnected,
        PackageType::PeerDisconnected,
        PackageType::Heartbeat,
        PackageType::Timeout,
        PackageType::BadPackage,
        PackageType::ServiceTemporaryUnavailable,
        PackageType::Sign,
        PackageType::JoinNetwork,
        PackageType::LeaveNetwork,
        PackageType::PeerUpdate,
    ];
    for t in types {
        let p = Package::from_data(t, &[0x10, 0x20, 0x30]);
        let bytes: Vec<u8> = p.encode().into_iter().collect();
        let q = decode(&bytes).unwrap();
        assert_eq!(q.pack_type(), t);
        assert_eq!(q.data(), &vec![0x10u8, 0x20, 0x30]);
    }
}

#[test]
fn opcodes_match_the_table() {
    assert_eq!(PackageType::Handshake.code(), 0x0);
    assert_eq!(PackageType::WaveHand.code(), 0x1);
    assert_eq!(PackageType::Userdata.code(), 0x3);
    assert_eq!(PackageType::Heartbeat.code(), 0x7);
    assert_eq!(PackageType::ServiceTemporaryUnavailable.code(), 0xa);
    assert_eq!(PackageType::PeerUpdate.code(), 0xe);
    assert_eq!(PackageType::from_code(0x2), None);
    assert_eq!(PackageType::from_code(0x6), None);
    assert_eq!(PackageType::from_code(0xc), Some(PackageType::JoinNetwork));
}

#[test]
fn decode_too_short() {
    assert_eq!(decode(&[]).unwrap_err(), DecodeError::TooShort);
    assert_eq!(decode(&[0x00]).unwrap_err(), DecodeError::TooShort);
    assert_eq!(decode(&[0x00, 0xff]).unwrap_err(), DecodeError::TooShort);
}

#[test]
fn decode_missing_terminator() {
    assert_eq!(decode(&[0x03, 0x41, 0x42, 0x00]).unwrap_err(), DecodeError::MissingTerminator);
}

#[test]
fn decode_unknown_type() {
    assert_eq!(decode(&[0xfe, 0x00, 0xff]).unwrap_err(), DecodeError::UnknownType);
    assert_eq!(decode(&[0x02, 0x00, 0xff]).unwrap_err(), DecodeError::UnknownType);
    assert_eq!(decode(&[0x06, 0x00, 0xff]).unwrap_err(), DecodeError::UnknownType);
}

#[test]
fn new_package_defaults_to_zero_payload() {
    let p = Package::new::<1>(PackageType::Handshake, None);
    assert_eq!(p.data(), &vec![0u8]);
    let bytes: Vec<u8> = p.encode().into_iter().collect();
    assert_eq!(bytes, vec![0x00, 0x00, 0xff]);
    let q = Package::new(PackageType::Sign, Some([7u8, 8]));
    assert_eq!(q.pack_type(), PackageType::Sign);
    assert_eq!(q.data(), &vec![7u8, 8]);
}

#[test]
fn packed_frames_in_one_buffer() {
    let mut buf = vec![0x03, 0x41, 0xff, 0x03, 0x42, 0xff];
    let frames = take_frames(&mut buf);
    assert_eq!(frames.len(), 2);
    let a = frames[0].as_ref().unwrap();
    let b = frames[1].as_ref().unwrap();
    assert_eq!(a.pack_type(), PackageType::Userdata);
    assert_eq!(a.data(), &vec![0x41u8]);
    assert_eq!(b.data(), &vec![0x42u8]);
    assert!(buf.is_empty());
}

#[test]
fn split_frame_waits_for_rest() {
    let mut buf = vec![0x03, 0x41];
    assert_eq!(take_frames(&mut buf).len(), 0);
    assert_eq!(buf, vec![0x03, 0x41]);
    buf.extend_from_slice(&[0x42, 0xff]);
    let frames = take_frames(&mut buf);
    assert_eq!(frames.len(), 1);
    let p = frames[0].as_ref().unwrap();
    assert_eq!(p.pack_type(), PackageType::Userdata);
    assert_eq!(p.data(), &vec![0x41u8, 0x42]);
    assert!(buf.is_empty());
}

#[test]
fn malformed_frame_does_not_block_later_ones() {
    let mut buf = vec![0xfe, 0x00, 0xff, 0x03, 0x41, 0xff, 0x07];
    let frames = take_frames(&mut buf);
    assert_eq!(frames.len(), 2);
    assert_eq!(frames[0].as_ref().unwrap_err(), &DecodeError::UnknownType);
    let p = frames[1].as_ref().unwrap();
    assert_eq!(p.pack_type(), PackageType::Userdata);
    assert_eq!(p.data(), &vec![0x41u8]);
    assert_eq!(buf, vec![0x07]);
}
