use hotload::gdb::{
    checksum, decode_reply, encode_packet, packet_complete, should_retry_connect, unframe_packet,
    write_memory_outcome, write_memory_request, Error, IoFailure,
};
use hotload::interface::Checkpoint;
use hotload::patch;

#[test]
fn checksum_is_byte_sum_modulo_256() {
    assert_eq!(checksum(b""), 0);
    assert_eq!(checksum(b"OK"), 0x9a);
    assert_eq!(checksum(&[0xff, 0x02]), 0x01);
}

#[test]
fn packets_are_framed_with_hex_checksum() {
    assert_eq!(encode_packet(b"OK"), b"$OK#9A".to_vec());
    assert_eq!(encode_packet(b""), b"$#00".to_vec());
    assert_eq!(encode_packet(b"g"), b"$g#67".to_vec());
    // 100 and above need hex, not decimal
    assert_eq!(encode_packet(&[0x64]), b"$d#64".to_vec());
    assert_eq!(encode_packet(b"m0,4"), b"$m0,4#FD".to_vec());
}

#[test]
fn framing_round_trips() {
    for payload in [&b""[..], b"OK", b"M80000400,4:DEADBEEF", b"E01", &[0x80, 0x00, 0xff]] {
        let packet = encode_packet(payload);
        assert_eq!(unframe_packet(&packet), Some(payload.to_vec()));
        let c = checksum(payload);
        assert_eq!(&packet[packet.len() - 2..], format!("{:02X}", c).as_bytes());
    }
}

#[test]
fn leading_ack_is_skipped() {
    assert_eq!(unframe_packet(b"+$OK#9a"), Some(b"OK".to_vec()));
    assert_eq!(decode_reply(b"+$OK#9a"), Ok("OK".to_string()));
}

#[test]
fn unframed_replies_are_bad_packets() {
    assert_eq!(unframe_packet(b"OK#9a"), None);
    assert_eq!(unframe_packet(b"$OK9a"), None);
    assert_eq!(unframe_packet(b""), None);
    assert_eq!(decode_reply(b"+OK#9a"), Err(Error::BadPacket("OK#9a".to_string())));
}

#[test]
fn non_utf8_payload_is_an_encoding_error() {
    assert_eq!(decode_reply(&[b'$', 0xff, 0xfe, b'#', b'0', b'0']), Err(Error::Utf8));
    assert_eq!(decode_reply(&[0xff, b'#', b'0', b'0']), Err(Error::Utf8));
}

#[test]
fn whole_packet_is_recognised() {
    assert!(packet_complete(b"$OK#9a"));
    assert!(!packet_complete(b"$OK#9"));
    assert!(!packet_complete(b"$O"));
    assert!(!packet_complete(b""));
}

#[test]
fn write_memory_payloads() {
    assert_eq!(write_memory_request(0x8000_0400, &[0xde, 0xad, 0xbe, 0xef]), b"M80000400,4:DEADBEEF".to_vec());
    assert_eq!(write_memory_request(0, &[0]), b"M0,1:00".to_vec());
    assert_eq!(write_memory_request(0xABC, &[]), b"MABC,0:".to_vec());
    let data = vec![0x0fu8; 12];
    assert_eq!(write_memory_request(u64::MAX, &data), format!("MFFFFFFFFFFFFFFFF,12:{}", "0F".repeat(12)).into_bytes());
}

#[test]
fn write_memory_wants_ok() {
    assert_eq!(write_memory_outcome(b"$OK#9a"), Ok(()));
    assert_eq!(write_memory_outcome(b"$E01#a6"), Err(Error::BadPacket("E01".to_string())));
    assert_eq!(write_memory_outcome(b"$OKAY#00"), Err(Error::BadPacket("OKAY".to_string())));
    assert_eq!(write_memory_outcome(b"garbage"), Err(Error::BadPacket("garbage".to_string())));
    assert_eq!(write_memory_outcome(&[b'$', 0xc3, b'#', b'0', b'0']), Err(Error::Utf8));
}

#[test]
fn only_refused_connections_are_retried() {
    let refused = Error::Io(IoFailure::ConnectionRefused);
    for _ in 0..3 {
        assert!(should_retry_connect(&refused));
    }
    assert!(!should_retry_connect(&Error::Io(IoFailure::Other("reset".to_string()))));
    assert!(!should_retry_connect(&Error::Utf8));
    assert!(!should_retry_connect(&Error::BadPacket("E01".to_string())));
}

#[test]
fn gdb_errors_convert_to_patch_errors() {
    let e: patch::Error = Error::Utf8.into();
    assert_eq!(e, patch::Error::Gdb(Error::Utf8));
}

#[test]
fn checkpoints_parse_from_text() {
    let c: Checkpoint = "game_step".parse().unwrap();
    assert_eq!(c.function, "game_step");
    assert_eq!(Checkpoint::named("frame").function, "frame");
}
