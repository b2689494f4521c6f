//! Scenario tests taken from the protocol description: boundary lengths,
//! corruption detection, escape coverage, range rejection, and the
//! concrete example frame.

use wake_rs::Decode;
use wake_rs::Encode;
use wake_rs::Packet;
use wake_rs::WakeError;

const FEND: u8 = 0xC0;
const FESC: u8 = 0xDB;
const TFEND: u8 = 0xDC;
const TFESC: u8 = 0xDD;

#[test]
fn boundary_min_length() {
    // A 3-byte buffer is below the minimum frame length.
    let short = vec![FEND, 0x03, 0x00];
    assert_eq!(short.decode().err(), Some(WakeError::TooShortPacket));

    // A 4-byte buffer [FEND, cmd, 0, crc] with the correct CRC decodes to
    // the bare command with no data.
    let cmd = 0x03u8;
    let crc = wake_rs::do_crc_array(&[FEND, cmd, 0x00]);
    let min_frame = vec![FEND, cmd, 0x00, crc];
    let decoded = min_frame.decode().unwrap();
    assert_eq!(decoded.address, None);
    assert_eq!(decoded.command, cmd);
    assert_eq!(decoded.data, None);
}

#[test]
fn concrete_scenario() {
    let wp = Packet {
        address: Some(0x12),
        command: 3,
        data: Some(vec![0x00, 0xeb]),
    };
    let encoded = wp.encode().unwrap();
    assert_eq!(encoded, vec![0xC0, 0x92, 0x03, 0x02, 0x00, 0xEB, 0x72]);

    let decoded = encoded.decode().unwrap();
    assert_eq!(decoded.address, Some(0x12));
    assert_eq!(decoded.command, 3);
    assert_eq!(decoded.data, Some(vec![0x00, 0xeb]));
}

#[test]
fn corruption_detection() {
    // Flipping any single bit in the CRC byte of a valid frame whose CRC
    // byte is not escaped on the wire yields a wrong-CRC error.
    let wp = Packet {
        address: None,
        command: 9,
        data: Some(vec![0x12, 0x34]),
    };
    let encoded = wp.encode().unwrap();
    assert_eq!(encoded, vec![FEND, 0x09, 0x02, 0x12, 0x34, 160]);
    for bit in 0..8 {
        let mut corrupted = encoded.clone();
        let last = corrupted.len() - 1;
        corrupted[last] ^= 1u8 << bit;
        assert_eq!(corrupted.decode().err(), Some(WakeError::WrongPacketCrc));
    }
}

#[test]
fn range_rejection() {
    let wp = Packet {
        address: Some(128),
        command: 1,
        data: None,
    };
    assert_eq!(wp.encode(), Err(WakeError::WrongAddrRange));

    let wp = Packet {
        address: None,
        command: 128,
        data: None,
    };
    assert_eq!(wp.encode(), Err(WakeError::WrongCmdRange));

    // The address is checked before the command.
    let wp = Packet {
        address: Some(200),
        command: 200,
        data: None,
    };
    assert_eq!(wp.encode(), Err(WakeError::WrongAddrRange));
}

#[test]
fn escape_coverage() {
    // A packet whose pre-stuff bytes hold literal FEND and FESC values
    // encodes them as the two-byte escape sequences, and decoding
    // reverses that exactly.
    let wp = Packet {
        address: None,
        command: 1,
        data: Some(vec![FEND, FESC]),
    };
    let encoded = wp.encode().unwrap();
    let crc = wake_rs::do_crc_array(&[FEND, 0x01, 0x02, FEND, FESC]);
    assert_eq!(
        encoded,
        vec![FEND, 0x01, 0x02, FESC, TFEND, FESC, TFESC, crc]
    );
    let decoded = encoded.decode().unwrap();
    assert_eq!(decoded.command, 1);
    assert_eq!(decoded.data, Some(vec![FEND, FESC]));
}

#[test]
fn zero_length_data_normalizes_to_none() {
    // Zero-length data and absent data encode alike, and decode always
    // yields the absent form.
    let with_empty = Packet {
        address: None,
        command: 5,
        data: Some(vec![]),
    };
    let without = Packet {
        address: None,
        command: 5,
        data: None,
    };
    let e1 = with_empty.encode().unwrap();
    let e2 = without.encode().unwrap();
    assert_eq!(e1, e2);
    assert_eq!(e1.decode().unwrap().data, None);
}

#[test]
fn truncated_escape_at_end() {
    // FESC as the very last byte of a received buffer is a length error.
    let buffer = vec![FEND, 0x01, 0x00, FESC];
    assert_eq!(buffer.decode().err(), Some(WakeError::WrongPacketLength));
}

#[test]
fn error_descriptions() {
    assert_eq!(WakeError::TooShortPacket.description(), "Too short packet");
    assert_eq!(
        WakeError::CannotFindStart.description(),
        "Can't find a start of the packet"
    );
    assert_eq!(WakeError::DestuffingFailed.description(), "De-stuffing failed");
    assert_eq!(
        WakeError::WrongPacketLength.description(),
        "Wrong packet length"
    );
    assert_eq!(WakeError::WrongPacketCrc.description(), "Wrong packet CRC");
    assert_eq!(
        WakeError::WrongAddrRange.description(),
        "Address is out of range [0 - 127]"
    );
    assert_eq!(
        WakeError::WrongCmdRange.description(),
        "Command is out of range [0 - 127]"
    );
}

#[test]
fn default_packet() {
    let p = Packet::default();
    assert_eq!(p.address, None);
    assert_eq!(p.command, 0);
    assert!(p.data.is_none());
}
