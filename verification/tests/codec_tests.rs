//! Tests of the packet codec: CRC values, stuffing and destuffing, and the
//! encode/decode pipeline with and without an address.

use rand::Rng;
use wake_rs::Decode;
use wake_rs::Encode;
use wake_rs::Packet;
use wake_rs::Wake;
use wake_rs::WakeError;

const FEND: u8 = 0xC0;
const FESC: u8 = 0xDB;
const TFEND: u8 = 0xDC;
const TFESC: u8 = 0xDD;

#[test]
fn crc_test() {
    let xs = vec![1, 2, 3, 4, 5];
    assert_eq!(xs.crc(), 0xd6);

    let xs = vec![0xc0, 0x03, 0x00];
    assert_eq!(xs.crc(), 0xeb);

    let xs = vec![0xc0, 0x89, 0x03, 0x05, 1, 2, 3, 4, 5];
    assert_eq!(xs.crc(), 0x69);
}

#[test]
fn dry_test() {
    let t0: Vec<u8> = vec![]; // empty
    let t1 = vec![0x34]; // 1 byte
    let t2 = vec![1, 2, 3, 4, 5, FEND]; // stuffed data without first FEND
    let t3 = vec![FEND, FESC, TFESC, 1, 2, 3, 4, 5, FESC]; // stuffed data without last byte
    let t4 = vec![FEND, FESC, 1, 2, 3, 4, 5, FESC, TFEND]; // stuffed data with missed 3rd byte
    let t5 = vec![FEND, FESC, TFESC, 1, 2, 3, 4, 5, FESC, TFEND]; // well stuffed data
    let a5 = vec![FEND, FESC, 1, 2, 3, 4, 5, FEND]; // destuffed t5
    assert_eq!(t0.dry(), Ok(vec![]));
    assert_eq!(t1.clone().dry(), Ok(t1));
    assert_eq!(t2.clone().dry(), Ok(t2));
    assert_eq!(t3.dry(), Err(WakeError::WrongPacketLength));
    assert_eq!(t4.dry(), Err(WakeError::DestuffingFailed));
    assert_eq!(t5.dry(), Ok(a5));
}

#[test]
fn stuff_basic_test() {
    // Regular packet
    let a = vec![FEND, FESC, 1, 2, 3, 4, 5, FEND]; // initial_data
    let b = vec![FEND, FESC, TFESC, 1, 2, 3, 4, 5, FESC, TFEND]; // stuffed_data
    assert_eq!(a.stuff(), b);

    // packet with min len
    let a = vec![FEND, 3, 0];
    assert_eq!(a.stuff(), a);
}

#[test]
fn encode_packet_test() {
    // address is out of range
    let wp = Packet {
        address: Some(128),
        command: 9,
        data: Some(vec![0x12, 0x34]),
    };
    assert_eq!(wp.encode(), Err(WakeError::WrongAddrRange));
    // command is out of range
    let wp = Packet {
        address: None,
        command: 128,
        data: Some(vec![0x12, 0x34]),
    };
    assert_eq!(wp.encode(), Err(WakeError::WrongCmdRange));
    // without address
    let wp = Packet {
        address: None,
        command: 9,
        data: Some(vec![0x12, 0x34]),
    };
    assert_eq!(wp.encode(), Ok(vec![FEND, 0x09, 0x02, 0x12, 0x34, 160]));
    // with data
    let wp = Packet {
        address: Some(0x12),
        command: 3,
        data: Some(vec![0x00, 0xeb]),
    };
    assert_eq!(
        wp.encode(),
        Ok(vec![FEND, 0x92, 0x03, 0x02, 0x00, 0xeb, 114])
    );
    // empty packet
    let wp = Packet {
        address: Some(0x13),
        command: 4,
        data: None,
    };
    assert_eq!(wp.encode(), Ok(vec![FEND, 0x93, 0x04, 0x00, 218]));
    // empty packet with stuffing
    let wp = Packet {
        address: Some(0x40),
        command: 0x40,
        data: None,
    };
    assert_eq!(wp.encode(), Ok(vec![FEND, FESC, TFEND, 0x40, 0x00, 229]));
}

#[test]
fn decode_wo_address_test() {
    let command = 0x03u8;
    let data = [1, 2, 3, 4, 5];
    let n = data.len() as u8;
    let crc = [0x6B];
    let wrong_crc = [0x6C];

    let mut good_packet = vec![FEND, command, n];
    good_packet.extend_from_slice(&data);
    good_packet.extend_from_slice(&crc);
    let decoded = good_packet.decode().unwrap();
    assert_eq!(decoded.command, command);
    assert_eq!(decoded.data.unwrap(), data);

    let bad_packet_too_short = vec![FEND, command, n];
    let decoded = bad_packet_too_short.decode();
    assert_eq!(decoded.err(), Some(WakeError::TooShortPacket));

    let mut bad_packet_wo_start = vec![command, n];
    bad_packet_wo_start.extend_from_slice(&data);
    bad_packet_wo_start.extend_from_slice(&crc);
    let decoded = bad_packet_wo_start.decode();
    assert_eq!(decoded.err(), Some(WakeError::CannotFindStart));

    let bad_packet_wrong_stuffing = vec![FEND, FESC, FESC, 1, 2, 3, 4, 5, FESC, TFEND]; // stuffed packed with wrong 3rd byte
    let decoded = bad_packet_wrong_stuffing.decode();
    assert_eq!(decoded.err(), Some(WakeError::DestuffingFailed));

    let mut bad_packet_wrong_data_len = vec![FEND, command, n - 1];
    bad_packet_wrong_data_len.extend_from_slice(&data);
    bad_packet_wrong_data_len.extend_from_slice(&wrong_crc);
    let decoded = bad_packet_wrong_data_len.decode();
    assert_eq!(decoded.err(), Some(WakeError::WrongPacketLength));

    let mut bad_packet_wrong_data_len = vec![FEND, command, n + 1];
    bad_packet_wrong_data_len.extend_from_slice(&data);
    bad_packet_wrong_data_len.extend_from_slice(&wrong_crc);
    let decoded = bad_packet_wrong_data_len.decode();
    assert_eq!(decoded.err(), Some(WakeError::WrongPacketLength));

    let mut bad_packet_wrong_crc = vec![FEND, command, n];
    bad_packet_wrong_crc.extend_from_slice(&data);
    bad_packet_wrong_crc.extend_from_slice(&wrong_crc);
    let decoded = bad_packet_wrong_crc.decode();
    assert_eq!(decoded.err(), Some(WakeError::WrongPacketCrc));
}

#[test]
fn decode_w_address_test() {
    let address = 0x09u8;
    let command = 0x03u8;
    let data = [1, 2, 3, 4, 5];
    let n = data.len() as u8;
    let crc = [0x69];

    let mut good_packet = vec![FEND, address | 0x80u8, command, n];
    good_packet.extend_from_slice(&data);
    good_packet.extend_from_slice(&crc);
    let decoded = good_packet.decode();
    assert_eq!(decoded.is_ok(), true);
    let decoded = decoded.unwrap();
    assert_eq!(decoded.address.unwrap(), address);
    assert_eq!(decoded.command, command);
    assert_eq!(decoded.data.unwrap(), data);

    // 0x40 test
    let good_packet = vec![FEND, FESC, TFEND, 0x40, 0x00, 229];
    let decoded = good_packet.decode();
    assert_eq!(decoded.is_ok(), true);
    let decoded = decoded.unwrap();
    assert_eq!(decoded.address.unwrap(), 0x40);
    assert_eq!(decoded.command, 0x40);
    assert_eq!(decoded.data, None);
}

#[test]
fn random_encode_decode_test() {
    let mut rng = rand::thread_rng();

    for _ in 0..100_000 {
        let address_exists = rng.gen_bool(0.5);
        let n = rng.gen_range(0..0x100);
        let mut d: Vec<u8> = Vec::new();
        for _ in 0..n {
            d.push(rng.gen_range(0..0xff));
        }

        let wp = Packet {
            address: if address_exists {
                Some(rng.gen_range(0..0x7f))
            } else {
                None
            },
            command: rng.gen_range(0..0x7f),
            data: if d.len() == 0 { None } else { Some(d.clone()) },
        };
        let encoded = wp.encode().unwrap();
        let decoded = encoded.decode().unwrap();
        assert_eq!(decoded.address, wp.address);
        assert_eq!(decoded.command, wp.command);
        assert_eq!(decoded.data, wp.data);
    }
}
