//! Encoder/decoder for the Wake serial framing protocol.
//!
//! Wake is a lightweight, address-optional, length-prefixed framing protocol
//! for microcontroller-to-host communication over noisy byte streams. This
//! crate holds the packet codec only: byte stuffing/destuffing of the two
//! reserved marker bytes, the bit-serial CRC-8, and the encode/decode logic
//! that turns a [`Packet`] into a self-delimiting byte stream and back.
//! Transport concerns (ports, timing, framing a continuous stream) are the
//! caller's.

mod codec;
mod crc;
mod frame;
mod types;

pub use codec::Decode;
pub use codec::Encode;
pub use codec::Wake;
pub use codec::encode_packet;
pub use codec::lemma_encode_escapes;
pub use codec::lemma_min_frame;
pub use codec::lemma_round_trip;
pub use codec::lemma_too_short;
pub use codec::lemma_wrong_crc_detected;
pub use codec::decode_spec;
pub use codec::encode_spec;
pub use codec::encode_with_crc;
pub use codec::frame_of;
pub use codec::framed_with;
pub use codec::parse_destuffed;
pub use codec::parse_fields;

pub use frame::destuff;
pub use frame::destuffing;
pub use frame::lemma_destuff_stuff_frame;
pub use frame::lemma_destuff_stuff_tail;
pub use frame::lemma_stuff_escapes;
pub use frame::lemma_stuff_tail_len;
pub use frame::stuff_byte;
pub use frame::stuff_frame;
pub use frame::stuff_tail;
pub use frame::stuffing;

pub use crc::crc8_bit;
pub use crc::crc8_bits;
pub use crc::crc8_byte;
pub use crc::crc_of;
pub use crc::crc_over;
pub use crc::do_crc8;
pub use crc::do_crc_array;
pub use crc::do_crc_vec;

pub use types::ADDR_MASK;
pub use types::CRC_INIT;
pub use types::DATA_MAX_LEN;
pub use types::FEND;
pub use types::FESC;
pub use types::PACKET_MIN_LEN;
pub use types::Packet;
pub use types::PacketModel;
pub use types::TFEND;
pub use types::TFESC;
pub use types::WakeError;
