//! Protocol constants, the error taxonomy, and the `Packet` data model.

use vstd::prelude::*;

verus! {

/// Frame-end marker: the literal first byte of every encoded frame.
pub const FEND: u8 = 0xC0;
/// Frame-escape marker: introduces a stuffed (escaped) byte.
pub const FESC: u8 = 0xDB;
/// Substitute emitted after `FESC` for a literal `FEND`.
pub const TFEND: u8 = 0xDC;
/// Substitute emitted after `FESC` for a literal `FESC`.
pub const TFESC: u8 = 0xDD;

/// High bit of the byte after the start marker: set when an address is present.
pub const ADDR_MASK: u8 = 0x80;
/// Initial value of the CRC-8 accumulator.
pub const CRC_INIT: u8 = 0xDE;
/// Minimum viable frame: start + command + length + CRC.
pub const PACKET_MIN_LEN: usize = 4;
/// Maximum supported data length (the length field is a single byte).
pub const DATA_MAX_LEN: usize = 0xff;

/// Wake decoder/encoder errors.
#[derive(Clone, Copy, Debug, Eq, Hash, Ord, PartialEq, PartialOrd)]
pub enum WakeError {
    TooShortPacket,
    CannotFindStart,
    DestuffingFailed,
    WrongPacketLength,
    WrongPacketCrc,
    WrongAddrRange,
    WrongCmdRange,
}

impl WakeError {
    /// The human-readable message belonging to each error.
    pub open spec fn spec_description(self) -> Seq<char> {
        match self {
            WakeError::TooShortPacket => "Too short packet"@,
            WakeError::CannotFindStart => "Can't find a start of the packet"@,
            WakeError::DestuffingFailed => "De-stuffing failed"@,
            WakeError::WrongPacketLength => "Wrong packet length"@,
            WakeError::WrongPacketCrc => "Wrong packet CRC"@,
            WakeError::WrongAddrRange => "Address is out of range [0 - 127]"@,
            WakeError::WrongCmdRange => "Command is out of range [0 - 127]"@,
        }
    }

    /// Describe the error in human-readable form.
    pub fn description(&self) -> (r: &'static str)
        ensures
            r@ == self.spec_description(),
    {
        match self {
            WakeError::TooShortPacket => "Too short packet",
            WakeError::CannotFindStart => "Can't find a start of the packet",
            WakeError::DestuffingFailed => "De-stuffing failed",
            WakeError::WrongPacketLength => "Wrong packet length",
            WakeError::WrongPacketCrc => "Wrong packet CRC",
            WakeError::WrongAddrRange => "Address is out of range [0 - 127]",
            WakeError::WrongCmdRange => "Command is out of range [0 - 127]",
        }
    }
}

/// Wake packet: address, command, and data.
pub struct Packet {
    /// Device address (optional) [0 - 127].
    pub address: Option<u8>,
    /// Command [0 - 127].
    pub command: u8,
    /// Data load (optional).
    pub data: Option<Vec<u8>>,
}

/// The mathematical model of a [`Packet`]: the same fields with the data
/// as a byte sequence.
pub struct PacketModel {
    pub address: Option<u8>,
    pub command: u8,
    pub data: Option<Seq<u8>>,
}

impl View for Packet {
    type V = PacketModel;

    open spec fn view(&self) -> PacketModel {
        PacketModel {
            address: self.address,
            command: self.command,
            data: match self.data {
                Some(d) => Some(d@),
                None => None,
            },
        }
    }
}

impl PacketModel {
    /// The packet invariant: address and command fit in 7 bits, and the
    /// data (if any) fits behind a single-byte length field.
    pub open spec fn valid(self) -> bool {
        &&& (self.address matches Some(a) ==> a <= 0x7f)
        &&& self.command <= 0x7f
        &&& (self.data matches Some(d) ==> d.len() <= DATA_MAX_LEN)
    }

    /// The ranges that encoding enforces: it rejects a packet outside them.
    pub open spec fn encodable(self) -> bool {
        &&& (self.address matches Some(a) ==> a <= 0x7f)
        &&& self.command <= 0x7f
    }
}

impl Default for Packet {
    /// An unaddressed packet with command `0` and no data.
    fn default() -> (r: Packet)
        ensures
            r@.address is None,
            r@.command == 0,
            r@.data is None,
    {
        Packet { address: None, command: 0, data: None }
    }
}

} // verus!
