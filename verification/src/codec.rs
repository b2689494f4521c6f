//! The packet codec: assembling a [`Packet`] into the framed byte layout
//! (start marker, optional address byte, command byte, length byte, data
//! bytes, CRC byte) and parsing it back, delegating to the CRC engine and
//! the stuffer/destuffer.

use vstd::prelude::*;

use crate::crc::crc_of;
use crate::crc::do_crc_array;
use crate::crc::do_crc_vec;
use crate::frame::destuff;
use crate::frame::lemma_destuff_stuff_frame;
use crate::frame::lemma_stuff_escapes;
use crate::frame::lemma_stuff_tail_len;
use crate::frame::stuff_bytes;
use crate::frame::stuff_frame;
use crate::frame::stuff_tail;
use crate::frame::stuffing;
use crate::types::ADDR_MASK;
use crate::types::FEND;
use crate::types::FESC;
use crate::types::PACKET_MIN_LEN;
use crate::types::TFEND;
use crate::types::TFESC;
use crate::types::Packet;
use crate::types::PacketModel;
use crate::types::WakeError;

verus! {

/// The pre-stuff frame of a packet, without its CRC byte: start marker,
/// the address with its presence bit (if any), the command, the length
/// byte, and the data bytes.
pub open spec fn frame_of(m: PacketModel) -> Seq<u8> {
    match (m.address, m.data) {
        (None, None) => seq![FEND, m.command, 0u8],
        (Some(a), None) => seq![FEND, a | ADDR_MASK, m.command, 0u8],
        (None, Some(d)) => seq![FEND, m.command, d.len() as u8] + d,
        (Some(a), Some(d)) => seq![FEND, a | ADDR_MASK, m.command, d.len() as u8] + d,
    }
}

/// The frame of a packet closed with an arbitrary trailing CRC byte.
pub open spec fn framed_with(m: PacketModel, c: u8) -> Seq<u8> {
    frame_of(m) + seq![c]
}

/// The wire bytes of a frame closed with an arbitrary trailing CRC byte:
/// the closed frame, stuffed.
pub open spec fn encode_with_crc(m: PacketModel, c: u8) -> Seq<u8> {
    stuff_frame(framed_with(m, c))
}

/// The wire bytes of a packet: its frame, closed with the checksum of the
/// frame, stuffed.
pub open spec fn encode_spec(m: PacketModel) -> Seq<u8> {
    encode_with_crc(m, crc_of(frame_of(m)))
}

/// Parsing the fields after the start marker of a destuffed frame `d`:
/// `li` is the index of the length byte, `address` and `command` were read
/// before it. The declared length must match the bytes that remain before
/// the trailing CRC byte, and the CRC byte must match the checksum of
/// everything before it.
pub open spec fn parse_fields(
    d: Seq<u8>,
    address: Option<u8>,
    command: u8,
    li: int,
) -> Result<PacketModel, WakeError>
    recommends
        2 <= li,
{
    if d.len() <= li {
        Err(WakeError::TooShortPacket)
    } else if d.len() - li - 2 != d[li] {
        Err(WakeError::WrongPacketLength)
    } else if d.last() != crc_of(d.drop_last()) {
        Err(WakeError::WrongPacketCrc)
    } else {
        Ok(
            PacketModel {
                address,
                command,
                data: if d[li] == 0 {
                    None
                } else {
                    Some(d.subrange(li + 1, d.len() - 1))
                },
            },
        )
    }
}

/// Parsing a destuffed frame: the byte after the start marker is an
/// address exactly when its high bit is set, and the command follows it;
/// with the high bit clear that byte is the command itself.
pub open spec fn parse_destuffed(d: Seq<u8>) -> Result<PacketModel, WakeError> {
    if d.len() < 2 {
        Err(WakeError::TooShortPacket)
    } else if d[1] >= ADDR_MASK {
        if d.len() < 3 {
            Err(WakeError::TooShortPacket)
        } else {
            parse_fields(d, Some(d[1] & !ADDR_MASK), d[2], 3)
        }
    } else {
        parse_fields(d, None, d[1], 2)
    }
}

/// The whole decode pipeline on a received buffer, short-circuiting at the
/// first failure: length floor, start marker, destuffing, field parsing.
pub open spec fn decode_spec(s: Seq<u8>) -> Result<PacketModel, WakeError> {
    if s.len() < PACKET_MIN_LEN {
        Err(WakeError::TooShortPacket)
    } else if s[0] != FEND {
        Err(WakeError::CannotFindStart)
    } else {
        match destuff(s) {
            Ok(d) => parse_destuffed(d),
            Err(e) => Err(e),
        }
    }
}

/// CRC, stuffing and destuffing offered directly on a byte buffer.
pub trait Wake: View<V = Seq<u8>> {
    /// Calculate the CRC sum of the data in the buffer.
    fn crc(&self) -> (r: u8)
        ensures
            r == crc_of(self.view()),
    ;

    /// Byte stuffing: the first byte is the start marker and is copied
    /// literally, every later reserved byte is escaped.
    fn stuff(&self) -> (r: Vec<u8>)
        requires
            self.view().len() >= PACKET_MIN_LEN - 1,
            self.view()[0] == FEND,
        ensures
            r@ == stuff_frame(self.view()),
    ;

    /// Byte destuffing: translate stuffed bytes back into plain data, or
    /// report the invalid or truncated escape that prevents it.
    fn dry(&self) -> (r: Result<Vec<u8>, WakeError>)
        ensures
            match r {
                Ok(v) => destuff(self.view()) == Ok::<Seq<u8>, WakeError>(v@),
                Err(e) => destuff(self.view()) == Err::<Seq<u8>, WakeError>(e),
            },
    ;
}

impl Wake for Vec<u8> {
    fn crc(&self) -> (r: u8) {
        do_crc_vec(self)
    }

    fn stuff(&self) -> (r: Vec<u8>) {
        stuff_bytes(self.as_slice())
    }

    fn dry(&self) -> (r: Result<Vec<u8>, WakeError>) {
        let mut output: Vec<u8> = Vec::new();
        let mut i: usize = 0;
        proof {
            assert(self@.skip(0) =~= self@);
            if let Ok(t) = destuff(self@) {
                assert(Seq::<u8>::empty() + t =~= t);
            }
        }
        while i < self.len()
            invariant
                i <= self@.len(),
                match destuff(self@.skip(i as int)) {
                    Ok(t) => destuff(self@) == Ok::<Seq<u8>, WakeError>(output@ + t),
                    Err(e) => destuff(self@) == Err::<Seq<u8>, WakeError>(e),
                },
            decreases self@.len() - i,
        {
            let ghost pre = output@;
            let ghost suffix = self@.skip(i as int);
            let x = self[i];
            proof {
                assert(suffix[0] == x);
            }
            if x == FESC {
                if i + 1 >= self.len() {
                    proof {
                        assert(suffix.len() == 1);
                    }
                    return Err(WakeError::WrongPacketLength);
                }
                let y = self[i + 1];
                proof {
                    assert(suffix[1] == y);
                    assert(suffix.skip(2) =~= self@.skip(i as int + 2));
                }
                if y == TFESC {
                    output.push(FESC);
                } else if y == TFEND {
                    output.push(FEND);
                } else {
                    return Err(WakeError::DestuffingFailed);
                }
                i = i + 2;
                proof {
                    let emitted: u8 = if y == TFESC {
                        FESC
                    } else {
                        FEND
                    };
                    if let Ok(t) = destuff(self@.skip(i as int)) {
                        assert(destuff(suffix) == Ok::<Seq<u8>, WakeError>(seq![emitted] + t));
                        assert(pre + (seq![emitted] + t) =~= output@ + t);
                    }
                }
            } else {
                output.push(x);
                i = i + 1;
                proof {
                    assert(suffix.skip(1) =~= self@.skip(i as int));
                    if let Ok(t) = destuff(self@.skip(i as int)) {
                        assert(destuff(suffix) == Ok::<Seq<u8>, WakeError>(seq![x] + t));
                        assert(pre + (seq![x] + t) =~= output@ + t);
                    }
                }
            }
        }
        proof {
            assert(self@.skip(self@.len() as int) =~= Seq::<u8>::empty());
            assert(output@ + Seq::<u8>::empty() =~= output@);
        }
        Ok(output)
    }
}

/// Decode a buffer in wake format into a packet.
pub trait Decode: View<V = Seq<u8>> {
    /// Decode one already-delimited received buffer, validating its length
    /// floor, start marker, stuffing, declared data length and CRC, in
    /// that order.
    fn decode(&self) -> (r: Result<Packet, WakeError>)
        ensures
            match r {
                Ok(p) => decode_spec(self.view()) == Ok::<PacketModel, WakeError>(p@),
                Err(e) => decode_spec(self.view()) == Err::<PacketModel, WakeError>(e),
            },
    ;
}

impl Decode for Vec<u8> {
    fn decode(&self) -> (r: Result<Packet, WakeError>) {
        // 1: Check packet length
        if self.len() < PACKET_MIN_LEN {
            return Err(WakeError::TooShortPacket);
        }
        // 2: Check START symbol (FEND)
        if self[0] != FEND {
            return Err(WakeError::CannotFindStart);
        }
        // 3: Dry packet (remove stuffed bytes)
        let mut destuffed_pkt = match self.dry() {
            Ok(v) => v,
            Err(e) => return Err(e),
        };
        let ghost d = destuffed_pkt@;
        // 4: Get an address (if exists) and a command
        if destuffed_pkt.len() < 2 {
            return Err(WakeError::TooShortPacket);
        }
        let marked = destuffed_pkt[1];
        let address: Option<u8>;
        let command: u8;
        let li: usize;
        if marked >= ADDR_MASK {
            if destuffed_pkt.len() < 3 {
                return Err(WakeError::TooShortPacket);
            }
            address = Some(marked & !ADDR_MASK);
            command = destuffed_pkt[2];
            li = 3;
        } else {
            address = None;
            command = marked;
            li = 2;
        }
        // 5: Get the data length; check it against what remains
        if destuffed_pkt.len() <= li {
            return Err(WakeError::TooShortPacket);
        }
        let data_len = destuffed_pkt[li];
        if destuffed_pkt.len() < li + 2 || destuffed_pkt.len() - li - 2 != data_len as usize {
            return Err(WakeError::WrongPacketLength);
        }
        // 6: Get data
        let data: Option<Vec<u8>> = if data_len == 0 {
            None
        } else {
            Some(
                vstd::slice::slice_to_vec(
                    vstd::slice::slice_subrange(
                        destuffed_pkt.as_slice(),
                        li + 1,
                        destuffed_pkt.len() - 1,
                    ),
                ),
            )
        };
        // 7: Get CRC and remove it
        let last = destuffed_pkt.len() - 1;
        let received_crc = destuffed_pkt.remove(last);
        proof {
            assert(destuffed_pkt@ =~= d.drop_last());
        }
        // 8: Check CRC
        if received_crc != destuffed_pkt.crc() {
            return Err(WakeError::WrongPacketCrc);
        }
        Ok(Packet { address, command, data })
    }
}

/// Encode a packet to wake format.
pub trait Encode: View<V = PacketModel> {
    /// Encode the packet into its wire bytes: start marker, address with
    /// its presence bit (if any), command, length byte, data, CRC, all
    /// stuffed. Fails exactly when the address or the command is out of
    /// the 7-bit range, the address checked first.
    fn encode(&self) -> (r: Result<Vec<u8>, WakeError>)
        ensures
            match r {
                Ok(v) => self.view().encodable() && v@ == encode_spec(self.view()),
                Err(e) => {
                    &&& !self.view().encodable()
                    &&& e == (if self.view().address matches Some(a) && a > 0x7f {
                        WakeError::WrongAddrRange
                    } else {
                        WakeError::WrongCmdRange
                    })
                },
            },
    ;
}

impl Encode for Packet {
    fn encode(&self) -> (r: Result<Vec<u8>, WakeError>) {
        let mut encoded_packet: Vec<u8> = Vec::new();
        // 1. FEND
        encoded_packet.push(FEND);
        // 2. Address, if exists
        if let Some(addr) = self.address {
            if addr > 0x7f {
                return Err(WakeError::WrongAddrRange);
            }
            encoded_packet.push(addr | ADDR_MASK);
        }
        // 3. Command
        if self.command > 0x7f {
            return Err(WakeError::WrongCmdRange);
        }
        encoded_packet.push(self.command);
        // 4. Data length; data, if exists
        match &self.data {
            Some(d) => {
                encoded_packet.push(#[verifier::truncate] (d.len() as u8));
                encoded_packet.extend_from_slice(d.as_slice());
            },
            None => encoded_packet.push(0),
        }
        proof {
            assert(encoded_packet@ =~= frame_of(self@));
        }
        // 5. CRC
        let c = encoded_packet.crc();
        encoded_packet.push(c);
        proof {
            assert(encoded_packet@ =~= framed_with(self@, crc_of(frame_of(self@))));
        }
        // 6. Stuffing
        Ok(encoded_packet.stuff())
    }
}

/// Encode an unaddressed packet to wake format: start marker, command,
/// length byte, data, CRC, all stuffed. The command's range is not
/// checked here, and a data load longer than the length field can carry
/// is truncated in the length byte.
pub fn encode_packet(cmd: u8, data: &[u8]) -> (r: Vec<u8>)
    ensures
        r@ == encode_spec(PacketModel { address: None, command: cmd, data: Some(data@) }),
{
    let ghost m = PacketModel { address: None, command: cmd, data: Some(data@) };
    let mut encoded_packet: Vec<u8> = Vec::new();
    encoded_packet.push(FEND);
    encoded_packet.push(cmd);
    encoded_packet.push(#[verifier::truncate] (data.len() as u8));
    encoded_packet.extend_from_slice(data);
    proof {
        assert(encoded_packet@ =~= frame_of(m));
    }
    let crc = do_crc_array(encoded_packet.as_slice());
    encoded_packet.push(crc);
    proof {
        assert(encoded_packet@ =~= framed_with(m, crc_of(frame_of(m))));
    }
    stuffing(encoded_packet)
}

/// Parsing the destuffed closed frame of a valid packet recovers the
/// packet when the trailing byte is the frame's checksum, and reports the
/// CRC error for every other trailing byte.
proof fn lemma_parse_framed(m: PacketModel, c: u8)
    requires
        m.valid(),
        m.data matches Some(d) ==> d.len() > 0,
    ensures
        parse_destuffed(framed_with(m, c)) == (if c == crc_of(frame_of(m)) {
            Ok::<PacketModel, WakeError>(m)
        } else {
            Err::<PacketModel, WakeError>(WakeError::WrongPacketCrc)
        }),
{
    let f = frame_of(m);
    let w = framed_with(m, c);
    assert(w.drop_last() =~= f);
    match (m.address, m.data) {
        (None, None) => {
            assert(w =~= seq![FEND, m.command, 0u8, c]);
            assert(w[1] < ADDR_MASK);
            if c == crc_of(f) {
                assert(parse_fields(w, None, m.command, 2) == Ok::<PacketModel, WakeError>(m));
            }
        },
        (Some(a), None) => {
            assert(w =~= seq![FEND, a | ADDR_MASK, m.command, 0u8, c]);
            assert((a | ADDR_MASK) >= ADDR_MASK) by (bit_vector);
            assert((a | ADDR_MASK) & !ADDR_MASK == a) by (bit_vector)
                requires
                    a <= 0x7f,
            ;
            if c == crc_of(f) {
                assert(parse_fields(w, Some(a), m.command, 3) == Ok::<PacketModel, WakeError>(m));
            }
        },
        (None, Some(d)) => {
            assert(w =~= seq![FEND, m.command, d.len() as u8] + d + seq![c]);
            assert(w[1] == m.command && w[1] < ADDR_MASK);
            assert(w[2] == d.len() as u8);
            assert(d.len() as u8 == d.len());
            assert(w.len() - 2 - 2 == d.len());
            assert(w.last() == c);
            if c == crc_of(f) {
                assert(w.subrange(3, w.len() - 1) =~= d);
                assert(parse_fields(w, None, m.command, 2) == Ok::<PacketModel, WakeError>(m));
            }
        },
        (Some(a), Some(d)) => {
            assert(w =~= seq![FEND, a | ADDR_MASK, m.command, d.len() as u8] + d + seq![c]);
            assert((a | ADDR_MASK) >= ADDR_MASK) by (bit_vector);
            assert((a | ADDR_MASK) & !ADDR_MASK == a) by (bit_vector)
                requires
                    a <= 0x7f,
            ;
            assert(w[2] == m.command);
            assert(w[3] == d.len() as u8);
            assert(d.len() as u8 == d.len());
            assert(w.len() - 3 - 2 == d.len());
            assert(w.last() == c);
            if c == crc_of(f) {
                assert(w.subrange(4, w.len() - 1) =~= d);
                assert(parse_fields(w, Some(a), m.command, 3) == Ok::<PacketModel, WakeError>(m));
            }
        },
    }
}

/// Decoding the wire bytes of a valid packet's frame closed with an
/// arbitrary CRC byte recovers the packet when that byte is the frame's
/// checksum, and reports the CRC error otherwise.
proof fn lemma_decode_framed(m: PacketModel, c: u8)
    requires
        m.valid(),
        m.data matches Some(d) ==> d.len() > 0,
    ensures
        decode_spec(encode_with_crc(m, c)) == (if c == crc_of(frame_of(m)) {
            Ok::<PacketModel, WakeError>(m)
        } else {
            Err::<PacketModel, WakeError>(WakeError::WrongPacketCrc)
        }),
{
    let w = framed_with(m, c);
    let e = encode_with_crc(m, c);
    assert(w.len() >= 4 && w[0] == FEND);
    lemma_stuff_tail_len(w.skip(1));
    assert(e.len() >= w.len());
    assert(e[0] == FEND);
    lemma_destuff_stuff_frame(w);
    lemma_parse_framed(m, c);
}

/// Round trip: for every valid packet — address absent or in [0, 127],
/// command in [0, 127], data absent or between 1 and 255 bytes — decoding
/// the encoded bytes returns exactly the packet. (Zero-length data is
/// excluded: the wire format cannot distinguish it from absent data, and
/// decode yields the absent form.)
pub proof fn lemma_round_trip(m: PacketModel)
    requires
        m.valid(),
        m.data matches Some(d) ==> d.len() > 0,
    ensures
        decode_spec(encode_spec(m)) == Ok::<PacketModel, WakeError>(m),
{
    lemma_decode_framed(m, crc_of(frame_of(m)));
}

/// Corruption detection: closing a valid packet's frame with any byte
/// other than the frame's checksum — flipping any bit of the CRC byte
/// included, since that never reproduces the byte — makes decoding fail
/// with the CRC error.
pub proof fn lemma_wrong_crc_detected(m: PacketModel, c: u8)
    requires
        m.valid(),
        m.data matches Some(d) ==> d.len() > 0,
        c != crc_of(frame_of(m)),
    ensures
        decode_spec(encode_with_crc(m, c)) == Err::<PacketModel, WakeError>(
            WakeError::WrongPacketCrc,
        ),
{
    lemma_decode_framed(m, c);
}

/// Any buffer below the minimum frame length decodes to the too-short
/// error.
pub proof fn lemma_too_short(s: Seq<u8>)
    requires
        s.len() < PACKET_MIN_LEN,
    ensures
        decode_spec(s) == Err::<PacketModel, WakeError>(WakeError::TooShortPacket),
{
}

/// A minimum-length buffer `[FEND, cmd, 0, crc]` carrying the correct CRC
/// decodes to the bare command with no address and no data — provided
/// that checksum is not the escape marker itself, which destuffing would
/// reject as a truncated escape.
pub proof fn lemma_min_frame(cmd: u8)
    requires
        cmd <= 0x7f,
        crc_of(seq![FEND, cmd, 0u8]) != FESC,
    ensures
        decode_spec(seq![FEND, cmd, 0u8, crc_of(seq![FEND, cmd, 0u8])]) == Ok::<
            PacketModel,
            WakeError,
        >(PacketModel { address: None, command: cmd, data: None }),
{
    let m = PacketModel { address: None, command: cmd, data: None };
    let c = crc_of(seq![FEND, cmd, 0u8]);
    let s = seq![FEND, cmd, 0u8, c];
    assert(frame_of(m) =~= seq![FEND, cmd, 0u8]);
    assert(s =~= framed_with(m, c));
    let s1 = s.skip(1);
    let s2 = s.skip(2);
    let s3 = s.skip(3);
    let s4 = s.skip(4);
    assert(s1 =~= seq![cmd, 0u8, c] && s2 =~= seq![0u8, c] && s3 =~= seq![c] && s4 =~= Seq::<
        u8,
    >::empty());
    assert(s3.skip(1) =~= s4);
    assert(s2.skip(1) =~= s3);
    assert(s1.skip(1) =~= s2);
    assert(destuff(s4) == Ok::<Seq<u8>, WakeError>(Seq::<u8>::empty()));
    assert(seq![c] + Seq::<u8>::empty() =~= seq![c]);
    assert(destuff(s3) == Ok::<Seq<u8>, WakeError>(seq![c]));
    assert(seq![0u8] + seq![c] =~= s2);
    assert(destuff(s2) == Ok::<Seq<u8>, WakeError>(s2));
    assert(seq![cmd] + s2 =~= s1);
    assert(destuff(s1) == Ok::<Seq<u8>, WakeError>(s1));
    assert(seq![FEND] + s1 =~= s);
    assert(destuff(s) == Ok::<Seq<u8>, WakeError>(s));
    lemma_parse_framed(m, c);
}

/// Escape coverage: if the closed pre-stuff frame of a packet holds a
/// literal reserved byte anywhere after the start marker, the encoded
/// output contains the corresponding two-byte escape sequence.
pub proof fn lemma_encode_escapes(m: PacketModel, i: int)
    requires
        1 <= i < framed_with(m, crc_of(frame_of(m))).len(),
        framed_with(m, crc_of(frame_of(m)))[i] == FEND || framed_with(m, crc_of(frame_of(m)))[i]
            == FESC,
    ensures
        exists|j: int|
            {
                &&& 0 <= j
                &&& j + 1 < encode_spec(m).len()
                &&& #[trigger] encode_spec(m)[j] == FESC
                &&& encode_spec(m)[j + 1] == (if framed_with(m, crc_of(frame_of(m)))[i] == FEND {
                    TFEND
                } else {
                    TFESC
                })
            },
{
    let w = framed_with(m, crc_of(frame_of(m)));
    let t = w.skip(1);
    let out = stuff_tail(t);
    lemma_stuff_escapes(t, i - 1);
    let j0 = choose|j: int|
        {
            &&& 0 <= j
            &&& j + 1 < out.len()
            &&& #[trigger] out[j] == FESC
            &&& out[j + 1] == (if t[i - 1] == FEND {
                TFEND
            } else {
                TFESC
            })
        };
    assert(encode_spec(m) == seq![w[0]] + out);
    assert(encode_spec(m)[j0 + 1] == FESC && encode_spec(m)[j0 + 2] == (if w[i]
        == FEND {
        TFEND
    } else {
        TFESC
    }));
}

} // verus!
