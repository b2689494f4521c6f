//! Byte stuffing and destuffing: the two reserved marker bytes are escaped
//! so that they cannot appear literally inside a framed payload, and the
//! escaping is reversed losslessly. The first byte of a frame is the start
//! marker and is copied literally, outside the escaped region.

use vstd::prelude::*;

use crate::types::FEND;
use crate::types::FESC;
use crate::types::PACKET_MIN_LEN;
use crate::types::TFEND;
use crate::types::TFESC;
use crate::types::WakeError;

verus! {

/// What stuffing emits for one byte of the escaped region.
pub open spec fn stuff_byte(x: u8) -> Seq<u8> {
    if x == FESC {
        seq![FESC, TFESC]
    } else if x == FEND {
        seq![FESC, TFEND]
    } else {
        seq![x]
    }
}

/// Stuffing of the escaped region: every byte replaced by its escape form.
pub open spec fn stuff_tail(s: Seq<u8>) -> Seq<u8>
    decreases s.len(),
{
    if s.len() == 0 {
        Seq::empty()
    } else {
        stuff_byte(s[0]) + stuff_tail(s.skip(1))
    }
}

/// Stuffing of a whole frame: the first byte (the start marker) is copied
/// literally, the rest is the escaped region.
pub open spec fn stuff_frame(s: Seq<u8>) -> Seq<u8>
    recommends
        s.len() >= 1,
{
    seq![s[0]] + stuff_tail(s.skip(1))
}

/// Destuffing, scanning left to right. An `FESC` must be followed by
/// `TFESC` or `TFEND` (yielding the literal `FESC` or `FEND`); any other
/// follower is an invalid escape, and an `FESC` as the last byte is a
/// length error. Every other byte, a literal `FEND` included, is copied
/// unchanged.
pub open spec fn destuff(s: Seq<u8>) -> Result<Seq<u8>, WakeError>
    decreases s.len(),
{
    if s.len() == 0 {
        Ok(Seq::empty())
    } else if s[0] == FESC {
        if s.len() == 1 {
            Err(WakeError::WrongPacketLength)
        } else if s[1] == TFESC {
            match destuff(s.skip(2)) {
                Ok(t) => Ok(seq![FESC] + t),
                Err(e) => Err(e),
            }
        } else if s[1] == TFEND {
            match destuff(s.skip(2)) {
                Ok(t) => Ok(seq![FEND] + t),
                Err(e) => Err(e),
            }
        } else {
            Err(WakeError::DestuffingFailed)
        }
    } else {
        match destuff(s.skip(1)) {
            Ok(t) => Ok(seq![s[0]] + t),
            Err(e) => Err(e),
        }
    }
}

/// Stuffing never shrinks a sequence.
pub proof fn lemma_stuff_tail_len(s: Seq<u8>)
    ensures
        stuff_tail(s).len() >= s.len(),
        stuff_tail(s).len() <= 2 * s.len(),
    decreases s.len(),
{
    if s.len() > 0 {
        lemma_stuff_tail_len(s.skip(1));
    }
}

/// Destuffing inverts stuffing on the escaped region.
pub proof fn lemma_destuff_stuff_tail(s: Seq<u8>)
    ensures
        destuff(stuff_tail(s)) == Ok::<Seq<u8>, WakeError>(s),
    decreases s.len(),
{
    if s.len() == 0 {
        assert(s =~= Seq::<u8>::empty());
    } else {
        let x = s[0];
        let rest = s.skip(1);
        lemma_destuff_stuff_tail(rest);
        let t = stuff_tail(rest);
        if x == FESC || x == FEND {
            assert(stuff_tail(s).skip(2) =~= t);
            assert(seq![x] + rest =~= s);
        } else {
            assert(stuff_tail(s).skip(1) =~= t);
            assert(seq![x] + rest =~= s);
        }
    }
}

/// Destuffing inverts the stuffing of a whole frame, for any starting byte
/// sequence whose first byte is the literal start marker `FEND`.
pub proof fn lemma_destuff_stuff_frame(s: Seq<u8>)
    requires
        s.len() >= 1,
        s[0] == FEND,
    ensures
        destuff(stuff_frame(s)) == Ok::<Seq<u8>, WakeError>(s),
{
    lemma_destuff_stuff_tail(s.skip(1));
    assert(stuff_frame(s)[0] == FEND);
    assert(stuff_frame(s).skip(1) =~= stuff_tail(s.skip(1)));
    assert(seq![s[0]] + s.skip(1) =~= s);
}

/// Every reserved byte inside the escaped region comes out of stuffing as
/// its two-byte escape sequence.
pub proof fn lemma_stuff_escapes(s: Seq<u8>, i: int)
    requires
        0 <= i < s.len(),
        s[i] == FEND || s[i] == FESC,
    ensures
        exists|j: int|
            {
                &&& 0 <= j
                &&& j + 1 < stuff_tail(s).len()
                &&& #[trigger] stuff_tail(s)[j] == FESC
                &&& stuff_tail(s)[j + 1] == (if s[i] == FEND {
                    TFEND
                } else {
                    TFESC
                })
            },
    decreases s.len(),
{
    let out = stuff_tail(s);
    if i == 0 {
        assert(out[0] == FESC && out[1] == (if s[0] == FEND {
            TFEND
        } else {
            TFESC
        }));
    } else {
        lemma_stuff_escapes(s.skip(1), i - 1);
        let rest = stuff_tail(s.skip(1));
        let j0 = choose|j: int|
            {
                &&& 0 <= j
                &&& j + 1 < rest.len()
                &&& #[trigger] rest[j] == FESC
                &&& rest[j + 1] == (if s.skip(1)[i - 1] == FEND {
                    TFEND
                } else {
                    TFESC
                })
            };
        let off = stuff_byte(s[0]).len();
        assert(out[j0 + off] == FESC && out[j0 + off + 1] == (if s[i] == FEND {
            TFEND
        } else {
            TFESC
        }));
    }
}

/// Byte stuffing of a frame held in a slice: the first byte is copied
/// literally, every later reserved byte is escaped.
pub(crate) fn stuff_bytes(data: &[u8]) -> (r: Vec<u8>)
    requires
        data@.len() >= 1,
    ensures
        r@ == stuff_frame(data@),
{
    let mut stuffed: Vec<u8> = Vec::new();
    stuffed.push(data[0]);
    let mut i: usize = 1;
    proof {
        assert(stuffed@ =~= seq![data@[0]]);
    }
    while i < data.len()
        invariant
            1 <= i <= data@.len(),
            stuffed@ + stuff_tail(data@.skip(i as int)) == stuff_frame(data@),
        decreases data@.len() - i,
    {
        let ghost pre = stuffed@;
        let ghost suffix = data@.skip(i as int);
        let x = data[i];
        if x == FESC {
            stuffed.push(FESC);
            stuffed.push(TFESC);
        } else if x == FEND {
            stuffed.push(FESC);
            stuffed.push(TFEND);
        } else {
            stuffed.push(x);
        }
        i = i + 1;
        proof {
            assert(suffix[0] == x);
            assert(suffix.skip(1) =~= data@.skip(i as int));
            assert(stuffed@ =~= pre + stuff_byte(x));
            assert((pre + stuff_byte(x)) + stuff_tail(data@.skip(i as int)) =~= pre + (stuff_byte(
                x,
            ) + stuff_tail(data@.skip(i as int))));
        }
    }
    proof {
        assert(data@.skip(data@.len() as int) =~= Seq::<u8>::empty());
        assert(stuffed@ + Seq::<u8>::empty() =~= stuffed@);
    }
    stuffed
}

/// Does byte stuffing in a `Vec`: the first byte is the start marker and is
/// copied literally, every later reserved byte is escaped.
pub fn stuffing(data: Vec<u8>) -> (r: Vec<u8>)
    requires
        data@.len() >= 1,
    ensures
        r@ == stuff_frame(data@),
{
    stuff_bytes(data.as_slice())
}

/// Does byte destuffing in a `Vec`: the first byte (which must be the
/// escape marker itself under this entry point's convention) is copied
/// literally, and the rest of the buffer is destuffed. Returns `None` on a
/// buffer below the minimum frame length, on a wrong first byte, and on
/// any destuffing failure.
pub fn destuffing(data: &Vec<u8>) -> (r: Option<Vec<u8>>)
    ensures
        match r {
            Some(v) => {
                &&& data@.len() >= PACKET_MIN_LEN
                &&& data@[0] == FESC
                &&& destuff(data@.skip(1)) == Ok::<Seq<u8>, WakeError>(v@.skip(1))
                &&& v@.len() >= 1 && v@[0] == FESC
            },
            None => data@.len() < PACKET_MIN_LEN || data@[0] != FESC || destuff(data@.skip(1)) is Err,
        },
{
    if data.len() < PACKET_MIN_LEN || data[0] != FESC {
        return None;
    }
    let mut output: Vec<u8> = Vec::new();
    output.push(data[0]);
    let mut i: usize = 1;
    proof {
        assert(output@ =~= seq![FESC]);
    }
    while i < data.len()
        invariant
            1 <= i <= data@.len(),
            data@[0] == FESC,
            output@.len() >= 1 && output@[0] == FESC,
            match destuff(data@.skip(i as int)) {
                Ok(t) => destuff(data@.skip(1)) == Ok::<Seq<u8>, WakeError>(output@.skip(1) + t),
                Err(e) => destuff(data@.skip(1)) == Err::<Seq<u8>, WakeError>(e),
            },
        decreases data@.len() - i,
    {
        let ghost pre = output@;
        let ghost suffix = data@.skip(i as int);
        let x = data[i];
        proof {
            assert(suffix[0] == x);
        }
        if x == FESC {
            if i + 1 >= data.len() {
                proof {
                    assert(suffix.len() == 1);
                }
                return None;
            }
            let y = data[i + 1];
            proof {
                assert(suffix[1] == y);
                assert(suffix.skip(2) =~= data@.skip(i as int + 2));
            }
            if y == TFESC {
                output.push(FESC);
            } else if y == TFEND {
                output.push(FEND);
            } else {
                return None;
            }
            i = i + 2;
            proof {
                let emitted: u8 = if y == TFESC {
                    FESC
                } else {
                    FEND
                };
                if let Ok(t) = destuff(data@.skip(i as int)) {
                    assert(destuff(suffix) == Ok::<Seq<u8>, WakeError>(seq![emitted] + t));
                    assert(pre.skip(1) + (seq![emitted] + t) =~= output@.skip(1) + t);
                }
            }
        } else {
            output.push(x);
            i = i + 1;
            proof {
                assert(suffix.skip(1) =~= data@.skip(i as int));
                if let Ok(t) = destuff(data@.skip(i as int)) {
                    assert(destuff(suffix) == Ok::<Seq<u8>, WakeError>(seq![x] + t));
                    assert(pre.skip(1) + (seq![x] + t) =~= output@.skip(1) + t);
                }
            }
        }
    }
    proof {
        assert(data@.skip(data@.len() as int) =~= Seq::<u8>::empty());
        assert(output@.skip(1) + Seq::<u8>::empty() =~= output@.skip(1));
    }
    Some(output)
}

} // verus!
