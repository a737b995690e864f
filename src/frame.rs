//! Wire format of a frame and the rule for one scanning step.
//!
//! A frame is `[SYNC_CHAR_1, SYNC_CHAR_2, class, id, len_lo, len_hi,
//! payload.., ck_a, ck_b]`; the checksum covers class, id, length and payload.

use crate::buffer::find_spec;
use vstd::prelude::*;

verus! {

pub const SYNC_CHAR_1: u8 = 0xb5;

pub const SYNC_CHAR_2: u8 = 0x62;

/// Largest payload length the protocol allows in a frame.
pub const MAX_PAYLOAD_LEN: u16 = 1240;

/// Why a candidate frame was rejected.
#[derive(Debug, Clone, Copy, PartialEq, Eq, Structural)]
pub enum ParserError {
    /// The trailing checksum `expect` differs from the computed `got`
    /// (both little-endian over `ck_a`, `ck_b`).
    InvalidChecksum { expect: u16, got: u16 },
    /// The frame needs `required_size` bytes, more than the buffer can hold.
    OutOfMemory { required_size: usize },
}

/// A checksum-verified frame: its class, its id and its payload bytes.
#[derive(Debug, Clone, Copy, PartialEq, Eq)]
pub struct PacketRef<'a> {
    pub class_id: u8,
    pub msg_id: u8,
    pub payload: &'a [u8],
}

impl<'a> PacketRef<'a> {
    pub open spec fn view(&self) -> (u8, u8, Seq<u8>) {
        (self.class_id, self.msg_id, self.payload@)
    }
}

/// The two-accumulator 8-bit running checksum of `s`.
pub open spec fn checksum_spec(s: Seq<u8>) -> (u8, u8)
    decreases s.len(),
{
    if s.len() == 0 {
        (0u8, 0u8)
    } else {
        let prev = checksum_spec(s.drop_last());
        let a = ((prev.0 + s.last()) % 256) as u8;
        let b = ((prev.1 + a) % 256) as u8;
        (a, b)
    }
}

/// Checksum of `data`: `ck_a` sums the bytes, `ck_b` sums the running `ck_a`.
pub fn ubx_checksum(data: &[u8]) -> (r: (u8, u8))
    ensures
        r == checksum_spec(data@),
{
    let mut ck_a: u8 = 0;
    let mut ck_b: u8 = 0;
    let mut i: usize = 0;
    while i < data.len()
        invariant
            i <= data@.len(),
            (ck_a, ck_b) == checksum_spec(data@.take(i as int)),
        decreases data@.len() - i,
    {
        proof {
            assert(data@.take(i + 1).drop_last() =~= data@.take(i as int));
        }
        ck_a = ((ck_a as u16 + data[i] as u16) % 256) as u8;
        ck_b = ((ck_b as u16 + ck_a as u16) % 256) as u8;
        i = i + 1;
    }
    proof {
        assert(data@.take(i as int) =~= data@);
    }
    (ck_a, ck_b)
}

/// The little-endian 16-bit value of `lo`, `hi`.
pub open spec fn le_u16_spec(lo: u8, hi: u8) -> nat {
    lo as nat + 256 * hi as nat
}

pub fn le_u16(lo: u8, hi: u8) -> (r: u16)
    ensures
        r == le_u16_spec(lo, hi),
{
    lo as u16 + (hi as u16) * 256
}

/// What one scanning step yields.
pub type ScanItem = Option<Result<(u8, u8, Seq<u8>), ParserError>>;

/// One scanning step over `d` (bytes from the cursor on) with a buffer of
/// capacity `cap`: the item yielded (`None` ends the sequence) and how far
/// the cursor moves.
pub open spec fn scan(d: Seq<u8>, cap: nat) -> (ScanItem, nat)
    decreases d.len(),
    via scan_decreases
{
    match find_spec(d, SYNC_CHAR_1) {
        None => (None, 0),
        Some(s) => {
            if s + 2 > d.len() {
                // only the first sync byte is here
                (None, 0)
            } else if d[s + 1] != SYNC_CHAR_2 {
                let next = scan(d.subrange(s + 2, d.len() as int), cap);
                (next.0, (next.1 + s + 2) as nat)
            } else if s + 6 > d.len() {
                // the length field is not here yet
                (None, s as nat)
            } else {
                let len = le_u16_spec(d[s + 4], d[s + 5]);
                if len + 8 > cap {
                    (
                        Some(Err(ParserError::OutOfMemory { required_size: (len + 8) as usize })),
                        (s + 2) as nat,
                    )
                } else if len > MAX_PAYLOAD_LEN {
                    let next = scan(d.subrange(s + 2, d.len() as int), cap);
                    (next.0, (next.1 + s + 2) as nat)
                } else if s + len + 8 > d.len() {
                    // the frame is not complete yet
                    (None, s as nat)
                } else {
                    let ck = checksum_spec(d.subrange(s + 2, s + 6 + len));
                    let ea = d[s + 6 + len];
                    let eb = d[s + 7 + len];
                    if ck != (ea, eb) {
                        (
                            Some(
                                Err(
                                    ParserError::InvalidChecksum {
                                        expect: le_u16_spec(ea, eb) as u16,
                                        got: le_u16_spec(ck.0, ck.1) as u16,
                                    },
                                ),
                            ),
                            (s + 2) as nat,
                        )
                    } else {
                        (
                            Some(Ok((d[s + 2], d[s + 3], d.subrange(s + 6, s + 6 + len)))),
                            (s + 8 + len) as nat,
                        )
                    }
                }
            }
        },
    }
}

#[via_fn]
proof fn scan_decreases(d: Seq<u8>, cap: nat) {
    crate::buffer::lemma_find_spec(d, SYNC_CHAR_1);
}

} // verus!
