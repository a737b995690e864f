//! The streaming parser and the iterator it hands out per feed call.

use crate::buffer::{append_truncated, find_byte, find_spec, lemma_find_spec, UnderlyingBuffer};
use crate::frame::{
    le_u16, scan, ubx_checksum, PacketRef, ParserError, ScanItem,
    MAX_PAYLOAD_LEN, SYNC_CHAR_1, SYNC_CHAR_2,
};
use vstd::prelude::*;

verus! {

/// Buffer content and cursor after `consume` has merged `new` into the
/// retained bytes `p`, for a buffer of capacity `cap`.
pub open spec fn consume_spec(p: Seq<u8>, new: Seq<u8>, cap: nat) -> (Seq<u8>, nat) {
    match find_spec(p, SYNC_CHAR_1) {
        Some(i) => (append_truncated(p, new, cap), i as nat),
        None => match find_spec(new, SYNC_CHAR_1) {
            Some(k) => (
                append_truncated(Seq::empty(), new.subrange(k, new.len() as int), cap),
                0,
            ),
            None => (Seq::empty(), 0),
        },
    }
}

/// Everything an iterator yields over `d` until it ends, and where its
/// cursor stops.
pub open spec fn scan_all(d: Seq<u8>, cap: nat) -> (Seq<Result<(u8, u8, Seq<u8>), ParserError>>, nat)
    decreases d.len(),
{
    let step = scan(d, cap);
    match step.0 {
        None => (Seq::empty(), step.1),
        Some(x) => {
            if 0 < step.1 <= d.len() {
                let rest = scan_all(d.subrange(step.1 as int, d.len() as int), cap);
                (seq![x] + rest.0, step.1 + rest.1)
            } else {
                (seq![x], step.1)
            }
        },
    }
}

/// One feed call on a parser retaining `p`, its iterator drained to the end:
/// the results in order, and the bytes retained afterwards.
pub open spec fn feed(p: Seq<u8>, input: Seq<u8>, cap: nat) -> (Seq<Result<(u8, u8, Seq<u8>), ParserError>>, Seq<u8>) {
    let c = consume_spec(p, input, cap);
    let d = retained(c.0, c.1);
    let r = scan_all(d, cap);
    (r.0, retained(d, r.1))
}

/// The bytes from the cursor on: what a new feed call starts from.
pub open spec fn retained(content: Seq<u8>, off: nat) -> Seq<u8> {
    content.subrange(off as int, content.len() as int)
}

/// Streaming UBX parser over an owned buffer.
///
/// The cursor of the last iterator lives here: bytes before it are known to
/// be consumed or garbage, and the next `consume` discards them, also when
/// that iterator was abandoned early.
pub struct Parser<T: UnderlyingBuffer = Vec<u8>> {
    buf: T,
    off: usize,
}

impl<T: UnderlyingBuffer> Parser<T> {
    /// Everything the buffer holds, including bytes before the cursor.
    pub closed spec fn content(&self) -> Seq<u8> {
        self.buf.content()
    }

    pub closed spec fn cursor(&self) -> nat {
        self.off as nat
    }

    pub closed spec fn capacity(&self) -> nat {
        self.buf.capacity()
    }

    /// The bytes kept for the next feed call.
    pub open spec fn pending(&self) -> Seq<u8> {
        retained(self.content(), self.cursor())
    }

    pub closed spec fn wf(&self) -> bool {
        self.buf.wf() && self.off <= self.buf.content().len()
    }

    /// The retained bytes fit in the buffer, so `capacity() - pending().len()`
    /// bounds what the next feed call can store.
    pub proof fn lemma_pending_bounded(&self)
        requires
            self.wf(),
        ensures
            self.pending().len() <= self.content().len() <= self.capacity() <= usize::MAX,
    {
        self.buf.lemma_bounded();
    }

    /// A parser over `underlying`, keeping what it already holds.
    pub fn new(underlying: T) -> (r: Self)
        requires
            underlying.wf(),
        ensures
            r.wf(),
            r.pending() == underlying.content(),
            r.capacity() == underlying.capacity(),
    {
        proof {
            assert(underlying.content().subrange(0, underlying.content().len() as int)
                =~= underlying.content());
        }
        Parser { buf: underlying, off: 0 }
    }

    pub fn is_buffer_empty(&self) -> (r: bool)
        requires
            self.wf(),
        ensures
            r == (self.pending().len() == 0),
    {
        self.buf.len() == self.off
    }

    pub fn buffer_len(&self) -> (r: usize)
        requires
            self.wf(),
        ensures
            r == self.pending().len(),
    {
        self.buf.len() - self.off
    }

    /// Merges `new_data` into the retained bytes and returns an iterator over
    /// the frames found from the first sync byte on.
    pub fn consume<'a>(&'a mut self, new_data: &[u8]) -> (r: ParserIter<'a, T>)
        requires
            old(self).wf(),
        ensures
            r.wf(),
            r.capacity() == old(self).capacity(),
            *final(self) == *final(r.parser),
            (r.content(), r.cursor()) == consume_spec(
                old(self).pending(),
                new_data@,
                old(self).capacity(),
            ),
    {
        self.buf.drain(self.off);
        self.off = 0;
        proof {
            self.buf.lemma_bounded();
            lemma_find_spec(self.buf.content(), SYNC_CHAR_1);
        }
        let start: usize = match self.buf.find(SYNC_CHAR_1) {
            Some(idx) => {
                self.buf.extend_from_slice(new_data);
                idx
            },
            None => match find_byte(new_data, SYNC_CHAR_1) {
                Some(k) => {
                    proof {
                        lemma_find_spec(new_data@, SYNC_CHAR_1);
                    }
                    self.buf.clear();
                    self.buf.extend_from_slice(&new_data[k..new_data.len()]);
                    0
                },
                None => {
                    self.buf.clear();
                    0
                },
            },
        };
        proof {
            self.buf.lemma_bounded();
        }
        self.off = start;
        ParserIter { parser: self }
    }
}

impl Default for Parser<Vec<u8>> {
    /// A parser over an empty, growable buffer.
    fn default() -> (r: Self)
        ensures
            r.wf(),
            r.pending() == Seq::<u8>::empty(),
            r.capacity() == usize::MAX,
    {
        let r = Parser { buf: Vec::new(), off: 0 };
        proof {
            assert(r.pending() =~= Seq::<u8>::empty());
        }
        r
    }
}

/// Iterator over the frames of one feed call; it moves the parser's cursor.
pub struct ParserIter<'a, T: UnderlyingBuffer> {
    /// The parser whose buffer and cursor this iterator works on.
    pub parser: &'a mut Parser<T>,
}

impl<'a, T: UnderlyingBuffer> ParserIter<'a, T> {
    pub open spec fn state(&self) -> Parser<T> {
        *self.parser
    }

    pub open spec fn content(&self) -> Seq<u8> {
        self.state().content()
    }

    pub open spec fn cursor(&self) -> nat {
        self.state().cursor()
    }

    pub open spec fn capacity(&self) -> nat {
        self.state().capacity()
    }

    pub open spec fn wf(&self) -> bool {
        self.state().wf()
    }

    /// The bytes from the cursor on.
    pub open spec fn pending(&self) -> Seq<u8> {
        self.state().pending()
    }

    /// Scans from the cursor for the next frame.
    ///
    /// Returns `None` when the retained bytes hold no further result yet;
    /// a frame that is still arriving is kept for the next feed call.
    pub fn next(&mut self) -> (r: Option<Result<PacketRef<'_>, ParserError>>)
        requires
            old(self).wf(),
        ensures
            *final(final(self).parser) == *final(old(self).parser),
            final(self).wf(),
            final(self).content() == old(self).content(),
            final(self).capacity() == old(self).capacity(),
            item_view(r) == scan(old(self).pending(), old(self).capacity()).0,
            final(self).cursor() == old(self).cursor() + scan(
                old(self).pending(),
                old(self).capacity(),
            ).1,
            final(self).pending() == retained(
                old(self).pending(),
                scan(old(self).pending(), old(self).capacity()).1,
            ),
    {
        proof {
            crate::laws::lemma_scan_bounds(old(self).pending(), old(self).capacity());
            let d = old(self).pending();
            let a = scan(d, old(self).capacity()).1 as int;
            let c = old(self).content();
            let o = old(self).cursor() as int;
            assert(d.subrange(a, d.len() as int) =~= c.subrange(o + a, c.len() as int));
        }
        let cap = self.parser.buf.max_capacity();
        let ghost c = self.content();
        let ghost off0 = self.cursor();
        let ghost d0 = self.pending();
        loop
            invariant
                *final(self.parser) == *final(old(self).parser),
                self.wf(),
                self.content() == c,
                self.capacity() == old(self).capacity(),
                cap == self.capacity(),
                c == old(self).content(),
                d0 == old(self).pending(),
                off0 == old(self).cursor(),
                off0 <= self.cursor() <= c.len(),
                scan(d0, cap as nat).0 == scan(self.pending(), cap as nat).0,
                scan(d0, cap as nat).1 == scan(self.pending(), cap as nat).1 + self.cursor() - off0,
            decreases c.len() - self.cursor(),
        {
            let len = self.parser.buf.len();
            let off = self.parser.off;
            if off >= len {
                return None;
            }
            let data = self.parser.buf.index(off..len);
            assert(data@ == self.pending());
            let pos = match find_byte(data, SYNC_CHAR_1) {
                Some(p) => p,
                None => {
                    return None;
                },
            };
            proof {
                lemma_find_spec(data@, SYNC_CHAR_1);
            }
            if data.len() - pos <= 1 {
                return None;
            }
            if data[pos + 1] != SYNC_CHAR_2 {
                proof {
                    assert(data@.subrange(pos + 2, data@.len() as int) =~= retained(
                        c,
                        (off + pos + 2) as nat,
                    ));
                }
                self.parser.off = off + pos + 2;
                continue;
            }
            if data.len() - pos <= 5 {
                self.parser.off = off + pos;
                return None;
            }
            let pack_len = le_u16(data[pos + 4], data[pos + 5]) as usize;
            if pack_len + 8 > cap {
                self.parser.off = off + pos + 2;
                return Some(Err(ParserError::OutOfMemory { required_size: pack_len + 8 }));
            }
            if pack_len > MAX_PAYLOAD_LEN as usize {
                proof {
                    assert(data@.subrange(pos + 2, data@.len() as int) =~= retained(
                        c,
                        (off + pos + 2) as nat,
                    ));
                }
                self.parser.off = off + pos + 2;
                continue;
            }
            if pack_len + 8 > data.len() - pos {
                self.parser.off = off + pos;
                return None;
            }
            let (ck_a, ck_b) = ubx_checksum(&data[pos + 2..pos + 6 + pack_len]);
            let expect_a = data[pos + 6 + pack_len];
            let expect_b = data[pos + 7 + pack_len];
            if ck_a != expect_a || ck_b != expect_b {
                self.parser.off = off + pos + 2;
                return Some(
                    Err(
                        ParserError::InvalidChecksum {
                            expect: le_u16(expect_a, expect_b),
                            got: le_u16(ck_a, ck_b),
                        },
                    ),
                );
            }
            let packet = PacketRef {
                class_id: data[pos + 2],
                msg_id: data[pos + 3],
                payload: &data[pos + 6..pos + 6 + pack_len],
            };
            self.parser.off = off + pos + 8 + pack_len;
            return Some(Ok(packet));
        }
    }
}

/// The abstract value of what `next` returns.
pub open spec fn item_view(r: Option<Result<PacketRef<'_>, ParserError>>) -> ScanItem {
    match r {
        None => None,
        Some(Ok(p)) => Some(Ok(p.view())),
        Some(Err(e)) => Some(Err(e)),
    }
}

} // verus!
