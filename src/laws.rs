//! Properties of the parser stated over the model of `frame` and `parser`,
//! and the lemmas they rest on.

use crate::buffer::{append_truncated, find_spec, is_first_index, lemma_find_spec};
use crate::frame::{checksum_spec, le_u16_spec, scan, ParserError, MAX_PAYLOAD_LEN, SYNC_CHAR_1, SYNC_CHAR_2};
use crate::parser::{consume_spec, feed, retained, scan_all};
use vstd::prelude::*;

verus! {

/// The bytes of a frame with class `cls`, id `id`, `payload` and the two
/// trailing checksum bytes `a`, `b`.
pub open spec fn frame_with_checksum(cls: u8, id: u8, payload: Seq<u8>, a: u8, b: u8) -> Seq<u8> {
    seq![SYNC_CHAR_1, SYNC_CHAR_2] + frame_body(cls, id, payload) + seq![a, b]
}

/// The checksummed part of a frame: class, id, length and payload.
pub open spec fn frame_body(cls: u8, id: u8, payload: Seq<u8>) -> Seq<u8> {
    seq![cls, id, (payload.len() % 256) as u8, (payload.len() / 256) as u8] + payload
}

/// The well-formed frame carrying `payload`.
pub open spec fn frame_bytes(cls: u8, id: u8, payload: Seq<u8>) -> Seq<u8> {
    let ck = checksum_spec(frame_body(cls, id, payload));
    frame_with_checksum(cls, id, payload, ck.0, ck.1)
}

/// `s` holds no first sync byte.
pub open spec fn unsynced(s: Seq<u8>) -> bool {
    forall|i: int| 0 <= i < s.len() ==> s[i] != SYNC_CHAR_1
}

/// A payload that a buffer of capacity `cap` can carry in one frame.
pub open spec fn fits(payload: Seq<u8>, cap: nat) -> bool {
    payload.len() <= MAX_PAYLOAD_LEN && payload.len() + 8 <= cap
}

/// The first occurrence is unique.
pub proof fn lemma_find_first(s: Seq<u8>, v: u8, i: int)
    requires
        is_first_index(s, v, i),
    ensures
        find_spec(s, v) == Some(i),
{
    lemma_find_spec(s, v);
    match find_spec(s, v) {
        Some(j) => {
            if j < i {
                assert(s[j] != v);
            } else if i < j {
                assert(s[i] != v);
            }
        },
        None => {
            assert(s[i] != v);
        },
    }
}

/// A step moves the cursor within the bytes, and forward when it yields.
pub proof fn lemma_scan_bounds(d: Seq<u8>, cap: nat)
    ensures
        scan(d, cap).1 <= d.len(),
        scan(d, cap).0 is Some ==> scan(d, cap).1 > 0,
    decreases d.len(),
{
    lemma_find_spec(d, SYNC_CHAR_1);
    match find_spec(d, SYNC_CHAR_1) {
        None => {},
        Some(s) => {
            if s + 2 <= d.len() {
                lemma_scan_bounds(d.subrange(s + 2, d.len() as int), cap);
            }
        },
    }
}

/// After unsynced bytes, the first sync byte is found where it stands in the rest.
pub proof fn lemma_find_after_unsynced(x: Seq<u8>, y: Seq<u8>)
    requires
        unsynced(x),
    ensures
        find_spec(x + y, SYNC_CHAR_1) == match find_spec(y, SYNC_CHAR_1) {
            Some(k) => Some(x.len() + k),
            None => None::<int>,
        },
{
    lemma_find_spec(y, SYNC_CHAR_1);
    lemma_find_spec(x + y, SYNC_CHAR_1);
    match find_spec(y, SYNC_CHAR_1) {
        Some(k) => {
            assert(is_first_index(x + y, SYNC_CHAR_1, x.len() + k)) by {
                assert forall|j: int| 0 <= j < x.len() + k implies (x + y)[j] != SYNC_CHAR_1 by {
                    if j >= x.len() {
                        assert((x + y)[j] == y[j - x.len()]);
                    }
                }
            }
            lemma_find_first(x + y, SYNC_CHAR_1, x.len() + k);
        },
        None => {
            if let Some(j) = find_spec(x + y, SYNC_CHAR_1) {
                if j >= x.len() {
                    assert(y[j - x.len()] == (x + y)[j]);
                }
            }
        },
    }
}

proof fn lemma_len_split(n: nat)
    requires
        n < 65536,
    ensures
        le_u16_spec((n % 256) as u8, (n / 256) as u8) == n,
{
}

/// A frame after unsynced bytes `x`, with checksum bytes `a`, `b`, followed
/// by anything: a well-formed frame yields its contents, a bad checksum
/// yields that error, and the cursor moves as the step rules say.
pub proof fn lemma_scan_frame_at(
    x: Seq<u8>,
    cls: u8,
    id: u8,
    payload: Seq<u8>,
    a: u8,
    b: u8,
    t: Seq<u8>,
    cap: nat,
)
    requires
        unsynced(x),
        fits(payload, cap),
    ensures
        ({
            let ck = checksum_spec(frame_body(cls, id, payload));
            let d = x + frame_with_checksum(cls, id, payload, a, b) + t;
            if (a, b) == ck {
                scan(d, cap) == (
                    Some(Ok::<(u8, u8, Seq<u8>), ParserError>((cls, id, payload))),
                    x.len() + payload.len() + 8,
                )
            } else {
                scan(d, cap) == (
                    Some(
                        Err::<(u8, u8, Seq<u8>), ParserError>(
                            ParserError::InvalidChecksum {
                                expect: le_u16_spec(a, b) as u16,
                                got: le_u16_spec(ck.0, ck.1) as u16,
                            },
                        ),
                    ),
                    x.len() + 2,
                )
            }
        }),
{
    let f = frame_with_checksum(cls, id, payload, a, b);
    let d = x + f + t;
    let n = payload.len();
    let s = x.len() as int;
    assert(x + f + t =~= x + (f + t));
    lemma_find_spec(f + t, SYNC_CHAR_1);
    assert(is_first_index(f + t, SYNC_CHAR_1, 0));
    lemma_find_first(f + t, SYNC_CHAR_1, 0);
    lemma_find_after_unsynced(x, f + t);
    lemma_len_split(n);
    assert(d[s] == SYNC_CHAR_1);
    assert(d[s + 1] == SYNC_CHAR_2);
    assert(d[s + 4] == (n % 256) as u8);
    assert(d[s + 5] == (n / 256) as u8);
    assert(d.subrange(s + 2, s + 6 + n) =~= frame_body(cls, id, payload));
    assert(d.subrange(s + 6, s + 6 + n) =~= payload);
    assert(d[s + 6 + n] == a);
    assert(d[s + 7 + n] == b);
}

/// A step over unsynced bytes yields nothing and leaves the cursor.
pub proof fn lemma_scan_all_unsynced(d: Seq<u8>, cap: nat)
    requires
        unsynced(d),
    ensures
        scan_all(d, cap) == (Seq::<Result<(u8, u8, Seq<u8>), ParserError>>::empty(), 0nat),
{
    lemma_find_spec(d, SYNC_CHAR_1);
    if let Some(i) = find_spec(d, SYNC_CHAR_1) {
        assert(d[i] == SYNC_CHAR_1);
    }
}

/// A well-formed frame that fits, fed to a parser retaining only unsynced
/// bytes, is yielded alone and nothing is retained.
pub proof fn lemma_feed_frame_after_unsynced(p: Seq<u8>, cls: u8, id: u8, payload: Seq<u8>, cap: nat)
    requires
        unsynced(p),
        fits(payload, cap),
    ensures
        feed(p, frame_bytes(cls, id, payload), cap) == (
            seq![Ok::<(u8, u8, Seq<u8>), ParserError>((cls, id, payload))],
            Seq::<u8>::empty(),
        ),
{
    let f = frame_bytes(cls, id, payload);
    let ck = checksum_spec(frame_body(cls, id, payload));
    lemma_find_spec(p, SYNC_CHAR_1);
    if let Some(i) = find_spec(p, SYNC_CHAR_1) {
        assert(p[i] == SYNC_CHAR_1);
    }
    assert(is_first_index(f, SYNC_CHAR_1, 0));
    lemma_find_first(f, SYNC_CHAR_1, 0);
    assert(f.subrange(0, f.len() as int) =~= f);
    assert(append_truncated(Seq::empty(), f, cap) =~= f);
    let e = Seq::<u8>::empty();
    assert(e + f + e =~= f);
    lemma_scan_frame_at(e, cls, id, payload, ck.0, ck.1, e, cap);
    assert(f.subrange(f.len() as int, f.len() as int) =~= e);
    lemma_scan_all_unsynced(e, cap);
    assert(retained(f, f.len()) =~= e);
    assert(retained(f, 0) =~= f);
}

/// Retained bytes without a first sync byte are all dropped by the next
/// feed call: what is kept afterwards comes from the new input alone, from
/// its first sync byte on.
pub proof fn law_unsynced_buffer_cleared(p: Seq<u8>, input: Seq<u8>, cap: nat)
    requires
        unsynced(p),
    ensures
        ({
            let c = consume_spec(p, input, cap);
            &&& c.1 == 0
            &&& match find_spec(input, SYNC_CHAR_1) {
                Some(k) => c.0 == input.subrange(k, input.len() as int).take(
                    if input.len() - k <= cap { input.len() - k } else { cap as int },
                ),
                None => c.0.len() == 0,
            }
        }),
{
    lemma_find_spec(p, SYNC_CHAR_1);
    if let Some(i) = find_spec(p, SYNC_CHAR_1) {
        assert(p[i] == SYNC_CHAR_1);
    }
    lemma_find_spec(input, SYNC_CHAR_1);
    if let Some(k) = find_spec(input, SYNC_CHAR_1) {
        let rest = input.subrange(k, input.len() as int);
        if rest.len() <= cap {
            assert(append_truncated(Seq::empty(), rest, cap) =~= rest.take(rest.len() as int));
        } else {
            assert(append_truncated(Seq::empty(), rest, cap) =~= rest.take(cap as int));
        }
    }
}

/// A frame whose declared length cannot fit the buffer yields exactly one
/// out-of-memory error; with no sync byte among the bytes after its sync
/// pair, the parser then decodes a following well-formed frame that fits,
/// with no reset in between.
pub proof fn law_oversized_frame_recovers(
    input: Seq<u8>,
    cls: u8,
    id: u8,
    payload: Seq<u8>,
    cap: nat,
)
    requires
        6 <= input.len() <= cap,
        input[0] == SYNC_CHAR_1,
        input[1] == SYNC_CHAR_2,
        le_u16_spec(input[4], input[5]) + 8 > cap,
        unsynced(input.subrange(2, input.len() as int)),
        fits(payload, cap),
    ensures
        ({
            let first = feed(Seq::empty(), input, cap);
            &&& first.0 == seq![
                Err::<(u8, u8, Seq<u8>), ParserError>(
                    ParserError::OutOfMemory {
                        required_size: (le_u16_spec(input[4], input[5]) + 8) as usize,
                    },
                ),
            ]
            &&& feed(first.1, frame_bytes(cls, id, payload), cap) == (
                seq![Ok::<(u8, u8, Seq<u8>), ParserError>((cls, id, payload))],
                Seq::<u8>::empty(),
            )
        }),
{
    let e = Seq::<u8>::empty();
    let rest = input.subrange(2, input.len() as int);
    lemma_find_spec(e, SYNC_CHAR_1);
    assert(is_first_index(input, SYNC_CHAR_1, 0));
    lemma_find_first(input, SYNC_CHAR_1, 0);
    assert(input.subrange(0, input.len() as int) =~= input);
    assert(append_truncated(e, input, cap) =~= input);
    assert(retained(input, 0) =~= input);
    lemma_scan_all_unsynced(rest, cap);
    assert(rest.subrange(0, rest.len() as int) =~= rest);
    assert(retained(input, 2) =~= rest);
    lemma_feed_frame_after_unsynced(rest, cls, id, payload, cap);
}

/// A frame whose checksum bytes do not match its contents yields exactly one
/// checksum error; with no sync byte after its sync pair, a well-formed frame
/// right behind it is decoded in the same call, and one fed in a later call
/// is decoded too.
pub proof fn law_bad_checksum_recovers(
    cls: u8,
    id: u8,
    payload: Seq<u8>,
    a: u8,
    b: u8,
    cls2: u8,
    id2: u8,
    payload2: Seq<u8>,
    cap: nat,
)
    requires
        (a, b) != checksum_spec(frame_body(cls, id, payload)),
        unsynced(frame_body(cls, id, payload) + seq![a, b]),
        fits(payload, cap),
        fits(payload2, cap),
        payload.len() + payload2.len() + 16 <= cap,
    ensures
        ({
            let bad = frame_with_checksum(cls, id, payload, a, b);
            let good = frame_bytes(cls2, id2, payload2);
            let ck = checksum_spec(frame_body(cls, id, payload));
            let err = Err::<(u8, u8, Seq<u8>), ParserError>(
                ParserError::InvalidChecksum {
                    expect: le_u16_spec(a, b) as u16,
                    got: le_u16_spec(ck.0, ck.1) as u16,
                },
            );
            let ok = Ok::<(u8, u8, Seq<u8>), ParserError>((cls2, id2, payload2));
            &&& feed(Seq::empty(), bad + good, cap) == (seq![err, ok], Seq::<u8>::empty())
            &&& feed(Seq::empty(), bad, cap).0 == seq![err]
            &&& feed(feed(Seq::empty(), bad, cap).1, good, cap) == (seq![ok], Seq::<u8>::empty())
        }),
{
    let e = Seq::<u8>::empty();
    let bad = frame_with_checksum(cls, id, payload, a, b);
    let good = frame_bytes(cls2, id2, payload2);
    let ck2 = checksum_spec(frame_body(cls2, id2, payload2));
    let tail = frame_body(cls, id, payload) + seq![a, b];
    let both = bad + good;
    lemma_find_spec(e, SYNC_CHAR_1);
    // the same call
    assert(is_first_index(both, SYNC_CHAR_1, 0));
    lemma_find_first(both, SYNC_CHAR_1, 0);
    assert(both.subrange(0, both.len() as int) =~= both);
    assert(append_truncated(e, both, cap) =~= both);
    assert(retained(both, 0) =~= both);
    assert(e + bad + good =~= both);
    lemma_scan_frame_at(e, cls, id, payload, a, b, good, cap);
    let r1 = both.subrange(2, both.len() as int);
    assert(r1 =~= tail + good + e);
    lemma_scan_frame_at(tail, cls2, id2, payload2, ck2.0, ck2.1, e, cap);
    let r2 = r1.subrange(r1.len() as int, r1.len() as int);
    assert(r2 =~= e);
    lemma_scan_all_unsynced(e, cap);
    assert(retained(both, both.len()) =~= e);
    assert(scan_all(r1, cap).0 =~= seq![Ok::<(u8, u8, Seq<u8>), ParserError>((cls2, id2, payload2))]);
    assert(scan_all(r1, cap).1 == r1.len());
    assert(scan_all(both, cap).1 == both.len());
    // a later call
    assert(is_first_index(bad, SYNC_CHAR_1, 0));
    lemma_find_first(bad, SYNC_CHAR_1, 0);
    assert(bad.subrange(0, bad.len() as int) =~= bad);
    assert(append_truncated(e, bad, cap) =~= bad);
    assert(retained(bad, 0) =~= bad);
    assert(e + bad + e =~= bad);
    lemma_scan_frame_at(e, cls, id, payload, a, b, e, cap);
    assert(bad.subrange(2, bad.len() as int) =~= tail);
    lemma_scan_all_unsynced(tail, cap);
    assert(tail.subrange(0, tail.len() as int) =~= tail);
    assert(retained(bad, 2) =~= tail);
    lemma_feed_frame_after_unsynced(tail, cls2, id2, payload2, cap);
}

/// The bytes of `s` from its first sync byte on; nothing when it has none.
pub open spec fn from_first_sync(s: Seq<u8>) -> Seq<u8> {
    match find_spec(s, SYNC_CHAR_1) {
        Some(i) => s.subrange(i, s.len() as int),
        None => Seq::empty(),
    }
}

/// The inputs of `chunks` one after another.
pub open spec fn concat_all(chunks: Seq<Seq<u8>>) -> Seq<u8>
    decreases chunks.len(),
{
    if chunks.len() == 0 {
        Seq::empty()
    } else {
        chunks[0] + concat_all(chunks.drop_first())
    }
}

/// One feed call per chunk, each iterator drained: all results in order, and
/// the bytes retained at the end.
pub open spec fn feed_each(p: Seq<u8>, chunks: Seq<Seq<u8>>, cap: nat) -> (Seq<Result<(u8, u8, Seq<u8>), ParserError>>, Seq<u8>)
    decreases chunks.len(),
{
    if chunks.len() == 0 {
        (Seq::empty(), p)
    } else {
        let first = feed(p, chunks[0], cap);
        let rest = feed_each(first.1, chunks.drop_first(), cap);
        (first.0 + rest.0, rest.1)
    }
}

/// A full scan never moves the cursor past the bytes.
pub proof fn lemma_scan_all_bounds(d: Seq<u8>, cap: nat)
    ensures
        scan_all(d, cap).1 <= d.len(),
    decreases d.len(),
{
    lemma_scan_bounds(d, cap);
    let step = scan(d, cap);
    if step.0 is Some {
        lemma_scan_all_bounds(d.subrange(step.1 as int, d.len() as int), cap);
    }
}

/// Two byte strings whose first steps agree, up to a shift `k` of the
/// cursor, yield the same results when scanned to the end.
proof fn lemma_scan_all_shift(z: Seq<u8>, k: int, cap: nat)
    requires
        0 <= k <= z.len(),
        scan(z, cap).0 == scan(z.subrange(k, z.len() as int), cap).0,
        scan(z, cap).0 is Some ==> scan(z, cap).1 == scan(z.subrange(k, z.len() as int), cap).1 + k,
    ensures
        scan_all(z, cap).0 == scan_all(z.subrange(k, z.len() as int), cap).0,
{
    let y = z.subrange(k, z.len() as int);
    lemma_scan_bounds(z, cap);
    lemma_scan_bounds(y, cap);
    if scan(y, cap).0 is Some {
        let a = scan(y, cap).1 as int;
        assert(z.subrange(a + k, z.len() as int) =~= y.subrange(a, y.len() as int));
    }
}

/// Unsynced bytes in front change nothing a scan yields.
pub proof fn lemma_scan_skip_unsynced(x: Seq<u8>, y: Seq<u8>, cap: nat)
    requires
        unsynced(x),
    ensures
        scan_all(x + y, cap).0 == scan_all(y, cap).0,
{
    let z = x + y;
    let n = x.len() as int;
    lemma_find_after_unsynced(x, y);
    assert(z.subrange(n, z.len() as int) =~= y);
    if let Some(k) = find_spec(y, SYNC_CHAR_1) {
        lemma_find_spec(y, SYNC_CHAR_1);
        let s = n + k;
        if k + 2 <= y.len() {
            assert(z.subrange(s + 2, z.len() as int) =~= y.subrange(k + 2, y.len() as int));
        }
        if k + 6 <= y.len() {
            let len = le_u16_spec(y[k + 4], y[k + 5]);
            if k + len + 8 <= y.len() {
                assert(z.subrange(s + 2, s + 6 + len) =~= y.subrange(k + 2, k + 6 + len));
                assert(z.subrange(s + 6, s + 6 + len) =~= y.subrange(k + 6, k + 6 + len));
            }
        }
    }
    lemma_scan_all_shift(z, n, cap);
}

/// More bytes behind a step that yields do not change that step.
pub proof fn lemma_scan_extend(d: Seq<u8>, e: Seq<u8>, cap: nat)
    requires
        scan(d, cap).0 is Some,
    ensures
        scan(d + e, cap) == scan(d, cap),
    decreases d.len(),
{
    let z = d + e;
    lemma_find_spec(d, SYNC_CHAR_1);
    if let Some(s) = find_spec(d, SYNC_CHAR_1) {
        assert(is_first_index(z, SYNC_CHAR_1, s));
        lemma_find_first(z, SYNC_CHAR_1, s);
        if s + 2 <= d.len() {
            let d2 = d.subrange(s + 2, d.len() as int);
            assert(z.subrange(s + 2, z.len() as int) =~= d2 + e);
            if d[s + 1] != SYNC_CHAR_2 {
                lemma_scan_extend(d2, e, cap);
            } else if s + 6 <= d.len() {
                let len = le_u16_spec(d[s + 4], d[s + 5]);
                if len + 8 <= cap && len > MAX_PAYLOAD_LEN {
                    lemma_scan_extend(d2, e, cap);
                } else if s + len + 8 <= d.len() {
                    assert(z.subrange(s + 2, s + 6 + len) =~= d.subrange(s + 2, s + 6 + len));
                    assert(z.subrange(s + 6, s + 6 + len) =~= d.subrange(s + 6, s + 6 + len));
                }
            }
        }
    }
}

/// A step over a false lead yields what the scan from after its sync pair yields.
proof fn lemma_scan_all_false_lead(z: Seq<u8>, s: int, cap: nat)
    requires
        find_spec(z, SYNC_CHAR_1) == Some(s),
        s + 2 <= z.len(),
        z[s + 1] != SYNC_CHAR_2 || (s + 6 <= z.len() && le_u16_spec(z[s + 4], z[s + 5]) + 8 <= cap
            && le_u16_spec(z[s + 4], z[s + 5]) > MAX_PAYLOAD_LEN),
    ensures
        scan_all(z, cap).0 == scan_all(z.subrange(s + 2, z.len() as int), cap).0,
{
    lemma_find_spec(z, SYNC_CHAR_1);
    lemma_scan_all_shift(z, s + 2, cap);
}

/// Where a step ends the sequence, appending bytes lets the scan go on from
/// where the cursor stopped.
proof fn lemma_scan_all_resume(d: Seq<u8>, e: Seq<u8>, cap: nat)
    requires
        scan(d, cap).0 is None,
    ensures
        scan_all(d + e, cap).0 == scan_all(
            d.subrange(scan(d, cap).1 as int, d.len() as int) + e,
            cap,
        ).0,
    decreases d.len(),
{
    let z = d + e;
    lemma_find_spec(d, SYNC_CHAR_1);
    lemma_scan_bounds(d, cap);
    assert(d.subrange(0, d.len() as int) =~= d);
    if let Some(s) = find_spec(d, SYNC_CHAR_1) {
        assert(is_first_index(z, SYNC_CHAR_1, s));
        lemma_find_first(z, SYNC_CHAR_1, s);
        if s + 2 <= d.len() {
            let d2 = d.subrange(s + 2, d.len() as int);
            assert(z.subrange(s + 2, z.len() as int) =~= d2 + e);
            let fresh = d[s + 1] != SYNC_CHAR_2 || (s + 6 <= d.len() && le_u16_spec(d[s + 4], d[s + 5]) + 8 <= cap
                && le_u16_spec(d[s + 4], d[s + 5]) > MAX_PAYLOAD_LEN);
            if fresh {
                lemma_scan_all_false_lead(z, s, cap);
                lemma_scan_all_resume(d2, e, cap);
                let a2 = scan(d2, cap).1 as int;
                lemma_scan_bounds(d2, cap);
                assert(d2.subrange(a2, d2.len() as int) =~= d.subrange(s + 2 + a2, d.len() as int));
            } else {
                let x = d.subrange(0, s);
                assert(z =~= x + (d.subrange(s, d.len() as int) + e));
                lemma_scan_skip_unsynced(x, d.subrange(s, d.len() as int) + e, cap);
            }
        }
    }
}

/// Scanning `d` followed by `e` yields what scanning `d` alone yields, then
/// what scanning on from its stopping point into `e` yields.
pub proof fn lemma_scan_all_split(d: Seq<u8>, e: Seq<u8>, cap: nat)
    ensures
        scan_all(d + e, cap).0 == scan_all(d, cap).0 + scan_all(
            d.subrange(scan_all(d, cap).1 as int, d.len() as int) + e,
            cap,
        ).0,
    decreases d.len(),
{
    lemma_scan_bounds(d, cap);
    let step = scan(d, cap);
    if step.0 is Some {
        let a = step.1 as int;
        let d2 = d.subrange(a, d.len() as int);
        lemma_scan_extend(d, e, cap);
        assert((d + e).subrange(a, (d + e).len() as int) =~= d2 + e);
        lemma_scan_all_split(d2, e, cap);
        lemma_scan_all_bounds(d2, cap);
        let a2 = scan_all(d2, cap).1 as int;
        assert(d2.subrange(a2, d2.len() as int) =~= d.subrange(a + a2, d.len() as int));
        assert(scan_all(d + e, cap).0 =~= scan_all(d, cap).0 + scan_all(
            d.subrange(scan_all(d, cap).1 as int, d.len() as int) + e,
            cap,
        ).0);
    } else {
        lemma_scan_all_resume(d, e, cap);
        assert(scan_all(d, cap).0 =~= Seq::<Result<(u8, u8, Seq<u8>), ParserError>>::empty());
        assert(scan_all(d + e, cap).0 =~= scan_all(d, cap).0 + scan_all(
            d.subrange(scan_all(d, cap).1 as int, d.len() as int) + e,
            cap,
        ).0);
    }
}

/// Scanning from the first sync byte on yields what scanning everything does.
proof fn lemma_scan_from_first_sync(z: Seq<u8>, e: Seq<u8>, cap: nat)
    ensures
        scan_all(z + e, cap).0 == scan_all(from_first_sync(z) + e, cap).0,
{
    lemma_find_spec(z, SYNC_CHAR_1);
    match find_spec(z, SYNC_CHAR_1) {
        Some(i) => {
            let x = z.subrange(0, i);
            assert(z + e =~= x + (z.subrange(i, z.len() as int) + e));
            lemma_scan_skip_unsynced(x, z.subrange(i, z.len() as int) + e, cap);
        },
        None => {
            assert(from_first_sync(z) + e =~= e);
            lemma_scan_skip_unsynced(z, e, cap);
        },
    }
}

/// Without truncation, a feed call scans the retained bytes and the input
/// from their first sync byte on.
proof fn lemma_consume_from_first_sync(p: Seq<u8>, c: Seq<u8>, cap: nat)
    requires
        p.len() + c.len() <= cap,
    ensures
        ({
            let r = consume_spec(p, c, cap);
            retained(r.0, r.1) == from_first_sync(p + c)
        }),
{
    let z = p + c;
    lemma_find_spec(p, SYNC_CHAR_1);
    match find_spec(p, SYNC_CHAR_1) {
        Some(i) => {
            assert(is_first_index(z, SYNC_CHAR_1, i));
            lemma_find_first(z, SYNC_CHAR_1, i);
        },
        None => {
            lemma_find_after_unsynced(p, c);
            if let Some(k) = find_spec(c, SYNC_CHAR_1) {
                lemma_find_spec(c, SYNC_CHAR_1);
                let rest = c.subrange(k, c.len() as int);
                assert(append_truncated(Seq::empty(), rest, cap) =~= rest);
                assert(retained(rest, 0) =~= rest);
                assert(z.subrange(p.len() + k, z.len() as int) =~= rest);
            } else {
                assert(retained(Seq::<u8>::empty(), 0) =~= Seq::<u8>::empty());
            }
        },
    }
}

/// Without truncation, splitting one feed call's input in two changes
/// neither the results nor their order.
pub proof fn lemma_feed_split(p: Seq<u8>, c1: Seq<u8>, c2: Seq<u8>, cap: nat)
    requires
        p.len() + c1.len() + c2.len() <= cap,
    ensures
        feed(p, c1 + c2, cap).0 == feed(p, c1, cap).0 + feed(feed(p, c1, cap).1, c2, cap).0,
        feed(p, c1, cap).1.len() <= p.len() + c1.len(),
{
    let e = Seq::<u8>::empty();
    let d1 = from_first_sync(p + c1);
    let d = from_first_sync(p + (c1 + c2));
    lemma_consume_from_first_sync(p, c1, cap);
    lemma_consume_from_first_sync(p, c1 + c2, cap);
    lemma_scan_all_bounds(d1, cap);
    lemma_find_spec(p + c1, SYNC_CHAR_1);
    let q = feed(p, c1, cap).1;
    assert(q == retained(d1, scan_all(d1, cap).1));
    assert(q.len() <= p.len() + c1.len());
    lemma_consume_from_first_sync(q, c2, cap);
    // the whole input, scanned at once
    assert(d + e =~= d);
    assert(p + (c1 + c2) + e =~= p + (c1 + c2));
    lemma_scan_from_first_sync(p + (c1 + c2), e, cap);
    assert(p + (c1 + c2) =~= (p + c1) + c2);
    lemma_scan_from_first_sync(p + c1, c2, cap);
    lemma_scan_all_split(d1, c2, cap);
    // the second call on its own
    let dq = from_first_sync(q + c2);
    assert(dq + e =~= dq);
    assert(q + c2 + e =~= q + c2);
    lemma_scan_from_first_sync(q + c2, e, cap);
}

/// Feeding input in chunks of any size, each iterator drained, yields the
/// same results in the same order as feeding it all in one call, as long as
/// the buffer never has to truncate.
pub proof fn law_chunking_invariance(p: Seq<u8>, chunks: Seq<Seq<u8>>, cap: nat)
    requires
        chunks.len() > 0,
        p.len() + concat_all(chunks).len() <= cap,
    ensures
        feed_each(p, chunks, cap).0 == feed(p, concat_all(chunks), cap).0,
    decreases chunks.len(),
{
    let c = chunks[0];
    let cs = chunks.drop_first();
    let q = feed(p, c, cap).1;
    if cs.len() == 0 {
        assert(concat_all(cs) =~= Seq::<u8>::empty());
        assert(c + concat_all(cs) =~= c);
        assert(feed_each(q, cs, cap).0 =~= Seq::<Result<(u8, u8, Seq<u8>), ParserError>>::empty());
        assert(feed_each(p, chunks, cap).0 =~= feed(p, c, cap).0);
    } else {
        lemma_feed_split(p, c, concat_all(cs), cap);
        law_chunking_invariance(q, cs, cap);
        assert(feed_each(p, chunks, cap).0 =~= feed(p, c, cap).0 + feed_each(q, cs, cap).0);
    }
}

/// The sum of the bytes of `s`.
pub open spec fn byte_sum(s: Seq<u8>) -> nat
    decreases s.len(),
{
    if s.len() == 0 {
        0
    } else {
        byte_sum(s.drop_last()) + s.last() as nat
    }
}

/// The first checksum byte is the byte sum modulo 256.
pub proof fn lemma_checksum_a_is_sum(s: Seq<u8>)
    ensures
        checksum_spec(s).0 == byte_sum(s) % 256,
    decreases s.len(),
{
    if s.len() > 0 {
        lemma_checksum_a_is_sum(s.drop_last());
        let x = byte_sum(s.drop_last());
        let y = s.last() as nat;
        assert(((x % 256) + y) % 256 == (x + y) % 256) by {
            vstd::arithmetic::div_mod::lemma_add_mod_noop(x as int, y as int, 256);
            vstd::arithmetic::div_mod::lemma_small_mod(y, 256);
        }
    }
}

proof fn lemma_byte_sum_update(s: Seq<u8>, j: int, v: u8)
    requires
        0 <= j < s.len(),
    ensures
        byte_sum(s.update(j, v)) + s[j] == byte_sum(s) + v,
    decreases s.len(),
{
    let t = s.update(j, v);
    if j == s.len() - 1 {
        assert(t.drop_last() =~= s.drop_last());
    } else {
        assert(t.drop_last() =~= s.drop_last().update(j, v));
        lemma_byte_sum_update(s.drop_last(), j, v);
    }
}

/// Changing any one byte of the checksummed part changes the checksum.
pub proof fn law_single_byte_changes_checksum(s: Seq<u8>, j: int, v: u8)
    requires
        0 <= j < s.len(),
        s[j] != v,
    ensures
        checksum_spec(s.update(j, v)) != checksum_spec(s),
{
    lemma_checksum_a_is_sum(s);
    lemma_checksum_a_is_sum(s.update(j, v));
    lemma_byte_sum_update(s, j, v);
}

/// A well-formed frame with one byte other than a sync or length byte
/// changed reads as a frame of the same length whose checksum bytes do not
/// match its contents.
proof fn lemma_corrupted_frame_form(cls: u8, id: u8, payload: Seq<u8>, k: int, v: u8) -> (r: (
    u8,
    u8,
    Seq<u8>,
    u8,
    u8,
))
    requires
        k == 2 || k == 3 || 6 <= k < payload.len() + 8,
        payload.len() < 65536,
        frame_bytes(cls, id, payload)[k] != v,
    ensures
        frame_bytes(cls, id, payload).update(k, v) == frame_with_checksum(r.0, r.1, r.2, r.3, r.4),
        (r.3, r.4) != checksum_spec(frame_body(r.0, r.1, r.2)),
        r.2.len() == payload.len(),
{
    let body = frame_body(cls, id, payload);
    let ck = checksum_spec(body);
    let bad = frame_bytes(cls, id, payload).update(k, v);
    let n = payload.len() as int;
    if k >= n + 6 {
        let a = bad[n + 6];
        let b = bad[n + 7];
        assert(bad =~= frame_with_checksum(cls, id, payload, a, b));
        (cls, id, payload, a, b)
    } else {
        let body2 = body.update(k - 2, v);
        let p2 = body2.subrange(4, body2.len() as int);
        assert(frame_body(body2[0], body2[1], p2) =~= body2);
        assert(bad =~= frame_with_checksum(body2[0], body2[1], p2, ck.0, ck.1));
        law_single_byte_changes_checksum(body, k - 2, v);
        (body2[0], body2[1], p2, ck.0, ck.1)
    }
}

/// A well-formed frame with one byte other than a sync or length byte
/// corrupted yields exactly one checksum error; with no sync byte after its
/// sync pair, a well-formed frame right behind it is decoded in the same call.
#[verifier::rlimit(40)]
pub proof fn law_corrupted_byte_recovers(
    cls: u8,
    id: u8,
    payload: Seq<u8>,
    k: int,
    v: u8,
    cls2: u8,
    id2: u8,
    payload2: Seq<u8>,
    cap: nat,
)
    requires
        k == 2 || k == 3 || 6 <= k < payload.len() + 8,
        frame_bytes(cls, id, payload)[k] != v,
        unsynced(frame_bytes(cls, id, payload).update(k, v).subrange(2, payload.len() + 8 as int)),
        fits(payload, cap),
        fits(payload2, cap),
        payload.len() + payload2.len() + 16 <= cap,
    ensures
        ({
            let bad = frame_bytes(cls, id, payload).update(k, v);
            let r = feed(Seq::empty(), bad + frame_bytes(cls2, id2, payload2), cap);
            &&& r.0.len() == 2
            &&& r.0[0] matches Err(ParserError::InvalidChecksum { .. })
            &&& r.0[1] == Ok::<(u8, u8, Seq<u8>), ParserError>((cls2, id2, payload2))
            &&& r.1.len() == 0
        }),
{
    let bad = frame_bytes(cls, id, payload).update(k, v);
    let (c1, i1, p1, a, b) = lemma_corrupted_frame_form(cls, id, payload, k, v);
    assert(frame_body(c1, i1, p1) + seq![a, b] =~= bad.subrange(2, payload.len() + 8 as int));
    assert(unsynced(frame_body(c1, i1, p1) + seq![a, b]));
    assert(fits(p1, cap));
    law_bad_checksum_recovers(c1, i1, p1, a, b, cls2, id2, payload2, cap);
    assert(bad == frame_with_checksum(c1, i1, p1, a, b));
}

} // verus!
