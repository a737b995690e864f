//! Byte storage for the parser: a capability trait with an unbounded
//! (`Vec<u8>`) and a fixed-capacity implementation.

use vstd::prelude::*;

verus! {

/// Index of the first occurrence of `v` in `s`, if any.
pub open spec fn find_spec(s: Seq<u8>, v: u8) -> Option<int>
    decreases s.len(),
{
    if s.len() == 0 {
        None
    } else if s[0] == v {
        Some(0)
    } else {
        match find_spec(s.drop_first(), v) {
            Some(i) => Some(i + 1),
            None => None,
        }
    }
}

/// `i` is the position of the first `v` in `s`.
pub open spec fn is_first_index(s: Seq<u8>, v: u8, i: int) -> bool {
    &&& 0 <= i < s.len()
    &&& s[i] == v
    &&& forall|j: int| 0 <= j < i ==> s[j] != v
}

/// `find_spec` agrees with the direct reading of "first occurrence".
pub proof fn lemma_find_spec(s: Seq<u8>, v: u8)
    ensures
        match find_spec(s, v) {
            Some(i) => is_first_index(s, v, i),
            None => forall|j: int| 0 <= j < s.len() ==> s[j] != v,
        },
    decreases s.len(),
{
    if s.len() > 0 && s[0] != v {
        lemma_find_spec(s.drop_first(), v);
        let t = s.drop_first();
        assert forall|j: int| 1 <= j < s.len() implies s[j] == t[j - 1] by {}
    }
}

/// What `a` becomes when as much of `b` as fits under `cap` is appended.
pub open spec fn append_truncated(a: Seq<u8>, b: Seq<u8>, cap: nat) -> Seq<u8> {
    if a.len() + b.len() <= cap {
        a + b
    } else if a.len() <= cap {
        a + b.take(cap - a.len())
    } else {
        a
    }
}

/// What `s` becomes when its first `count` bytes are removed.
pub open spec fn drained(s: Seq<u8>, count: nat) -> Seq<u8> {
    if count >= s.len() {
        Seq::empty()
    } else {
        s.subrange(count as int, s.len() as int)
    }
}

/// First index of `value` in `s`.
pub fn find_byte(s: &[u8], value: u8) -> (r: Option<usize>)
    ensures
        match r {
            Some(i) => find_spec(s@, value) == Some(i as int),
            None => find_spec(s@, value) == None::<int>,
        },
{
    proof {
        lemma_find_spec(s@, value);
    }
    let mut i: usize = 0;
    while i < s.len()
        invariant
            i <= s@.len(),
            forall|j: int| 0 <= j < i ==> s@[j] != value,
            match find_spec(s@, value) {
                Some(k) => is_first_index(s@, value, k),
                None => forall|j: int| 0 <= j < s@.len() ==> s@[j] != value,
            },
        decreases s@.len() - i,
    {
        if s[i] == value {
            return Some(i);
        }
        i = i + 1;
    }
    None
}

/// Storage for the bytes a parser has received but not yet discarded.
///
/// The logical content is `content()`, always at most `capacity()` long.
pub trait UnderlyingBuffer {
    spec fn content(&self) -> Seq<u8>;

    /// The most bytes this buffer can ever hold.
    spec fn capacity(&self) -> nat;

    spec fn wf(&self) -> bool;

    proof fn lemma_bounded(&self)
        requires
            self.wf(),
        ensures
            self.content().len() <= self.capacity() <= usize::MAX,
    ;

    fn clear(&mut self)
        requires
            old(self).wf(),
        ensures
            final(self).wf(),
            final(self).capacity() == old(self).capacity(),
            final(self).content() == Seq::<u8>::empty(),
    ;

    fn len(&self) -> (r: usize)
        requires
            self.wf(),
        ensures
            r == self.content().len(),
    ;

    fn max_capacity(&self) -> (r: usize)
        requires
            self.wf(),
        ensures
            r == self.capacity(),
    ;

    /// Appends as much of `other` as fits and returns the number of bytes
    /// that did not.
    fn extend_from_slice(&mut self, other: &[u8]) -> (r: usize)
        requires
            old(self).wf(),
        ensures
            final(self).wf(),
            final(self).capacity() == old(self).capacity(),
            final(self).content() == append_truncated(
                old(self).content(),
                other@,
                old(self).capacity(),
            ),
            r + final(self).content().len() == old(self).content().len() + other@.len(),
    ;

    /// Removes the first `count` bytes, keeping the rest in order.
    fn drain(&mut self, count: usize)
        requires
            old(self).wf(),
        ensures
            final(self).wf(),
            final(self).capacity() == old(self).capacity(),
            final(self).content() == drained(old(self).content(), count as nat),
    ;

    /// Index of the first byte equal to `value`.
    fn find(&self, value: u8) -> (r: Option<usize>)
        requires
            self.wf(),
        ensures
            match r {
                Some(i) => find_spec(self.content(), value) == Some(i as int),
                None => find_spec(self.content(), value) == None::<int>,
            },
    ;

    /// The bytes in `[range.start, range.end)`, which must lie in the content.
    fn index(&self, range: core::ops::Range<usize>) -> (r: &[u8])
        requires
            self.wf(),
            range.start <= range.end <= self.content().len(),
        ensures
            r@ == self.content().subrange(range.start as int, range.end as int),
    ;

    fn is_empty(&self) -> (r: bool)
        requires
            self.wf(),
        ensures
            r == (self.content().len() == 0),
    {
        self.len() == 0
    }
}

impl UnderlyingBuffer for Vec<u8> {
    open spec fn content(&self) -> Seq<u8> {
        self@
    }

    open spec fn capacity(&self) -> nat {
        usize::MAX as nat
    }

    open spec fn wf(&self) -> bool {
        true
    }

    proof fn lemma_bounded(&self) {
        vstd::std_specs::vec::axiom_spec_len(self);
    }

    fn clear(&mut self) {
        Vec::clear(self);
    }

    fn len(&self) -> (r: usize) {
        Vec::len(self)
    }

    fn max_capacity(&self) -> (r: usize) {
        usize::MAX
    }

    fn extend_from_slice(&mut self, other: &[u8]) -> (r: usize) {
        Vec::extend_from_slice(self, other);
        let _n = Vec::len(self);
        proof {
            assert(self@ =~= old(self)@ + other@);
        }
        0
    }

    fn drain(&mut self, count: usize) {
        if count >= Vec::len(self) {
            Vec::clear(self);
        } else {
            let rest = self.split_off(count);
            *self = rest;
        }
    }

    fn find(&self, value: u8) -> (r: Option<usize>) {
        find_byte(self.as_slice(), value)
    }

    fn index(&self, range: core::ops::Range<usize>) -> (r: &[u8]) {
        &self.as_slice()[range]
    }
}

/// A buffer over a caller-owned region of fixed size: appending truncates,
/// draining shifts the kept bytes to the front.
pub struct FixedLinearBuffer<'a> {
    buffer: &'a mut [u8],
    len: usize,
}

impl<'a> FixedLinearBuffer<'a> {
    /// The whole backing region, including bytes past the content.
    pub closed spec fn region(&self) -> Seq<u8> {
        self.buffer@
    }

    /// An empty buffer over `buf`, whose size becomes its capacity.
    pub fn new(buf: &'a mut [u8]) -> (r: Self)
        ensures
            r.wf(),
            r.content() == Seq::<u8>::empty(),
            r.capacity() == old(buf)@.len(),
    {
        FixedLinearBuffer { buffer: buf, len: 0 }
    }
}

impl<'a> UnderlyingBuffer for FixedLinearBuffer<'a> {
    closed spec fn content(&self) -> Seq<u8> {
        self.buffer@.subrange(0, self.len as int)
    }

    closed spec fn capacity(&self) -> nat {
        self.buffer@.len()
    }

    closed spec fn wf(&self) -> bool {
        self.len <= self.buffer@.len()
    }

    proof fn lemma_bounded(&self) {
        vstd::slice::axiom_spec_len(&*self.buffer);
    }

    fn clear(&mut self) {
        self.len = 0;
        proof {
            assert(self.content() =~= Seq::<u8>::empty());
        }
    }

    fn len(&self) -> (r: usize) {
        self.len
    }

    fn max_capacity(&self) -> (r: usize) {
        self.buffer.len()
    }

    fn extend_from_slice(&mut self, other: &[u8]) -> (r: usize) {
        let room = self.buffer.len() - self.len;
        let to_copy = if other.len() < room {
            other.len()
        } else {
            room
        };
        let uncopyable = other.len() - to_copy;
        let start = self.len;
        let mut idx: usize = 0;
        while idx < to_copy
            invariant
                start == old(self).len,
                start + to_copy <= self.buffer@.len() <= usize::MAX,
                to_copy <= other@.len(),
                idx <= to_copy,
                self.len == start,
                self.buffer@.len() == old(self).buffer@.len(),
                forall|j: int| 0 <= j < start ==> self.buffer@[j] == old(self).buffer@[j],
                forall|j: int| 0 <= j < idx ==> self.buffer@[start + j] == other@[j],
            decreases to_copy - idx,
        {
            self.buffer[start + idx] = other[idx];
            idx = idx + 1;
        }
        self.len = start + to_copy;
        proof {
            let o = old(self).content();
            let cap = old(self).capacity();
            if o.len() + other@.len() <= cap {
                assert(self.content() =~= o + other@);
            } else {
                assert(self.content() =~= o + other@.take(cap - o.len()));
            }
        }
        uncopyable
    }

    fn drain(&mut self, count: usize) {
        if count >= self.len {
            self.len = 0;
            proof {
                assert(self.content() =~= Seq::<u8>::empty());
            }
            return;
        }
        let new_size = self.len - count;
        let mut idx: usize = 0;
        while idx < new_size
            invariant
                new_size + count == old(self).len,
                old(self).len <= old(self).buffer@.len(),
                self.len == old(self).len,
                idx <= new_size,
                self.buffer@.len() == old(self).buffer@.len(),
                forall|j: int| 0 <= j < idx ==> self.buffer@[j] == old(self).buffer@[j + count],
                forall|j: int| idx <= j < self.buffer@.len() ==> self.buffer@[j] == old(self).buffer@[j],
            decreases new_size - idx,
        {
            let b = self.buffer[idx + count];
            self.buffer[idx] = b;
            idx = idx + 1;
        }
        self.len = new_size;
        proof {
            assert(self.content() =~= old(self).content().subrange(count as int, old(self).len as int));
        }
    }

    fn find(&self, value: u8) -> (r: Option<usize>) {
        find_byte(&self.buffer[0..self.len], value)
    }

    fn index(&self, range: core::ops::Range<usize>) -> (r: &[u8]) {
        &self.buffer[range]
    }
}

} // verus!
