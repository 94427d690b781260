//! The ring buffer: write path, linearization and extraction.

use vstd::prelude::*;

verus! {

use vstd::slice::slice_subrange;
use vstd::string::StringSliceAdditionalSpecFns;
use vstd::utf8::{valid_utf8, encode_utf8, decode_utf8};
use crate::tail::{
    is_lead_byte, first_lead, tail_valid, last_window, extracted_text, lemma_first_lead_at,
    lemma_tail_valid_append, lemma_tail_valid_window, lemma_last_window_append,
};

broadcast use vstd::utf8::encode_utf8_valid_utf8, vstd::utf8::encode_utf8_decode_utf8;

/// A fixed-capacity circular buffer that retains the most recent bytes of a
/// stream of UTF-8 log text.
///
/// The storage never grows: once it is full, every written byte overwrites the
/// oldest byte still held. Extraction linearizes the storage in place and
/// returns the readable text, skipping the orphaned continuation bytes of a
/// character whose beginning was overwritten.
pub struct LogBuffer {
    buffer: Vec<u8>,
    /// Offset of the next byte to be written.
    end: usize,
    /// Number of valid bytes, capped at the capacity. The oldest valid byte
    /// sits `count` positions behind `end`, wrapping around; deriving it this
    /// way (rather than tracking a second cursor) keeps the accounting right
    /// however far the writes run past the capacity.
    count: usize,
}

impl LogBuffer {
    /// Length of the backing storage.
    pub closed spec fn cap(self) -> nat {
        self.buffer@.len()
    }

    /// The backing storage as it currently lies.
    pub closed spec fn storage(self) -> Seq<u8> {
        self.buffer@
    }

    /// The valid bytes, oldest to newest.
    pub closed spec fn contents(self) -> Seq<u8> {
        let cap = self.buffer@.len() as int;
        let first = self.end - self.count;
        Seq::new(
            self.count as nat,
            |i: int|
                if first + i >= 0 {
                    self.buffer@[first + i]
                } else {
                    self.buffer@[first + i + cap]
                },
        )
    }

    /// The cursors lie within the storage.
    pub closed spec fn cursors_ok(self) -> bool {
        &&& self.count <= self.cap()
        &&& if self.cap() == 0 {
            self.end == 0
        } else {
            self.end < self.cap()
        }
    }

    /// Well-formed: cursors in range, and the valid bytes are the tail of a
    /// stream of UTF-8 text (every constructor and method maintains this).
    pub closed spec fn wf(self) -> bool {
        &&& self.cursors_ok()
        &&& tail_valid(self.contents())
    }

    /// Creates a buffer over the given storage, zero-filled and empty. The
    /// storage's length is the buffer's capacity for its whole lifetime.
    pub fn new(storage: Vec<u8>) -> (r: LogBuffer)
        ensures
            r.wf(),
            r.cap() == storage@.len(),
            r.contents() == Seq::<u8>::empty(),
            r.storage() == Seq::new(storage@.len(), |i: int| 0u8),
    {
        let mut log_buffer = LogBuffer { buffer: storage, end: 0, count: 0 };
        log_buffer.clear();
        log_buffer
    }

    /// Zero-fills the storage and resets the buffer to empty.
    pub fn clear(&mut self)
        ensures
            final(self).wf(),
            final(self).cap() == old(self).cap(),
            final(self).contents() == Seq::<u8>::empty(),
            final(self).storage() == Seq::new(old(self).cap(), |i: int| 0u8),
    {
        self.end = 0;
        self.count = 0;
        let n = self.buffer.len();
        let mut i: usize = 0;
        while i < n
            invariant
                0 <= i <= n,
                n == self.buffer@.len(),
                self.end == 0,
                self.count == 0,
                forall|j: int| 0 <= j < i ==> self.buffer@[j] == 0u8,
            decreases n - i,
        {
            self.buffer[i] = 0u8;
            i = i + 1;
        }
        proof {
            assert(self.contents() =~= Seq::<u8>::empty());
            assert(self.contents().skip(first_lead(self.contents())) =~= Seq::<u8>::empty());
            assert(self.storage() =~= Seq::new(old(self).cap(), |j: int| 0u8));
        }
    }

    /// True when no valid bytes are held.
    pub fn is_empty(&self) -> (r: bool)
        ensures
            r == (self.contents().len() == 0),
    {
        self.count == 0
    }

    /// Number of valid bytes currently held.
    pub fn len(&self) -> (r: usize)
        ensures
            r == self.contents().len(),
    {
        self.count
    }

    /// True when the valid bytes fill the whole storage.
    pub fn is_full(&self) -> (r: bool)
        ensures
            r == (self.contents().len() == self.cap()),
    {
        self.count == self.buffer.len()
    }

    /// Length of the backing storage.
    pub fn capacity(&self) -> (r: usize)
        ensures
            r == self.cap(),
    {
        self.buffer.len()
    }

    /// Writes one byte at `end`, overwriting whatever was stored there, and
    /// advances the cursor; once the storage is full the oldest byte is the
    /// one overwritten, so the valid bytes are the last `cap()` of the stream.
    fn push_byte(&mut self, b: u8)
        requires
            old(self).cursors_ok(),
            old(self).cap() > 0,
        ensures
            final(self).cursors_ok(),
            final(self).cap() == old(self).cap(),
            final(self).contents() == last_window(
                old(self).contents() + seq![b],
                old(self).cap(),
            ),
    {
        let cap = self.buffer.len();
        self.buffer[self.end] = b;
        self.end = if self.end + 1 == cap {
            0
        } else {
            self.end + 1
        };
        if self.count < cap {
            self.count = self.count + 1;
        }
        proof {
            let target = last_window(old(self).contents() + seq![b], old(self).cap());
            let oe = old(self).end as int;
            let oc = old(self).count as int;
            let c = cap as int;
            assert forall|i: int| 0 <= i < self.count implies self.contents()[i] == target[i] by {
                if i == self.count - 1 {
                    if self.end == 0 {
                        assert(self.end - self.count + i + c == oe);
                    } else {
                        assert(self.end - self.count + i == oe);
                    }
                    assert(self.contents()[i] == b);
                } else {
                    let shift: int = if oc < c {
                        0int
                    } else {
                        1int
                    };
                    assert(target[i] == old(self).contents()[i + shift]);
                    let new_raw = self.end - self.count + i;
                    let pos: int = if new_raw >= 0 {
                        new_raw
                    } else {
                        new_raw + c
                    };
                    let old_raw = oe - oc + i + shift;
                    assert(self.contents()[i] == self.buffer@[pos]);
                    if old_raw >= 0 {
                        assert(pos == old_raw);
                        assert(old(self).contents()[i + shift] == old(self).buffer@[pos]);
                    } else {
                        assert(pos == old_raw + c);
                        assert(old(self).contents()[i + shift] == old(self).buffer@[pos]);
                    }
                    assert(pos != oe);
                    assert(self.buffer@[pos] == old(self).buffer@[pos]);
                }
            }
            assert(self.contents() =~= target);
        }
    }

    /// Appends the text's UTF-8 bytes, one by one, overwriting the oldest
    /// bytes once the capacity is exhausted. Writing more than the capacity is
    /// policy, not an error: the buffer retains the most recent `cap()` bytes
    /// of everything written since the last `clear`. This never fails.
    pub fn write_str(&mut self, st: &str)
        requires
            old(self).wf(),
        ensures
            final(self).wf(),
            final(self).cap() == old(self).cap(),
            final(self).contents() == last_window(
                old(self).contents() + encode_utf8(st@),
                old(self).cap(),
            ),
    {
        let bytes: &[u8] = st.as_bytes();
        proof {
            assert(valid_utf8(bytes@));
        }
        if self.buffer.len() == 0 {
            proof {
                assert(self.contents() =~= Seq::<u8>::empty());
                assert(last_window(old(self).contents() + encode_utf8(st@), old(self).cap())
                    =~= Seq::<u8>::empty());
                assert(self.contents().skip(first_lead(self.contents())) =~= Seq::<u8>::empty());
            }
            return;
        }
        let n = bytes.len();
        let mut i: usize = 0;
        while i < n
            invariant
                0 <= i <= n,
                n == bytes@.len(),
                bytes@ == encode_utf8(st@),
                self.cursors_ok(),
                self.cap() == old(self).cap(),
                self.cap() > 0,
                self.contents() == last_window(
                    old(self).contents() + bytes@.take(i as int),
                    old(self).cap(),
                ),
            decreases n - i,
        {
            proof {
                lemma_last_window_append(
                    old(self).contents() + bytes@.take(i as int),
                    seq![bytes@[i as int]],
                    old(self).cap(),
                );
                assert((old(self).contents() + bytes@.take(i as int)) + seq![bytes@[i as int]]
                    =~= old(self).contents() + bytes@.take(i as int + 1));
            }
            let b = bytes[i];
            self.push_byte(b);
            i = i + 1;
        }
        proof {
            assert(bytes@.take(n as int) =~= bytes@);
            lemma_tail_valid_append(old(self).contents(), bytes@);
            lemma_tail_valid_window(old(self).contents() + bytes@, old(self).cap());
        }
    }

    /// Linearizes the storage in place so the valid bytes start at offset 0,
    /// then returns the readable text: the valid bytes from the first UTF-8
    /// lead byte onward, decoded. Orphaned continuation bytes of a character
    /// whose beginning was overwritten are skipped; if no lead byte is left,
    /// the result is empty. The valid bytes themselves are unchanged, so a
    /// second extraction without intervening writes returns the same text.
    pub fn extract(&mut self) -> (r: &str)
        requires
            old(self).wf(),
        ensures
            final(self).wf(),
            final(self).cap() == old(self).cap(),
            final(self).contents() == old(self).contents(),
            final(self).storage().take(final(self).contents().len() as int) == final(
                self).contents(),
            r@ == extracted_text(old(self).contents()),
    {
        let cap = self.buffer.len();
        // offset of the oldest valid byte
        let first: usize = if self.count <= self.end {
            self.end - self.count
        } else {
            cap - (self.count - self.end)
        };
        rotate_left(&mut self.buffer, first);
        self.end = if self.count == cap {
            0
        } else {
            self.count
        };
        proof {
            let oc = old(self).contents();
            let cp = cap as int;
            assert forall|i: int| 0 <= i < self.count implies self.contents()[i] == oc[i] by {
                if old(self).count <= old(self).end {
                    assert(oc[i] == old(self).buffer@[old(self).end - old(self).count + i]);
                } else {
                    if i < old(self).count - old(self).end {
                        assert(oc[i] == old(self).buffer@[
                            old(self).end - old(self).count + i + cp
                        ]);
                    } else {
                        assert(oc[i] == old(self).buffer@[old(self).end - old(self).count + i]);
                    }
                }
            }
            assert(self.contents() =~= oc);
            assert(self.contents() =~= self.buffer@.take(self.count as int));
        }
        let count = self.count;
        let mut i: usize = 0;
        while i < count
            invariant_except_break
                0 <= i <= count,
                count <= self.buffer@.len(),
                forall|j: int| 0 <= j < i ==> !is_lead_byte(#[trigger] self.buffer@[j]),
            ensures
                0 <= i <= count,
                forall|j: int| 0 <= j < i ==> !is_lead_byte(#[trigger] self.buffer@[j]),
                i < count ==> is_lead_byte(self.buffer@[i as int]),
            decreases count - i,
        {
            if byte_is_lead(self.buffer[i]) {
                break;
            }
            i = i + 1;
        }
        proof {
            let c = self.contents();
            assert forall|j: int| 0 <= j < i implies !is_lead_byte(#[trigger] c[j]) by {
                assert(c[j] == self.buffer@[j]);
            }
            if (i as int) < self.count {
                assert(c[i as int] == self.buffer@[i as int]);
            }
            lemma_first_lead_at(c, i as int);
            assert(valid_utf8(c.skip(i as int)));
            assert(self.buffer@.subrange(i as int, self.count as int) =~= c.skip(i as int));
        }
        let region: &[u8] = slice_subrange(self.buffer.as_slice(), i, count);
        let text = bytes_as_str(region);
        proof {
            assert(decode_utf8(encode_utf8(text@)) == text@);
        }
        text
    }
}

/// True when the byte can begin a UTF-8 character encoding.
fn byte_is_lead(b: u8) -> (r: bool)
    ensures
        r == is_lead_byte(b),
{
    b < 0x80 || (0xc0 <= b && b < 0xf8)
}

/// Rotates the bytes left by `k` positions: the byte at offset `k` moves to
/// offset 0. Uses a bounded scratch copy of the storage, traded for the
/// in-place case analysis.
fn rotate_left(v: &mut Vec<u8>, k: usize)
    requires
        k <= old(v)@.len(),
    ensures
        final(v)@ == old(v)@.skip(k as int) + old(v)@.take(k as int),
{
    let n = v.len();
    let mut rotated: Vec<u8> = Vec::new();
    let mut i: usize = 0;
    while i < n
        invariant
            0 <= i <= n,
            k <= n,
            n == v@.len(),
            v@ == old(v)@,
            rotated@.len() == i,
            forall|j: int|
                0 <= j < i ==> rotated@[j] == (if j + k < n {
                    v@[j + k]
                } else {
                    v@[j + k - n]
                }),
        decreases n - i,
    {
        let src: usize = if i < n - k {
            i + k
        } else {
            i - (n - k)
        };
        let byte = v[src];
        rotated.push(byte);
        i = i + 1;
    }
    *v = rotated;
    proof {
        assert(v@ =~= old(v)@.skip(k as int) + old(v)@.take(k as int));
    }
}

/// Relies on `core::str::from_utf8`: on bytes that are valid UTF-8 it returns
/// `Ok` with a string slice viewing exactly the given bytes.
#[verifier::external_body]
fn bytes_as_str(bytes: &[u8]) -> (r: &str)
    requires
        valid_utf8(bytes@),
    ensures
        r.spec_bytes() == bytes@,
{
    match core::str::from_utf8(bytes) {
        Ok(text) => text,
        Err(_) => "",
    }
}

} // verus!
