//! Suffixes of valid UTF-8 byte streams.
//!
//! Once the buffer has wrapped, the bytes it retains are a suffix of the
//! stream of UTF-8 text written so far: the overwrite may have cut into the
//! middle of one multi-byte character, leaving some of its continuation bytes
//! orphaned at the front. This module gives that shape a name, `tail_valid`,
//! and proves that it is created by taking any suffix of valid UTF-8 text and
//! kept by appending further valid text and by taking further suffixes.

use vstd::prelude::*;

verus! {

use vstd::utf8::{
    valid_utf8, encode_utf8, decode_utf8, is_continuation_byte, is_leading_byte_width_1,
    is_leading_byte_width_2, is_leading_byte_width_3, is_leading_byte_width_4, is_char_boundary,
};

/// A byte that can begin a UTF-8 character encoding: one of the four leading
/// byte patterns (`0xxxxxxx`, `110xxxxx`, `1110xxxx`, `11110xxx`).
pub open spec fn is_lead_byte(b: u8) -> bool {
    ||| is_leading_byte_width_1(b)
    ||| is_leading_byte_width_2(b)
    ||| is_leading_byte_width_3(b)
    ||| is_leading_byte_width_4(b)
}

/// Index of the first lead byte of `s`, or `s.len()` when there is none.
pub open spec fn first_lead(s: Seq<u8>) -> int
    decreases s.len(),
{
    if s.len() == 0 {
        0
    } else if is_lead_byte(s[0]) {
        0
    } else {
        1 + first_lead(s.skip(1))
    }
}

/// The bytes are the tail of a stream of valid UTF-8 text: everything from the
/// first lead byte onward is itself valid UTF-8. (The bytes before it, if any,
/// are remnants of a character whose beginning is gone.)
pub open spec fn tail_valid(s: Seq<u8>) -> bool {
    valid_utf8(s.skip(first_lead(s)))
}

/// The last `cap` bytes of `s`, or all of `s` when it is no longer than `cap`.
pub open spec fn last_window(s: Seq<u8>, cap: nat) -> Seq<u8> {
    if s.len() <= cap {
        s
    } else {
        s.skip(s.len() - cap)
    }
}

/// The text that extraction reads out of valid bytes `c`: everything from the
/// first lead byte onward, decoded. Empty when no lead byte is left.
pub open spec fn extracted_text(c: Seq<u8>) -> Seq<char> {
    decode_utf8(c.skip(first_lead(c)))
}

/// `first_lead` lies within the sequence, no byte before it is a lead byte,
/// and the byte at it (when there is one) is a lead byte.
pub proof fn lemma_first_lead_bounds(s: Seq<u8>)
    ensures
        0 <= first_lead(s) <= s.len(),
        forall|i: int| 0 <= i < first_lead(s) ==> !is_lead_byte(#[trigger] s[i]),
        first_lead(s) < s.len() ==> is_lead_byte(s[first_lead(s)]),
    decreases s.len(),
{
    if s.len() == 0 {
    } else if is_lead_byte(s[0]) {
    } else {
        lemma_first_lead_bounds(s.skip(1));
        assert forall|i: int| 0 <= i < first_lead(s) implies !is_lead_byte(#[trigger] s[i]) by {
            if i > 0 {
                assert(s[i] == s.skip(1)[i - 1]);
            }
        }
        if first_lead(s) < s.len() {
            assert(s[first_lead(s)] == s.skip(1)[first_lead(s) - 1]);
        }
    }
}

/// A position with no lead byte before it that either sits on a lead byte or
/// at the end of the sequence is exactly `first_lead`.
pub proof fn lemma_first_lead_at(s: Seq<u8>, j: int)
    requires
        0 <= j <= s.len(),
        forall|i: int| 0 <= i < j ==> !is_lead_byte(#[trigger] s[i]),
        j < s.len() ==> is_lead_byte(s[j]),
    ensures
        first_lead(s) == j,
    decreases s.len(),
{
    if s.len() == 0 {
    } else if is_lead_byte(s[0]) {
        assert(j == 0);
    } else {
        assert(j >= 1);
        assert forall|i: int| 0 <= i < j - 1 implies !is_lead_byte(#[trigger] s.skip(1)[i]) by {
            assert(s.skip(1)[i] == s[i + 1]);
        }
        if j - 1 < s.skip(1).len() {
            assert(s.skip(1)[j - 1] == s[j]);
        }
        lemma_first_lead_at(s.skip(1), j - 1);
    }
}

/// The first byte of non-empty valid UTF-8 text is a lead byte.
proof fn lemma_valid_first_byte_lead(v: Seq<u8>)
    requires
        valid_utf8(v),
        v.len() > 0,
    ensures
        is_lead_byte(v[0]),
{
    broadcast use vstd::utf8::is_char_boundary_start_end_of_seq;
    broadcast use vstd::utf8::is_char_boundary_iff_is_leading_byte;

    assert(is_char_boundary(v, 0));
}

/// Any suffix of valid UTF-8 text is tail-valid, and the bytes it holds before
/// its first lead byte are continuation bytes of the one character the cut
/// destroyed.
pub proof fn lemma_valid_suffix_tail_valid(s: Seq<u8>, k: int)
    requires
        valid_utf8(s),
        0 <= k <= s.len(),
    ensures
        tail_valid(s.skip(k)),
        forall|i: int| 0 <= i < first_lead(s.skip(k)) ==> is_continuation_byte(
            #[trigger] s.skip(k)[i],
        ),
{
    broadcast use vstd::utf8::is_char_boundary_start_end_of_seq;
    broadcast use vstd::utf8::is_char_boundary_iff_is_leading_byte;
    broadcast use vstd::utf8::is_char_boundary_iff_not_is_continuation_byte;
    broadcast use vstd::utf8::valid_utf8_split;

    let t = s.skip(k);
    let fl = first_lead(t);
    lemma_first_lead_bounds(t);
    assert forall|i: int| 0 <= i < fl implies is_continuation_byte(#[trigger] t[i]) by {
        assert(t[i] == s[k + i]);
        assert(!is_lead_byte(s[k + i]));
        assert(!is_char_boundary(s, k + i));
    }
    if fl < t.len() {
        assert(t[fl] == s[k + fl]);
        assert(is_char_boundary(s, k + fl));
        assert(valid_utf8(s.subrange(k + fl, s.len() as int)));
        assert(t.skip(fl) =~= s.subrange(k + fl, s.len() as int));
    } else {
        assert(t.skip(fl) =~= Seq::<u8>::empty());
    }
}

/// Appending whole valid UTF-8 text to a tail-valid sequence keeps it
/// tail-valid, and cannot move the first lead byte later.
pub proof fn lemma_tail_valid_append(s: Seq<u8>, w: Seq<u8>)
    requires
        tail_valid(s),
        valid_utf8(w),
    ensures
        tail_valid(s + w),
        first_lead(s + w) <= first_lead(s),
{
    broadcast use vstd::utf8::valid_utf8_concat;

    let fl = first_lead(s);
    lemma_first_lead_bounds(s);
    let u = s + w;
    if fl < s.len() || (fl == s.len() && w.len() > 0) {
        // the combined text has its first lead byte where `s + w` first offers one
        let j: int = if fl < s.len() {
            fl
        } else {
            s.len() as int
        };
        assert forall|i: int| 0 <= i < j implies !is_lead_byte(#[trigger] u[i]) by {
            assert(u[i] == s[i]);
        }
        if fl < s.len() {
            assert(u[j] == s[fl]);
        } else {
            assert(u[j] == w[0]);
            lemma_valid_first_byte_lead(w);
        }
        lemma_first_lead_at(u, j);
        if fl < s.len() {
            assert(u.skip(j) =~= s.skip(fl) + w);
        } else {
            assert(s.skip(fl) =~= Seq::<u8>::empty());
            assert(u.skip(j) =~= Seq::<u8>::empty() + w);
        }
    } else {
        // `s` has no lead byte and `w` is empty
        assert(u =~= s);
        assert(first_lead(u) == first_lead(s));
        assert(u.skip(first_lead(u)) =~= s.skip(fl));
    }
}

/// An orphaned prefix is short: a suffix of valid UTF-8 text reaches a lead
/// byte (or its own end) within three bytes, since the cut can destroy at most
/// one character, whose encoding has at most three continuation bytes.
pub proof fn lemma_orphan_prefix_short(s: Seq<u8>, k: int)
    requires
        valid_utf8(s),
        0 <= k <= s.len(),
    ensures
        first_lead(s.skip(k)) <= 3,
    decreases s.len(),
{
    let t = s.skip(k);
    if k == s.len() {
        assert(t.len() == 0);
    } else if k == 0 {
        lemma_valid_first_byte_lead(s);
        assert(is_lead_byte(t[0]));
    } else {
        let len1 = vstd::utf8::length_of_first_scalar(s);
        assert(1 <= len1 <= 4 && len1 <= s.len());
        let rest = vstd::utf8::pop_first_scalar(s);
        assert(valid_utf8(rest));
        if k >= len1 {
            lemma_orphan_prefix_short(rest, k - len1);
            assert(rest.skip(k - len1) =~= t);
        } else {
            // the suffix starts inside the first character of `s`, whose bytes
            // after the lead byte are all continuation bytes
            assert forall|i: int| 0 <= i < len1 - k implies !is_lead_byte(#[trigger] t[i]) by {
                assert(t[i] == s[k + i]);
                assert(is_continuation_byte(s[k + i]));
            }
            if len1 < s.len() {
                lemma_valid_first_byte_lead(rest);
                assert(t[len1 - k] == rest[0]);
                lemma_first_lead_at(t, len1 - k);
            } else {
                lemma_first_lead_at(t, t.len() as int);
            }
        }
    }
}

/// A suffix of a tail-valid sequence is tail-valid.
pub proof fn lemma_tail_valid_skip(s: Seq<u8>, k: int)
    requires
        tail_valid(s),
        0 <= k <= s.len(),
    ensures
        tail_valid(s.skip(k)),
{
    let fl = first_lead(s);
    lemma_first_lead_bounds(s);
    let t = s.skip(k);
    if k <= fl {
        assert forall|i: int| 0 <= i < fl - k implies !is_lead_byte(#[trigger] t[i]) by {
            assert(t[i] == s[k + i]);
        }
        if fl < s.len() {
            assert(t[fl - k] == s[fl]);
        }
        lemma_first_lead_at(t, fl - k);
        assert(t.skip(fl - k) =~= s.skip(fl));
    } else {
        let v = s.skip(fl);
        lemma_valid_suffix_tail_valid(v, k - fl);
        assert(v.skip(k - fl) =~= t);
    }
}

/// Trimming a tail-valid sequence to its last `cap` bytes keeps it tail-valid.
pub proof fn lemma_tail_valid_window(s: Seq<u8>, cap: nat)
    requires
        tail_valid(s),
    ensures
        tail_valid(last_window(s, cap)),
{
    if s.len() > cap {
        lemma_tail_valid_skip(s, s.len() - cap);
    }
}

/// Windows compose: trimming to the last `cap` bytes, appending, and trimming
/// again gives the same bytes as appending first and trimming once. This is
/// why writing byte by byte, dropping the oldest byte whenever the storage is
/// full, retains exactly the most recent `cap` bytes of the whole stream.
pub proof fn lemma_last_window_append(a: Seq<u8>, b: Seq<u8>, cap: nat)
    ensures
        last_window(last_window(a, cap) + b, cap) == last_window(a + b, cap),
{
    let wa = last_window(a, cap);
    assert(last_window(wa + b, cap) =~= last_window(a + b, cap));
}

/// Text whose UTF-8 encoding fits within `cap` bytes survives the buffer's
/// round trip exactly: the retained window is the whole encoding, the readable
/// region starts at its first byte, and decoding it gives the text back.
pub proof fn lemma_round_trip(s: Seq<char>, cap: nat)
    requires
        encode_utf8(s).len() <= cap,
    ensures
        last_window(encode_utf8(s), cap) == encode_utf8(s),
        first_lead(encode_utf8(s)) == 0,
        tail_valid(encode_utf8(s)),
        extracted_text(encode_utf8(s)) == s,
{
    broadcast use vstd::utf8::encode_utf8_valid_utf8;
    broadcast use vstd::utf8::encode_utf8_decode_utf8;

    let b = encode_utf8(s);
    if b.len() > 0 {
        lemma_valid_first_byte_lead(b);
    }
    lemma_first_lead_at(b, 0);
    assert(b.skip(0) =~= b);
}

/// Once more than `cap` bytes of valid UTF-8 text have accumulated, the
/// retained window is the most recent `cap` bytes; any bytes it holds before
/// its first lead byte are orphaned continuation bytes of the one character
/// the overwrite destroyed, and from that lead byte on it is valid UTF-8.
pub proof fn lemma_overflow_window(w: Seq<u8>, cap: nat)
    requires
        valid_utf8(w),
        w.len() > cap,
    ensures
        last_window(w, cap) == w.skip(w.len() - cap),
        tail_valid(last_window(w, cap)),
        forall|i: int| 0 <= i < first_lead(last_window(w, cap)) ==> is_continuation_byte(
            #[trigger] last_window(w, cap)[i],
        ),
        first_lead(last_window(w, cap)) < cap ==> is_lead_byte(
            last_window(w, cap)[first_lead(last_window(w, cap))],
        ),
        first_lead(last_window(w, cap)) <= 3,
{
    lemma_valid_suffix_tail_valid(w, w.len() - cap);
    lemma_first_lead_bounds(last_window(w, cap));
    lemma_orphan_prefix_short(w, w.len() - cap);
}

/// Nothing was written (or everything was cleared): extraction reads the empty
/// string out of empty contents.
pub proof fn lemma_empty_extract()
    ensures
        first_lead(Seq::<u8>::empty()) == 0,
        extracted_text(Seq::<u8>::empty()) == Seq::<char>::empty(),
{
    assert(Seq::<u8>::empty().skip(0) =~= Seq::<u8>::empty());
}

} // verus!
