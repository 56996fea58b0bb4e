//! Byte-level facts about UTF-8 text, and the string operations the rest of
//! the crate builds on.
//!
//! Offsets handed out by the MDX parser are byte offsets, so the crate models
//! a text by its UTF-8 encoding (`encode_utf8(s@)`, which is `s.spec_bytes()`
//! for a `&str`).
use vstd::prelude::*;
use vstd::string::StringSliceAdditionalSpecFns;
use vstd::utf8::*;

verus! {

broadcast use encode_utf8_valid_utf8, encode_utf8_decode_utf8;

/// `pat` occurs in `text` at byte offset `at`.
pub open spec fn occurs_at(text: Seq<u8>, pat: Seq<u8>, at: int) -> bool {
    &&& 0 <= at
    &&& at + pat.len() <= text.len()
    &&& text.subrange(at, at + pat.len()) == pat
}

/// `pat` occurs somewhere in `text`.
pub open spec fn contains_bytes(text: Seq<u8>, pat: Seq<u8>) -> bool {
    exists|at: int| #[trigger] occurs_at(text, pat, at)
}

/// The UTF-8 bytes of a `String`.
pub open spec fn string_bytes(s: String) -> Seq<u8> {
    encode_utf8(s@)
}

/// Whether `pat` occurs in `text` at offset `at`.
pub fn occurs_at_exec(text: &[u8], pat: &[u8], at: usize) -> (r: bool)
    ensures
        r == occurs_at(text@, pat@, at as int),
{
    if at > text.len() || pat.len() > text.len() - at {
        return false;
    }
    let mut k: usize = 0;
    while k < pat.len()
        invariant
            at + pat.len() <= text.len(),
            k <= pat@.len(),
            forall|m: int| 0 <= m < k ==> text@[at + m] == pat@[m],
        decreases pat@.len() - k,
    {
        if text[at + k] != pat[k] {
            proof {
                assert(text@.subrange(at as int, at + pat@.len())[k as int] != pat@[k as int]);
            }
            return false;
        }
        k = k + 1;
    }
    proof {
        assert(text@.subrange(at as int, at + pat@.len()) =~= pat@);
    }
    true
}

/// Whether `pat` occurs anywhere in `text` (the byte search behind
/// `str::contains` with a string pattern).
pub fn contains_exec(text: &[u8], pat: &[u8]) -> (r: bool)
    ensures
        r == contains_bytes(text@, pat@),
{
    let mut at: usize = 0;
    while at < text.len()
        invariant
            at <= text@.len(),
            forall|m: int| 0 <= m < at ==> !occurs_at(text@, pat@, m),
        decreases text@.len() - at,
    {
        if occurs_at_exec(text, pat, at) {
            return true;
        }
        at = at + 1;
    }
    if occurs_at_exec(text, pat, at) {
        return true;
    }
    proof {
        assert forall|m: int| !occurs_at(text@, pat@, m) by {
            if 0 <= m < at {
            }
        }
    }
    false
}

/// Encoding a concatenation concatenates the encodings.
pub proof fn lemma_encode_concat(a: Seq<char>, b: Seq<char>)
    ensures
        encode_utf8(a + b) == encode_utf8(a) + encode_utf8(b),
    decreases a.len(),
{
    if a.len() == 0 {
        assert(a + b =~= b);
        assert(encode_utf8(a) + encode_utf8(b) =~= encode_utf8(b));
    } else {
        assert((a + b).drop_first() =~= a.drop_first() + b);
        lemma_encode_concat(a.drop_first(), b);
        assert(encode_utf8(a + b) =~= encode_utf8(a) + encode_utf8(b));
    }
}

/// The encoding of a text is at least as long as the text.
pub proof fn lemma_encode_len(a: Seq<char>)
    ensures
        encode_utf8(a).len() >= a.len(),
    decreases a.len(),
{
    if a.len() > 0 {
        lemma_encode_len(a.drop_first());
    }
}

/// In a valid text, an offset is a character boundary when it is the end of
/// the text or the byte there is not a continuation byte.
pub proof fn lemma_boundary_by_byte(bytes: Seq<u8>, i: int)
    requires
        valid_utf8(bytes),
        0 <= i <= bytes.len(),
        i < bytes.len() ==> !is_continuation_byte(bytes[i]),
    ensures
        is_char_boundary(bytes, i),
{
    if i == bytes.len() {
        is_char_boundary_start_end_of_seq(bytes);
    } else {
        is_char_boundary_iff_not_is_continuation_byte(bytes, i);
    }
}

/// A boundary of a valid text is either its end or sits on a byte that is not
/// a continuation byte.
pub proof fn lemma_boundary_byte(bytes: Seq<u8>, i: int)
    requires
        valid_utf8(bytes),
        is_char_boundary(bytes, i),
    ensures
        0 <= i <= bytes.len(),
        i < bytes.len() ==> !is_continuation_byte(bytes[i]),
{
    if 0 <= i < bytes.len() {
        is_char_boundary_iff_not_is_continuation_byte(bytes, i);
    }
}

/// The slice of a valid text between two boundaries is valid, and the
/// boundaries of the text past the first one are boundaries of the rest.
pub proof fn lemma_slice_valid(bytes: Seq<u8>, i: int, j: int)
    requires
        valid_utf8(bytes),
        is_char_boundary(bytes, i),
        is_char_boundary(bytes, j),
        i <= j,
    ensures
        valid_utf8(bytes.subrange(i, j)),
        valid_utf8(bytes.subrange(i, bytes.len() as int)),
        is_char_boundary(bytes.subrange(i, bytes.len() as int), j - i),
{
    lemma_boundary_byte(bytes, i);
    lemma_boundary_byte(bytes, j);
    valid_utf8_split(bytes, i);
    let rest = bytes.subrange(i, bytes.len() as int);
    lemma_boundary_by_byte(rest, j - i);
    valid_utf8_split(rest, j - i);
    assert(rest.subrange(0, j - i) =~= bytes.subrange(i, j));
}

/// When a valid text starts with a valid text, the end of that prefix is a
/// character boundary.
pub proof fn lemma_valid_prefix_boundary(t: Seq<u8>, p: Seq<u8>)
    requires
        valid_utf8(t),
        valid_utf8(p),
        p.len() <= t.len(),
        t.subrange(0, p.len() as int) == p,
    ensures
        is_char_boundary(t, p.len() as int),
    decreases p.len(),
{
    if p.len() > 0 {
        assert(t[0] == p[0]) by {
            assert(t.subrange(0, p.len() as int)[0] == t[0]);
        }
        assert(valid_first_scalar(t));
        assert(valid_first_scalar(p));
        let n = length_of_first_scalar(t);
        assert(n == length_of_first_scalar(p));
        assert(valid_leading_and_continuation_bytes_first_codepoint(p));
        assert(n <= p.len());
        let tp = pop_first_scalar(t);
        let pp = pop_first_scalar(p);
        assert(valid_utf8(tp));
        assert(valid_utf8(pp));
        assert(tp.subrange(0, pp.len() as int) =~= pp) by {
            assert forall|k: int| 0 <= k < pp.len() implies #[trigger] tp.subrange(
                0,
                pp.len() as int,
            )[k] == pp[k] by {
                assert(tp[k] == t[n + k]);
                assert(pp[k] == p[n + k]);
                assert(t.subrange(0, p.len() as int)[n + k] == t[n + k]);
            }
        }
        lemma_valid_prefix_boundary(tp, pp);
        assert(is_char_boundary(t, p.len() as int));
    }
}

/// The slice `[a, b)` of `s`, where both ends are character boundaries.
pub fn str_slice(s: &str, a: usize, b: usize) -> (r: &str)
    requires
        a <= b,
        is_char_boundary(s.spec_bytes(), a as int),
        is_char_boundary(s.spec_bytes(), b as int),
    ensures
        r.spec_bytes() == s.spec_bytes().subrange(a as int, b as int),
{
    proof {
        lemma_slice_valid(s.spec_bytes(), a as int, b as int);
        lemma_boundary_byte(s.spec_bytes(), b as int);
    }
    let (_head, tail) = s.split_at(a);
    proof {
        assert(tail.spec_bytes() =~= s.spec_bytes().subrange(a as int, s.spec_bytes().len() as int));
    }
    let (mid, _rest) = tail.split_at(b - a);
    proof {
        assert(mid.spec_bytes() =~= s.spec_bytes().subrange(a as int, b as int));
    }
    mid
}

/// Appends `piece` to `out`.
pub fn push_str(out: &mut String, piece: &str)
    ensures
        string_bytes(*final(out)) == string_bytes(*old(out)) + piece.spec_bytes(),
{
    proof {
        lemma_encode_concat(old(out)@, piece@);
    }
    out.append(piece);
}

} // verus!
