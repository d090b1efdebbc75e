//! Small string helpers over std that the rest of the library builds on.

use vstd::prelude::*;
use vstd::utf8::*;

verus! {

/// Relies on `String::push`: appends one character at the end.
#[verifier::external_body]
pub(crate) fn push_char(s: &mut String, c: char)
    ensures
        final(s)@ == old(s)@.push(c),
{
    s.push(c);
}

/// Relies on `std::str::from_utf8`: it succeeds exactly on valid UTF-8, and the
/// text it gives holds the characters those bytes encode.
#[verifier::external_body]
pub(crate) fn utf8_string(b: &[u8]) -> (r: Option<String>)
    ensures
        r is Some <==> valid_utf8(b@),
        r is Some ==> encode_utf8(r->0@) == b@,
{
    match std::str::from_utf8(b) {
        Ok(s) => Some(s.to_string()),
        Err(_) => None,
    }
}

/// The decimal digits of a number as text, with no leading zeros.
pub open spec fn decimal_chars(v: nat) -> Seq<char>
    decreases v,
{
    if v < 10 {
        seq![(v + 48) as char]
    } else {
        decimal_chars(v / 10) + seq![(v % 10 + 48) as char]
    }
}

/// Appends the decimal digits of `v`.
pub(crate) fn push_decimal_text(s: &mut String, v: u64)
    ensures
        final(s)@ == old(s)@ + decimal_chars(v as nat),
    decreases v,
{
    if v >= 10 {
        push_decimal_text(s, v / 10);
    }
    push_char(s, ((v % 10) as u8 + 48) as char);
}

/// Whether index `i` of `b` cannot fall inside the encoding of one character:
/// it is an end of `b`, or next to an ASCII byte.
pub open spec fn ascii_boundary(b: Seq<u8>, i: int) -> bool {
    i == 0 || i == b.len() || (0 <= i < b.len() && b[i] < 128) || (0 < i <= b.len() && b[i
        - 1] < 128)
}

/// Valid UTF-8 stays valid on both sides of a cut next to an ASCII byte.
pub proof fn lemma_utf8_split(b: Seq<u8>, i: int)
    requires
        valid_utf8(b),
        0 <= i <= b.len(),
        ascii_boundary(b, i),
    ensures
        valid_utf8(b.take(i)),
        valid_utf8(b.skip(i)),
    decreases b.len(),
{
    if i == 0 {
        assert(b.take(0) =~= Seq::<u8>::empty());
        assert(b.skip(0) =~= b);
    } else {
        let l = length_of_first_scalar(b);
        assert(1 <= l <= 4);
        if l > i {
            if i < b.len() && b[i] < 128 {
                assert(is_continuation_byte(b[i]));
            } else {
                assert(b[i - 1] < 128);
                if i - 1 > 0 {
                    assert(is_continuation_byte(b[i - 1]));
                }
            }
        }
        assert(l <= i);
        let rest = pop_first_scalar(b);
        assert(rest =~= b.skip(l));
        assert(ascii_boundary(rest, i - l)) by {
            if i - l > 0 && i < b.len() {
                assert(rest[i - l] == b[i]);
                assert(rest[i - l - 1] == b[i - 1]);
            }
            if i - l > 0 && i == b.len() {
                assert(rest[i - l - 1] == b[i - 1]);
            }
        }
        lemma_utf8_split(rest, i - l);
        assert(rest.skip(i - l) =~= b.skip(i));
        let t = b.take(i);
        assert(t.len() >= l);
        assert(forall|j: int| 0 <= j < l ==> t[j] == b[j]);
        assert(valid_first_scalar(t));
        assert(length_of_first_scalar(t) == l);
        assert(pop_first_scalar(t) =~= rest.take(i - l));
    }
}

/// A range of valid UTF-8 whose ends sit next to ASCII bytes is valid UTF-8.
pub proof fn lemma_utf8_range(b: Seq<u8>, from: int, to: int)
    requires
        valid_utf8(b),
        0 <= from <= to <= b.len(),
        ascii_boundary(b, from),
        ascii_boundary(b, to),
    ensures
        valid_utf8(b.subrange(from, to)),
{
    lemma_utf8_split(b, to);
    let t = b.take(to);
    assert(ascii_boundary(t, from)) by {
        if from < to {
            assert(t[from] == b[from]);
        }
        if 0 < from {
            assert(t[from - 1] == b[from - 1]);
        }
    }
    lemma_utf8_split(t, from);
    assert(t.skip(from) =~= b.subrange(from, to));
}

/// The text that valid UTF-8 bytes encode.
pub(crate) fn text_of(b: &[u8]) -> (r: String)
    requires
        valid_utf8(b@),
    ensures
        encode_utf8(r@) == b@,
{
    match utf8_string(b) {
        Some(s) => s,
        None => String::new(),
    }
}

/// The text that `b[from..to]` encodes, where `b` is valid UTF-8 and both ends
/// of the range sit next to ASCII bytes.
pub(crate) fn text_between(b: &[u8], from: usize, to: usize) -> (r: String)
    requires
        valid_utf8(b@),
        from <= to <= b@.len(),
        ascii_boundary(b@, from as int),
        ascii_boundary(b@, to as int),
    ensures
        encode_utf8(r@) == b@.subrange(from as int, to as int),
{
    proof {
        lemma_utf8_range(b@, from as int, to as int);
    }
    text_of(&b[from..to])
}

} // verus!
