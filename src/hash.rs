//! Hash formatting and hash-prefix resolution.

use sha1::Digest;
use vstd::prelude::*;
use vstd::string::StringExecFns;

use crate::error::ObjectError;
use crate::text::push_char;

verus! {

/// The SHA-1 digest of some bytes.
pub uninterp spec fn sha1_of(data: Seq<u8>) -> Seq<u8>;

/// Relies on sha1's `Sha1::digest`: the SHA-1 digest of the input, whose
/// output type holds 20 bytes.
#[verifier::external_body]
fn sha1_digest(data: &[u8]) -> (r: Vec<u8>)
    ensures
        r@ == sha1_of(data@),
        r@.len() == 20,
{
    sha1::Sha1::digest(data).to_vec()
}

/// The SHA-1 digest of some bytes in lower-case hexadecimal: 40 digits.
pub fn digest_hex(data: &[u8]) -> (r: String)
    ensures
        r@ == hex_of(sha1_of(data@)),
        r@.len() == 40,
        is_hex_text(r@),
{
    let d = sha1_digest(data);
    proof {
        lemma_hex_round_trip(d@);
    }
    hex_digest(d.as_slice())
}

/// The lower-case hexadecimal digit for a value below 16.
pub open spec fn hex_char(n: u8) -> char {
    if n < 10 {
        (n + 48) as char
    } else {
        (n + 87) as char
    }
}

/// Two lower-case hexadecimal digits per byte, most significant nibble first.
pub open spec fn hex_of(b: Seq<u8>) -> Seq<char>
    decreases b.len(),
{
    if b.len() == 0 {
        Seq::empty()
    } else {
        let last = b.last();
        hex_of(b.drop_last()) + seq![hex_char(last / 16), hex_char(last % 16)]
    }
}

fn hex_digit(n: u8) -> (r: char)
    requires
        n < 16,
    ensures
        r == hex_char(n),
{
    if n < 10 {
        (n + 48) as char
    } else {
        (n + 87) as char
    }
}

/// Whether a character is a lower-case hexadecimal digit.
pub open spec fn is_hex_digit(c: char) -> bool {
    (48 <= c as u32 <= 57) || (97 <= c as u32 <= 102)
}

/// The value of a lower-case hexadecimal digit.
pub open spec fn hex_value(c: char) -> int {
    if c as u32 <= 57 {
        c as u32 - 48
    } else {
        c as u32 - 87
    }
}

/// Whether `h` is lower-case hexadecimal with an even number of digits.
pub open spec fn is_hex_text(h: Seq<char>) -> bool {
    h.len() % 2 == 0 && forall|i: int| 0 <= i < h.len() ==> is_hex_digit(#[trigger] h[i])
}

/// The bytes that pairs of hexadecimal digits stand for.
pub open spec fn unhex(h: Seq<char>) -> Seq<u8>
    decreases h.len(),
{
    if h.len() < 2 {
        Seq::empty()
    } else {
        unhex(h.take(h.len() - 2)) + seq![
            (hex_value(h[h.len() - 2]) * 16 + hex_value(h[h.len() - 1])) as u8,
        ]
    }
}

/// Hexadecimal text is twice as long as its bytes, holds only lower-case
/// digits, and reads back as the same bytes.
pub proof fn lemma_hex_round_trip(b: Seq<u8>)
    ensures
        hex_of(b).len() == 2 * b.len(),
        is_hex_text(hex_of(b)),
        unhex(hex_of(b)) == b,
    decreases b.len(),
{
    if b.len() > 0 {
        let rest = b.drop_last();
        lemma_hex_round_trip(rest);
        let h = hex_of(b);
        let last = b.last();
        assert(h.take(h.len() - 2) =~= hex_of(rest));
        assert(h[h.len() - 2] == hex_char(last / 16));
        assert(h[h.len() - 1] == hex_char(last % 16));
        assert(hex_value(hex_char(last / 16)) == last / 16);
        assert(hex_value(hex_char(last % 16)) == last % 16);
        assert((last / 16) * 16 + last % 16 == last);
        assert(b =~= rest.push(last));
        assert forall|i: int| 0 <= i < h.len() implies is_hex_digit(#[trigger] h[i]) by {
            if i < h.len() - 2 {
                assert(h[i] == hex_of(rest)[i]);
            }
        }
    }
}

fn hex_value_of(c: char) -> (r: u8)
    requires
        is_hex_digit(c),
    ensures
        r as int == hex_value(c),
        r < 16,
{
    let n = c as u32;
    if n <= 57 {
        (n - 48) as u8
    } else {
        (n - 87) as u8
    }
}

/// The bytes that lower-case hexadecimal text stands for.
pub fn hex_to_bytes(h: &str) -> (r: Vec<u8>)
    requires
        is_hex_text(h@),
    ensures
        r@ == unhex(h@),
{
    let n = h.unicode_len();
    let mut r: Vec<u8> = Vec::new();
    let mut i: usize = 0;
    assert(h@.take(0).len() == 0);
    while i + 1 < n
        invariant
            n == h@.len(),
            is_hex_text(h@),
            i <= n,
            i % 2 == 0,
            r@ == unhex(h@.take(i as int)),
        decreases n - i,
    {
        let hi = hex_value_of(h.get_char(i));
        let lo = hex_value_of(h.get_char(i + 1));
        r.push(hi * 16 + lo);
        proof {
            let t = h@.take(i + 2);
            assert(t.take(t.len() - 2) =~= h@.take(i as int));
            assert(t[t.len() - 2] == h@[i as int]);
        }
        i = i + 2;
    }
    assert(h@.take(i as int) =~= h@);
    r
}

/// Formats a digest as lower-case hexadecimal, two digits per byte.
pub fn hex_digest(bytes: &[u8]) -> (r: String)
    ensures
        r@ == hex_of(bytes@),
        r@.len() == 2 * bytes@.len(),
{
    let mut r = String::new();
    let mut i: usize = 0;
    while i < bytes.len()
        invariant
            i <= bytes@.len(),
            r@ == hex_of(bytes@.subrange(0, i as int)),
            r@.len() == 2 * i,
        decreases bytes@.len() - i,
    {
        let b = bytes[i];
        push_char(&mut r, hex_digit(b / 16));
        push_char(&mut r, hex_digit(b % 16));
        proof {
            let next = bytes@.subrange(0, i + 1);
            assert(next.drop_last() =~= bytes@.subrange(0, i as int));
        }
        i = i + 1;
    }
    proof {
        assert(bytes@.subrange(0, i as int) =~= bytes@);
    }
    r
}

/// Whether `s` begins with `p`.
pub open spec fn has_prefix(s: Seq<char>, p: Seq<char>) -> bool {
    p.len() <= s.len() && s.take(p.len() as int) == p
}

/// The names that begin with `p`, in order.
pub open spec fn matching(names: Seq<Seq<char>>, p: Seq<char>) -> Seq<Seq<char>>
    decreases names.len(),
{
    if names.len() == 0 {
        Seq::empty()
    } else if has_prefix(names.last(), p) {
        matching(names.drop_last(), p).push(names.last())
    } else {
        matching(names.drop_last(), p)
    }
}

/// The full hash that `hash` names, given the file names of its bucket
/// (`None` where the bucket does not exist): a hash of under 4 or over 40
/// characters is invalid; a file named by the rest of the hash is the object
/// itself; otherwise exactly one file name must begin with the rest.
pub open spec fn resolve_hash(hash: Seq<char>, bucket: Option<Seq<Seq<char>>>) -> Result<
    Seq<char>,
    ObjectError,
> {
    if hash.len() < 4 || hash.len() > 40 {
        Err(ObjectError::InvalidHash)
    } else {
        match bucket {
            None => Err(ObjectError::NotFound),
            Some(names) => {
                let rest = hash.skip(2);
                let m = matching(names, rest);
                if names.contains(rest) {
                    Ok(hash)
                } else if m.len() == 0 {
                    Err(ObjectError::NotFound)
                } else if m.len() > 1 {
                    Err(ObjectError::AmbiguousHash)
                } else {
                    Ok(hash.take(2) + m[0])
                }
            },
        }
    }
}

/// The names of a bucket listing as text.
pub open spec fn bucket_view(bucket: Option<Vec<String>>) -> Option<Seq<Seq<char>>> {
    match bucket {
        Some(v) => Some(v@.map_values(|s: String| s@)),
        None => None,
    }
}

/// Whether two texts are equal.
pub(crate) fn same_text(a: &str, b: &str) -> (r: bool)
    ensures
        r == (a@ == b@),
{
    let r = a.unicode_len() == b.unicode_len() && starts_with_text(a, b);
    proof {
        if a@ == b@ {
            assert(a@.take(b@.len() as int) =~= a@);
        }
        if a@.len() == b@.len() && has_prefix(a@, b@) {
            assert(a@.take(b@.len() as int) =~= a@);
        }
    }
    r
}

fn starts_with_text(s: &str, p: &str) -> (r: bool)
    ensures
        r == has_prefix(s@, p@),
{
    let n = p.unicode_len();
    if s.unicode_len() < n {
        return false;
    }
    let mut i: usize = 0;
    while i < n
        invariant
            n == p@.len() <= s@.len(),
            i <= n,
            forall|j: int| 0 <= j < i ==> s@[j] == p@[j],
        decreases n - i,
    {
        if s.get_char(i) != p.get_char(i) {
            assert(s@.take(n as int)[i as int] != p@[i as int]);
            return false;
        }
        i = i + 1;
    }
    assert(s@.take(n as int) =~= p@);
    true
}

/// Resolves a full or abbreviated hash against the file names of its bucket,
/// `None` where the bucket directory does not exist. Fails with `InvalidHash`
/// for a length outside 4 to 40, `NotFound` where nothing matches and
/// `AmbiguousHash` where several names do.
pub fn find_hash(hash: &str, bucket: &Option<Vec<String>>) -> (r: Result<String, ObjectError>)
    ensures
        match resolve_hash(hash@, bucket_view(*bucket)) {
            Ok(s) => r is Ok && r->Ok_0@ == s,
            Err(e) => r == Err::<String, ObjectError>(e),
        },
{
    let len = hash.unicode_len();
    if len < 4 || len > 40 {
        return Err(ObjectError::InvalidHash);
    }
    let names = match bucket {
        Some(names) => names,
        None => return Err(ObjectError::NotFound),
    };
    let ghost view = names@.map_values(|s: String| s@);
    let rest = hash.substring_char(2, len);
    assert(rest@ =~= hash@.skip(2));
    let mut found: Vec<String> = Vec::new();
    let mut exact = false;
    let mut i: usize = 0;
    while i < names.len()
        invariant
            i <= names@.len(),
            len == hash@.len(),
            4 <= len <= 40,
            view == names@.map_values(|s: String| s@),
            rest@ == hash@.skip(2),
            exact == exists|j: int| 0 <= j < i && view[j] == rest@,
            found@.map_values(|s: String| s@) == matching(view.take(i as int), rest@),
        decreases names@.len() - i,
    {
        let name = names[i].as_str();
        assert(view[i as int] == name@);
        let pre = starts_with_text(name, rest);
        if pre && name.unicode_len() == len - 2 {
            exact = true;
            assert(view[i as int] =~= rest@);
        }
        if pre {
            found.push(names[i].clone());
        }
        proof {
            let t = view.take(i + 1);
            assert(t.drop_last() =~= view.take(i as int));
            assert(t.last() == view[i as int]);
            if view[i as int] == rest@ {
                assert(view[i as int].take(rest@.len() as int) =~= rest@);
            }
            assert(found@.map_values(|s: String| s@) =~= matching(t, rest@));
        }
        i = i + 1;
    }
    assert(view.take(i as int) =~= view);
    if exact {
        proof {
            let j = choose|j: int| 0 <= j < i && view[j] == rest@;
            assert(view.contains(rest@));
        }
        let mut full = String::new();
        full.append(hash);
        return Ok(full);
    }
    assert(!view.contains(rest@));
    if found.len() == 0 {
        return Err(ObjectError::NotFound);
    }
    if found.len() > 1 {
        return Err(ObjectError::AmbiguousHash);
    }
    let mut full = String::new();
    full.append(hash.substring_char(0, 2));
    full.append(found[0].as_str());
    assert(hash@.subrange(0, 2) =~= hash@.take(2));
    assert(found@.map_values(|s: String| s@)[0] == found@[0]@);
    Ok(full)
}

} // verus!
