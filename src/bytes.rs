//! Scanning byte strings: finding a pattern, testing a prefix, reading a
//! decimal number.

use vstd::prelude::*;

verus! {

/// Index of the first occurrence of `pat` in `s`, if any.
pub open spec fn find_seq(s: Seq<u8>, pat: Seq<u8>) -> Option<int>
    decreases s.len(),
{
    if s.len() < pat.len() {
        None
    } else if s.take(pat.len() as int) == pat {
        Some(0)
    } else if s.len() == 0 {
        None
    } else {
        match find_seq(s.skip(1), pat) {
            Some(k) => Some(k + 1),
            None => None,
        }
    }
}

/// Whether `s` begins with `pat`.
pub open spec fn starts_with(s: Seq<u8>, pat: Seq<u8>) -> bool {
    pat.len() <= s.len() && s.take(pat.len() as int) == pat
}

/// Whether `b` is an ASCII decimal digit.
pub open spec fn is_digit(b: u8) -> bool {
    48 <= b <= 57
}

/// Whether `s` is a non-empty run of ASCII decimal digits.
pub open spec fn all_digits(s: Seq<u8>) -> bool {
    s.len() > 0 && forall|i: int| 0 <= i < s.len() ==> is_digit(#[trigger] s[i])
}

/// The value of a run of decimal digits.
pub open spec fn digits_value(s: Seq<u8>) -> nat
    decreases s.len(),
{
    if s.len() == 0 {
        0
    } else {
        digits_value(s.drop_last()) * 10 + (s.last() - 48) as nat
    }
}

/// The number a run of decimal digits denotes, where it is one and does not
/// exceed `limit`.
pub open spec fn decimal(s: Seq<u8>, limit: nat) -> Option<nat> {
    if all_digits(s) && digits_value(s) <= limit {
        Some(digits_value(s))
    } else {
        None
    }
}

proof fn lemma_find_step(s: Seq<u8>, pat: Seq<u8>, i: int)
    requires
        0 <= i < s.len(),
        s.len() - i >= pat.len(),
        s.subrange(i, s.len() as int).take(pat.len() as int) != pat,
    ensures
        find_seq(s.subrange(i, s.len() as int), pat) == match find_seq(
            s.subrange(i + 1, s.len() as int),
            pat,
        ) {
            Some(k) => Some(k + 1),
            None => None::<int>,
        },
{
    assert(s.subrange(i, s.len() as int).skip(1) =~= s.subrange(i + 1, s.len() as int));
}

/// Finds the first occurrence of `pat` in `s[from..to]`, as an index into `s`.
pub fn find_in(s: &[u8], from: usize, to: usize, pat: &[u8]) -> (r: Option<usize>)
    requires
        from <= to <= s@.len(),
    ensures
        match r {
            Some(k) => from <= k && find_seq(s@.subrange(from as int, to as int), pat@) == Some(
                k - from,
            ),
            None => find_seq(s@.subrange(from as int, to as int), pat@) is None,
        },
{
    let ghost w = s@.subrange(from as int, to as int);
    let mut i: usize = from;
    while i < to && to - i >= pat.len()
        invariant
            from <= i <= to <= s@.len(),
            w == s@.subrange(from as int, to as int),
            find_seq(w, pat@) == match find_seq(s@.subrange(i as int, to as int), pat@) {
                Some(k) => Some(k + (i - from)),
                None => None::<int>,
            },
        decreases to - i,
    {
        if starts_at(s, i, to, pat) {
            proof {
                assert(s@.subrange(i as int, to as int).take(pat@.len() as int) =~= s@.subrange(
                    i as int,
                    i + pat@.len(),
                ));
            }
            return Some(i);
        }
        proof {
            let v = s@.subrange(0, to as int);
            assert(v.subrange(i as int, v.len() as int) =~= s@.subrange(i as int, to as int));
            assert(v.subrange(i + 1, v.len() as int) =~= s@.subrange(i + 1, to as int));
            assert(v.subrange(i as int, v.len() as int).take(pat@.len() as int) =~= s@.subrange(
                i as int,
                i + pat@.len(),
            ));
            lemma_find_step(v, pat@, i as int);
        }
        i = i + 1;
    }
    proof {
        let rest = s@.subrange(i as int, to as int);
        if i < to {
            assert(rest.len() < pat@.len());
        } else {
            assert(rest.len() == 0);
            if pat@.len() == 0 {
                assert(rest.take(0) =~= pat@);
            }
        }
    }
    if i == to && pat.len() == 0 {
        return Some(i);
    }
    None
}

/// Whether `s[at..to]` begins with `pat`.
pub fn starts_at(s: &[u8], at: usize, to: usize, pat: &[u8]) -> (r: bool)
    requires
        at <= to <= s@.len(),
    ensures
        r == starts_with(s@.subrange(at as int, to as int), pat@),
        r == (at + pat@.len() <= to && s@.subrange(at as int, at + pat@.len()) == pat@),
{
    if to - at < pat.len() {
        return false;
    }
    let mut j: usize = 0;
    while j < pat.len()
        invariant
            at + pat@.len() <= to <= s@.len(),
            j <= pat@.len(),
            forall|k: int| 0 <= k < j ==> s@[at + k] == pat@[k],
        decreases pat@.len() - j,
    {
        if s[at + j] != pat[j] {
            proof {
                assert(s@.subrange(at as int, to as int).take(pat@.len() as int)[j as int]
                    != pat@[j as int]);
                assert(s@.subrange(at as int, at + pat@.len())[j as int] != pat@[j as int]);
            }
            return false;
        }
        j = j + 1;
    }
    proof {
        assert(s@.subrange(at as int, to as int).take(pat@.len() as int) =~= pat@);
        assert(s@.subrange(at as int, at + pat@.len()) =~= pat@);
    }
    true
}

/// Reads `s[from..to]` as a decimal number no greater than `limit`.
pub fn parse_decimal(s: &[u8], from: usize, to: usize, limit: u64) -> (r: Option<u64>)
    requires
        from <= to <= s@.len(),
    ensures
        match decimal(s@.subrange(from as int, to as int), limit as nat) {
            Some(v) => r == Some(v as u64),
            None => r is None,
        },
{
    let ghost w = s@.subrange(from as int, to as int);
    if from == to {
        return None;
    }
    let mut v: u64 = 0;
    let mut i: usize = from;
    while i < to
        invariant
            from <= i <= to <= s@.len(),
            w == s@.subrange(from as int, to as int),
            forall|k: int| from <= k < i ==> is_digit(#[trigger] s@[k]),
            v as nat == digits_value(s@.subrange(from as int, i as int)),
            v <= limit,
        decreases to - i,
    {
        let b = s[i];
        proof {
            assert(s@.subrange(from as int, i + 1).drop_last() =~= s@.subrange(
                from as int,
                i as int,
            ));
        }
        if b < 48 || b > 57 {
            proof {
                assert(w[i - from] == b);
            }
            return None;
        }
        let d = (b - 48) as u64;
        if d > limit || v > (limit - d) / 10 {
            proof {
                let p = s@.subrange(from as int, i + 1);
                assert(p.drop_last() =~= s@.subrange(from as int, i as int));
                assert(digits_value(p) == v * 10 + d);
                assert(v * 10 + d > limit) by (nonlinear_arith)
                    requires
                        d > limit || v > (limit - d) / 10,
                ;
                if all_digits(w) {
                    lemma_digits_monotone(w, i - from + 1);
                    assert(w.take(i - from + 1) =~= p);
                }
            }
            return None;
        }
        proof {
            assert(v * 10 + d <= limit) by (nonlinear_arith)
                requires
                    v <= (limit - d) / 10,
                    d <= 9,
            ;
        }
        v = v * 10 + d;
        i = i + 1;
    }
    proof {
        assert(s@.subrange(from as int, i as int) =~= w);
    }
    Some(v)
}

proof fn lemma_digits_monotone(s: Seq<u8>, n: int)
    requires
        0 <= n <= s.len(),
        forall|i: int| 0 <= i < s.len() ==> is_digit(#[trigger] s[i]),
    ensures
        digits_value(s.take(n)) <= digits_value(s),
    decreases s.len() - n,
{
    if n < s.len() {
        lemma_digits_monotone(s, n + 1);
        assert(s.take(n + 1).drop_last() =~= s.take(n));
        assert(digits_value(s.take(n)) <= digits_value(s.take(n + 1))) by (nonlinear_arith)
            requires
                digits_value(s.take(n + 1)) == digits_value(s.take(n)) * 10 + (s.take(
                    n + 1,
                ).last() - 48) as nat,
        ;
    } else {
        assert(s.take(n) =~= s);
    }
}

/// The pieces of `m` between newline bytes; there is always at least one.
pub open spec fn split_lines(m: Seq<u8>) -> Seq<Seq<u8>>
    decreases m.len(),
{
    match find_seq(m, seq![10u8]) {
        Some(i) => if 0 <= i < m.len() {
            seq![m.take(i)] + split_lines(m.skip(i + 1))
        } else {
            seq![m]
        },
        None => seq![m],
    }
}

pub proof fn lemma_find_in_range(s: Seq<u8>, pat: Seq<u8>)
    ensures
        match find_seq(s, pat) {
            Some(i) => 0 <= i && i + pat.len() <= s.len() && s.subrange(i, i + pat.len()) == pat,
            None => true,
        },
    decreases s.len(),
{
    if s.len() >= pat.len() && s.take(pat.len() as int) != pat && s.len() > 0 {
        lemma_find_in_range(s.skip(1), pat);
        match find_seq(s.skip(1), pat) {
            Some(k) => {
                assert(s.skip(1).subrange(k, k + pat.len()) =~= s.subrange(k + 1, k + 1 + pat.len()));
            },
            None => {},
        }
    } else if s.len() >= pat.len() && s.take(pat.len() as int) == pat {
        assert(s.subrange(0, pat.len() as int) =~= s.take(pat.len() as int));
    }
}

/// Where the lines of `s[from..to]` start and end, as indices into `s`.
pub fn line_ranges(s: &[u8], from: usize, to: usize) -> (r: Vec<(usize, usize)>)
    requires
        from <= to <= s@.len(),
    ensures
        r@.len() == split_lines(s@.subrange(from as int, to as int)).len(),
        forall|i: int|
            0 <= i < r@.len() ==> {
                &&& from <= (#[trigger] r@[i]).0 <= r@[i].1 <= to
                &&& s@.subrange(r@[i].0 as int, r@[i].1 as int) == split_lines(
                    s@.subrange(from as int, to as int),
                )[i]
                &&& (r@[i].0 == from || s@[r@[i].0 - 1] == 10)
                &&& (r@[i].1 == to || s@[r@[i].1 as int] == 10)
            },
{
    let ghost all = split_lines(s@.subrange(from as int, to as int));
    let nl: Vec<u8> = vec![10u8];
    let mut r: Vec<(usize, usize)> = Vec::new();
    let mut pos: usize = from;
    loop
        invariant
            from <= pos <= to <= s@.len(),
            nl@ == seq![10u8],
            all == split_lines(s@.subrange(from as int, to as int)),
            r@.len() < all.len(),
            split_lines(s@.subrange(pos as int, to as int)) == all.skip(r@.len() as int),
            pos == from || s@[pos - 1] == 10,
            forall|i: int|
                0 <= i < r@.len() ==> {
                    &&& from <= (#[trigger] r@[i]).0 <= r@[i].1 <= to
                    &&& s@.subrange(r@[i].0 as int, r@[i].1 as int) == all[i]
                    &&& (r@[i].0 == from || s@[r@[i].0 - 1] == 10)
                    &&& (r@[i].1 == to || s@[r@[i].1 as int] == 10)
                },
        decreases to - pos,
    {
        let ghost m = s@.subrange(pos as int, to as int);
        proof {
            lemma_find_in_range(m, seq![10u8]);
        }
        match find_in(s, pos, to, nl.as_slice()) {
            Some(e) => {
                proof {
                    assert(m.subrange(e - pos, e - pos + 1)[0] == 10);
                    assert(m.take(e - pos) =~= s@.subrange(pos as int, e as int));
                    assert(m.skip(e - pos + 1) =~= s@.subrange(e + 1, to as int));
                    assert(all.skip(r@.len() as int)[0] == s@.subrange(pos as int, e as int));
                    assert(all.skip(r@.len() + 1 as int) =~= all.skip(r@.len() as int).skip(1));
                    assert(all.skip(r@.len() as int).skip(1) =~= split_lines(
                        s@.subrange(e + 1, to as int),
                    ));
                }
                r.push((pos, e));
                pos = e + 1;
            },
            None => {
                proof {
                    assert(split_lines(m) == seq![m]);
                    assert(all.skip(r@.len() as int).len() == 1);
                    assert(all.skip(r@.len() as int)[0] == m);
                    assert(all[r@.len() as int] == m);
                }
                r.push((pos, to));
                return r;
            },
        }
    }
}

/// The decimal digits of a number, with no leading zeros.
pub open spec fn decimal_bytes(v: nat) -> Seq<u8>
    decreases v,
{
    if v < 10 {
        seq![(v + 48) as u8]
    } else {
        decimal_bytes(v / 10) + seq![(v % 10 + 48) as u8]
    }
}

/// A byte missing from `x` is first found right after it.
pub proof fn lemma_find_byte_after(x: Seq<u8>, b: u8, y: Seq<u8>)
    requires
        !x.contains(b),
    ensures
        find_seq(x + seq![b] + y, seq![b]) == Some(x.len() as int),
    decreases x.len(),
{
    let s = x + seq![b] + y;
    if x.len() == 0 {
        assert(s.take(1) =~= seq![b]);
    } else {
        assert(s.take(1)[0] == x[0]);
        assert(x[0] != b);
        assert(s.take(1) != seq![b]);
        assert(!x.skip(1).contains(b)) by {
            if x.skip(1).contains(b) {
                let i = choose|i: int| 0 <= i < x.skip(1).len() && x.skip(1)[i] == b;
                assert(x[i + 1] == b);
            }
        }
        lemma_find_byte_after(x.skip(1), b, y);
        assert(s.skip(1) =~= x.skip(1) + seq![b] + y);
    }
}

/// The decimal digits of a number are digits and denote it.
pub proof fn lemma_decimal_bytes(v: nat)
    ensures
        all_digits(decimal_bytes(v)),
        digits_value(decimal_bytes(v)) == v,
        !decimal_bytes(v).contains(0u8),
        !decimal_bytes(v).contains(32u8),
    decreases v,
{
    let d = decimal_bytes(v);
    if v >= 10 {
        lemma_decimal_bytes(v / 10);
        assert(d.drop_last() =~= decimal_bytes(v / 10));
        assert(v == (v / 10) * 10 + v % 10);
        assert(d.last() == (v % 10 + 48) as u8);
        assert(digits_value(d) == digits_value(d.drop_last()) * 10 + (d.last() - 48) as nat);
    } else {
        assert(d.drop_last() =~= Seq::<u8>::empty());
        assert(digits_value(Seq::<u8>::empty()) == 0);
        assert(digits_value(d) == digits_value(d.drop_last()) * 10 + (d.last() - 48) as nat);
    }
    assert forall|i: int| 0 <= i < d.len() implies is_digit(#[trigger] d[i]) by {
        if v >= 10 && i < d.len() - 1 {
            assert(d[i] == decimal_bytes(v / 10)[i]);
        }
    }
    if d.contains(0u8) {
        let i = choose|i: int| 0 <= i < d.len() && d[i] == 0u8;
        assert(is_digit(d[i]));
    }
    if d.contains(32u8) {
        let i = choose|i: int| 0 <= i < d.len() && d[i] == 32u8;
        assert(is_digit(d[i]));
    }
}

/// Appends the decimal digits of `v`.
pub fn push_decimal(out: &mut Vec<u8>, v: u64)
    ensures
        final(out)@ == old(out)@ + decimal_bytes(v as nat),
    decreases v,
{
    if v >= 10 {
        push_decimal(out, v / 10);
    }
    out.push((v % 10) as u8 + 48);
}

/// Appends all of `src` to `out`.
pub fn push_all(out: &mut Vec<u8>, src: &[u8])
    ensures
        final(out)@ == old(out)@ + src@,
{
    out.extend_from_slice(src);
}

} // verus!
