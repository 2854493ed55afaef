//! Character-level string helpers.
//!
//! The codec and the decoder work on `Seq<char>` views; this module gives
//! them executable counterparts: conversion between `&str` and `Vec<char>`,
//! lexicographic comparison (the order label keys are kept in), splitting
//! on the unified-key separators, substring search, and decimal rendering
//! of integers.

use vstd::prelude::*;
use vstd::string::StrSliceExecFns;

verus! {

/// Turns a string into its character sequence.
pub fn str_to_chars(s: &str) -> (v: Vec<char>)
    ensures
        v@ == s@,
{
    let n = s.unicode_len();
    let mut v: Vec<char> = Vec::new();
    let mut i: usize = 0;
    while i < n
        invariant
            i <= n,
            n == s@.len(),
            v@ == s@.subrange(0, i as int),
        decreases n - i,
    {
        v.push(s.get_char(i));
        proof {
            assert(v@ =~= s@.subrange(0, i + 1 as int));
        }
        i += 1;
    }
    proof {
        assert(v@ =~= s@);
    }
    v
}

/// Relies on `String`'s `FromIterator<char>`: collecting characters in
/// order yields exactly the string of those characters.
#[verifier::external_body]
pub fn chars_to_string(v: &Vec<char>) -> (r: String)
    ensures
        r@ == v@,
{
    v.iter().collect()
}

/// Whether the string views are equal, decided character by character.
pub fn str_eq_str(a: &str, b: &str) -> (r: bool)
    ensures
        r == (a@ == b@),
{
    let alen = a.unicode_len();
    let blen = b.unicode_len();
    if alen != blen {
        return false;
    }
    let mut i: usize = 0;
    while i < alen
        invariant
            i <= alen,
            alen == a@.len(),
            alen == b@.len(),
            a@.subrange(0, i as int) == b@.subrange(0, i as int),
        decreases alen - i,
    {
        if a.get_char(i) != b.get_char(i) {
            proof {
                assert(a@[i as int] != b@[i as int]);
            }
            return false;
        }
        proof {
            assert(a@.subrange(0, i + 1 as int) =~= a@.subrange(0, i as int).push(a@[i as int]));
            assert(b@.subrange(0, i + 1 as int) =~= b@.subrange(0, i as int).push(b@[i as int]));
        }
        i += 1;
    }
    proof {
        assert(a@ =~= a@.subrange(0, alen as int));
        assert(b@ =~= b@.subrange(0, alen as int));
    }
    true
}

/// Strict lexicographic order on character sequences by code point; this
/// coincides with the byte order of the UTF-8 encodings, so it is the
/// order an ordered map of `String` keys would use.
pub open spec fn lex_lt(a: Seq<char>, b: Seq<char>) -> bool
    decreases a.len(),
{
    if b.len() == 0 {
        false
    } else if a.len() == 0 {
        true
    } else if a[0] != b[0] {
        (a[0] as int) < (b[0] as int)
    } else {
        lex_lt(a.drop_first(), b.drop_first())
    }
}

/// Decides `lex_lt` on two strings.
pub fn str_lt(a: &str, b: &str) -> (r: bool)
    ensures
        r == lex_lt(a@, b@),
{
    let alen = a.unicode_len();
    let blen = b.unicode_len();
    let mut i: usize = 0;
    proof {
        assert(a@.skip(0) =~= a@);
        assert(b@.skip(0) =~= b@);
    }
    loop
        invariant
            i <= alen,
            i <= blen,
            alen == a@.len(),
            blen == b@.len(),
            lex_lt(a@, b@) == lex_lt(a@.skip(i as int), b@.skip(i as int)),
        decreases alen - i,
    {
        if i >= blen {
            proof {
                assert(b@.skip(i as int).len() == 0);
            }
            return false;
        }
        if i >= alen {
            proof {
                assert(a@.skip(i as int).len() == 0);
                assert(b@.skip(i as int).len() > 0);
            }
            return true;
        }
        let ca = a.get_char(i);
        let cb = b.get_char(i);
        proof {
            assert(a@.skip(i as int)[0] == a@[i as int]);
            assert(b@.skip(i as int)[0] == b@[i as int]);
        }
        if ca != cb {
            return (ca as u32) < (cb as u32);
        }
        proof {
            assert(a@.skip(i as int).drop_first() =~= a@.skip(i + 1 as int));
            assert(b@.skip(i as int).drop_first() =~= b@.skip(i + 1 as int));
        }
        i += 1;
    }
}

/// The two separators of the unified key encoding.
pub open spec fn is_sep(c: char) -> bool {
    c == '&' || c == '='
}

/// Whether a piece of a key (name, label key or label value) is free of
/// the separators, the precondition of a lossless round trip.
pub open spec fn sep_free(s: Seq<char>) -> bool {
    forall|i: int| 0 <= i < s.len() ==> !is_sep(#[trigger] s[i])
}

/// Splitting on the separator set, with `cur` the piece read so far:
/// every separator ends a piece, so n separators give n + 1 pieces.
pub open spec fn split_rec(s: Seq<char>, cur: Seq<char>) -> Seq<Seq<char>>
    decreases s.len(),
{
    if s.len() == 0 {
        seq![cur]
    } else if is_sep(s[0]) {
        seq![cur] + split_rec(s.drop_first(), Seq::empty())
    } else {
        split_rec(s.drop_first(), cur.push(s[0]))
    }
}

/// The pieces of `s` between separators, in order.
pub open spec fn split_seps(s: Seq<char>) -> Seq<Seq<char>> {
    split_rec(s, Seq::empty())
}

/// Splits a string on `&` and `=`, returning the pieces in order.
pub fn split_token(s: &str) -> (parts: Vec<String>)
    ensures
        parts@.map_values(|p: String| p@) == split_seps(s@),
        parts@.len() >= 1,
{
    let chars = str_to_chars(s);
    let n = chars.len();
    let mut parts: Vec<String> = Vec::new();
    let mut cur: Vec<char> = Vec::new();
    let mut i: usize = 0;
    proof {
        assert(s@.skip(0) =~= s@);
    }
    while i < n
        invariant
            i <= n,
            n == s@.len(),
            chars@ == s@,
            split_seps(s@) == parts@.map_values(|p: String| p@) + split_rec(
                s@.skip(i as int),
                cur@,
            ),
        decreases n - i,
    {
        let c = chars[i];
        proof {
            assert(s@.skip(i as int)[0] == s@[i as int]);
            assert(s@.skip(i as int).drop_first() =~= s@.skip(i + 1 as int));
        }
        if c == '&' || c == '=' {
            let piece = chars_to_string(&cur);
            let ghost old_parts = parts@;
            parts.push(piece);
            cur = Vec::new();
            proof {
                assert(parts@.map_values(|p: String| p@) =~= old_parts.map_values(
                    |p: String| p@,
                ).push(piece@));
            }
        } else {
            cur.push(c);
        }
        i += 1;
    }
    proof {
        assert(s@.skip(n as int).len() == 0);
    }
    let piece = chars_to_string(&cur);
    let ghost old_parts = parts@;
    parts.push(piece);
    proof {
        assert(parts@.map_values(|p: String| p@) =~= old_parts.map_values(|p: String| p@).push(
            piece@,
        ));
    }
    parts
}

/// Whether `sub` occurs contiguously in `s`.
pub open spec fn has_substr(s: Seq<char>, sub: Seq<char>) -> bool {
    exists|k: int|
        0 <= k && k + sub.len() <= s.len() && #[trigger] s.subrange(k, k + sub.len()) == sub
}

/// Decides `has_substr`, by trying every start position.
pub fn contains_sub(s: &str, sub: &str) -> (r: bool)
    ensures
        r == has_substr(s@, sub@),
{
    let sc = str_to_chars(s);
    let pc = str_to_chars(sub);
    let n = sc.len();
    let m = pc.len();
    if m > n {
        return false;
    }
    if m == 0 {
        proof {
            assert(has_substr(s@, sub@)) by {
                assert(s@.subrange(0, 0 + sub@.len() as int) =~= sub@);
            }
        }
        return true;
    }
    let mut k: usize = 0;
    while k <= n - m
        invariant
            0 <= k <= n - m + 1,
            1 <= m <= n,
            n == s@.len(),
            m == sub@.len(),
            sc@ == s@,
            pc@ == sub@,
            forall|j: int| 0 <= j < k ==> #[trigger] s@.subrange(j, j + sub@.len()) != sub@,
        decreases n + 1 - m - k,
    {
        let mut j: usize = 0;
        let mut hit = true;
        proof {
            assert(s@.subrange(k as int, k as int) =~= sub@.subrange(0, 0));
        }
        while j < m
            invariant
                0 <= j <= m,
                1 <= m,
                k + m <= n,
                n == s@.len(),
                m == sub@.len(),
                sc@ == s@,
                pc@ == sub@,
                hit == (s@.subrange(k as int, k + j) == sub@.subrange(0, j as int)),
            decreases m - j,
        {
            let ghost pre_s = s@.subrange(k as int, k + j);
            let ghost pre_p = sub@.subrange(0, j as int);
            let ghost ext_s = s@.subrange(k as int, k + j + 1);
            let ghost ext_p = sub@.subrange(0, j + 1);
            proof {
                assert(ext_s =~= pre_s.push(s@[k + j]));
                assert(ext_p =~= pre_p.push(sub@[j as int]));
                assert(ext_s.drop_last() =~= pre_s);
                assert(ext_p.drop_last() =~= pre_p);
            }
            if sc[k + j] != pc[j] {
                hit = false;
                proof {
                    assert(ext_s.last() != ext_p.last());
                }
            } else {
                proof {
                    if pre_s != pre_p {
                        assert(ext_s != ext_p) by {
                            if ext_s == ext_p {
                                assert(ext_s.drop_last() == ext_p.drop_last());
                            }
                        }
                    }
                }
            }
            j += 1;
        }
        if hit {
            proof {
                assert(sub@.subrange(0, m as int) =~= sub@);
                assert(s@.subrange(k as int, k + m) == sub@);
            }
            return true;
        }
        proof {
            assert(sub@.subrange(0, m as int) =~= sub@);
        }
        k += 1;
    }
    proof {
        assert forall|j: int| 0 <= j && j + sub@.len() <= s@.len() implies #[trigger] s@.subrange(
            j,
            j + sub@.len(),
        ) != sub@ by {
            assert(j < k);
        }
    }
    false
}

/// The decimal digit character of `d`.
pub open spec fn dec_digit(d: int) -> char {
    if d == 0 {
        '0'
    } else if d == 1 {
        '1'
    } else if d == 2 {
        '2'
    } else if d == 3 {
        '3'
    } else if d == 4 {
        '4'
    } else if d == 5 {
        '5'
    } else if d == 6 {
        '6'
    } else if d == 7 {
        '7'
    } else if d == 8 {
        '8'
    } else {
        '9'
    }
}

/// The decimal rendering of `n`, most significant digit first, no leading
/// zeros (except for `0` itself).
pub open spec fn dec_str(n: nat) -> Seq<char>
    decreases n,
{
    if n < 10 {
        seq![dec_digit(n as int)]
    } else {
        dec_str(n / 10) + seq![dec_digit((n % 10) as int)]
    }
}

/// The decimal rendering of a signed value: a `-` sign, then the digits
/// of the magnitude.
pub open spec fn dec_str_signed(v: int) -> Seq<char> {
    if v < 0 {
        seq!['-'] + dec_str((-v) as nat)
    } else {
        dec_str(v as nat)
    }
}

fn dec_digit_exec(d: u64) -> (c: char)
    requires
        d < 10,
    ensures
        c == dec_digit(d as int),
{
    match d {
        0 => '0',
        1 => '1',
        2 => '2',
        3 => '3',
        4 => '4',
        5 => '5',
        6 => '6',
        7 => '7',
        8 => '8',
        _ => '9',
    }
}

/// Renders `n` in decimal.
pub fn u64_dec(n: u64) -> (r: String)
    ensures
        r@ == dec_str(n as nat),
{
    if n == 0 {
        let mut digits: Vec<char> = Vec::new();
        digits.push('0');
        proof {
            assert(digits@ =~= dec_str(0));
        }
        return chars_to_string(&digits);
    }
    let mut digits: Vec<char> = Vec::new();
    let mut m = n;
    proof {
        assert(dec_str(n as nat) + Seq::<char>::empty() =~= dec_str(n as nat));
    }
    while m > 0
        invariant
            m > 0 ==> dec_str(n as nat) == dec_str(m as nat) + digits@,
            m == 0 ==> dec_str(n as nat) == digits@,
        decreases m,
    {
        let ghost m0 = m as nat;
        let ghost old_digits = digits@;
        let d = dec_digit_exec(m % 10);
        digits.insert(0, d);
        proof {
            assert(digits@ =~= seq![d] + old_digits);
        }
        m = m / 10;
        proof {
            if m0 >= 10 {
                assert(dec_str(m0) == dec_str(m0 / 10) + seq![dec_digit((m0 % 10) as int)]);
                assert(dec_str(m0 / 10) + (seq![d] + old_digits) =~= (dec_str(m0 / 10)
                    + seq![d]) + old_digits);
            } else {
                assert(dec_str(m0) == seq![dec_digit(m0 as int)]);
                assert(seq![d] + old_digits =~= dec_str(m0) + old_digits);
            }
        }
    }
    chars_to_string(&digits)
}

/// `s` with the non-overlapping occurrences of `pat` removed, scanning
/// left to right; an empty pattern removes nothing.
pub open spec fn remove_occ(s: Seq<char>, pat: Seq<char>) -> Seq<char>
    decreases s.len(),
{
    if pat.len() == 0 || s.len() < pat.len() {
        s
    } else if s.take(pat.len() as int) == pat {
        remove_occ(s.skip(pat.len() as int), pat)
    } else {
        seq![s[0]] + remove_occ(s.drop_first(), pat)
    }
}

/// Removes every non-overlapping occurrence of `pat`, left to right.
#[verifier::loop_isolation(false)]
pub fn remove_all(s: &str, pat: &str) -> (r: String)
    ensures
        r@ == remove_occ(s@, pat@),
{
    let sc = str_to_chars(s);
    let pc = str_to_chars(pat);
    let n = sc.len();
    let m = pc.len();
    if m == 0 {
        return chars_to_string(&sc);
    }
    let mut out: Vec<char> = Vec::new();
    let mut i: usize = 0;
    proof {
        assert(s@.skip(0) =~= s@);
        assert(out@ + remove_occ(s@, pat@) =~= remove_occ(s@, pat@));
    }
    while i < n
        invariant
            i <= n,
            n == s@.len(),
            m == pat@.len(),
            1 <= m,
            sc@ == s@,
            pc@ == pat@,
            remove_occ(s@, pat@) == out@ + remove_occ(s@.skip(i as int), pat@),
        decreases n - i,
    {
        let mut is_hit = m <= n - i;
        if is_hit {
            let mut q: usize = 0;
            proof {
                assert(s@.subrange(i as int, i as int) =~= pat@.subrange(0, 0));
            }
            while q < m
                invariant
                    q <= m,
                    i + m <= n,
                    is_hit == (s@.subrange(i as int, i + q) == pat@.subrange(0, q as int)),
                decreases m - q,
            {
                let ghost pre_s = s@.subrange(i as int, i + q);
                let ghost pre_p = pat@.subrange(0, q as int);
                let ghost ext_s = s@.subrange(i as int, i + q + 1);
                let ghost ext_p = pat@.subrange(0, q + 1);
                proof {
                    assert(ext_s =~= pre_s.push(s@[i + q]));
                    assert(ext_p =~= pre_p.push(pat@[q as int]));
                    assert(ext_s.drop_last() =~= pre_s);
                    assert(ext_p.drop_last() =~= pre_p);
                }
                if sc[i + q] != pc[q] {
                    is_hit = false;
                    proof {
                        assert(ext_s.last() != ext_p.last());
                    }
                } else {
                    proof {
                        if pre_s != pre_p {
                            assert(ext_s != ext_p) by {
                                if ext_s == ext_p {
                                    assert(ext_s.drop_last() == ext_p.drop_last());
                                }
                            }
                        }
                    }
                }
                q += 1;
            }
        }
        if is_hit {
            proof {
                assert(pat@.subrange(0, m as int) =~= pat@);
                assert(s@.skip(i as int).take(m as int) =~= s@.subrange(i as int, i + m));
                assert(s@.skip(i as int).skip(m as int) =~= s@.skip(i + m));
            }
            i += m;
        } else {
            proof {
                if i + m <= n {
                    assert(s@.skip(i as int).take(m as int) =~= s@.subrange(i as int, i + m));
                    assert(pat@.subrange(0, m as int) =~= pat@);
                }
                assert(s@.skip(i as int)[0] == s@[i as int]);
                assert(s@.skip(i as int).drop_first() =~= s@.skip(i + 1));
            }
            let ghost pre_out = out@;
            out.push(sc[i]);
            proof {
                assert(out@ =~= pre_out.push(s@[i as int]));
                assert(pre_out + (seq![s@[i as int]] + remove_occ(s@.skip(i + 1), pat@))
                    =~= out@ + remove_occ(s@.skip(i + 1), pat@));
            }
            i += 1;
        }
    }
    proof {
        assert(s@.skip(n as int).len() == 0);
        assert(remove_occ(s@.skip(n as int), pat@) =~= Seq::<char>::empty());
        assert(out@ + Seq::<char>::empty() =~= out@);
    }
    chars_to_string(&out)
}

/// What follows the last path separator of `s` (all of `s` when there
/// is none).
pub open spec fn file_part(s: Seq<char>) -> Seq<char>
    decreases s.len(),
{
    if !s.contains('/') {
        s
    } else {
        file_part(s.drop_first())
    }
}

/// Peeling front characters up to and including the last separator
/// leaves the file part.
proof fn lemma_file_part_skip(s: Seq<char>, k: int)
    requires
        0 <= k < s.len(),
        s[k] == '/',
        forall|i: int| k < i < s.len() ==> s[i] != '/',
    ensures
        file_part(s) == s.skip(k + 1),
    decreases k,
{
    assert(s.contains('/'));
    let d = s.drop_first();
    if k == 0 {
        assert(!d.contains('/')) by {
            if d.contains('/') {
                let w = choose|i: int| 0 <= i < d.len() && d[i] == '/';
                assert(d[w] == s[w + 1]);
                assert(s[w + 1] == '/');
            }
        }
        assert(d =~= s.skip(1));
        assert(file_part(s) == file_part(d));
        assert(file_part(d) == d);
    } else {
        assert(d[k - 1] == '/');
        assert forall|i: int| k - 1 < i < d.len() implies d[i] != '/' by {
            assert(d[i] == s[i + 1]);
        }
        lemma_file_part_skip(d, k - 1);
        assert(file_part(s) == file_part(d));
        assert(file_part(d) == d.skip(k));
        assert(d.skip(k) =~= s.skip(k + 1));
    }
}

/// The file part of a path: what follows the last `/`.
#[verifier::loop_isolation(false)]
pub fn file_name_of(path: &str) -> (r: String)
    ensures
        r@ == file_part(path@),
{
    let pc = str_to_chars(path);
    let n = pc.len();
    let mut start: usize = 0;
    let mut i: usize = 0;
    while i < n
        invariant
            i <= n,
            n == path@.len(),
            pc@ == path@,
            start <= i,
            start > 0 ==> path@[start - 1] == '/',
            forall|p: int| start <= p < i ==> path@[p] != '/',
        decreases n - i,
    {
        if pc[i] == '/' {
            start = i + 1;
        }
        i += 1;
    }
    let mut out: Vec<char> = Vec::new();
    let mut j: usize = start;
    while j < n
        invariant
            start <= j <= n,
            n == path@.len(),
            pc@ == path@,
            out@ == path@.subrange(start as int, j as int),
        decreases n - j,
    {
        out.push(pc[j]);
        proof {
            assert(out@ =~= path@.subrange(start as int, j + 1));
        }
        j += 1;
    }
    proof {
        if start == 0 {
            assert(!path@.contains('/')) by {
                if path@.contains('/') {
                    let w = choose|i: int| 0 <= i < path@.len() && path@[i] == '/';
                }
            }
            assert(out@ =~= path@);
        } else {
            lemma_file_part_skip(path@, start - 1);
            assert(out@ =~= path@.skip(start as int));
        }
    }
    chars_to_string(&out)
}

/// Renders a signed value in decimal.
pub fn i64_dec(v: i64) -> (r: String)
    ensures
        r@ == dec_str_signed(v as int),
{
    if v >= 0 {
        u64_dec(v as u64)
    } else {
        let neg: i64 = -1 - v;
        let mag: u64 = (neg as u64) + 1;
        proof {
            assert(mag == -(v as int));
        }
        let digits = u64_dec(mag);
        let mut out: Vec<char> = Vec::new();
        out.push('-');
        let mut dc = str_to_chars(digits.as_str());
        out.append(&mut dc);
        proof {
            assert(out@ =~= seq!['-'] + dec_str(mag as nat));
        }
        chars_to_string(&out)
    }
}

} // verus!
