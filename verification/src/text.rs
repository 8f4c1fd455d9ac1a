//! Character-level helpers over string views.

use vstd::prelude::*;

verus! {

/// The characters of `s`, in order.
pub fn str_chars(s: &str) -> (r: Vec<char>)
    ensures
        r@ == s@,
{
    let mut v: Vec<char> = Vec::new();
    for c in it: s.chars()
        invariant
            v@ == it.seq().take(it.index() as int),
    {
        v.push(c);
        assert(v@ =~= it.seq().take(it.index() as int + 1));
    }
    v
}


/// `String::from_iter` over characters: the string made of exactly these
/// characters, in order.
#[verifier::external_body]
pub fn string_from_chars(cs: &Vec<char>) -> (r: String)
    ensures
        r@ == cs@,
{
    cs.iter().collect()
}

/// Unicode `White_Space`, the characters `char::is_whitespace` accepts.
pub open spec fn is_ws(c: char) -> bool {
    let u = c as u32;
    (0x9 <= u && u <= 0xd) || u == 0x20 || u == 0x85 || u == 0xa0 || u == 0x1680
        || (0x2000 <= u && u <= 0x200a) || u == 0x2028 || u == 0x2029 || u == 0x202f
        || u == 0x205f || u == 0x3000
}

/// Whether `c` is Unicode white space.
pub fn is_whitespace_char(c: char) -> (r: bool)
    ensures
        r == is_ws(c),
{
    let u = c as u32;
    (0x9 <= u && u <= 0xd) || u == 0x20 || u == 0x85 || u == 0xa0 || u == 0x1680
        || (0x2000 <= u && u <= 0x200a) || u == 0x2028 || u == 0x2029 || u == 0x202f
        || u == 0x205f || u == 0x3000
}

/// What `char::is_alphanumeric` answers for `c`.
pub uninterp spec fn alphanumeric(c: char) -> bool;

/// `char::is_alphanumeric`: whether `c` is alphabetic or numeric in
/// Unicode. The contract names the answer and states only that ASCII
/// letters and digits are alphanumeric; the Unicode tables behind the rest
/// are not written out.
#[verifier::external_body]
pub fn is_alphanumeric_char(c: char) -> (r: bool)
    ensures
        r == alphanumeric(c),
        ('a' <= c && c <= 'z') || ('A' <= c && c <= 'Z') || ('0' <= c && c <= '9') ==> r,
{
    c.is_alphanumeric()
}

/// `char::from_u32`: the character with scalar value `code`, when `code` is
/// a Unicode scalar value (below 0x110000 and not a surrogate).
#[verifier::external_body]
pub fn char_from_u32(code: u32) -> (r: Option<char>)
    ensures
        r is Some <==> (code < 0xd800 || (0xdfff < code && code < 0x110000)),
        r matches Some(c) ==> c as u32 == code && c == code as char,
{
    char::from_u32(code)
}

/// Appends the characters of `s`.
pub fn push_str(v: &mut Vec<char>, s: &str)
    ensures
        final(v)@ == old(v)@ + s@,
{
    let cs = str_chars(s);
    let mut i: usize = 0;
    while i < cs.len()
        invariant
            i <= cs@.len(),
            cs@ == s@,
            v@ == old(v)@ + cs@.take(i as int),
        decreases cs@.len() - i,
    {
        v.push(cs[i]);
        assert(cs@.take(i + 1) == cs@.take(i as int).push(cs@[i as int]));
        i += 1;
    }
    assert(cs@.take(cs@.len() as int) == cs@);
}

/// The decimal digits of `n`.
pub open spec fn decimal(n: nat) -> Seq<char>
    decreases n,
{
    if n < 10 {
        seq![digit_char(n)]
    } else {
        decimal(n / 10) + seq![digit_char(n % 10)]
    }
}

/// The character of a decimal digit.
pub open spec fn digit_char(d: nat) -> char {
    if d == 0 { '0' } else if d == 1 { '1' } else if d == 2 { '2' } else if d == 3 { '3' }
    else if d == 4 { '4' } else if d == 5 { '5' } else if d == 6 { '6' } else if d == 7 { '7' }
    else if d == 8 { '8' } else { '9' }
}

fn digit(d: usize) -> (r: char)
    requires
        d < 10,
    ensures
        r == digit_char(d as nat),
{
    if d == 0 { '0' } else if d == 1 { '1' } else if d == 2 { '2' } else if d == 3 { '3' }
    else if d == 4 { '4' } else if d == 5 { '5' } else if d == 6 { '6' } else if d == 7 { '7' }
    else if d == 8 { '8' } else { '9' }
}

/// Appends the decimal digits of `n`.
pub fn push_decimal(v: &mut Vec<char>, n: usize)
    ensures
        final(v)@ == old(v)@ + decimal(n as nat),
    decreases n,
{
    if n < 10 {
        v.push(digit(n));
        assert(v@ =~= old(v)@ + decimal(n as nat));
    } else {
        push_decimal(v, n / 10);
        v.push(digit(n % 10));
        assert(v@ =~= old(v)@ + decimal(n as nat));
    }
}


/// Appends the decimal digits of a `u64`.
pub fn push_decimal_u64(v: &mut Vec<char>, n: u64)
    ensures
        final(v)@ == old(v)@ + decimal(n as nat),
    decreases n,
{
    if n < 10 {
        v.push(digit(n as usize));
        assert(v@ =~= old(v)@ + decimal(n as nat));
    } else {
        push_decimal_u64(v, n / 10);
        v.push(digit((n % 10) as usize));
        assert(v@ =~= old(v)@ + decimal(n as nat));
    }
}

/// Whether two character sequences are equal.
pub fn chars_eq(a: &Vec<char>, b: &Vec<char>) -> (r: bool)
    ensures
        r == (a@ == b@),
{
    if a.len() != b.len() {
        return false;
    }
    let mut i: usize = 0;
    while i < a.len()
        invariant
            a@.len() == b@.len(),
            i <= a@.len(),
            forall|j: int| 0 <= j < i ==> a@[j] == b@[j],
        decreases a@.len() - i,
    {
        if a[i] != b[i] {
            return false;
        }
        i += 1;
    }
    assert(a@ =~= b@);
    true
}

/// Whether two strings hold the same characters.
pub fn str_eq(a: &str, b: &str) -> (r: bool)
    ensures
        r == (a@ == b@),
{
    let x = str_chars(a);
    let y = str_chars(b);
    chars_eq(&x, &y)
}

/// `s` begins with `pre`.
pub open spec fn has_prefix(s: Seq<char>, pre: Seq<char>) -> bool {
    pre.len() <= s.len() && s.subrange(0, pre.len() as int) == pre
}

/// `s` ends with `suf`.
pub open spec fn has_suffix(s: Seq<char>, suf: Seq<char>) -> bool {
    suf.len() <= s.len() && s.subrange(s.len() - suf.len(), s.len() as int) == suf
}

/// `pat` occurs in `s` at position `i`.
pub open spec fn occurs_at(s: Seq<char>, pat: Seq<char>, i: int) -> bool {
    0 <= i && i + pat.len() <= s.len() && s.subrange(i, i + pat.len()) == pat
}

/// `pat` occurs somewhere in `s`.
pub open spec fn has_sub(s: Seq<char>, pat: Seq<char>) -> bool {
    exists|i: int| #[trigger] occurs_at(s, pat, i)
}

/// Whether `pat` occurs in `s` at position `i`.
pub fn matches_at(s: &Vec<char>, pat: &Vec<char>, i: usize) -> (r: bool)
    ensures
        r == occurs_at(s@, pat@, i as int),
{
    if i > s.len() || s.len() - i < pat.len() {
        return false;
    }
    let mut k: usize = 0;
    while k < pat.len()
        invariant
            i + pat@.len() <= s@.len(),
            s@.len() == s.len(),
            k <= pat@.len(),
            forall|j: int| 0 <= j < k ==> s@[i + j] == pat@[j],
        decreases pat@.len() - k,
    {
        if s[i + k] != pat[k] {
            assert(s@.subrange(i as int, i + pat@.len())[k as int] != pat@[k as int]);
            return false;
        }
        k += 1;
    }
    assert(s@.subrange(i as int, i + pat@.len()) =~= pat@);
    true
}

/// Whether `s` begins with `pre`.
pub fn starts_with_chars(s: &Vec<char>, pre: &str) -> (r: bool)
    ensures
        r == has_prefix(s@, pre@),
{
    let p = str_chars(pre);
    matches_at(s, &p, 0)
}

/// Whether `s` ends with `suf`.
pub fn ends_with_chars(s: &Vec<char>, suf: &str) -> (r: bool)
    ensures
        r == has_suffix(s@, suf@),
{
    let p = str_chars(suf);
    if p.len() > s.len() {
        return false;
    }
    matches_at(s, &p, s.len() - p.len())
}

/// Whether `pat` occurs in `s`.
pub fn contains_chars(s: &Vec<char>, pat: &str) -> (r: bool)
    ensures
        r == has_sub(s@, pat@),
{
    let p = str_chars(pat);
    if p.len() > s.len() {
        assert forall|i: int| !#[trigger] occurs_at(s@, p@, i) by {}
        return false;
    }
    if p.len() == 0 {
        assert(s@.subrange(0, 0) =~= p@);
        assert(occurs_at(s@, p@, 0));
        return true;
    }
    let end = s.len() - p.len() + 1;
    let mut i: usize = 0;
    while i < end
        invariant
            end + p@.len() == s@.len() + 1,
            p@ == pat@,
            forall|j: int| 0 <= j < i ==> !#[trigger] occurs_at(s@, p@, j),
        decreases end - i,
    {
        if matches_at(s, &p, i) {
            return true;
        }
        i += 1;
    }
    false
}

/// The characters of `s` without white space at either end.
pub open spec fn trim_end_index(s: Seq<char>, e: int) -> int
    decreases e,
{
    if e > 0 && e <= s.len() && is_ws(s[e - 1]) { trim_end_index(s, e - 1) } else { e }
}

/// The first position not holding white space.
pub open spec fn trim_start_index(s: Seq<char>, b: int) -> int
    decreases s.len() - b,
{
    if 0 <= b < s.len() && is_ws(s[b]) { trim_start_index(s, b + 1) } else { b }
}

/// `s` without leading and trailing white space (what `str::trim` gives).
pub open spec fn trimmed(s: Seq<char>) -> Seq<char> {
    let b = trim_start_index(s, 0);
    let e = trim_end_index(s, s.len() as int);
    if b >= e { Seq::empty() } else { s.subrange(b, e) }
}

proof fn lemma_trim_start_bounds(s: Seq<char>, b: int)
    requires
        0 <= b <= s.len(),
    ensures
        b <= trim_start_index(s, b) <= s.len(),
    decreases s.len() - b,
{
    if b < s.len() && is_ws(s[b]) {
        lemma_trim_start_bounds(s, b + 1);
    }
}

proof fn lemma_trim_end_bounds(s: Seq<char>, e: int)
    requires
        0 <= e <= s.len(),
    ensures
        0 <= trim_end_index(s, e) <= e,
    decreases e,
{
    if e > 0 && is_ws(s[e - 1]) {
        lemma_trim_end_bounds(s, e - 1);
    }
}

/// The characters of `s` without leading and trailing white space.
pub fn trim_chars(s: &Vec<char>) -> (r: Vec<char>)
    ensures
        r@ == trimmed(s@),
{
    let mut b: usize = 0;
    while b < s.len() && is_whitespace_char(s[b])
        invariant
            b <= s@.len(),
            trim_start_index(s@, b as int) == trim_start_index(s@, 0),
        decreases s@.len() - b,
    {
        b += 1;
    }
    let mut e: usize = s.len();
    while e > 0 && is_whitespace_char(s[e - 1])
        invariant
            e <= s@.len(),
            trim_end_index(s@, e as int) == trim_end_index(s@, s@.len() as int),
        decreases e,
    {
        e -= 1;
    }
    let mut r: Vec<char> = Vec::new();
    if b < e {
        let mut i = b;
        while i < e
            invariant
                b <= i <= e <= s@.len(),
                r@ == s@.subrange(b as int, i as int),
            decreases e - i,
        {
            r.push(s[i]);
            i += 1;
            assert(r@ =~= s@.subrange(b as int, i as int));
        }
    }
    assert(r@ =~= trimmed(s@));
    r
}


/// Whether `c` occurs in `s`.
pub fn contains_char(s: &Vec<char>, c: char) -> (r: bool)
    ensures
        r == s@.contains(c),
{
    let mut i: usize = 0;
    while i < s.len()
        invariant
            i <= s@.len(),
            forall|j: int| 0 <= j < i ==> s@[j] != c,
        decreases s@.len() - i,
    {
        if s[i] == c {
            assert(s@[i as int] == c);
            return true;
        }
        i += 1;
    }
    false
}

/// The characters `s[start..end]`.
pub fn slice_chars(s: &Vec<char>, start: usize, end: usize) -> (r: Vec<char>)
    requires
        start <= end <= s@.len(),
    ensures
        r@ == s@.subrange(start as int, end as int),
{
    let mut r: Vec<char> = Vec::new();
    let mut i = start;
    while i < end
        invariant
            start <= i <= end <= s@.len(),
            r@ == s@.subrange(start as int, i as int),
        decreases end - i,
    {
        r.push(s[i]);
        i += 1;
        assert(r@ =~= s@.subrange(start as int, i as int));
    }
    r
}

} // verus!
