//! N-Triples terms and lines: what a line means, as spec functions over its
//! characters, and the scanner that reads it.

use vstd::prelude::*;
use crate::iri::IRI;
use crate::error::OwlError;
use crate::text::{is_ws, is_whitespace_char, alphanumeric, is_alphanumeric_char, char_from_u32,
    string_from_chars, str_chars, push_str};

verus! {

broadcast use vstd::std_specs::vec::group_vec_axioms;

/// An N-Triples term.
#[derive(Debug)]
pub enum NtriplesTerm {
    IRI(IRI),
    Literal { value: String, language: Option<String>, datatype: Option<IRI> },
    BlankNode(String),
}

/// An N-Triples triple.
#[derive(Debug)]
pub struct NtriplesTriple {
    pub subject: NtriplesTerm,
    pub predicate: NtriplesTerm,
    pub object: NtriplesTerm,
}

/// The view of a term: the IRI text, the literal's value with its language
/// tag and datatype IRI, or the blank node label.
pub enum TermView {
    Iri(Seq<char>),
    Literal(Seq<char>, Option<Seq<char>>, Option<Seq<char>>),
    Blank(Seq<char>),
}

impl View for NtriplesTerm {
    type V = TermView;

    open spec fn view(&self) -> TermView {
        match self {
            NtriplesTerm::IRI(i) => TermView::Iri(i@),
            NtriplesTerm::Literal { value, language, datatype } => TermView::Literal(value@,
                match language { Some(l) => Some(l@), None => None },
                match datatype { Some(d) => Some(d@), None => None }),
            NtriplesTerm::BlankNode(b) => TermView::Blank(b@),
        }
    }
}

/// The first position at or after `p` that is not white space.
pub open spec fn skip_ws(cs: Seq<char>, p: int) -> int
    decreases cs.len() - p,
{
    if 0 <= p < cs.len() && is_ws(cs[p]) {
        skip_ws(cs, p + 1)
    } else {
        p
    }
}

/// The first position at or after `p` holding `c`, or the end.
pub open spec fn until(cs: Seq<char>, p: int, c: char) -> int
    decreases cs.len() - p,
{
    if p < cs.len() && cs[p] != c {
        until(cs, p + 1, c)
    } else {
        p
    }
}

/// A character of a language tag.
pub open spec fn lang_char(c: char) -> bool {
    alphanumeric(c) || c == '-'
}

/// A character of a blank node label.
pub open spec fn label_char(c: char) -> bool {
    alphanumeric(c) || c == '-' || c == '_'
}

/// The end of the run of language tag characters from `p`.
pub open spec fn lang_end(cs: Seq<char>, p: int) -> int
    decreases cs.len() - p,
{
    if 0 <= p < cs.len() && lang_char(cs[p]) {
        lang_end(cs, p + 1)
    } else {
        p
    }
}

/// The end of the run of blank node label characters from `p`.
pub open spec fn label_end(cs: Seq<char>, p: int) -> int
    decreases cs.len() - p,
{
    if 0 <= p < cs.len() && label_char(cs[p]) {
        label_end(cs, p + 1)
    } else {
        p
    }
}

/// The value of a hexadecimal digit, or nothing.
pub open spec fn hex_digit(c: char) -> Option<nat> {
    if '0' <= c && c <= '9' {
        Some((c as nat - '0' as nat) as nat)
    } else if 'a' <= c && c <= 'f' {
        Some((c as nat - 'a' as nat + 10) as nat)
    } else if 'A' <= c && c <= 'F' {
        Some((c as nat - 'A' as nat + 10) as nat)
    } else {
        None
    }
}

/// The value of a run of hexadecimal digits, or nothing when one is not a digit.
pub open spec fn hex_digits(s: Seq<char>) -> Option<nat>
    decreases s.len(),
{
    if s.len() == 0 {
        Some(0)
    } else {
        match (hex_digits(s.drop_last()), hex_digit(s.last())) {
            (Some(a), Some(b)) => Some(a * 16 + b),
            _ => None,
        }
    }
}

/// What `from_str_radix(s, 16)` reads for an unsigned type: an optional
/// `+`, then at least one hexadecimal digit.
pub open spec fn hex_value(s: Seq<char>) -> Option<nat> {
    if s.len() > 0 && s[0] == '+' {
        if s.len() == 1 { None } else { hex_digits(s.subrange(1, s.len() as int)) }
    } else if s.len() == 0 {
        None
    } else {
        hex_digits(s)
    }
}

/// A Unicode scalar value.
pub open spec fn is_scalar(code: nat) -> bool {
    code < 0xd800 || (0xdfff < code && code < 0x110000)
}

/// What a `\u` or `\U` escape with up to `width` hexadecimal digits after
/// position `p` (the `u`) contributes, and where it ends: the character, `?`
/// for a value that is not a scalar value, nothing for a malformed number.
pub open spec fn unicode_escape(cs: Seq<char>, p: int, width: int) -> (Seq<char>, int) {
    let end = if p + 1 + width <= cs.len() { p + 1 + width } else { cs.len() as int };
    let hex = cs.subrange(p + 1, end);
    match hex_value(hex) {
        Some(code) => (if is_scalar(code) { seq![code as char] } else { seq!['?'] }, end),
        None => (Seq::empty(), end),
    }
}

/// What the escape whose letter stands at `p` contributes, and where it ends.
pub open spec fn escape(cs: Seq<char>, p: int) -> (Seq<char>, int) {
    let e = cs[p];
    if e == 't' { (seq!['\t'], p + 1) }
    else if e == 'b' { (seq!['\x08'], p + 1) }
    else if e == 'n' { (seq!['\n'], p + 1) }
    else if e == 'r' { (seq!['\r'], p + 1) }
    else if e == 'f' { (seq!['\x0c'], p + 1) }
    else if e == 'u' { unicode_escape(cs, p, 4) }
    else if e == 'U' { unicode_escape(cs, p, 8) }
    else { (seq![e], p + 1) }
}

/// The value of a literal body starting at `p` (after the opening quote)
/// and the position after its closing quote (or the end of the input).
pub open spec fn lit_body(cs: Seq<char>, p: int) -> (Seq<char>, int)
    decreases cs.len() - p,
{
    if p < 0 || p >= cs.len() {
        (Seq::empty(), p)
    } else if cs[p] == '"' {
        (Seq::empty(), p + 1)
    } else if cs[p] == '\\' {
        if p + 1 >= cs.len() {
            (Seq::empty(), p + 1)
        } else {
            let (piece, q) = escape(cs, p + 1);
            if q <= p { (Seq::empty(), p) } else {
                let (rest, r) = lit_body(cs, q);
                (piece + rest, r)
            }
        }
    } else {
        let (rest, r) = lit_body(cs, p + 1);
        (seq![cs[p]] + rest, r)
    }
}

/// The outcome of reading a term: its view and the position after it.
pub enum TermScan {
    Found(TermView, int),
    Failed,
}

/// What the literal suffix at `r` (after the closing quote and any white
/// space) holds: the literal and the position after it.
pub open spec fn literal_suffix(cs: Seq<char>, v: Seq<char>, r: int) -> TermScan {
    if r < cs.len() && cs[r] == '@' {
        let e = lang_end(cs, r + 1);
        let tag = cs.subrange(r + 1, e);
        TermScan::Found(TermView::Literal(v, if tag.len() > 0 { Some(tag) } else { None }, None), e)
    } else if r < cs.len() && cs[r] == '^' {
        if r + 1 >= cs.len() {
            TermScan::Found(TermView::Literal(v, None, None), r + 1)
        } else if cs[r + 1] != '^' || r + 2 >= cs.len() {
            TermScan::Found(TermView::Literal(v, None, None), r + 2)
        } else if cs[r + 2] != '<' {
            TermScan::Found(TermView::Literal(v, None, None), r + 3)
        } else {
            let e = until(cs, r + 3, '>');
            let dt = cs.subrange(r + 3, e);
            TermScan::Found(TermView::Literal(v, None, if dt.len() > 0 { Some(dt) } else { None }),
                if e < cs.len() { e + 1 } else { e })
        }
    } else {
        TermScan::Found(TermView::Literal(v, None, None), r)
    }
}

/// The term that starts after white space at `p0`: an IRI in angle
/// brackets (to the closing bracket or the end), a quoted literal with its
/// escapes and an optional language tag or `^^<datatype>`, or a blank node
/// `_:label`.
pub open spec fn scan_term(cs: Seq<char>, p0: int) -> TermScan {
    let p = skip_ws(cs, p0);
    if p >= cs.len() {
        TermScan::Failed
    } else if cs[p] == '<' {
        let q = until(cs, p + 1, '>');
        let s = cs.subrange(p + 1, q);
        if s.len() == 0 {
            TermScan::Failed
        } else {
            TermScan::Found(TermView::Iri(s), if q < cs.len() { q + 1 } else { q })
        }
    } else if cs[p] == '"' {
        let (v, q) = lit_body(cs, p + 1);
        literal_suffix(cs, v, skip_ws(cs, q))
    } else if cs[p] == '_' {
        if p + 1 < cs.len() && cs[p + 1] == ':' {
            let e = label_end(cs, p + 2);
            if e == p + 2 {
                TermScan::Failed
            } else {
                TermScan::Found(TermView::Blank(cs.subrange(p + 2, e)), e)
            }
        } else {
            TermScan::Failed
        }
    } else {
        TermScan::Failed
    }
}

/// The triple a line holds: three terms, then, after white space, either
/// the end or a `.`.
pub open spec fn scan_line(cs: Seq<char>) -> Option<(TermView, TermView, TermView)> {
    match scan_term(cs, 0) {
        TermScan::Found(s, p1) => match scan_term(cs, skip_ws(cs, p1)) {
            TermScan::Found(p, p2) => match scan_term(cs, skip_ws(cs, p2)) {
                TermScan::Found(o, p3) => {
                    let q = skip_ws(cs, p3);
                    if q < cs.len() && cs[q] != '.' { None } else { Some((s, p, o)) }
                },
                TermScan::Failed => None,
            },
            TermScan::Failed => None,
        },
        TermScan::Failed => None,
    }
}

/// The triple an N-Triples statement holds: three terms, then, after white
/// space, the closing `.`.
pub open spec fn scan_statement(cs: Seq<char>) -> Option<(TermView, TermView, TermView)> {
    match scan_term(cs, 0) {
        TermScan::Found(s, p1) => match scan_term(cs, skip_ws(cs, p1)) {
            TermScan::Found(p, p2) => match scan_term(cs, skip_ws(cs, p2)) {
                TermScan::Found(o, p3) => {
                    let q = skip_ws(cs, p3);
                    if q < cs.len() && cs[q] == '.' { Some((s, p, o)) } else { None }
                },
                TermScan::Failed => None,
            },
            TermScan::Failed => None,
        },
        TermScan::Failed => None,
    }
}

proof fn lemma_skip_ws_bounds(cs: Seq<char>, p: int)
    requires
        0 <= p <= cs.len(),
    ensures
        p <= skip_ws(cs, p) <= cs.len(),
        skip_ws(cs, p) < cs.len() ==> !is_ws(cs[skip_ws(cs, p)]),
    decreases cs.len() - p,
{
    if p < cs.len() && is_ws(cs[p]) {
        lemma_skip_ws_bounds(cs, p + 1);
    }
}

/// Advances `pos` past white space.
pub fn skip_whitespace(chars: &Vec<char>, pos: &mut usize)
    requires
        *old(pos) <= chars@.len(),
    ensures
        *final(pos) == skip_ws(chars@, *old(pos) as int),
        *old(pos) <= *final(pos) <= chars@.len(),
{
    let ghost start = *pos as int;
    while *pos < chars.len() && is_whitespace_char(chars[*pos])
        invariant
            start <= *pos <= chars@.len(),
            skip_ws(chars@, *pos as int) == skip_ws(chars@, start),
        decreases chars@.len() - *pos,
    {
        *pos = *pos + 1;
    }
}

/// Advances `pos` to the next `c` (or the end), collecting what it passes.
fn collect_until(chars: &Vec<char>, pos: &mut usize, c: char, out: &mut Vec<char>)
    requires
        *old(pos) <= chars@.len(),
    ensures
        *final(pos) == until(chars@, *old(pos) as int, c),
        *old(pos) <= *final(pos) <= chars@.len(),
        final(out)@ == old(out)@ + chars@.subrange(*old(pos) as int, *final(pos) as int),
{
    let ghost start = *pos as int;
    while *pos < chars.len() && chars[*pos] != c
        invariant
            0 <= start <= *pos <= chars@.len(),
            until(chars@, *pos as int, c) == until(chars@, start, c),
            out@ == old(out)@ + chars@.subrange(start, *pos as int),
        decreases chars@.len() - *pos,
    {
        let ghost prev = *pos as int;
        let ghost before = out@;
        assert(start <= prev < chars@.len());
        out.push(chars[*pos]);
        *pos = *pos + 1;
        assert(chars@.subrange(start, prev + 1) =~= chars@.subrange(start, prev).push(chars@[prev]));
        assert(out@ =~= before.push(chars@[prev]));
    }
}

/// Reads hexadecimal digits as `from_str_radix(s, 16)` does for an
/// unsigned type, within `max`.
fn parse_hex(s: &Vec<char>, max: u64) -> (r: Option<u64>)
    requires
        s@.len() <= 8,
        max == 0xffff || max == 0xffff_ffff,
    ensures
        r is Some <==> (hex_value(s@) is Some && hex_value(s@)->0 <= max),
        r matches Some(v) ==> v == hex_value(s@)->0,
        hex_value(s@) is Some ==> hex_value(s@)->0 < pow16(s@.len() as int),
{
    let mut i: usize = 0;
    if s.len() > 0 && s[0] == '+' {
        i = 1;
    }
    if i >= s.len() {
        return None;
    }
    proof {
        lemma_pow16_mono(s@.len() - i, s@.len() as int);
    }
    let ghost digits = s@.subrange(i as int, s@.len() as int);
    let mut acc: u64 = 0;
    let mut k: usize = i;
    while k < s.len()
        invariant
            i <= k <= s@.len() <= 8,
            i < s@.len(),
            pow16(s@.len() - i) <= pow16(s@.len() as int),
            i <= 1,
            (s@[0] == '+') <==> i == 1,
            digits == s@.subrange(i as int, s@.len() as int),
            hex_digits(s@.subrange(i as int, k as int)) == Some(acc as nat),
            acc < pow16(k - i),
        decreases s@.len() - k,
    {
        let c = s[k];
        let d: u64 = if '0' <= c && c <= '9' {
            (c as u64) - ('0' as u64)
        } else if 'a' <= c && c <= 'f' {
            (c as u64) - ('a' as u64) + 10
        } else if 'A' <= c && c <= 'F' {
            (c as u64) - ('A' as u64) + 10
        } else {
            proof {
                assert(digits[k - i] == c);
                lemma_hex_digits_fail(digits, k - i);
                if i == 0 {
                    assert(digits =~= s@);
                }
            }
            return None;
        };
        proof {
            assert(s@.subrange(i as int, k + 1).drop_last() =~= s@.subrange(i as int, k as int));
            lemma_pow16_bound(k - i);
            assert(acc * 16 + d < pow16(k + 1 - i)) by (nonlinear_arith)
                requires acc < pow16(k - i), d < 16, pow16(k + 1 - i) == pow16(k - i) * 16;
        }
        acc = acc * 16 + d;
        k += 1;
    }
    proof {
        assert(s@.subrange(i as int, s@.len() as int) =~= digits);
        if i == 1 {
            assert(s@.subrange(1, s@.len() as int) =~= digits);
        } else {
            assert(digits =~= s@);
        }
    }
    proof {
        lemma_pow16_mono(k - i, s@.len() - i);
    }
    if acc > max {
        return None;
    }
    Some(acc)
}

proof fn lemma_pow16_mono(a: int, b: int)
    requires
        0 <= a <= b,
    ensures
        pow16(a) <= pow16(b),
    decreases b - a,
{
    if a < b {
        lemma_pow16_mono(a, b - 1);
    }
}

proof fn lemma_pow16_values()
    ensures
        pow16(4) == 0x10000,
        pow16(8) == 0x1_0000_0000,
{
    reveal_with_fuel(pow16, 9);
}

/// 16 to the power `n`.
pub open spec fn pow16(n: int) -> nat
    decreases n,
{
    if n <= 0 { 1 } else { 16 * pow16(n - 1) }
}

proof fn lemma_pow16_bound(n: int)
    requires
        0 <= n <= 7,
    ensures
        pow16(n + 1) == pow16(n) * 16,
        pow16(n + 1) <= 0x1_0000_0000,
{
    reveal_with_fuel(pow16, 9);
}

proof fn lemma_hex_digits_fail(s: Seq<char>, k: int)
    requires
        0 <= k < s.len(),
        hex_digit(s[k]) is None,
    ensures
        hex_digits(s.subrange(0, k + 1)) is None,
        hex_digits(s) is None,
    decreases s.len(),
{
    assert(s.subrange(0, k + 1).last() == s[k]);
    if k + 1 < s.len() {
        lemma_hex_digits_fail(s.drop_last(), k);
        assert(s.drop_last().subrange(0, k + 1) =~= s.subrange(0, k + 1));
    } else {
        assert(s.subrange(0, k + 1) =~= s);
    }
}


/// A parse error with the message `text`.
pub fn parse_error(text: &str) -> (r: OwlError)
    ensures
        r == OwlError::ParseError(r->ParseError_0) && r->ParseError_0@ == text@,
{
    OwlError::ParseError(text.to_owned())
}

proof fn lemma_until_bounds(cs: Seq<char>, p: int, c: char)
    requires
        0 <= p <= cs.len(),
    ensures
        p <= until(cs, p, c) <= cs.len(),
    decreases cs.len() - p,
{
    if p < cs.len() && cs[p] != c {
        lemma_until_bounds(cs, p + 1, c);
    }
}

proof fn lemma_lit_body_bounds(cs: Seq<char>, p: int)
    requires
        0 <= p <= cs.len(),
    ensures
        p <= lit_body(cs, p).1 <= cs.len(),
    decreases cs.len() - p,
{
    if p < cs.len() && cs[p] != '"' {
        if cs[p] == '\\' {
            if p + 1 < cs.len() {
                let (piece, q) = escape(cs, p + 1);
                if q > p {
                    lemma_lit_body_bounds(cs, q);
                }
            }
        } else {
            lemma_lit_body_bounds(cs, p + 1);
        }
    }
}

/// Reads a `\u` or `\U` escape whose letter stands at `*pos - 1`.
fn read_unicode_escape(chars: &Vec<char>, pos: &mut usize, width: usize, out: &mut Vec<char>)
    requires
        1 <= *old(pos) <= chars@.len(),
        width == 4 || width == 8,
    ensures
        final(out)@ == old(out)@ + unicode_escape(chars@, *old(pos) - 1, width as int).0,
        *final(pos) == unicode_escape(chars@, *old(pos) - 1, width as int).1,
        *final(pos) <= chars@.len(),
{
    let ghost p = *pos - 1;
    let mut hex: Vec<char> = Vec::new();
    let mut k: usize = 0;
    while k < width && *pos < chars.len()
        invariant
            p == *old(pos) - 1,
            0 <= p,
            k <= width,
            width == 4 || width == 8,
            p + 1 <= *pos <= chars@.len(),
            *pos == p + 1 + k,
            hex@ == chars@.subrange(p + 1, *pos as int),
        decreases width - k,
    {
        hex.push(chars[*pos]);
        *pos = *pos + 1;
        k += 1;
        assert(hex@ =~= chars@.subrange(p + 1, *pos as int));
    }
    let max: u64 = if width == 4 { 0xffff } else { 0xffff_ffff };
    proof {
        lemma_pow16_values();
        lemma_pow16_mono(hex@.len() as int, width as int);
    }
    let ghost end = unicode_escape(chars@, p, width as int).1;
    assert(*pos == end);
    assert(hex@ == chars@.subrange(p + 1, end));
    match parse_hex(&hex, max) {
        Some(code) => {
            match char_from_u32(code as u32) {
                Some(ch) => {
                    out.push(ch);
                    assert(ch == (code as u32) as char);
                },
                None => {
                    out.push('?');
                },
            }
        },
        None => {},
    }
    assert(out@ =~= old(out)@ + unicode_escape(chars@, p, width as int).0);
}

/// Reads a literal body from `*pos` (after the opening quote): appends its
/// value and advances past the closing quote.
fn read_literal_body(chars: &Vec<char>, pos: &mut usize, out: &mut Vec<char>)
    requires
        *old(pos) <= chars@.len(),
    ensures
        final(out)@ == old(out)@ + lit_body(chars@, *old(pos) as int).0,
        *final(pos) == lit_body(chars@, *old(pos) as int).1,
        *final(pos) <= chars@.len(),
{
    let ghost cs = chars@;
    let ghost start = *pos as int;
    proof {
        lemma_lit_body_bounds(cs, start);
    }
    while *pos < chars.len()
        invariant
            cs == chars@,
            start == *old(pos) as int,
            0 <= start <= *pos <= cs.len(),
            old(out)@ + lit_body(cs, start).0 == out@ + lit_body(cs, *pos as int).0,
            lit_body(cs, start).1 == lit_body(cs, *pos as int).1,
        decreases cs.len() - *pos,
    {
        let ghost p = *pos as int;
        let ch = chars[*pos];
        if ch == '"' {
            *pos = *pos + 1;
            assert(out@ =~= old(out)@ + lit_body(cs, start).0);
            return;
        }
        if ch == '\\' {
            if *pos + 1 >= chars.len() {
                *pos = *pos + 1;
                assert(out@ =~= old(out)@ + lit_body(cs, start).0);
                return;
            }
            let e = chars[*pos + 1];
            let ghost before = out@;
            *pos = *pos + 2;
            if e == 't' {
                out.push('\t');
            } else if e == 'b' {
                out.push('\x08');
            } else if e == 'n' {
                out.push('\n');
            } else if e == 'r' {
                out.push('\r');
            } else if e == 'f' {
                out.push('\x0c');
            } else if e == 'u' {
                read_unicode_escape(chars, pos, 4, out);
            } else if e == 'U' {
                read_unicode_escape(chars, pos, 8, out);
            } else {
                out.push(e);
            }
            proof {
                let (piece, q) = escape(cs, p + 1);
                assert(out@ =~= before + piece);
                assert(*pos == q);
                let (rest, r) = lit_body(cs, q);
                assert(lit_body(cs, p) == (piece + rest, r));
                assert(out@ + lit_body(cs, *pos as int).0 =~= before + lit_body(cs, p).0);
            }
        } else {
            let ghost before = out@;
            out.push(ch);
            *pos = *pos + 1;
            proof {
                assert(out@ + lit_body(cs, *pos as int).0 =~= before + lit_body(cs, p).0);
            }
        }
    }
    assert(out@ =~= old(out)@ + lit_body(cs, start).0);
}

/// Reads the run of characters accepted by the language tag rule
/// (`tag == true`) or the blank node label rule.
fn read_run(chars: &Vec<char>, pos: &mut usize, tag: bool, out: &mut Vec<char>)
    requires
        *old(pos) <= chars@.len(),
    ensures
        tag ==> *final(pos) == lang_end(chars@, *old(pos) as int),
        !tag ==> *final(pos) == label_end(chars@, *old(pos) as int),
        *old(pos) <= *final(pos) <= chars@.len(),
        final(out)@ == old(out)@ + chars@.subrange(*old(pos) as int, *final(pos) as int),
{
    let ghost start = *pos as int;
    loop
        invariant
            0 <= start <= *pos <= chars@.len(),
            tag ==> lang_end(chars@, *pos as int) == lang_end(chars@, start),
            !tag ==> label_end(chars@, *pos as int) == label_end(chars@, start),
            out@ == old(out)@ + chars@.subrange(start, *pos as int),
        ensures
            0 <= start <= *pos <= chars@.len(),
            tag ==> *pos == lang_end(chars@, start),
            !tag ==> *pos == label_end(chars@, start),
            out@ == old(out)@ + chars@.subrange(start, *pos as int),
        decreases chars@.len() - *pos,
    {
        if *pos >= chars.len() {
            break;
        }
        let c = chars[*pos];
        let ok = is_alphanumeric_char(c) || c == '-' || (!tag && c == '_');
        if !ok {
            break;
        }
        let ghost prev = *pos as int;
        let ghost before = out@;
        out.push(c);
        *pos = *pos + 1;
        assert(chars@.subrange(start, prev + 1) =~= chars@.subrange(start, prev).push(chars@[prev]));
        assert(out@ =~= before.push(chars@[prev]));
    }
}

/// Reads the term at `*pos` (after any white space) and advances `pos`
/// past it.
#[verifier::rlimit(40)]
pub fn read_term(chars: &Vec<char>, pos: &mut usize) -> (r: Result<NtriplesTerm, OwlError>)
    requires
        *old(pos) <= chars@.len(),
    ensures
        *final(pos) <= chars@.len(),
        match scan_term(chars@, *old(pos) as int) {
            TermScan::Found(v, q) => r matches Ok(t) && t@ == v && *final(pos) == q,
            TermScan::Failed => r matches Err(e) && e is ParseError,
        },
{
    let ghost cs = chars@;
    skip_whitespace(chars, pos);
    proof {
        lemma_skip_ws_bounds(cs, *old(pos) as int);
    }
    let p = *pos;
    if p >= chars.len() {
        return Err(parse_error("Unexpected end of input while parsing term"));
    }
    let c = chars[p];
    *pos = p + 1;
    if c == '<' {
        let mut s: Vec<char> = Vec::new();
        collect_until(chars, pos, '>', &mut s);
        assert(s@ =~= cs.subrange(p + 1, *pos as int));
        if *pos < chars.len() {
            *pos = *pos + 1;
        }
        if s.len() == 0 {
            return Err(parse_error("Empty IRI"));
        }
        let text = string_from_chars(&s);
        match IRI::new(text.as_str()) {
            Ok(iri) => Ok(NtriplesTerm::IRI(iri)),
            Err(_) => Err(parse_error("Invalid IRI")),
        }
    } else if c == '"' {
        let mut v: Vec<char> = Vec::new();
        read_literal_body(chars, pos, &mut v);
        assert(v@ =~= lit_body(cs, p + 1).0);
        skip_whitespace(chars, pos);
        proof {
            lemma_lit_body_bounds(cs, p + 1);
            lemma_skip_ws_bounds(cs, lit_body(cs, p + 1).1);
        }
        let value = string_from_chars(&v);
        let r = *pos;
        if r < chars.len() && chars[r] == '@' {
            *pos = r + 1;
            let mut tag: Vec<char> = Vec::new();
            read_run(chars, pos, true, &mut tag);
            assert(tag@ =~= cs.subrange(r + 1, *pos as int));
            let language = if tag.len() > 0 { Some(string_from_chars(&tag)) } else { None };
            Ok(NtriplesTerm::Literal { value, language, datatype: None })
        } else if r < chars.len() && chars[r] == '^' {
            *pos = r + 1;
            let mut datatype: Option<IRI> = None;
            if *pos < chars.len() {
                let c1 = chars[*pos];
                *pos = *pos + 1;
                if c1 == '^' && *pos < chars.len() {
                    let c2 = chars[*pos];
                    *pos = *pos + 1;
                    if c2 == '<' {
                        let mut dt: Vec<char> = Vec::new();
                        let d0 = *pos;
                        collect_until(chars, pos, '>', &mut dt);
                        assert(dt@ =~= cs.subrange(d0 as int, *pos as int));
                        if *pos < chars.len() {
                            *pos = *pos + 1;
                        }
                        if dt.len() > 0 {
                            let text = string_from_chars(&dt);
                            match IRI::new(text.as_str()) {
                                Ok(iri) => { datatype = Some(iri); },
                                Err(_) => { return Err(parse_error("Invalid datatype IRI")); },
                            }
                        }
                    }
                }
            }
            Ok(NtriplesTerm::Literal { value, language: None, datatype })
        } else {
            Ok(NtriplesTerm::Literal { value, language: None, datatype: None })
        }
    } else if c == '_' {
        if *pos < chars.len() {
            let c1 = chars[*pos];
            *pos = *pos + 1;
            if c1 == ':' {
                let l0 = *pos;
                let mut label: Vec<char> = Vec::new();
                read_run(chars, pos, false, &mut label);
                assert(label@ =~= cs.subrange(l0 as int, *pos as int));
                if label.len() == 0 {
                    return Err(parse_error("Empty blank node ID"));
                }
                Ok(NtriplesTerm::BlankNode(string_from_chars(&label)))
            } else {
                Err(parse_error("Expected ':' after '_' for blank node"))
            }
        } else {
            Err(parse_error("Incomplete blank node"))
        }
    } else {
        let mut msg: Vec<char> = Vec::new();
        push_str(&mut msg, "Unexpected character '");
        msg.push(c);
        push_str(&mut msg, "' at start of term");
        Err(OwlError::ParseError(string_from_chars(&msg)))
    }
}

/// Reads the triple on one line.
pub fn read_line(line: &str) -> (r: Result<NtriplesTriple, OwlError>)
    ensures
        match scan_line(line@) {
            Some((s, p, o)) => r matches Ok(t) && t.subject@ == s && t.predicate@ == p && t.object@ == o,
            None => r matches Err(e) && e is ParseError,
        },
{
    let chars = str_chars(line);
    let mut pos: usize = 0;
    let subject = read_term(&chars, &mut pos)?;
    skip_whitespace(&chars, &mut pos);
    let predicate = read_term(&chars, &mut pos)?;
    skip_whitespace(&chars, &mut pos);
    let object = read_term(&chars, &mut pos)?;
    skip_whitespace(&chars, &mut pos);
    if pos < chars.len() && chars[pos] != '.' {
        return Err(parse_error("Expected '.' at end of triple"));
    }
    Ok(NtriplesTriple { subject, predicate, object })
}


/// Reads the N-Triples statement on one line: its triple, which the
/// closing `.` must follow.
pub fn read_statement(line: &str) -> (r: Result<NtriplesTriple, OwlError>)
    ensures
        match scan_statement(line@) {
            Some((s, p, o)) => r matches Ok(t) && t.subject@ == s && t.predicate@ == p && t.object@ == o,
            None => r matches Err(e) && e is ParseError,
        },
{
    let chars = str_chars(line);
    let mut pos: usize = 0;
    let subject = read_term(&chars, &mut pos)?;
    skip_whitespace(&chars, &mut pos);
    let predicate = read_term(&chars, &mut pos)?;
    skip_whitespace(&chars, &mut pos);
    let object = read_term(&chars, &mut pos)?;
    skip_whitespace(&chars, &mut pos);
    if pos >= chars.len() || chars[pos] != '.' {
        return Err(parse_error("Expected '.' at end of triple"));
    }
    Ok(NtriplesTriple { subject, predicate, object })
}

} // verus!
