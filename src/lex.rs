use vstd::prelude::*;
use crate::ast::ParseError;
use vstd::string::StringSliceAdditionalSpecFns;

verus! {

pub const SPACE: u8 = 32;
pub const NEWLINE: u8 = 10;
pub const UNDERSCORE: u8 = 95;
pub const BACKSLASH: u8 = 92;
pub const DOUBLE_QUOTE: u8 = 34;
pub const SINGLE_QUOTE: u8 = 39;
pub const PLUS: u8 = 43;
pub const MINUS: u8 = 45;
pub const STAR: u8 = 42;
pub const SLASH: u8 = 47;
pub const PERCENT: u8 = 37;
pub const BANG: u8 = 33;
pub const EQUALS: u8 = 61;
pub const LESS: u8 = 60;
pub const GREATER: u8 = 62;
pub const LBRACKET: u8 = 91;
pub const RBRACKET: u8 = 93;
pub const LPAREN: u8 = 40;
pub const RPAREN: u8 = 41;
pub const COLON: u8 = 58;
pub const COMMA: u8 = 44;
pub const SEMICOLON: u8 = 59;
pub const DOT: u8 = 46;
pub const BAR: u8 = 124;

/// A view into the source text: the byte range `start..end`.
#[derive(Clone, Copy, Debug, PartialEq, Eq, Structural)]
pub struct Span {
    pub start: usize,
    pub end: usize,
}

/// One lexeme, tagged with its kind, with the span it covers.
#[derive(Clone, Copy, Debug, PartialEq, Eq, Structural)]
pub enum Token {
    Punct(Span),
    Int(Span),
    Float(Span),
    Hex(Span),
    Keyword(Span),
    Ident(Span),
    Str(Span),
    Newline(Span),
    Begin(Span),
    End(Span),
    Eof(Span),
    UnknownToken(Span),
    UnterminatedString(Span),
}

/// The byte classes that a run of the scanner can be made of.
#[derive(Clone, Copy, Debug, PartialEq, Eq, Structural)]
pub enum Class {
    Space,
    Digit,
    HexDigit,
    Word,
}

pub open spec fn is_digit(b: u8) -> bool {
    48 <= b <= 57
}

pub open spec fn is_alpha(b: u8) -> bool {
    (97 <= b <= 122) || (65 <= b <= 90)
}

pub open spec fn in_class(c: Class, b: u8) -> bool {
    match c {
        Class::Space => b == SPACE,
        Class::Digit => is_digit(b),
        Class::HexDigit => is_digit(b) || (97 <= b <= 102) || (65 <= b <= 70),
        Class::Word => is_digit(b) || is_alpha(b) || b == UNDERSCORE,
    }
}

/// The end of the run of bytes of class `c` that starts at `i`.
pub open spec fn run_end(src: Seq<u8>, i: int, c: Class) -> int
    decreases src.len() - i,
{
    if i < 0 || i >= src.len() {
        i
    } else if in_class(c, src[i]) {
        run_end(src, i + 1, c)
    } else {
        i
    }
}

pub proof fn lemma_run_end(src: Seq<u8>, i: int, c: Class)
    requires
        0 <= i <= src.len(),
    ensures
        i <= run_end(src, i, c) <= src.len(),
        run_end(src, i, c) < src.len() ==> !in_class(c, src[run_end(src, i, c)]),
        forall|k: int| i <= k < run_end(src, i, c) ==> in_class(c, #[trigger] src[k]),
    decreases src.len() - i,
{
    if i < src.len() && in_class(c, src[i]) {
        lemma_run_end(src, i + 1, c);
    }
}

fn in_class_exec(c: Class, b: u8) -> (r: bool)
    ensures
        r == in_class(c, b),
{
    match c {
        Class::Space => b == SPACE,
        Class::Digit => 48 <= b && b <= 57,
        Class::HexDigit => (48 <= b && b <= 57) || (97 <= b && b <= 102) || (65 <= b
            && b <= 70),
        Class::Word => (48 <= b && b <= 57) || (97 <= b && b <= 122) || (65 <= b && b
            <= 90) || b == UNDERSCORE,
    }
}

/// The first position at or after `pos` whose byte is not of class `c`.
fn next_pos(bytes: &[u8], pos: usize, c: Class) -> (r: usize)
    requires
        pos <= bytes@.len(),
    ensures
        r == run_end(bytes@, pos as int, c),
{
    let mut i = pos;
    while i < bytes.len() && in_class_exec(c, bytes[i])
        invariant
            pos <= i <= bytes@.len(),
            run_end(bytes@, i as int, c) == run_end(bytes@, pos as int, c),
        decreases bytes@.len() - i,
    {
        i = i + 1;
    }
    i
}

pub open spec fn span_of(a: int, b: int) -> Span {
    Span { start: a as usize, end: b as usize }
}

/// Whether `k` stands in `src` at position `i`.
pub open spec fn matches_at(src: Seq<u8>, i: int, k: Seq<u8>) -> bool {
    0 <= i && i + k.len() <= src.len() && src.subrange(i, i + k.len()) == k
}

/// The reserved words: `def`, `if`, `else`, `for`, `let`, `mut`.
pub open spec fn is_keyword(w: Seq<u8>) -> bool {
    w == seq![100u8, 101u8, 102u8] || w == seq![105u8, 102u8] || w == seq![
        101u8,
        108u8,
        115u8,
        101u8,
    ] || w == seq![102u8, 111u8, 114u8] || w == seq![108u8, 101u8, 116u8] || w == seq![
        109u8,
        117u8,
        116u8,
    ]
}

/// Two-byte operators: `**`, `<<`, `>>`, `+=`, `-=`, `/=`.
pub open spec fn is_punct2(a: u8, b: u8) -> bool {
    (a == STAR && b == STAR) || (a == LESS && b == LESS) || (a == GREATER && b == GREATER) || (
    b == EQUALS && (a == PLUS || a == MINUS || a == SLASH))
}

/// One-byte operators and punctuation: `! + - * / % = [ ] ( ) : , ; . |`.
pub open spec fn is_punct1(a: u8) -> bool {
    a == BANG || a == PLUS || a == MINUS || a == STAR || a == SLASH || a == PERCENT || a
        == EQUALS || a == LBRACKET || a == RBRACKET || a == LPAREN || a == RPAREN || a == COLON
        || a == COMMA || a == SEMICOLON || a == DOT || a == BAR
}

/// The length of the longest operator that starts at `q`, or 0 if none does.
pub open spec fn punct_len(src: Seq<u8>, q: int) -> int {
    if matches_at(src, q, seq![GREATER, GREATER, GREATER]) {
        3
    } else if q + 1 < src.len() && is_punct2(src[q], src[q + 1]) {
        2
    } else if is_punct1(src[q]) {
        1
    } else {
        0
    }
}

/// The first position at or after `i` that holds `quote` not preceded by a backslash,
/// or the length of `src` if there is none.
pub open spec fn closing_quote(src: Seq<u8>, i: int, quote: u8) -> int
    decreases src.len() - i,
{
    if i < 1 || i >= src.len() {
        src.len() as int
    } else if src[i] == quote && src[i - 1] != BACKSLASH {
        i
    } else {
        closing_quote(src, i + 1, quote)
    }
}

/// Where the digits of an exponent start, given the position of its `e`.
pub open spec fn exponent_digits(src: Seq<u8>, i: int) -> int {
    if i + 1 < src.len() && (src[i + 1] == PLUS || src[i + 1] == MINUS) {
        i + 2
    } else {
        i + 1
    }
}

/// The number that starts with the digit at `q`, and the position after it.
pub open spec fn number_at(src: Seq<u8>, q: int) -> (Token, int) {
    if matches_at(src, q, seq![48u8, 120u8]) {
        let e = run_end(src, q + 2, Class::HexDigit);
        (Token::Hex(span_of(q, e)), e)
    } else {
        let i1 = run_end(src, q + 1, Class::Digit);
        let frac = i1 < src.len() && src[i1] == DOT;
        let i2 = if frac {
            run_end(src, i1 + 1, Class::Digit)
        } else {
            i1
        };
        let exp = i2 < src.len() && (src[i2] == 101u8 || src[i2] == 69u8);
        let i3 = if exp {
            run_end(src, exponent_digits(src, i2), Class::Digit)
        } else {
            i2
        };
        if frac || exp {
            (Token::Float(span_of(q, i3)), i3)
        } else {
            (Token::Int(span_of(q, i3)), i3)
        }
    }
}

/// The word that starts with the letter at `q`, and the position after it.
pub open spec fn word_at(src: Seq<u8>, q: int) -> (Token, int) {
    let e = run_end(src, q + 1, Class::Word);
    if is_keyword(src.subrange(q, e)) {
        (Token::Keyword(span_of(q, e)), e)
    } else {
        (Token::Ident(span_of(q, e)), e)
    }
}

/// The string literal that opens with the quote at `q`, and the position after it.
pub open spec fn string_at(src: Seq<u8>, q: int) -> (Token, int) {
    let j = closing_quote(src, q + 1, src[q]);
    if j < src.len() {
        (Token::Str(span_of(q, j + 1)), j + 1)
    } else {
        (Token::UnterminatedString(span_of(q, src.len() as int)), src.len() as int)
    }
}

/// The operator at `q`, or an unknown byte, and the position after it.
pub open spec fn punct_at(src: Seq<u8>, q: int) -> (Token, int) {
    let n = punct_len(src, q);
    if n > 0 {
        (Token::Punct(span_of(q, q + n)), q + n)
    } else {
        (Token::UnknownToken(span_of(q, q + 1)), q + 1)
    }
}

/// The token that starts at `q`, which holds neither a space nor a newline.
pub open spec fn lexeme_at(src: Seq<u8>, q: int) -> (Token, int) {
    let b = src[q];
    if is_digit(b) {
        number_at(src, q)
    } else if is_alpha(b) {
        word_at(src, q)
    } else if b == DOUBLE_QUOTE || b == SINGLE_QUOTE {
        string_at(src, q)
    } else {
        punct_at(src, q)
    }
}

/// The scanner's position, its stack of indentation widths, and the width of a
/// dedent whose `End` tokens are still owed.
pub struct LexState {
    pub pos: int,
    pub indent: Seq<usize>,
    pub pending: Option<usize>,
}

/// The indentation width in force: the top of the stack, or 0.
pub open spec fn top(indent: Seq<usize>) -> int {
    if indent.len() == 0 {
        0
    } else {
        indent.last() as int
    }
}

/// The token for the newline at `q`, decided by the width of the next line.
pub open spec fn newline_at(src: Seq<u8>, q: int, indent: Seq<usize>) -> (Token, LexState) {
    let r = q + 1;
    let s = run_end(src, r, Class::Space);
    let w = s - r;
    if s >= src.len() {
        (Token::Newline(span_of(s, s)), LexState { pos: s, indent, pending: None })
    } else if src[s] == NEWLINE {
        (Token::Newline(span_of(s - 1, s)), LexState { pos: r, indent, pending: None })
    } else if w > top(indent) {
        (Token::Begin(span_of(r, r)), LexState { pos: s, indent: indent.push(w as usize), pending: None })
    } else if w < top(indent) {
        (
            Token::End(span_of(r, r)),
            LexState { pos: s, indent: indent.drop_last(), pending: Some(w as usize) },
        )
    } else {
        (Token::Newline(span_of(r, r)), LexState { pos: s, indent, pending: None })
    }
}

/// Whether a dedent still owes an `End`: its width is below the top of the stack.
pub open spec fn owes_end(st: LexState) -> bool {
    st.pending is Some && st.indent.len() > 0 && (st.pending->0 as int) < top(st.indent)
}

/// One step of the scanner: the next token, and the state after it.
pub open spec fn step(src: Seq<u8>, st: LexState) -> (Token, LexState) {
    if owes_end(st) {
        (
            Token::End(span_of(st.pos, st.pos)),
            LexState { pos: st.pos, indent: st.indent.drop_last(), pending: st.pending },
        )
    } else {
        let q = run_end(src, st.pos, Class::Space);
        if q >= src.len() {
            if st.indent.len() > 0 {
                (
                    Token::End(span_of(q, q)),
                    LexState { pos: q, indent: st.indent.drop_last(), pending: None },
                )
            } else {
                (Token::Eof(span_of(q, q)), LexState { pos: q, indent: st.indent, pending: None })
            }
        } else if src[q] == NEWLINE {
            newline_at(src, q, st.indent)
        } else {
            let (t, e) = lexeme_at(src, q);
            (t, LexState { pos: e, indent: st.indent, pending: None })
        }
    }
}

/// The state that a new scanner starts in.
pub open spec fn initial_state() -> LexState {
    LexState { pos: 0, indent: Seq::empty(), pending: None }
}

/// Widths strictly increase from the bottom of the stack to its top.
pub open spec fn strictly_increasing(s: Seq<usize>) -> bool {
    forall|i: int, j: int| 0 <= i < j < s.len() ==> s[i] < s[j]
}

pub open spec fn wf_state(src: Seq<u8>, st: LexState) -> bool {
    &&& 0 <= st.pos <= src.len()
    &&& strictly_increasing(st.indent)
    &&& st.pending is Some ==> st.pos < src.len() && src[st.pos] != SPACE && src[st.pos]
        != NEWLINE
}

/// An upper bound on the tokens that are left before `Eof`.
pub open spec fn remaining(src: Seq<u8>, st: LexState) -> int {
    src.len() - st.pos + st.indent.len()
}

pub open spec fn token_span(t: Token) -> Span {
    match t {
        Token::Punct(s) => s,
        Token::Int(s) => s,
        Token::Float(s) => s,
        Token::Hex(s) => s,
        Token::Keyword(s) => s,
        Token::Ident(s) => s,
        Token::Str(s) => s,
        Token::Newline(s) => s,
        Token::Begin(s) => s,
        Token::End(s) => s,
        Token::Eof(s) => s,
        Token::UnknownToken(s) => s,
        Token::UnterminatedString(s) => s,
    }
}

pub open spec fn span_in(src: Seq<u8>, s: Span) -> bool {
    s.start <= s.end <= src.len()
}

pub open spec fn is_end_of_input(st: LexState, src: Seq<u8>) -> bool {
    st.pos == src.len() && st.indent.len() == 0 && st.pending is None
}

pub proof fn lemma_closing_quote(src: Seq<u8>, i: int, quote: u8)
    requires
        1 <= i <= src.len(),
    ensures
        i <= closing_quote(src, i, quote) <= src.len(),
    decreases src.len() - i,
{
    if i < src.len() && !(src[i] == quote && src[i - 1] != BACKSLASH) {
        lemma_closing_quote(src, i + 1, quote);
    }
}

proof fn lemma_lexeme_at(src: Seq<u8>, q: int)
    requires
        0 <= q < src.len(),
    ensures
        q < lexeme_at(src, q).1 <= src.len(),
        token_span(lexeme_at(src, q).0) == span_of(q, lexeme_at(src, q).1),
        !(lexeme_at(src, q).0 is Eof),
{
    let b = src[q];
    if is_digit(b) {
        if matches_at(src, q, seq![48u8, 120u8]) {
            lemma_run_end(src, q + 2, Class::HexDigit);
        } else {
            let i1 = run_end(src, q + 1, Class::Digit);
            lemma_run_end(src, q + 1, Class::Digit);
            let frac = i1 < src.len() && src[i1] == DOT;
            if frac {
                lemma_run_end(src, i1 + 1, Class::Digit);
            }
            let i2 = if frac {
                run_end(src, i1 + 1, Class::Digit)
            } else {
                i1
            };
            if i2 < src.len() && (src[i2] == 101u8 || src[i2] == 69u8) {
                lemma_run_end(src, exponent_digits(src, i2), Class::Digit);
            }
        }
    } else if is_alpha(b) {
        lemma_run_end(src, q + 1, Class::Word);
    } else if b == DOUBLE_QUOTE || b == SINGLE_QUOTE {
        lemma_closing_quote(src, q + 1, b);
    }
}

/// Each step keeps the state well formed and its tokens inside the source; a step
/// that yields anything but `Eof` brings `remaining` down, and `Eof` comes only at
/// the end of input with no indentation left open.
pub proof fn lemma_step(src: Seq<u8>, st: LexState)
    requires
        wf_state(src, st),
        src.len() <= usize::MAX,
    ensures
        wf_state(src, step(src, st).1),
        span_in(src, token_span(step(src, st).0)),
        step(src, st).0 is Eof ==> is_end_of_input(step(src, st).1, src) && st.indent.len() == 0
            && step(src, st).0 == Token::Eof(span_of(src.len() as int, src.len() as int)),
        step(src, st).0 is Eof ==> remaining(src, step(src, st).1) <= remaining(src, st),
        !(step(src, st).0 is Eof) ==> remaining(src, step(src, st).1) < remaining(src, st),
{
    if !owes_end(st) {
        let q = run_end(src, st.pos, Class::Space);
        lemma_run_end(src, st.pos, Class::Space);
        if q < src.len() {
            if src[q] == NEWLINE {
                let r = q + 1;
                lemma_run_end(src, r, Class::Space);
                let s = run_end(src, r, Class::Space);
                let w = s - r;
                if s < src.len() && src[s] != NEWLINE && w > top(st.indent) {
                    let ni = st.indent.push(w as usize);
                    assert forall|i: int, j: int| 0 <= i < j < ni.len() implies ni[i] < ni[j] by {
                        if j == ni.len() - 1 && i < j {
                            if i < st.indent.len() - 1 {
                                assert(st.indent[i] < st.indent[st.indent.len() - 1]);
                            }
                        }
                    }
                }
            } else {
                lemma_lexeme_at(src, q);
            }
        }
    }
}

/// Once the input is used up, every further step yields `Eof` and changes nothing.
pub proof fn lemma_eof_is_fixed(src: Seq<u8>, st: LexState)
    requires
        is_end_of_input(st, src),
    ensures
        step(src, st).0 is Eof,
        step(src, st).1 == st,
{
}

/// Whether the two bytes `a b` stand at `i`.
fn matches2(src: &[u8], i: usize, a: u8, b: u8) -> (r: bool)
    requires
        i <= src@.len(),
    ensures
        r == matches_at(src@, i as int, seq![a, b]),
{
    let r = src.len() >= 2 && i <= src.len() - 2 && src[i] == a && src[i + 1] == b;
    proof {
        let k = seq![a, b];
        if r {
            assert(src@.subrange(i as int, i + 2) =~= k);
        } else if i + 2 <= src@.len() && src@.subrange(i as int, i + 2) == k {
            assert(src@.subrange(i as int, i + 2)[0] == src@[i as int]);
            assert(src@.subrange(i as int, i + 2)[1] == src@[i + 1]);
        }
    }
    r
}

/// Whether the three bytes `a b c` stand at `i`.
fn matches3(src: &[u8], i: usize, a: u8, b: u8, c: u8) -> (r: bool)
    requires
        i <= src@.len(),
    ensures
        r == matches_at(src@, i as int, seq![a, b, c]),
{
    let r = src.len() >= 3 && i <= src.len() - 3 && src[i] == a && src[i + 1] == b && src[i + 2]
        == c;
    proof {
        let k = seq![a, b, c];
        if r {
            assert(src@.subrange(i as int, i + 3) =~= k);
        } else if i + 3 <= src@.len() && src@.subrange(i as int, i + 3) == k {
            assert(src@.subrange(i as int, i + 3)[0] == src@[i as int]);
            assert(src@.subrange(i as int, i + 3)[1] == src@[i + 1]);
            assert(src@.subrange(i as int, i + 3)[2] == src@[i + 2]);
        }
    }
    r
}

/// Whether the word `src[s..e]` is reserved.
fn word_is_keyword(src: &[u8], s: usize, e: usize) -> (r: bool)
    requires
        s <= e <= src@.len(),
    ensures
        r == is_keyword(src@.subrange(s as int, e as int)),
{
    let ghost w = src@.subrange(s as int, e as int);
    let n = e - s;
    let r = if n == 2 {
        src[s] == 105 && src[s + 1] == 102
    } else if n == 3 {
        let (a, b, c) = (src[s], src[s + 1], src[s + 2]);
        (a == 100 && b == 101 && c == 102) || (a == 102 && b == 111 && c == 114) || (a == 108 && b
            == 101 && c == 116) || (a == 109 && b == 117 && c == 116)
    } else if n == 4 {
        src[s] == 101 && src[s + 1] == 108 && src[s + 2] == 115 && src[s + 3] == 101
    } else {
        false
    };
    proof {
        assert(forall|k: int| 0 <= k < w.len() ==> w[k] == src@[s + k]);
        if r {
            if n == 2 {
                assert(w =~= seq![105u8, 102u8]);
            } else if n == 3 {
                if src@[s as int] == 100 {
                    assert(w =~= seq![100u8, 101u8, 102u8]);
                } else if src@[s as int] == 102 {
                    assert(w =~= seq![102u8, 111u8, 114u8]);
                } else if src@[s as int] == 108 {
                    assert(w =~= seq![108u8, 101u8, 116u8]);
                } else {
                    assert(w =~= seq![109u8, 117u8, 116u8]);
                }
            } else {
                assert(w =~= seq![101u8, 108u8, 115u8, 101u8]);
            }
        } else if is_keyword(w) {
            assert(w[0] == src@[s as int]);
            assert(w[1] == src@[s + 1]);
            if w.len() >= 3 {
                assert(w[2] == src@[s + 2]);
            }
            if w.len() >= 4 {
                assert(w[3] == src@[s + 3]);
            }
        }
    }
    r
}

fn scan_number(src: &[u8], q: usize) -> (r: (Token, usize))
    requires
        q < src@.len() <= usize::MAX,
    ensures
        r.0 == number_at(src@, q as int).0,
        r.1 as int == number_at(src@, q as int).1,
{
    if matches2(src, q, 48, 120) {
        let e = next_pos(src, q + 2, Class::HexDigit);
        (Token::Hex(Span { start: q, end: e }), e)
    } else {
        proof {
            lemma_run_end(src@, q + 1, Class::Digit);
        }
        let mut pos = next_pos(src, q + 1, Class::Digit);
        let mut is_float = false;
        if pos < src.len() && src[pos] == DOT {
            proof {
                lemma_run_end(src@, pos + 1, Class::Digit);
            }
            pos = next_pos(src, pos + 1, Class::Digit);
            is_float = true;
        }
        if pos < src.len() && (src[pos] == 101 || src[pos] == 69) {
            is_float = true;
            let digits = if pos + 1 < src.len() && (src[pos + 1] == PLUS || src[pos + 1] == MINUS) {
                pos + 2
            } else {
                pos + 1
            };
            pos = next_pos(src, digits, Class::Digit);
        }
        if is_float {
            (Token::Float(Span { start: q, end: pos }), pos)
        } else {
            (Token::Int(Span { start: q, end: pos }), pos)
        }
    }
}

fn scan_word(src: &[u8], q: usize) -> (r: (Token, usize))
    requires
        q < src@.len() <= usize::MAX,
    ensures
        r.0 == word_at(src@, q as int).0,
        r.1 as int == word_at(src@, q as int).1,
{
    proof {
        lemma_run_end(src@, q + 1, Class::Word);
    }
    let e = next_pos(src, q + 1, Class::Word);
    if word_is_keyword(src, q, e) {
        (Token::Keyword(Span { start: q, end: e }), e)
    } else {
        (Token::Ident(Span { start: q, end: e }), e)
    }
}

fn scan_string(src: &[u8], q: usize) -> (r: (Token, usize))
    requires
        q < src@.len() <= usize::MAX,
    ensures
        r.0 == string_at(src@, q as int).0,
        r.1 as int == string_at(src@, q as int).1,
{
    let quote = src[q];
    let mut j = q + 1;
    while j < src.len() && !(src[j] == quote && src[j - 1] != BACKSLASH)
        invariant
            q + 1 <= j <= src@.len(),
            quote == src@[q as int],
            closing_quote(src@, j as int, quote) == closing_quote(src@, q + 1, quote),
        decreases src@.len() - j,
    {
        j = j + 1;
    }
    if j < src.len() {
        (Token::Str(Span { start: q, end: j + 1 }), j + 1)
    } else {
        (Token::UnterminatedString(Span { start: q, end: src.len() }), src.len())
    }
}

fn scan_punct(src: &[u8], q: usize) -> (r: (Token, usize))
    requires
        q < src@.len() <= usize::MAX,
    ensures
        r.0 == punct_at(src@, q as int).0,
        r.1 as int == punct_at(src@, q as int).1,
{
    let a = src[q];
    let n: usize = if matches3(src, q, GREATER, GREATER, GREATER) {
        3
    } else if q + 1 < src.len() && ((a == STAR && src[q + 1] == STAR) || (a == LESS && src[q + 1]
        == LESS) || (a == GREATER && src[q + 1] == GREATER) || (src[q + 1] == EQUALS && (a == PLUS
        || a == MINUS || a == SLASH))) {
        2
    } else if a == BANG || a == PLUS || a == MINUS || a == STAR || a == SLASH || a == PERCENT || a
        == EQUALS || a == LBRACKET || a == RBRACKET || a == LPAREN || a == RPAREN || a == COLON
        || a == COMMA || a == SEMICOLON || a == DOT || a == BAR {
        1
    } else {
        0
    };
    if n > 0 {
        (Token::Punct(Span { start: q, end: q + n }), q + n)
    } else {
        (Token::UnknownToken(Span { start: q, end: q + 1 }), q + 1)
    }
}

/// Scans the token at `q`, which holds neither a space nor a newline.
fn scan_lexeme(src: &[u8], q: usize) -> (r: (Token, usize))
    requires
        q < src@.len() <= usize::MAX,
    ensures
        r.0 == lexeme_at(src@, q as int).0,
        r.1 as int == lexeme_at(src@, q as int).1,
{
    let b = src[q];
    if 48 <= b && b <= 57 {
        scan_number(src, q)
    } else if (97 <= b && b <= 122) || (65 <= b && b <= 90) {
        scan_word(src, q)
    } else if b == DOUBLE_QUOTE || b == SINGLE_QUOTE {
        scan_string(src, q)
    } else {
        scan_punct(src, q)
    }
}

/// The source bytes that `s` covers.
pub open spec fn text(src: Seq<u8>, s: Span) -> Seq<u8> {
    src.subrange(s.start as int, s.end as int)
}

/// Whether `t` is the operator or punctuation `k`.
pub open spec fn is_punct(src: Seq<u8>, t: Token, k: Seq<u8>) -> bool {
    t is Punct && text(src, token_span(t)) == k
}

/// The scanner over one source text: its state, the lookahead token, and the
/// diagnostics reported so far.
pub struct Lex<'a> {
    src: &'a [u8],
    indent: Vec<usize>,
    pos: usize,
    pending: Option<usize>,
    peek: Token,
    errors: Vec<ParseError>,
}

pub struct LexView {
    pub src: Seq<u8>,
    pub state: LexState,
    pub peek: Token,
    pub errors: Seq<ParseError>,
}

impl LexView {
    pub open spec fn wf(self) -> bool {
        &&& wf_state(self.src, self.state)
        &&& self.src.len() <= usize::MAX
        &&& span_in(self.src, token_span(self.peek))
        &&& self.peek is Eof ==> is_end_of_input(self.state, self.src) && self.peek == Token::Eof(
            span_of(self.src.len() as int, self.src.len() as int),
        )
    }

    /// The scanner after one more token: the lookahead is replaced by the next one.
    pub open spec fn advanced(self) -> LexView {
        LexView {
            src: self.src,
            state: step(self.src, self.state).1,
            peek: step(self.src, self.state).0,
            errors: self.errors,
        }
    }

    /// A bound on the tokens left to hand out, the lookahead included; it counts
    /// `Eof` as none.
    pub open spec fn progress(self) -> int {
        remaining(self.src, self.state) + if self.peek is Eof {
            0int
        } else {
            1int
        }
    }

    pub open spec fn at_eof(self) -> bool {
        self.peek is Eof
    }
}

pub proof fn lemma_advanced(l: LexView)
    requires
        l.wf(),
    ensures
        l.advanced().wf(),
        l.advanced().progress() <= l.progress(),
        !l.at_eof() ==> l.advanced().progress() < l.progress(),
        l.at_eof() ==> l.advanced() == l,
{
    lemma_step(l.src, l.state);
    if l.at_eof() {
        lemma_eof_is_fixed(l.src, l.state);
    }
}

impl<'a> View for Lex<'a> {
    type V = LexView;

    closed spec fn view(&self) -> LexView {
        LexView {
            src: self.src@,
            state: LexState {
                pos: self.pos as int,
                indent: self.indent@,
                pending: self.pending,
            },
            peek: self.peek,
            errors: self.errors@,
        }
    }
}

impl<'a> Lex<'a> {
    /// A scanner at the start of `src`, with its first token already scanned.
    pub fn new(src: &'a str) -> (r: Self)
        ensures
            r@ == (LexView {
                src: src.spec_bytes(),
                state: initial_state(),
                peek: Token::Eof(span_of(0, 0)),
                errors: Seq::empty(),
            }).advanced(),
            r@.wf(),
    {
        let bytes = src.as_bytes();
        proof {
            assert(bytes.len() == bytes@.len());
        }
        let mut s = Lex {
            src: bytes,
            indent: Vec::new(),
            pos: 0,
            pending: None,
            peek: Token::Eof(Span { start: 0, end: 0 }),
            errors: Vec::new(),
        };
        proof {
            lemma_step(s@.src, s@.state);
        }
        s.peek = s.next();
        s
    }

    /// Records a diagnostic; it does not change what is scanned.
    pub fn error(&mut self, span: Span, reason: &'static str)
        ensures
            final(self)@ == (LexView {
                errors: old(self)@.errors.push(ParseError { span, reason }),
                ..old(self)@
            }),
    {
        self.errors.push(ParseError { span, reason });
    }

    /// The diagnostics recorded so far, oldest first.
    pub fn errors(&self) -> (r: &Vec<ParseError>)
        ensures
            r@ == self@.errors,
    {
        &self.errors
    }

    /// The lookahead token; the scanner is left as it is.
    pub fn peek(&self) -> (r: &Token)
        ensures
            *r == self@.peek,
    {
        &self.peek
    }

    /// Hands out the lookahead's span and scans the next token into its place.
    pub fn advance(&mut self) -> (r: Span)
        requires
            old(self)@.wf(),
        ensures
            r == token_span(old(self)@.peek),
            final(self)@ == old(self)@.advanced(),
            final(self)@.wf(),
            final(self)@.progress() <= old(self)@.progress(),
            !old(self)@.at_eof() ==> final(self)@.progress() < old(self)@.progress(),
    {
        proof {
            lemma_advanced(self@);
        }
        let span = self.span();
        self.peek = self.next();
        span
    }

    /// The lookahead's span.
    pub fn span(&self) -> (r: Span)
        ensures
            r == token_span(self@.peek),
    {
        match self.peek {
            Token::Punct(span)
            | Token::Int(span)
            | Token::Float(span)
            | Token::Hex(span)
            | Token::Keyword(span)
            | Token::Ident(span)
            | Token::Str(span)
            | Token::Newline(span)
            | Token::Begin(span)
            | Token::End(span)
            | Token::Eof(span)
            | Token::UnknownToken(span)
            | Token::UnterminatedString(span) => span,
        }
    }

    /// Whether the lookahead is the one-byte operator or punctuation `a`.
    pub fn peek_is_punct(&self, a: u8) -> (r: bool)
        requires
            self@.wf(),
        ensures
            r == is_punct(self@.src, self@.peek, seq![a]),
    {
        match self.peek {
            Token::Punct(s) => {
                let r = s.end - s.start == 1 && self.src[s.start] == a;
                proof {
                    let t = text(self@.src, s);
                    if r {
                        assert(t =~= seq![a]);
                    } else if t == seq![a] {
                        assert(span_in(self@.src, s));
                        assert(t.len() == 1);
                        assert(t[0] == self@.src[s.start as int]);
                    }
                }
                r
            },
            _ => false,
        }
    }

    /// Whether the lookahead is the two-byte operator `a b`.
    pub fn peek_is_punct2(&self, a: u8, b: u8) -> (r: bool)
        requires
            self@.wf(),
        ensures
            r == is_punct(self@.src, self@.peek, seq![a, b]),
    {
        match self.peek {
            Token::Punct(s) => {
                let r = s.end - s.start == 2 && self.src[s.start] == a && self.src[s.start + 1]
                    == b;
                proof {
                    let t = text(self@.src, s);
                    if r {
                        assert(t =~= seq![a, b]);
                    } else if t == seq![a, b] {
                        assert(span_in(self@.src, s));
                        assert(t.len() == 2);
                        assert(t[0] == self@.src[s.start as int]);
                        assert(t[1] == self@.src[s.start + 1]);
                    }
                }
                r
            },
            _ => false,
        }
    }

    /// Scans one token from the current position and moves past it. The lookahead
    /// is left as it is.
    pub fn next(&mut self) -> (r: Token)
        requires
            wf_state(old(self)@.src, old(self)@.state),
            old(self)@.src.len() <= usize::MAX,
        ensures
            r == step(old(self)@.src, old(self)@.state).0,
            final(self)@ == (LexView { state: step(old(self)@.src, old(self)@.state).1, ..old(self)@ }),
    {
        let bytes = self.src;
        if let Some(w) = self.pending {
            if self.indent.len() > 0 && w < self.indent[self.indent.len() - 1] {
                self.indent.pop();
                return Token::End(Span { start: self.pos, end: self.pos });
            }
        }
        self.pending = None;
        proof {
            lemma_run_end(bytes@, self.pos as int, Class::Space);
        }
        let q = next_pos(bytes, self.pos, Class::Space);
        self.pos = q;
        if q == bytes.len() {
            if self.indent.len() == 0 {
                Token::Eof(Span { start: q, end: q })
            } else {
                self.indent.pop();
                Token::End(Span { start: q, end: q })
            }
        } else if bytes[q] == NEWLINE {
            let start = q + 1;
            proof {
                lemma_run_end(bytes@, start as int, Class::Space);
            }
            let s = next_pos(bytes, start, Class::Space);
            let new_indent = s - start;
            let old_indent = if self.indent.len() == 0 {
                0
            } else {
                self.indent[self.indent.len() - 1]
            };
            if s == bytes.len() {
                self.pos = s;
                Token::Newline(Span { start: s, end: s })
            } else if bytes[s] == NEWLINE {
                self.pos = start;
                Token::Newline(Span { start: s - 1, end: s })
            } else {
                self.pos = s;
                if new_indent > old_indent {
                    self.indent.push(new_indent);
                    Token::Begin(Span { start, end: start })
                } else if new_indent < old_indent {
                    self.indent.pop();
                    self.pending = Some(new_indent);
                    Token::End(Span { start, end: start })
                } else {
                    Token::Newline(Span { start, end: start })
                }
            }
        } else {
            let (t, e) = scan_lexeme(bytes, q);
            self.pos = e;
            t
        }
    }
}

/// The scanner's state after `n` tokens have been scanned from the start of `src`.
pub open spec fn state_after(src: Seq<u8>, n: nat) -> LexState
    decreases n,
{
    if n == 0 {
        initial_state()
    } else {
        step(src, state_after(src, (n - 1) as nat)).1
    }
}

/// The token scanned `n`-th from the start of `src`, counting from 0: the first
/// lookahead of `Lex::new` is token 0, and each `advance` brings in the next.
pub open spec fn token_at(src: Seq<u8>, n: nat) -> Token {
    step(src, state_after(src, n)).0
}

/// How many of the first `n` tokens of `src` are `Begin`.
pub open spec fn begins(src: Seq<u8>, n: nat) -> nat
    decreases n,
{
    if n == 0 {
        0
    } else {
        begins(src, (n - 1) as nat) + if token_at(src, (n - 1) as nat) is Begin {
            1nat
        } else {
            0nat
        }
    }
}

/// How many of the first `n` tokens of `src` are `End`.
pub open spec fn ends(src: Seq<u8>, n: nat) -> nat
    decreases n,
{
    if n == 0 {
        0
    } else {
        ends(src, (n - 1) as nat) + if token_at(src, (n - 1) as nat) is End {
            1nat
        } else {
            0nat
        }
    }
}

proof fn lemma_lexeme_not_structural(src: Seq<u8>, q: int)
    ensures
        !(lexeme_at(src, q).0 is Begin),
        !(lexeme_at(src, q).0 is End),
{
}

/// A `Begin` pushes one width, an `End` pops one, and no other token touches the stack.
proof fn lemma_step_indent(src: Seq<u8>, st: LexState)
    requires
        wf_state(src, st),
    ensures
        step(src, st).0 is Begin ==> step(src, st).1.indent.len() == st.indent.len() + 1,
        step(src, st).0 is End ==> st.indent.len() > 0 && step(src, st).1.indent.len()
            == st.indent.len() - 1,
        !(step(src, st).0 is Begin) && !(step(src, st).0 is End) ==> step(src, st).1.indent
            == st.indent,
{
    if !owes_end(st) {
        let q = run_end(src, st.pos, Class::Space);
        lemma_run_end(src, st.pos, Class::Space);
        if q < src.len() && src[q] != NEWLINE {
            lemma_lexeme_not_structural(src, q);
        } else if q < src.len() {
            lemma_run_end(src, q + 1, Class::Space);
        }
    }
}

proof fn lemma_state_after(src: Seq<u8>, n: nat)
    requires
        src.len() <= usize::MAX,
    ensures
        wf_state(src, state_after(src, n)),
        is_end_of_input(state_after(src, n), src) || remaining(src, state_after(src, n))
            <= src.len() - n,
        begins(src, n) == ends(src, n) + state_after(src, n).indent.len(),
    decreases n,
{
    if n > 0 {
        let m = (n - 1) as nat;
        lemma_state_after(src, m);
        lemma_step(src, state_after(src, m));
        lemma_step_indent(src, state_after(src, m));
        if is_end_of_input(state_after(src, m), src) {
            lemma_eof_is_fixed(src, state_after(src, m));
        }
    }
}

/// Lexing ends: from token `src.len()` on, every token is `Eof`, so at most
/// `src.len()` calls of `advance` bring the lookahead to `Eof`.
pub proof fn lemma_lexing_ends(src: Seq<u8>, n: nat)
    requires
        src.len() <= usize::MAX,
        n >= src.len(),
    ensures
        token_at(src, n) is Eof,
{
    lemma_state_after(src, n);
    lemma_step(src, state_after(src, n));
    if is_end_of_input(state_after(src, n), src) {
        lemma_eof_is_fixed(src, state_after(src, n));
    }
}

/// The indentation stack holds strictly increasing widths after any number of tokens.
pub proof fn lemma_indent_increasing(src: Seq<u8>, n: nat)
    requires
        src.len() <= usize::MAX,
    ensures
        strictly_increasing(state_after(src, n).indent),
{
    lemma_state_after(src, n);
}

/// Indentation balances: the tokens scanned before the lookahead reaches `Eof`
/// hold as many `End` as `Begin`, and after that none of either comes.
pub proof fn lemma_indentation_balances(src: Seq<u8>, n: nat)
    requires
        src.len() <= usize::MAX,
        token_at(src, n) is Eof,
    ensures
        begins(src, n) == ends(src, n),
        begins(src, n + 1) == ends(src, n + 1),
{
    lemma_state_after(src, n);
    lemma_step(src, state_after(src, n));
}

} // verus!
