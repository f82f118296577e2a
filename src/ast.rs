use vstd::prelude::*;
use crate::grammar::{
    args_from, atom_from, binop_from, binop_rest, block_from, close_from, closure_from,
    element_from, expr_from, models_seq, formal_args_from, lines_from, models, models_list, postfix_from,
    primary_from, programme_from, separator_from, size, Tree,
};
use crate::lex::{
    lemma_advanced,    is_punct, text, token_span, Lex, LexView, Span, Token, BANG, BAR, COMMA, DOT, LBRACKET,
    LPAREN, MINUS, PERCENT, PLUS, RBRACKET, RPAREN, SEMICOLON, SLASH, STAR,
};

verus! {

/// An indented run of expressions, one per line, taken as one expression.
#[derive(Debug, PartialEq)]
pub struct Block {
    pub begin: Span,
    pub items: Vec<Expr>,
    pub end: Span,
}

/// A closure parameter.
#[derive(Debug, PartialEq)]
pub enum FormalArg {
    Name(Span),
    NameWithDefault(Span, Span, Expr),
    Bad(Span),
}

/// `|a, b| body`: the two bars, the parameters with their separators, and the body.
#[derive(Debug, PartialEq)]
pub struct Closure {
    pub open: Span,
    pub formal_args: Vec<(FormalArg, Option<Span>)>,
    pub close: Span,
    pub body: Expr,
}

/// The expression tree. Each list element carries the separator that followed it.
#[derive(Debug, PartialEq)]
pub enum Expr {
    Ident(Span),
    Int(Span),
    Float(Span),
    Hex(Span),
    Str(Span),
    Closure(Box<Closure>),
    Block(Block),
    Array(Span, Vec<Expr>, Span),
    Binary(Box<Expr>, Span, Box<Expr>),
    Unary(Span, Box<Expr>),
    Paren(Span, Box<Expr>, Span),
    Tuple(Span, Vec<(Expr, Option<Span>)>, Span),
    Call(Box<Expr>, Span, Vec<(Expr, Option<Span>)>, Span),
    Index(Box<Expr>, Span, Box<Expr>, Span),
    Dot(Box<Expr>, Span, Box<Expr>),
    Bad(Span),
}

/// A diagnostic: the span that it is about, and what was expected there.
#[derive(Clone, Copy, Debug, PartialEq, Eq)]
pub struct ParseError {
    pub span: Span,
    pub reason: &'static str,
}

/// `new` keeps every diagnostic of `old`, in order, and may add more after them.
pub open spec fn keeps_errors(new: Seq<ParseError>, old: Seq<ParseError>) -> bool {
    new.len() >= old.len() && forall|i: int| 0 <= i < old.len() ==> new[i] == old[i]
}

/// What every parsing step keeps: a well-formed scanner over the same source, no
/// tokens given back, and no diagnostic taken away.
pub open spec fn follows(new: LexView, old: LexView) -> bool {
    &&& new.wf()
    &&& new.src == old.src
    &&& new.progress() <= old.progress()
    &&& keeps_errors(new.errors, old.errors)
}

/// `new` is `old` with one diagnostic about `span` added and nothing else changed.
pub open spec fn reported(new: LexView, old: LexView, span: Span) -> bool {
    &&& new.src == old.src
    &&& new.state == old.state
    &&& new.peek == old.peek
    &&& new.errors.len() == old.errors.len() + 1
    &&& keeps_errors(new.errors, old.errors)
    &&& new.errors.last().span == span
}

/// The precedence of a binary operator, or 0 for anything else.
pub open spec fn binop_prec(k: Seq<u8>) -> int {
    if k == seq![PLUS] {
        30
    } else if k == seq![MINUS] || k == seq![STAR] || k == seq![SLASH] || k == seq![PERCENT] {
        40
    } else if k == seq![STAR, STAR] {
        50
    } else {
        0
    }
}

/// The precedence of `t` as a binary operator, or 0 if it is none.
pub open spec fn token_prec(src: Seq<u8>, t: Token) -> int {
    if t is Punct {
        binop_prec(text(src, token_span(t)))
    } else {
        0
    }
}

/// Whether a binary-operator tree respects precedence and groups to the left: each
/// operator binds no looser than `min`, its left operand holds no looser operator,
/// and its right operand only tighter ones.
pub open spec fn climbs(src: Seq<u8>, e: Expr, min: int) -> bool
    decreases e,
{
    match e {
        Expr::Binary(l, op, r) => {
            let p = binop_prec(text(src, op));
            &&& p >= min
            &&& climbs(src, *l, p)
            &&& climbs(src, *r, p + 1)
        },
        _ => true,
    }
}

/// The precedence of the operator at the top of `e`, or 0 if it is no binary node.
pub open spec fn top_prec(src: Seq<u8>, e: Expr) -> int {
    match e {
        Expr::Binary(_, op, _) => binop_prec(text(src, op)),
        _ => 0,
    }
}

proof fn lemma_climbs_from(src: Seq<u8>, e: Expr, min: int, from: int)
    requires
        climbs(src, e, min),
        e is Binary ==> top_prec(src, e) >= from,
    ensures
        climbs(src, e, from),
{
}

pub open spec fn is_prefix_op(src: Seq<u8>, t: Token) -> bool {
    is_punct(src, t, seq![BANG]) || is_punct(src, t, seq![PLUS]) || is_punct(src, t, seq![MINUS])
}

pub open spec fn is_postfix_op(src: Seq<u8>, t: Token) -> bool {
    is_punct(src, t, seq![LBRACKET]) || is_punct(src, t, seq![LPAREN]) || is_punct(
        src,
        t,
        seq![DOT],
    )
}

/// Whether an expression can begin with `t`.
pub open spec fn can_start(src: Seq<u8>, t: Token) -> bool {
    ||| t is Begin
    ||| t is Int
    ||| t is Float
    ||| t is Hex
    ||| t is Ident
    ||| t is Str
    ||| is_prefix_op(src, t)
    ||| is_punct(src, t, seq![BAR])
    ||| is_punct(src, t, seq![LPAREN])
}

/// Something that the parser can build from the tokens of a scanner.
pub trait Parse: Sized {
    /// Whether an item of this kind can begin with the token `t`.
    spec fn starts_with(src: Seq<u8>, t: Token) -> bool;

    /// Parses one item, or gives `None`, leaving the scanner untouched, when the
    /// lookahead cannot begin one. Later errors are reported and still give an item.
    fn parse(lex: &mut Lex) -> (r: Option<Self>)
        requires
            old(lex)@.wf(),
        ensures
            follows(final(lex)@, old(lex)@),
            r is None <==> !Self::starts_with(old(lex)@.src, old(lex)@.peek),
            r is None ==> final(lex)@ == old(lex)@,
            r is Some ==> final(lex)@.progress() < old(lex)@.progress(),
    ;
}

impl Parse for Expr {
    open spec fn starts_with(src: Seq<u8>, t: Token) -> bool {
        can_start(src, t)
    }

    fn parse(lex: &mut Lex) -> (r: Option<Self>)
        ensures
            expr_from(old(lex)@) is Some ==> r is Some && models(
                r->0,
                (expr_from(old(lex)@)->0).0,
            ) && final(lex)@ == (expr_from(old(lex)@)->0).1,
            r is Some ==> climbs(old(lex)@.src, r->0, 0),
    {
        parse_expr(lex)
    }
}

fn starts_expr(lex: &Lex) -> (r: bool)
    requires
        lex@.wf(),
    ensures
        r == can_start(lex@.src, lex@.peek),
{
    match lex.peek() {
        Token::Begin(_) | Token::Int(_) | Token::Float(_) | Token::Hex(_) | Token::Ident(_)
        | Token::Str(_) => true,
        _ => lex.peek_is_punct(PLUS) || lex.peek_is_punct(MINUS) || lex.peek_is_punct(BANG)
            || lex.peek_is_punct(BAR) || lex.peek_is_punct(LPAREN),
    }
}

/// Parses one expression, binary operators included, or gives `None`, leaving the
/// scanner untouched, when the lookahead cannot begin one.
pub fn parse_expr(lex: &mut Lex) -> (r: Option<Expr>)
    requires
        old(lex)@.wf(),
    ensures
        follows(final(lex)@, old(lex)@),
        r is None <==> !can_start(old(lex)@.src, old(lex)@.peek),
        r is None ==> final(lex)@ == old(lex)@,
        r is Some ==> final(lex)@.progress() < old(lex)@.progress(),
        r is Some ==> climbs(old(lex)@.src, r->0, 0),
        expr_from(old(lex)@) is Some ==> r is Some && models(r->0, (expr_from(old(lex)@)->0).0)
            && final(lex)@ == (expr_from(old(lex)@)->0).1,
        r is Some ==> !(token_prec(final(lex)@.src, final(lex)@.peek) > 0),
    decreases old(lex)@.progress(), 7nat,
{
    if starts_expr(lex) {
        Some(parse_binop(lex, 0))
    } else {
        None
    }
}

/// The precedence of the lookahead as a binary operator, or 0.
fn peek_precedence(lex: &Lex) -> (r: usize)
    requires
        lex@.wf(),
    ensures
        r as int == token_prec(lex@.src, lex@.peek),
{
    if lex.peek_is_punct(PLUS) {
        30
    } else if lex.peek_is_punct(MINUS) || lex.peek_is_punct(STAR) || lex.peek_is_punct(SLASH)
        || lex.peek_is_punct(PERCENT) {
        40
    } else if lex.peek_is_punct2(STAR, STAR) {
        50
    } else {
        proof {
            let t = lex@.peek;
            if t is Punct {
                let k = text(lex@.src, token_span(t));
                assert(k != seq![STAR, STAR]);
            }
        }
        0
    }
}

/// Parses a chain of atoms joined by binary operators that bind at least as tightly
/// as `min_precedence`, by precedence climbing.
fn parse_binop(lex: &mut Lex, min_precedence: usize) -> (r: Expr)
    requires
        old(lex)@.wf(),
    ensures
        follows(final(lex)@, old(lex)@),
        !old(lex)@.at_eof() ==> final(lex)@.progress() < old(lex)@.progress(),
        climbs(old(lex)@.src, r, min_precedence as int),
        models(r, binop_from(old(lex)@, min_precedence as int).0),
        final(lex)@ == binop_from(old(lex)@, min_precedence as int).1,
        !(token_prec(final(lex)@.src, final(lex)@.peek) >= min_precedence
            && token_prec(final(lex)@.src, final(lex)@.peek) > 0),
    decreases old(lex)@.progress(), 6nat,
{
    let ghost start = lex@;
    let ghost src = lex@.src;
    let mut lhs = parse_atom(lex);
    let ghost mut lhs_t = atom_from(start).0;
    loop
        invariant
            start == old(lex)@,
            follows(lex@, start),
            !start.at_eof() ==> lex@.progress() < start.progress(),
            src == lex@.src,
            climbs(src, lhs, min_precedence as int),
            models(lhs, lhs_t),
            binop_from(start, min_precedence as int) == binop_rest(lex@, lhs_t, min_precedence as int),
            lhs is Binary && token_prec(src, lex@.peek) > 0 ==> top_prec(src, lhs) >= token_prec(
                src,
                lex@.peek,
            ),
        decreases lex@.progress(),
    {
        let precedence = peek_precedence(lex);
        if precedence == 0 || precedence < min_precedence {
            return lhs;
        }
        proof {
            lemma_climbs_from(src, lhs, min_precedence as int, precedence as int);
        }
        let ghost v = lex@;
        let span = lex.advance();
        let ghost v1 = lex@;
        let rhs = parse_binop(lex, precedence + 1);
        proof {
            lhs_t = Tree::Binary(Box::new(lhs_t), span, Box::new(binop_from(v1, precedence + 1).0));
        }
        lhs = Expr::Binary(Box::new(lhs), span, Box::new(rhs));
    }
}

/// Parses a primary expression: a name or literal, a unary operator on an atom, a
/// group or tuple, a closure or a block.
fn parse_primary(lex: &mut Lex) -> (r: Expr)
    requires
        old(lex)@.wf(),
        can_start(old(lex)@.src, old(lex)@.peek),
    ensures
        models(r, primary_from(old(lex)@).0),
        final(lex)@ == primary_from(old(lex)@).1,
        follows(final(lex)@, old(lex)@),
        final(lex)@.progress() < old(lex)@.progress(),
        !(r is Binary),
        !(r is Index) && !(r is Call) && !(r is Dot),
    decreases old(lex)@.progress(), 4nat,
{
    proof {
        assert(seq![BAR][0] == BAR && seq![BANG][0] == BANG && seq![PLUS][0] == PLUS && seq![
            MINUS,
        ][0] == MINUS && seq![LPAREN][0] == LPAREN);
    }
    let ghost start = lex@;
    if lex.peek_is_punct(BAR) {
        parse_closure(lex)
    } else if matches!(lex.peek(), Token::Begin(_)) {
        parse_block(lex)
    } else if lex.peek_is_punct(BANG) || lex.peek_is_punct(PLUS) || lex.peek_is_punct(MINUS) {
        let op = lex.advance();
        let ghost v1 = lex@;
        let operand = parse_atom(lex);
        proof {
            assert(models(operand, atom_from(v1).0));
            assert(primary_from(start).0 == Tree::Unary(op, Box::new(atom_from(v1).0)));
        }
        Expr::Unary(op, Box::new(operand))
    } else if lex.peek_is_punct(LPAREN) {
        let lparen = lex.advance();
        let ghost v1 = lex@;
        let mut args = parse_args(lex);
        let ghost ts = args_from(v1, Seq::empty()).0;
        proof {
            if args@.len() > 0 {
                assert(models(args@[0].0, ts[0].0) && args@[0].1 == ts[0].1);
            }
        }
        if args.len() == 1 && args[0].1.is_none() {
            proof {
                assert(models(args@[0].0, ts[0].0));
            }
            let (expr, _) = args.pop().unwrap();
            match parse_close(lex, RPAREN) {
                Ok(rparen) => {
                    proof {
                        assert(primary_from(start).0 == Tree::Paren(
                            lparen,
                            Box::new(ts[0].0),
                            rparen,
                        ));
                    }
                    Expr::Paren(lparen, Box::new(expr), rparen)
                },
                Err(span) => Expr::Bad(span),
            }
        } else {
            match parse_close(lex, RPAREN) {
                Ok(rparen) => {
                    proof {
                        assert(primary_from(start).0 == Tree::Tuple(lparen, ts, rparen));
                    }
                    Expr::Tuple(lparen, args, rparen)
                },
                Err(span) => Expr::Bad(span),
            }
        }
    } else {
        match lex.peek() {
            Token::Ident(_) => Expr::Ident(lex.advance()),
            Token::Int(_) => Expr::Int(lex.advance()),
            Token::Float(_) => Expr::Float(lex.advance()),
            Token::Hex(_) => Expr::Hex(lex.advance()),
            Token::Str(_) => Expr::Str(lex.advance()),
            _ => Expr::Bad(lex.span()),
        }
    }
}

/// Parses an atom: a primary expression and the postfix operators that follow it.
fn parse_atom(lex: &mut Lex) -> (r: Expr)
    requires
        old(lex)@.wf(),
    ensures
        follows(final(lex)@, old(lex)@),
        !old(lex)@.at_eof() ==> final(lex)@.progress() < old(lex)@.progress(),
        !(r is Binary),
        !(r is Bad) ==> !is_postfix_op(final(lex)@.src, final(lex)@.peek),
        models(r, atom_from(old(lex)@).0),
        final(lex)@ == atom_from(old(lex)@).1,
        !can_start(old(lex)@.src, old(lex)@.peek) ==> reported(
            final(lex)@,
            old(lex)@.advanced(),
            token_span(old(lex)@.peek),
        ),
    decreases old(lex)@.progress(), 5nat,
{
    let ghost start = lex@;
    proof {
        assert(seq![BAR][0] == BAR && seq![BANG][0] == BANG && seq![PLUS][0] == PLUS && seq![
            MINUS,
        ][0] == MINUS && seq![LPAREN][0] == LPAREN);
    }
    if !starts_expr(lex) {
        let span = lex.advance();
        lex.error(span, "expected an expression");
        return Expr::Bad(span);
    }
    let prefix = parse_primary(lex);
    parse_postfix(lex, prefix, Ghost(primary_from(start).0))
}

/// Parses the postfix operators that follow `prefix`: indexing, calls and member
/// access, each wrapping what came before.
fn parse_postfix(lex: &mut Lex, prefix: Expr, Ghost(t): Ghost<Tree>) -> (r: Expr)
    requires
        old(lex)@.wf(),
        !(prefix is Binary),
        models(prefix, t),
    ensures
        follows(final(lex)@, old(lex)@),
        models(r, postfix_from(old(lex)@, t).0),
        final(lex)@ == postfix_from(old(lex)@, t).1,
        !(r is Binary),
        !is_postfix_op(final(lex)@.src, final(lex)@.peek),
    decreases old(lex)@.progress(), 3nat,
{
    let ghost start = lex@;
    let ghost src = lex@.src;
    let mut e = prefix;
    let ghost mut et = t;
    loop
        invariant
            start == old(lex)@,
            follows(lex@, start),
            src == lex@.src,
            !(e is Binary),
            models(e, et),
            postfix_from(start, t) == postfix_from(lex@, et),
        decreases lex@.progress(),
    {
        let ghost v = lex@;
        if lex.peek_is_punct(LBRACKET) {
            let lspan = lex.advance();
            let ghost v1 = lex@;
            let index = parse_binop(lex, 0);
            match parse_close(lex, RBRACKET) {
                Ok(rspan) => {
                    proof {
                        et = Tree::Index(Box::new(et), lspan, Box::new(binop_from(v1, 0).0), rspan);
                    }
                    e = Expr::Index(Box::new(e), lspan, Box::new(index), rspan);
                },
                Err(span) => {
                    proof {
                        et = Tree::Bad(span);
                    }
                    e = Expr::Bad(span);
                },
            }
        } else if lex.peek_is_punct(LPAREN) {
            let lspan = lex.advance();
            let ghost v1 = lex@;
            let args = parse_args(lex);
            match parse_close(lex, RPAREN) {
                Ok(rspan) => {
                    proof {
                        et = Tree::Call(Box::new(et), lspan, args_from(v1, Seq::empty()).0, rspan);
                    }
                    e = Expr::Call(Box::new(e), lspan, args, rspan);
                },
                Err(span) => {
                    proof {
                        et = Tree::Bad(span);
                    }
                    e = Expr::Bad(span);
                },
            }
        } else if lex.peek_is_punct(DOT) {
            let lspan = lex.advance();
            let ghost v1 = lex@;
            let member = parse_atom(lex);
            proof {
                et = Tree::Dot(Box::new(et), lspan, Box::new(atom_from(v1).0));
            }
            e = Expr::Dot(Box::new(e), lspan, Box::new(member));
        } else {
            return e;
        }
    }
}

/// Parses one list element: an expression, or, where none can begin, the token
/// there reported and taken as `Bad`.
fn parse_element(lex: &mut Lex) -> (r: Expr)
    requires
        old(lex)@.wf(),
    ensures
        models(r, element_from(old(lex)@).0),
        final(lex)@ == element_from(old(lex)@).1,
        follows(final(lex)@, old(lex)@),
        !old(lex)@.at_eof() ==> final(lex)@.progress() < old(lex)@.progress(),
    decreases old(lex)@.progress(), 8nat,
{
    match parse_expr(lex) {
        Some(e) => e,
        None => {
            let span = lex.advance();
            lex.error(span, "expected an expression");
            Expr::Bad(span)
        },
    }
}

/// Parses a comma-separated list up to, not including, a closing `)`. The list
/// ends at `)`, or after an element with no comma behind it.
fn parse_args(lex: &mut Lex) -> (r: Vec<(Expr, Option<Span>)>)
    requires
        old(lex)@.wf(),
    ensures
        models_list(r@, args_from(old(lex)@, Seq::empty()).0),
        final(lex)@ == args_from(old(lex)@, Seq::empty()).1,
        follows(final(lex)@, old(lex)@),
        r.len() > 0 && !old(lex)@.at_eof() ==> final(lex)@.progress() < old(lex)@.progress(),
    decreases old(lex)@.progress(), 9nat,
{
    let ghost start = lex@;
    let ghost mut ts: Seq<(Tree, Option<Span>)> = Seq::empty();
    let mut args: Vec<(Expr, Option<Span>)> = Vec::new();
    while !lex.peek_is_punct(RPAREN)
        invariant
            start == old(lex)@,
            follows(lex@, start),
            models_list(args@, ts),
            args.len() == 0 ==> lex@ == start,
            args_from(start, Seq::empty()) == args_from(lex@, ts),
            args.len() > 0 && !start.at_eof() ==> lex@.progress() < start.progress(),
        decreases lex@.progress(),
    {
        let ghost v = lex@;
        let expr = parse_element(lex);
        let ghost te = element_from(v).0;
        if lex.peek_is_punct(COMMA) {
            let sep = lex.advance();
            args.push((expr, Some(sep)));
            proof {
                ts = ts.push((te, Some(sep)));
            }
        } else {
            args.push((expr, None));
            proof {
                ts = ts.push((te, None));
            }
            return args;
        }
    }
    args
}

/// Parses closure parameters up to `|` or the end of input. A token that is no
/// name is reported and taken as a bad parameter.
fn parse_formal_args(lex: &mut Lex) -> (r: Vec<(FormalArg, Option<Span>)>)
    requires
        old(lex)@.wf(),
    ensures
        (r@, final(lex)@) == formal_args_from(old(lex)@, Seq::empty()),
        follows(final(lex)@, old(lex)@),
{
    let ghost start = lex@;
    let mut args: Vec<(FormalArg, Option<Span>)> = Vec::new();
    while !lex.peek_is_punct(BAR) && !matches!(lex.peek(), Token::Eof(_))
        invariant
            start == old(lex)@,
            follows(lex@, start),
            formal_args_from(start, Seq::empty()) == formal_args_from(lex@, args@),
        decreases lex@.progress(),
    {
        if !matches!(lex.peek(), Token::Ident(_)) {
            let span = lex.advance();
            lex.error(span, "expected a parameter name");
            args.push((FormalArg::Bad(span), None));
        } else {
            let name = lex.advance();
            if lex.peek_is_punct(COMMA) {
                let sep = lex.advance();
                args.push((FormalArg::Name(name), Some(sep)));
            } else {
                args.push((FormalArg::Name(name), None));
                return args;
            }
        }
    }
    args
}

/// Takes the closing `closer` and gives `Ok` of its span if it is the lookahead;
/// else reports it missing, takes the token in its place and gives `Err` of that
/// token's span.
fn parse_close(lex: &mut Lex, closer: u8) -> (r: Result<Span, Span>)
    requires
        old(lex)@.wf(),
    ensures
        r is Ok == close_from(old(lex)@, closer).0,
        r is Ok ==> r->Ok_0 == close_from(old(lex)@, closer).1,
        r is Err ==> r->Err_0 == close_from(old(lex)@, closer).1,
        final(lex)@ == close_from(old(lex)@, closer).2,
        follows(final(lex)@, old(lex)@),
        !old(lex)@.at_eof() ==> final(lex)@.progress() < old(lex)@.progress(),
{
    if lex.peek_is_punct(closer) {
        Ok(lex.advance())
    } else {
        let span = lex.advance();
        let reason = if closer == RPAREN {
            "expected )"
        } else {
            "expected ]"
        };
        lex.error(span, reason);
        Err(span)
    }
}

/// Parses `|params| body`; a missing `|` or body is reported and gives `Bad`.
fn parse_closure(lex: &mut Lex) -> (r: Expr)
    requires
        old(lex)@.wf(),
        is_punct(old(lex)@.src, old(lex)@.peek, seq![BAR]),
    ensures
        models(r, closure_from(old(lex)@).0),
        final(lex)@ == closure_from(old(lex)@).1,
        follows(final(lex)@, old(lex)@),
        final(lex)@.progress() < old(lex)@.progress(),
        r is Closure || r is Bad,
    decreases old(lex)@.progress(), 3nat,
{
    let open = lex.advance();
    let formal_args = parse_formal_args(lex);
    if !lex.peek_is_punct(BAR) {
        let span = lex.advance();
        lex.error(span, "expected a closing |");
        return Expr::Bad(span);
    }
    let close = lex.advance();
    match parse_expr(lex) {
        Some(body) => Expr::Closure(Box::new(Closure { open, formal_args, close, body })),
        None => {
            let span = lex.advance();
            lex.error(span, "expected an expression after |..|");
            Expr::Bad(span)
        },
    }
}

/// Parses an indented block: expressions separated by newlines or `;`, up to the
/// `End` that closes the indentation. A missing separator is reported and the
/// token in its place taken as `Bad`, with the separator after it if there is one;
/// a missing `End` makes the block `Bad`.
fn parse_block(lex: &mut Lex) -> (r: Expr)
    requires
        old(lex)@.wf(),
        old(lex)@.peek is Begin,
    ensures
        models(r, block_from(old(lex)@).0),
        final(lex)@ == block_from(old(lex)@).1,
        follows(final(lex)@, old(lex)@),
        final(lex)@.progress() < old(lex)@.progress(),
        r is Block || r is Bad,
    decreases old(lex)@.progress(), 3nat,
{
    let ghost start = lex@;
    let begin = lex.advance();
    let ghost v1 = lex@;
    let mut items: Vec<Expr> = Vec::new();
    let ghost mut ts: Seq<Tree> = Seq::empty();
    while !matches!(lex.peek(), Token::End(_)) && !matches!(lex.peek(), Token::Eof(_))
        invariant
            start == old(lex)@,
            v1 == start.advanced(),
            follows(lex@, start),
            lex@.progress() < start.progress(),
            models_seq(items@, ts),
            lines_from(v1, Seq::empty()) == lines_from(lex@, ts),
        decreases lex@.progress(),
    {
        let ghost v = lex@;
        let item = parse_element(lex);
        let ghost te = element_from(v).0;
        items.push(item);
        proof {
            ts = ts.push(te);
        }
        if matches!(lex.peek(), Token::Newline(_)) || lex.peek_is_punct(SEMICOLON) {
            lex.advance();
        } else if matches!(lex.peek(), Token::End(_)) || matches!(lex.peek(), Token::Eof(_)) {
        } else {
            let span = lex.advance();
            lex.error(span, "expected a newline or ;");
            items.push(Expr::Bad(span));
            proof {
                ts = ts.push(Tree::Bad(span));
            }
            if matches!(lex.peek(), Token::Newline(_)) || lex.peek_is_punct(SEMICOLON) {
                lex.advance();
            }
        }
    }
    if matches!(lex.peek(), Token::End(_)) {
        let end = lex.advance();
        Expr::Block(Block { begin, items, end })
    } else {
        let span = lex.advance();
        lex.error(span, "expected the end of the block");
        Expr::Bad(span)
    }
}

/// The outcome of parsing a whole source text: its top-level expressions, or
/// `Bad()` when not even a first expression could be started.
#[derive(Debug, PartialEq)]
pub enum Programme {
    Good(Vec<Expr>),
    Bad(),
}

/// Parses top-level expressions, separated by newlines or `;`, up to the end of
/// input. A token that cannot begin an expression makes the result `Bad()` if no
/// expression came before it; later, it is reported and taken as `Bad`.
pub fn parse_programme(lex: &mut Lex) -> (r: Programme)
    requires
        old(lex)@.wf(),
    ensures
        programme_from(old(lex)@, Seq::empty()).0 is None ==> r is Bad,
        programme_from(old(lex)@, Seq::empty()).0 is Some ==> r is Good && models_seq(
            r->Good_0@,
            programme_from(old(lex)@, Seq::empty()).0->0,
        ),
        final(lex)@ == programme_from(old(lex)@, Seq::empty()).1,
        follows(final(lex)@, old(lex)@),
        r is Good <==> final(lex)@.at_eof(),
        r is Bad ==> !can_start(final(lex)@.src, final(lex)@.peek),
        r is Bad ==> final(lex)@.errors == old(lex)@.errors,
{
    let ghost start = lex@;
    let mut items: Vec<Expr> = Vec::new();
    let ghost mut ts: Seq<Tree> = Seq::empty();
    loop
        invariant
            start == old(lex)@,
            follows(lex@, start),
            items.len() == 0 ==> lex@.errors == start.errors,
            models_seq(items@, ts),
            programme_from(start, Seq::empty()) == programme_from(lex@, ts),
        decreases lex@.progress(),
    {
        proof {
            lemma_advanced(lex@);
        }
        if matches!(lex.peek(), Token::Eof(_)) {
            return Programme::Good(items);
        }
        if matches!(lex.peek(), Token::Newline(_)) || lex.peek_is_punct(SEMICOLON) {
            lex.advance();
        } else {
            if items.len() == 0 && !starts_expr(lex) {
                return Programme::Bad();
            }
            let ghost v = lex@;
            let item = parse_element(lex);
            items.push(item);
            proof {
                ts = ts.push(element_from(v).0);
            }
        }
    }
}

} // verus!
