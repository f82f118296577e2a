use vstd::prelude::*;
use crate::ast::{can_start, is_prefix_op, token_prec, Expr, FormalArg, ParseError};
use crate::lex::{
    is_punct, token_span, LexView, Span, Token, BANG, BAR, COMMA, DOT, LBRACKET, LPAREN, MINUS,
    PLUS, RBRACKET, RPAREN, SEMICOLON,
};

verus! {

broadcast use vstd::std_specs::vec::axiom_vec_index_decreases;

/// The expression tree as a mathematical value: `Expr` with sequences in place of
/// vectors.
pub enum Tree {
    Ident(Span),
    Int(Span),
    Float(Span),
    Hex(Span),
    Str(Span),
    Closure(Span, Seq<(FormalArg, Option<Span>)>, Span, Box<Tree>),
    Block(Span, Seq<Tree>, Span),
    Array(Span, Seq<Tree>, Span),
    Binary(Box<Tree>, Span, Box<Tree>),
    Unary(Span, Box<Tree>),
    Paren(Span, Box<Tree>, Span),
    Tuple(Span, Seq<(Tree, Option<Span>)>, Span),
    Call(Box<Tree>, Span, Seq<(Tree, Option<Span>)>, Span),
    Index(Box<Tree>, Span, Box<Tree>, Span),
    Dot(Box<Tree>, Span, Box<Tree>),
    Bad(Span),
}

/// Whether the list `items` is the list `ts`, element by element.
pub open spec fn models_list(items: Seq<(Expr, Option<Span>)>, ts: Seq<(Tree, Option<Span>)>) -> bool {
    &&& items.len() == ts.len()
    &&& forall|i: int| 0 <= i < items.len() ==> models(#[trigger] items[i].0, ts[i].0) && items[i].1 == ts[i].1
}

/// Whether the expressions `items` are the trees `ts`, one by one.
pub open spec fn models_seq(items: Seq<Expr>, ts: Seq<Tree>) -> bool {
    &&& items.len() == ts.len()
    &&& forall|i: int| 0 <= i < items.len() ==> models(#[trigger] items[i], ts[i])
}

/// Whether `e` is the tree `t`.
pub open spec fn models(e: Expr, t: Tree) -> bool
    decreases e,
{
    match e {
        Expr::Ident(s) => t == Tree::Ident(s),
        Expr::Int(s) => t == Tree::Int(s),
        Expr::Float(s) => t == Tree::Float(s),
        Expr::Hex(s) => t == Tree::Hex(s),
        Expr::Str(s) => t == Tree::Str(s),
        Expr::Bad(s) => t == Tree::Bad(s),
        Expr::Closure(c) => match t {
            Tree::Closure(o, args, cl, body) => o == c.open && args == c.formal_args@ && cl
                == c.close && models(c.body, *body),
            _ => false,
        },
        Expr::Block(b) => match t {
            Tree::Block(bg, items, en) => bg == b.begin && en == b.end && items.len()
                == b.items@.len() && forall|i: int|
                0 <= i < b.items@.len() ==> models(#[trigger] b.items@[i], items[i]),
            _ => false,
        },
        Expr::Array(l, v, r) => match t {
            Tree::Array(l2, items, r2) => l2 == l && r2 == r && items.len() == v@.len() && forall|
                i: int,
            |
                0 <= i < v@.len() ==> models(#[trigger] v@[i], items[i]),
            _ => false,
        },
        Expr::Binary(a, op, b) => match t {
            Tree::Binary(ta, op2, tb) => op2 == op && models(*a, *ta) && models(*b, *tb),
            _ => false,
        },
        Expr::Unary(op, a) => match t {
            Tree::Unary(op2, ta) => op2 == op && models(*a, *ta),
            _ => false,
        },
        Expr::Paren(l, a, r) => match t {
            Tree::Paren(l2, ta, r2) => l2 == l && r2 == r && models(*a, *ta),
            _ => false,
        },
        Expr::Tuple(l, v, r) => match t {
            Tree::Tuple(l2, items, r2) => l2 == l && r2 == r && items.len() == v@.len() && forall|
                i: int,
            |
                0 <= i < v@.len() ==> models(#[trigger] v@[i].0, items[i].0) && v@[i].1
                    == items[i].1,
            _ => false,
        },
        Expr::Call(f, l, v, r) => match t {
            Tree::Call(tf, l2, items, r2) => l2 == l && r2 == r && models(*f, *tf) && items.len()
                == v@.len() && forall|i: int|
                0 <= i < v@.len() ==> models(#[trigger] v@[i].0, items[i].0) && v@[i].1
                    == items[i].1,
            _ => false,
        },
        Expr::Index(a, l, i, r) => match t {
            Tree::Index(ta, l2, ti, r2) => l2 == l && r2 == r && models(*a, *ta) && models(
                *i,
                *ti,
            ),
            _ => false,
        },
        Expr::Dot(a, d, m) => match t {
            Tree::Dot(ta, d2, tm) => d2 == d && models(*a, *ta) && models(*m, *tm),
            _ => false,
        },
    }
}

/// The parser's measure: how many tokens are left, the lookahead included.
pub open spec fn size(v: LexView) -> nat {
    if v.progress() < 0 {
        0
    } else {
        v.progress() as nat
    }
}

/// `v` with the diagnostic `reason` about `span` added.
pub open spec fn report(v: LexView, span: Span, reason: &'static str) -> LexView {
    LexView { errors: v.errors.push(ParseError { span, reason }), ..v }
}

/// What a missing closer is reported as.
pub open spec fn closer_reason(closer: u8) -> &'static str {
    if closer == RPAREN {
        "expected )"
    } else {
        "expected ]"
    }
}

/// The closer `closer`: `(true, its span, after it)` if it is the lookahead; else
/// `(false, span, ...)` with the token in its place reported and taken.
pub open spec fn close_from(v: LexView, closer: u8) -> (bool, Span, LexView) {
    let s = token_span(v.peek);
    if is_punct(v.src, v.peek, seq![closer]) {
        (true, s, v.advanced())
    } else {
        (false, s, report(v.advanced(), s, closer_reason(closer)))
    }
}

/// An expression from `v`, or `None` when its lookahead cannot begin one.
pub open spec fn expr_from(v: LexView) -> Option<(Tree, LexView)>
    decreases size(v), 8nat,
{
    if can_start(v.src, v.peek) {
        Some(binop_from(v, 0))
    } else {
        None
    }
}

/// Atoms joined by binary operators of precedence `min` or more, by precedence
/// climbing: each right operand takes only operators that bind more tightly.
pub open spec fn binop_from(v: LexView, min: int) -> (Tree, LexView)
    decreases size(v), 7nat,
{
    let (lhs, v1) = atom_from(v);
    if size(v1) <= size(v) {
        binop_rest(v1, lhs, min)
    } else {
        (lhs, v1)
    }
}

/// The rest of a chain of binary operators whose left part is `lhs`.
pub open spec fn binop_rest(v: LexView, lhs: Tree, min: int) -> (Tree, LexView)
    decreases size(v), 6nat,
{
    let p = token_prec(v.src, v.peek);
    if p == 0 || p < min {
        (lhs, v)
    } else {
        let op = token_span(v.peek);
        let v1 = v.advanced();
        if size(v1) < size(v) {
            let (rhs, v2) = binop_from(v1, p + 1);
            if size(v2) < size(v) {
                binop_rest(v2, Tree::Binary(Box::new(lhs), op, Box::new(rhs)), min)
            } else {
                (lhs, v2)
            }
        } else {
            (lhs, v1)
        }
    }
}

/// A primary expression: a name or literal, a unary operator on an atom, a group
/// or tuple, a closure or a block.
pub open spec fn primary_from(v: LexView) -> (Tree, LexView)
    decreases size(v), 4nat,
{
    let t = v.peek;
    let s = token_span(t);
    if is_punct(v.src, t, seq![BAR]) {
        closure_from(v)
    } else if t is Begin {
        block_from(v)
    } else if is_prefix_op(v.src, t) {
        let v1 = v.advanced();
        if size(v1) < size(v) {
            let (operand, v2) = atom_from(v1);
            (Tree::Unary(s, Box::new(operand)), v2)
        } else {
            (Tree::Bad(s), v1)
        }
    } else if is_punct(v.src, t, seq![LPAREN]) {
        let v1 = v.advanced();
        if size(v1) < size(v) {
            let (args, v2) = args_from(v1, Seq::empty());
            let (closed, r, v3) = close_from(v2, RPAREN);
            if !closed {
                (Tree::Bad(r), v3)
            } else if args.len() == 1 && args[0].1 is None {
                (Tree::Paren(s, Box::new(args[0].0), r), v3)
            } else {
                (Tree::Tuple(s, args, r), v3)
            }
        } else {
            (Tree::Bad(s), v1)
        }
    } else if t is Ident {
        (Tree::Ident(s), v.advanced())
    } else if t is Int {
        (Tree::Int(s), v.advanced())
    } else if t is Float {
        (Tree::Float(s), v.advanced())
    } else if t is Hex {
        (Tree::Hex(s), v.advanced())
    } else if t is Str {
        (Tree::Str(s), v.advanced())
    } else {
        (Tree::Bad(s), v)
    }
}

/// A primary expression and the postfix operators after it; a token that cannot
/// begin one is reported and taken as `Bad`.
pub open spec fn atom_from(v: LexView) -> (Tree, LexView)
    decreases size(v), 5nat,
{
    let t = v.peek;
    let s = token_span(t);
    let (prefix, v1) = primary_from(v);
    if !can_start(v.src, t) {
        (Tree::Bad(s), report(v.advanced(), s, "expected an expression"))
    } else if size(v1) <= size(v) {
        postfix_from(v1, prefix)
    } else {
        (prefix, v1)
    }
}

/// Indexing, calls and member access after `e`, each wrapping what came before; an
/// index or call whose closer is missing becomes `Bad`.
pub open spec fn postfix_from(v: LexView, e: Tree) -> (Tree, LexView)
    decreases size(v), 3nat,
{
    let t = v.peek;
    let s = token_span(t);
    let v1 = v.advanced();
    if !(size(v1) < size(v)) {
        (e, v)
    } else if is_punct(v.src, t, seq![LBRACKET]) {
        let (i, v2) = binop_from(v1, 0);
        let (closed, r, v3) = close_from(v2, RBRACKET);
        let e2 = if closed {
            Tree::Index(Box::new(e), s, Box::new(i), r)
        } else {
            Tree::Bad(r)
        };
        if size(v3) < size(v) {
            postfix_from(v3, e2)
        } else {
            (e, v3)
        }
    } else if is_punct(v.src, t, seq![LPAREN]) {
        let (args, v2) = args_from(v1, Seq::empty());
        let (closed, r, v3) = close_from(v2, RPAREN);
        let e2 = if closed {
            Tree::Call(Box::new(e), s, args, r)
        } else {
            Tree::Bad(r)
        };
        if size(v3) < size(v) {
            postfix_from(v3, e2)
        } else {
            (e, v3)
        }
    } else if is_punct(v.src, t, seq![DOT]) {
        let (m, v2) = atom_from(v1);
        if size(v2) < size(v) {
            postfix_from(v2, Tree::Dot(Box::new(e), s, Box::new(m)))
        } else {
            (e, v2)
        }
    } else {
        (e, v)
    }
}

/// One element of a list: an expression, or a reported `Bad` on one token.
pub open spec fn element_from(v: LexView) -> (Tree, LexView)
    decreases size(v), 9nat,
{
    match expr_from(v) {
        Some(r) => r,
        None => {
            let s = token_span(v.peek);
            (Tree::Bad(s), report(v.advanced(), s, "expected an expression"))
        },
    }
}

/// The rest of a comma-separated list up to `)`, after the elements `acc`. The
/// list ends at `)`, or after an element with no comma behind it.
pub open spec fn args_from(v: LexView, acc: Seq<(Tree, Option<Span>)>) -> (
    Seq<(Tree, Option<Span>)>,
    LexView,
)
    decreases size(v), 10nat,
{
    if is_punct(v.src, v.peek, seq![RPAREN]) {
        (acc, v)
    } else {
        let (e, v1) = element_from(v);
        if is_punct(v1.src, v1.peek, seq![COMMA]) {
            let v2 = v1.advanced();
            if size(v2) < size(v) {
                args_from(v2, acc.push((e, Some(token_span(v1.peek)))))
            } else {
                (acc.push((e, None)), v1)
            }
        } else {
            (acc.push((e, None)), v1)
        }
    }
}

/// The rest of the closure parameters up to `|` or the end of input, after `acc`.
/// A token that is no name is reported and taken as a `Bad` parameter.
pub open spec fn formal_args_from(v: LexView, acc: Seq<(FormalArg, Option<Span>)>) -> (
    Seq<(FormalArg, Option<Span>)>,
    LexView,
)
    decreases size(v),
{
    let t = v.peek;
    let s = token_span(t);
    let v1 = v.advanced();
    if is_punct(v.src, t, seq![BAR]) || t is Eof || !(size(v1) < size(v)) {
        (acc, v)
    } else if !(t is Ident) {
        formal_args_from(report(v1, s, "expected a parameter name"), acc.push((FormalArg::Bad(s), None)))
    } else if is_punct(v1.src, v1.peek, seq![COMMA]) {
        let v2 = v1.advanced();
        let acc2 = acc.push((FormalArg::Name(s), Some(token_span(v1.peek))));
        if size(v2) < size(v) {
            formal_args_from(v2, acc2)
        } else {
            (acc2, v2)
        }
    } else {
        (acc.push((FormalArg::Name(s), None)), v1)
    }
}

/// `|params| body`, from the opening bar; a missing `|` or body gives `Bad`.
pub open spec fn closure_from(v: LexView) -> (Tree, LexView)
    decreases size(v), 3nat,
{
    let open = token_span(v.peek);
    let v1 = v.advanced();
    let (params, v2) = formal_args_from(v1, Seq::empty());
    let s = token_span(v2.peek);
    let v3 = v2.advanced();
    if !is_punct(v2.src, v2.peek, seq![BAR]) {
        (Tree::Bad(s), report(v3, s, "expected a closing |"))
    } else if !(size(v3) < size(v)) {
        (Tree::Bad(s), v3)
    } else {
        match expr_from(v3) {
            Some((body, v4)) => (Tree::Closure(open, params, s, Box::new(body)), v4),
            None => {
                let b = token_span(v3.peek);
                (Tree::Bad(b), report(v3.advanced(), b, "expected an expression after |..|"))
            },
        }
    }
}

/// A block, from its `Begin`: the lines up to the `End`, or `Bad` at the end of
/// input.
pub open spec fn block_from(v: LexView) -> (Tree, LexView)
    decreases size(v), 3nat,
{
    let begin = token_span(v.peek);
    let v1 = v.advanced();
    if !(size(v1) < size(v)) {
        (Tree::Bad(begin), v1)
    } else {
        let (items, v2) = lines_from(v1, Seq::empty());
        let s = token_span(v2.peek);
        if v2.peek is End {
            (Tree::Block(begin, items, s), v2.advanced())
        } else {
            (Tree::Bad(s), report(v2.advanced(), s, "expected the end of the block"))
        }
    }
}

/// The separator after a block item: taken if it is a newline or `;`; nothing at
/// `End` or the end of input; else the token there is reported and taken as `Bad`,
/// with a separator after it.
pub open spec fn separator_from(v: LexView, items: Seq<Tree>) -> (Seq<Tree>, LexView) {
    let t = v.peek;
    if t is Newline || is_punct(v.src, t, seq![SEMICOLON]) {
        (items, v.advanced())
    } else if t is End || t is Eof {
        (items, v)
    } else {
        let s = token_span(t);
        let v1 = report(v.advanced(), s, "expected a newline or ;");
        if v1.peek is Newline || is_punct(v1.src, v1.peek, seq![SEMICOLON]) {
            (items.push(Tree::Bad(s)), v1.advanced())
        } else {
            (items.push(Tree::Bad(s)), v1)
        }
    }
}

/// The rest of a block's lines, after `items`, up to `End` or the end of input.
pub open spec fn lines_from(v: LexView, items: Seq<Tree>) -> (Seq<Tree>, LexView)
    decreases size(v), 10nat,
{
    if v.peek is End || v.peek is Eof {
        (items, v)
    } else {
        let (e, v1) = element_from(v);
        let (items2, v2) = separator_from(v1, items.push(e));
        if size(v2) < size(v) {
            lines_from(v2, items2)
        } else {
            (items2, v2)
        }
    }
}

/// The rest of a programme after `items`: `None` when the first expression cannot
/// begin.
pub open spec fn programme_from(v: LexView, items: Seq<Tree>) -> (Option<Seq<Tree>>, LexView)
    decreases size(v),
{
    let t = v.peek;
    let v1 = v.advanced();
    if t is Eof {
        (Some(items), v)
    } else if !(size(v1) < size(v)) {
        (Some(items), v)
    } else if t is Newline || is_punct(v.src, t, seq![SEMICOLON]) {
        programme_from(v1, items)
    } else if !can_start(v.src, t) && items.len() == 0 {
        (None, v)
    } else {
        let (e, v2) = element_from(v);
        if size(v2) < size(v) {
            programme_from(v2, items.push(e))
        } else {
            (Some(items.push(e)), v2)
        }
    }
}

} // verus!
