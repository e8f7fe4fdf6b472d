//! The ShapeSheet formula grammar: comparisons over sums over products over
//! right-associative powers over primaries (numbers, strings, references,
//! calls, negation and parentheses), within limits on nesting depth, tree
//! size and token count.

use vstd::prelude::*;

use crate::edit_checks::{eq_ignore_ascii_case, eq_ignore_ascii_case_spec};
use crate::formula::{Diagnostic, Limits, Op, Unit};
use crate::formula_lex::{
    chars_of, class_end, class_fn, in_class, is_space, lemma_lex_step_advances, lemma_run_end, lex,
    lex_step, run_end, string_of, token_view, tokens_from, tokens_view, CharClass, Token, TokenView,
};
use crate::text::owned;

verus! {

/// A parsed formula. Number literals keep their spelling and unit suffix.
#[derive(Debug)]
pub enum Expr {
    Number { literal: String, suffix: String, unit: Unit },
    String(String),
    Reference(String),
    Unary(Box<Expr>),
    Binary(Box<Expr>, Op, Box<Expr>),
    Call(String, Vec<Expr>),
}

/// A parsed formula read by value.
pub enum ExprView {
    Number(Seq<char>, Seq<char>, Unit),
    String(Seq<char>),
    Reference(Seq<char>),
    Unary(Box<ExprView>),
    Binary(Box<ExprView>, Op, Box<ExprView>),
    Call(Seq<char>, Seq<ExprView>),
}

/// A formula's value.
pub open spec fn expr_view(e: Expr) -> ExprView
    decreases e,
{
    match e {
        Expr::Number { literal, suffix, unit } => ExprView::Number(literal@, suffix@, unit),
        Expr::String(s) => ExprView::String(s@),
        Expr::Reference(s) => ExprView::Reference(s@),
        Expr::Unary(x) => ExprView::Unary(Box::new(expr_view(*x))),
        Expr::Binary(l, op, r) => ExprView::Binary(
            Box::new(expr_view(*l)),
            op,
            Box::new(expr_view(*r)),
        ),
        Expr::Call(name, args) => {
            proof {
                assert(decreases_to!(args => args@));
            }
            ExprView::Call(name@, args_view(args@))
        },
    }
}

/// The values of a list of formulas.
pub open spec fn args_view(s: Seq<Expr>) -> Seq<ExprView>
    decreases s,
{
    if s.len() == 0 {
        Seq::empty()
    } else {
        proof {
            assert(decreases_to!(s => s[s.len() - 1]));
        }
        args_view(s.drop_last()).push(expr_view(s[s.len() - 1]))
    }
}

/// The token at `p`, or the end past the last one.
pub open spec fn tok(toks: Seq<TokenView>, p: int) -> TokenView {
    if 0 <= p < toks.len() {
        toks[p]
    } else {
        TokenView::End
    }
}

/// The operators a chain level joins: comparisons at level 4, `+` and `-`
/// at level 3, `*` and `/` at level 2.
pub open spec fn joins(level: int, op: Op) -> bool {
    if level == 4 {
        op is Eq || op is Ne || op is Lt || op is Le || op is Gt || op is Ge
    } else if level == 3 {
        op is Add || op is Sub
    } else {
        level == 2 && (op is Mul || op is Div)
    }
}

/// Every binary operator joins two names into one node: for any names `a`
/// and `b` and any of the operators `=`, `<>`, `<`, `<=`, `>`, `>=`, `+`,
/// `-`, `*`, `/` and `^`, the tokens `a op b` parse to `op` applied to the
/// references `a` and `b`, given room for one level of nesting and three nodes.
pub proof fn lemma_binary_of_names(a: Seq<char>, op: Op, b: Seq<char>, lim: Limits)
    requires
        lim.max_depth >= 2,
        lim.max_nodes >= 3,
        op == Op::Ne || op == Op::Eq || op == Op::Lt || op == Op::Le || op == Op::Gt || op == Op::Ge
            || op == Op::Add || op == Op::Sub || op == Op::Mul || op == Op::Div || op == Op::Pow,
    ensures
        parse_tokens(
            seq![TokenView::Ident(a), TokenView::Op(op), TokenView::Ident(b), TokenView::End],
            lim,
        ) == Ok::<ExprView, Seq<char>>(
            ExprView::Binary(Box::new(ExprView::Reference(a)), op, Box::new(ExprView::Reference(b))),
        ),
{
    let toks = seq![TokenView::Ident(a), TokenView::Op(op), TokenView::Ident(b), TokenView::End];
    let ra = ExprView::Reference(a);
    let rb = ExprView::Reference(b);
    let bin = ExprView::Binary(Box::new(ra), op, Box::new(rb));
    assert(tok(toks, 0) == TokenView::Ident(a));
    assert(tok(toks, 1) == TokenView::Op(op));
    assert(tok(toks, 2) == TokenView::Ident(b));
    assert(tok(toks, 3) == TokenView::End);
    assert(p_level(toks, lim, 0, 0, 0, 0) == Ok::<(ExprView, int, nat), Seq<char>>((ra, 1, 1)));
    if op == Op::Pow {
        assert(p_level(toks, lim, 0, 2, 1, 1) == Ok::<(ExprView, int, nat), Seq<char>>((rb, 3, 2)));
        assert(p_level(toks, lim, 1, 2, 1, 1) == Ok::<(ExprView, int, nat), Seq<char>>((rb, 3, 2)));
        assert(p_level(toks, lim, 1, 0, 0, 0) == Ok::<(ExprView, int, nat), Seq<char>>((bin, 3, 3)));
        assert(p_chain(toks, lim, 2, bin, 3, 0, 3) == Ok::<(ExprView, int, nat), Seq<char>>((bin, 3, 3)));
        assert(p_level(toks, lim, 2, 0, 0, 0) == Ok::<(ExprView, int, nat), Seq<char>>((bin, 3, 3)));
        assert(p_chain(toks, lim, 3, bin, 3, 0, 3) == Ok::<(ExprView, int, nat), Seq<char>>((bin, 3, 3)));
        assert(p_level(toks, lim, 3, 0, 0, 0) == Ok::<(ExprView, int, nat), Seq<char>>((bin, 3, 3)));
        assert(p_chain(toks, lim, 4, bin, 3, 0, 3) == Ok::<(ExprView, int, nat), Seq<char>>((bin, 3, 3)));
        assert(p_level(toks, lim, 4, 0, 0, 0) == Ok::<(ExprView, int, nat), Seq<char>>((bin, 3, 3)));
    } else {
        assert(p_level(toks, lim, 0, 2, 0, 2) == Ok::<(ExprView, int, nat), Seq<char>>((rb, 3, 3)));
        assert(p_level(toks, lim, 1, 2, 0, 2) == Ok::<(ExprView, int, nat), Seq<char>>((rb, 3, 3)));
        assert(p_level(toks, lim, 1, 0, 0, 0) == Ok::<(ExprView, int, nat), Seq<char>>((ra, 1, 1)));
        assert(p_chain(toks, lim, 2, rb, 3, 0, 3) == Ok::<(ExprView, int, nat), Seq<char>>((rb, 3, 3)));
        assert(p_level(toks, lim, 2, 2, 0, 2) == Ok::<(ExprView, int, nat), Seq<char>>((rb, 3, 3)));
        assert(p_chain(toks, lim, 3, rb, 3, 0, 3) == Ok::<(ExprView, int, nat), Seq<char>>((rb, 3, 3)));
        assert(p_level(toks, lim, 3, 2, 0, 2) == Ok::<(ExprView, int, nat), Seq<char>>((rb, 3, 3)));
        assert(p_chain(toks, lim, 2, bin, 3, 0, 3) == Ok::<(ExprView, int, nat), Seq<char>>((bin, 3, 3)));
        assert(p_chain(toks, lim, 3, bin, 3, 0, 3) == Ok::<(ExprView, int, nat), Seq<char>>((bin, 3, 3)));
        assert(p_chain(toks, lim, 4, bin, 3, 0, 3) == Ok::<(ExprView, int, nat), Seq<char>>((bin, 3, 3)));
        if op == Op::Mul || op == Op::Div {
            assert(p_chain(toks, lim, 2, ra, 1, 0, 1) == Ok::<(ExprView, int, nat), Seq<char>>((bin, 3, 3)));
            assert(p_level(toks, lim, 2, 0, 0, 0) == Ok::<(ExprView, int, nat), Seq<char>>((bin, 3, 3)));
            assert(p_level(toks, lim, 3, 0, 0, 0) == Ok::<(ExprView, int, nat), Seq<char>>((bin, 3, 3)));
        } else {
            assert(p_chain(toks, lim, 2, ra, 1, 0, 1) == Ok::<(ExprView, int, nat), Seq<char>>((ra, 1, 1)));
            assert(p_level(toks, lim, 2, 0, 0, 0) == Ok::<(ExprView, int, nat), Seq<char>>((ra, 1, 1)));
            if op == Op::Add || op == Op::Sub {
                assert(p_chain(toks, lim, 3, ra, 1, 0, 1) == Ok::<(ExprView, int, nat), Seq<char>>((bin, 3, 3)));
                assert(p_level(toks, lim, 3, 0, 0, 0) == Ok::<(ExprView, int, nat), Seq<char>>((bin, 3, 3)));
            } else {
                assert(p_chain(toks, lim, 3, ra, 1, 0, 1) == Ok::<(ExprView, int, nat), Seq<char>>((ra, 1, 1)));
                assert(p_level(toks, lim, 3, 0, 0, 0) == Ok::<(ExprView, int, nat), Seq<char>>((ra, 1, 1)));
                assert(p_chain(toks, lim, 4, ra, 1, 0, 1) == Ok::<(ExprView, int, nat), Seq<char>>((bin, 3, 3)));
            }
        }
        assert(p_level(toks, lim, 4, 0, 0, 0) == Ok::<(ExprView, int, nat), Seq<char>>((bin, 3, 3)));
    }
}

/// A parse from some token on: the tree, the position after it and the node
/// count so far, or why it failed.
pub type ParseOut = Result<(ExprView, int, nat), Seq<char>>;

/// Counts one more tree node: refused beyond the node limit.
pub open spec fn with_node(e: ExprView, q: int, nodes: nat, lim: Limits) -> ParseOut {
    if nodes + 1 > lim.max_nodes {
        Err("formula AST node limit exceeded"@)
    } else {
        Ok((e, q, nodes + 1))
    }
}

/// The parse of grammar level `level` from token `p`, at nesting `depth`
/// with `nodes` nodes counted: level 0 is a primary, 1 a power, 2 a product,
/// 3 a sum, 4 a comparison. Every primary counts a node except a
/// parenthesized one; every operator counts one; a primary at the depth
/// limit is refused. (The branches that give an empty message cannot be
/// reached: a parse never moves backwards or past the last token.)
pub open spec fn p_level(toks: Seq<TokenView>, lim: Limits, level: int, p: int, depth: nat, nodes: nat) -> ParseOut
    decreases toks.len() - p, level, 1int,
{
    if level <= 0 {
        if depth >= lim.max_depth {
            Err("formula depth limit exceeded"@)
        } else {
            match tok(toks, p) {
                TokenView::Number(l, s, u) => with_node(ExprView::Number(l, s, u), p + 1, nodes, lim),
                TokenView::Str(v) => with_node(ExprView::String(v), p + 1, nodes, lim),
                TokenView::Op(op) => if op is Sub {
                    match p_level(toks, lim, 0, p + 1, depth + 1, nodes) {
                        Ok((v, q, n)) => with_node(ExprView::Unary(Box::new(v)), q, n, lim),
                        Err(e) => Err(e),
                    }
                } else {
                    Err("expected expression"@)
                },
                TokenView::Ident(name) => if !(tok(toks, p + 1) is L) {
                    with_node(ExprView::Reference(name), p + 1, nodes, lim)
                } else {
                    let args = if tok(toks, p + 2) is R {
                        Ok((Seq::<ExprView>::empty(), p + 2, nodes))
                    } else {
                        p_args(toks, lim, p + 2, depth + 1, nodes, Seq::empty())
                    };
                    match args {
                        Ok((a, q, n)) => if !(tok(toks, q) is R) {
                            Err("expected ')'"@)
                        } else {
                            with_node(ExprView::Call(name, a), q + 1, n, lim)
                        },
                        Err(e) => Err(e),
                    }
                },
                TokenView::L => match p_level(toks, lim, 4, p + 1, depth + 1, nodes) {
                    Ok((v, q, n)) => if !(tok(toks, q) is R) {
                        Err("expected ')'"@)
                    } else {
                        Ok((v, q + 1, n))
                    },
                    Err(e) => Err(e),
                },
                TokenView::Invalid(m) => Err(m),
                _ => Err("expected expression"@),
            }
        }
    } else if level == 1 {
        match p_level(toks, lim, 0, p, depth, nodes) {
            Err(e) => Err(e),
            Ok((l, q, n)) => if tok(toks, q) == TokenView::Op(Op::Pow) {
                if q < p {
                    Err(Seq::empty())
                } else {
                    match p_level(toks, lim, 1, q + 1, depth + 1, n) {
                        Err(e) => Err(e),
                        Ok((r, q2, n2)) => with_node(
                            ExprView::Binary(Box::new(l), Op::Pow, Box::new(r)),
                            q2,
                            n2,
                            lim,
                        ),
                    }
                }
            } else {
                Ok((l, q, n))
            },
        }
    } else {
        match p_level(toks, lim, level - 1, p, depth, nodes) {
            Err(e) => Err(e),
            Ok((l, q, n)) => if q < p || q > toks.len() {
                Err(Seq::empty())
            } else {
                p_chain(toks, lim, level, l, q, depth, n)
            },
        }
    }
}

/// The rest of a chain at `level` after its left operand `left`, from token
/// `q`: each joining operator counts a node before its right operand is read,
/// and operands group to the left.
pub open spec fn p_chain(
    toks: Seq<TokenView>,
    lim: Limits,
    level: int,
    left: ExprView,
    q: int,
    depth: nat,
    nodes: nat,
) -> ParseOut
    decreases toks.len() - q, level, 0int,
{
    match tok(toks, q) {
        TokenView::Op(op) => if joins(level, op) {
            if nodes + 1 > lim.max_nodes {
                Err("formula AST node limit exceeded"@)
            } else {
                match p_level(toks, lim, level - 1, q + 1, depth, nodes + 1) {
                    Err(e) => Err(e),
                    Ok((r, q2, n2)) => if q2 <= q || q2 > toks.len() {
                        Err(Seq::empty())
                    } else {
                        p_chain(toks, lim, level, ExprView::Binary(Box::new(left), op, Box::new(r)), q2, depth, n2)
                    },
                }
            }
        } else {
            Ok((left, q, nodes))
        },
        _ => Ok((left, q, nodes)),
    }
}

/// The arguments of a call from token `p` on, after those in `acc`:
/// comparisons separated by commas.
pub open spec fn p_args(
    toks: Seq<TokenView>,
    lim: Limits,
    p: int,
    depth: nat,
    nodes: nat,
    acc: Seq<ExprView>,
) -> Result<(Seq<ExprView>, int, nat), Seq<char>>
    decreases toks.len() - p, 5int, 0int,
{
    match p_level(toks, lim, 4, p, depth, nodes) {
        Err(e) => Err(e),
        Ok((v, q, n)) => if tok(toks, q) is Comma {
            if q < p {
                Err(Seq::empty())
            } else {
                p_args(toks, lim, q + 1, depth, n, acc.push(v))
            }
        } else {
            Ok((acc.push(v), q, n))
        },
    }
}

/// The formula a token sequence makes: one comparison that uses every token
/// up to the end.
pub open spec fn parse_tokens(toks: Seq<TokenView>, lim: Limits) -> Result<ExprView, Seq<char>> {
    match p_level(toks, lim, 4, 0, 0, 0) {
        Err(e) => Err(e),
        Ok((v, q, n)) => if tok(toks, q) is End {
            Ok(v)
        } else {
            Err("unexpected token"@)
        },
    }
}

/// Where `s` ends once trailing whitespace after `start` is dropped.
pub open spec fn trim_end(s: Seq<char>, start: int, end: int) -> int
    decreases end - start,
{
    if start < end && is_space(s[end - 1]) {
        trim_end(s, start, end - 1)
    } else {
        end
    }
}

/// `s` without leading and trailing whitespace, as `str::trim` gives it.
pub open spec fn trimmed(s: Seq<char>) -> Seq<char> {
    let start = run_end(s, 0, class_fn(CharClass::Space));
    s.subrange(start, trim_end(s, start, s.len() as int))
}

/// How a formula parses: the words `No Formula` (any ASCII case, with any
/// surrounding whitespace) stand for a call of that name with no arguments;
/// anything else is read as tokens and parsed.
pub open spec fn spec_parse(input: Seq<char>, lim: Limits) -> Result<ExprView, Seq<char>> {
    if eq_ignore_ascii_case_spec(trimmed(input), "No Formula"@) {
        Ok(ExprView::Call("No Formula"@, Seq::empty()))
    } else {
        parse_tokens(tokens_from(input, 0, 0, lim.max_tokens as nat), lim)
    }
}

/// A token list as the lexer leaves it: not empty, and only its last token
/// is the end or a refused one.
pub open spec fn well_ended(toks: Seq<TokenView>) -> bool {
    &&& toks.len() > 0
    &&& (toks.last() is End || toks.last() is Invalid)
    &&& forall|k: int| 0 <= k < toks.len() - 1 ==> !(#[trigger] toks[k] is End) && !(toks[k] is Invalid)
}

/// The lexer's tokens end with the end token or the first refused one.
pub proof fn lemma_tokens_well_ended(chars: Seq<char>, i: int, count: nat, max_tokens: nat)
    requires
        0 <= i <= chars.len(),
    ensures
        well_ended(tokens_from(chars, i, count, max_tokens)),
    decreases chars.len() - i,
{
    let (t, next, n) = lex_step(chars, i, count, max_tokens);
    lemma_lex_step_advances(chars, i, count, max_tokens);
    if !(t is End || t is Invalid) {
        lemma_tokens_well_ended(chars, next, n, max_tokens);
        let rest = tokens_from(chars, next, n, max_tokens);
        let all = tokens_from(chars, i, count, max_tokens);
        assert(all == seq![t] + rest);
        assert forall|k: int| 0 <= k < all.len() - 1 implies !(#[trigger] all[k] is End) && !(
        all[k] is Invalid) by {
            if k > 0 {
                assert(all[k] == rest[k - 1]);
            }
        }
    }
}

fn node(e: Expr, q: usize, nodes: usize, lim: &Limits) -> (res: Result<(Expr, usize, usize), String>)
    requires
        nodes <= lim.max_nodes,
    ensures
        match res {
            Ok((e2, q2, n2)) => with_node(expr_view(e), q as int, nodes as nat, *lim) == Ok::<
                (ExprView, int, nat),
                Seq<char>,
            >((expr_view(e2), q2 as int, n2 as nat)) && n2 <= lim.max_nodes && q2 == q,
            Err(m) => with_node(expr_view(e), q as int, nodes as nat, *lim) == Err::<
                (ExprView, int, nat),
                Seq<char>,
            >(m@),
        },
{
    if nodes >= lim.max_nodes {
        proof {
            reveal_strlit("formula AST node limit exceeded");
        }
        Err(owned("formula AST node limit exceeded"))
    } else {
        Ok((e, q, nodes + 1))
    }
}

fn joins_at(level: u8, op: Op) -> (res: bool)
    ensures
        res == joins(level as int, op),
{
    match op {
        Op::Eq | Op::Ne | Op::Lt | Op::Le | Op::Gt | Op::Ge => level == 4,
        Op::Add | Op::Sub => level == 3,
        Op::Mul | Op::Div => level == 2,
        Op::Pow => false,
    }
}

fn is_end(t: &Token) -> (res: bool)
    ensures
        res == (token_view(*t) is End),
{
    match t {
        Token::End => true,
        _ => false,
    }
}

fn parse_at(toks: &Vec<Token>, lim: &Limits, level: u8, p: usize, depth: usize, nodes: usize) -> (res:
    Result<(Expr, usize, usize), String>)
    requires
        level <= 4,
        well_ended(tokens_view(toks@)),
        p < toks.len(),
        nodes <= lim.max_nodes,
    ensures
        match res {
            Ok((e, q, n)) => {
                &&& p_level(tokens_view(toks@), *lim, level as int, p as int, depth as nat, nodes as nat)
                    == Ok::<(ExprView, int, nat), Seq<char>>((expr_view(e), q as int, n as nat))
                &&& p <= q < toks.len()
                &&& n <= lim.max_nodes
                &&& depth < lim.max_depth
            },
            Err(m) => p_level(tokens_view(toks@), *lim, level as int, p as int, depth as nat, nodes as nat)
                == Err::<(ExprView, int, nat), Seq<char>>(m@),
        },
    decreases toks.len() - p, level as int, 1int,
{
    let ghost tv = tokens_view(toks@);
    proof {
        assert(tv[p as int] == token_view(toks@[p as int]));
    }
    if level == 0 {
        if depth >= lim.max_depth {
            proof {
                reveal_strlit("formula depth limit exceeded");
            }
            return Err(owned("formula depth limit exceeded"));
        }
        match &toks[p] {
            Token::Number { literal, suffix, unit } => {
                node(Expr::Number { literal: literal.clone(), suffix: suffix.clone(), unit: *unit }, p + 1, nodes, lim)
            },
            Token::Str(v) => node(Expr::String(v.clone()), p + 1, nodes, lim),
            Token::Op(op) => {
                match op {
                    Op::Sub => {
                        match parse_at(toks, lim, 0, p + 1, depth + 1, nodes) {
                            Ok((v, q, n)) => node(Expr::Unary(Box::new(v)), q, n, lim),
                            Err(m) => Err(m),
                        }
                    },
                    _ => {
                        proof {
                            reveal_strlit("expected expression");
                        }
                        Err(owned("expected expression"))
                    },
                }
            },
            Token::Ident(name) => {
                proof {
                    assert(tv[p + 1] == token_view(toks@[p + 1]));
                }
                match &toks[p + 1] {
                    Token::L => {
                        proof {
                            assert(tv[p + 2] == token_view(toks@[p + 2]));
                        }
                        let args = match &toks[p + 2] {
                            Token::R => Ok((Vec::new(), p + 2, nodes)),
                            _ => args_at(toks, lim, p + 2, depth + 1, nodes, Vec::new()),
                        };
                        proof {
                            assert(args_view(Seq::<Expr>::empty()) == Seq::<ExprView>::empty());
                        }
                        match args {
                            Ok((a, q, n)) => {
                                proof {
                                    assert(tv[q as int] == token_view(toks@[q as int]));
                                }
                                match &toks[q] {
                                    Token::R => node(Expr::Call(name.clone(), a), q + 1, n, lim),
                                    _ => {
                                        proof {
                                            reveal_strlit("expected ')'");
                                        }
                                        Err(owned("expected ')'"))
                                    },
                                }
                            },
                            Err(m) => Err(m),
                        }
                    },
                    _ => node(Expr::Reference(name.clone()), p + 1, nodes, lim),
                }
            },
            Token::L => {
                match parse_at(toks, lim, 4, p + 1, depth + 1, nodes) {
                    Ok((v, q, n)) => {
                        proof {
                            assert(tv[q as int] == token_view(toks@[q as int]));
                        }
                        match &toks[q] {
                            Token::R => Ok((v, q + 1, n)),
                            _ => {
                                proof {
                                    reveal_strlit("expected ')'");
                                }
                                Err(owned("expected ')'"))
                            },
                        }
                    },
                    Err(m) => Err(m),
                }
            },
            Token::Invalid(m) => Err(m.clone()),
            _ => {
                proof {
                    reveal_strlit("expected expression");
                }
                Err(owned("expected expression"))
            },
        }
    } else if level == 1 {
        match parse_at(toks, lim, 0, p, depth, nodes) {
            Err(m) => Err(m),
            Ok((l, q, n)) => {
                proof {
                    assert(tv[q as int] == token_view(toks@[q as int]));
                }
                match &toks[q] {
                    Token::Op(Op::Pow) => {
                        match parse_at(toks, lim, 1, q + 1, depth + 1, n) {
                            Err(m) => Err(m),
                            Ok((r, q2, n2)) => node(Expr::Binary(Box::new(l), Op::Pow, Box::new(r)), q2, n2, lim),
                        }
                    },
                    _ => Ok((l, q, n)),
                }
            },
        }
    } else {
        match parse_at(toks, lim, level - 1, p, depth, nodes) {
            Err(m) => Err(m),
            Ok((l, q, n)) => chain_at(toks, lim, level, l, q, depth, n),
        }
    }
}

fn chain_at(toks: &Vec<Token>, lim: &Limits, level: u8, left: Expr, q: usize, depth: usize, nodes: usize) -> (res:
    Result<(Expr, usize, usize), String>)
    requires
        2 <= level <= 4,
        well_ended(tokens_view(toks@)),
        q < toks.len(),
        nodes <= lim.max_nodes,
        depth < lim.max_depth,
    ensures
        match res {
            Ok((e, q2, n)) => {
                &&& p_chain(tokens_view(toks@), *lim, level as int, expr_view(left), q as int, depth as nat, nodes as nat)
                    == Ok::<(ExprView, int, nat), Seq<char>>((expr_view(e), q2 as int, n as nat))
                &&& q <= q2 < toks.len()
                &&& n <= lim.max_nodes
            },
            Err(m) => p_chain(tokens_view(toks@), *lim, level as int, expr_view(left), q as int, depth as nat, nodes as nat)
                == Err::<(ExprView, int, nat), Seq<char>>(m@),
        },
    decreases toks.len() - q, level as int, 0int,
{
    let ghost tv = tokens_view(toks@);
    proof {
        assert(tv[q as int] == token_view(toks@[q as int]));
    }
    match &toks[q] {
        Token::Op(op) => {
            if joins_at(level, *op) {
                if nodes >= lim.max_nodes {
                    proof {
                        reveal_strlit("formula AST node limit exceeded");
                    }
                    return Err(owned("formula AST node limit exceeded"));
                }
                match parse_at(toks, lim, level - 1, q + 1, depth, nodes + 1) {
                    Err(m) => Err(m),
                    Ok((r, q2, n2)) => chain_at(
                        toks,
                        lim,
                        level,
                        Expr::Binary(Box::new(left), *op, Box::new(r)),
                        q2,
                        depth,
                        n2,
                    ),
                }
            } else {
                Ok((left, q, nodes))
            }
        },
        _ => Ok((left, q, nodes)),
    }
}

fn args_at(toks: &Vec<Token>, lim: &Limits, p: usize, depth: usize, nodes: usize, acc: Vec<Expr>) -> (res:
    Result<(Vec<Expr>, usize, usize), String>)
    requires
        well_ended(tokens_view(toks@)),
        p < toks.len(),
        nodes <= lim.max_nodes,
    ensures
        match res {
            Ok((a, q, n)) => {
                &&& p_args(tokens_view(toks@), *lim, p as int, depth as nat, nodes as nat, args_view(acc@))
                    == Ok::<(Seq<ExprView>, int, nat), Seq<char>>((args_view(a@), q as int, n as nat))
                &&& p <= q < toks.len()
                &&& n <= lim.max_nodes
            },
            Err(m) => p_args(tokens_view(toks@), *lim, p as int, depth as nat, nodes as nat, args_view(acc@))
                == Err::<(Seq<ExprView>, int, nat), Seq<char>>(m@),
        },
    decreases toks.len() - p, 5int, 0int,
{
    let ghost tv = tokens_view(toks@);
    let mut acc = acc;
    match parse_at(toks, lim, 4, p, depth, nodes) {
        Err(m) => Err(m),
        Ok((v, q, n)) => {
            let ghost before = acc@;
            let ghost vv = expr_view(v);
            acc.push(v);
            proof {
                assert(acc@.drop_last() =~= before);
                assert(args_view(acc@) == args_view(before).push(vv));
                assert(tv[q as int] == token_view(toks@[q as int]));
            }
            match &toks[q] {
                Token::Comma => args_at(toks, lim, q + 1, depth, n, acc),
                _ => Ok((acc, q, n)),
            }
        },
    }
}

fn is_no_formula(input: &str) -> (res: bool)
    ensures
        res == eq_ignore_ascii_case_spec(trimmed(input@), "No Formula"@),
{
    let chars = chars_of(input);
    proof {
        lemma_run_end(chars@, 0, class_fn(CharClass::Space));
    }
    let start = class_end(&chars, 0, CharClass::Space);
    let mut end = chars.len();
    while start < end && in_class(chars[end - 1], CharClass::Space)
        invariant
            start <= end <= chars@.len(),
            trim_end(chars@, start as int, chars@.len() as int) == trim_end(chars@, start as int, end as int),
        decreases end,
    {
        end = end - 1;
    }
    let t = string_of(&chars, start, end);
    eq_ignore_ascii_case(t.as_str(), "No Formula")
}

/// Parses a formula within the given limits.
pub fn parse(input: &str, limits: Limits) -> (res: Result<Expr, Diagnostic>)
    ensures
        match res {
            Ok(e) => spec_parse(input@, limits) == Ok::<ExprView, Seq<char>>(expr_view(e)),
            Err(d) => spec_parse(input@, limits) == Err::<ExprView, Seq<char>>(d.message@),
        },
{
    if is_no_formula(input) {
        let name = owned("No Formula");
        let call = Expr::Call(name, Vec::new());
        proof {
            assert(args_view(Seq::<Expr>::empty()) == Seq::<ExprView>::empty());
        }
        return Ok(call);
    }
    let toks = lex(input, limits.max_tokens);
    proof {
        lemma_tokens_well_ended(input@, 0, 0, limits.max_tokens as nat);
    }
    match parse_at(&toks, &limits, 4, 0, 0, 0) {
        Err(m) => Err(Diagnostic { message: m }),
        Ok((e, q, n)) => {
            proof {
                assert(tokens_view(toks@)[q as int] == token_view(toks@[q as int]));
            }
            if is_end(&toks[q]) {
                Ok(e)
            } else {
                proof {
                    reveal_strlit("unexpected token");
                }
                Err(Diagnostic { message: owned("unexpected token") })
            }
        },
    }
}

} // verus!
