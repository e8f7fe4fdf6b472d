use vsdx::formula::{Limits, Op, Unit};
use vsdx::formula_lex::{lex, Token};
use vsdx::formula_parse::{parse, Expr};

fn limits() -> Limits {
    Limits { max_depth: 64, max_nodes: 4096, max_tokens: 4096 }
}

fn op(o: &Op) -> &'static str {
    match o {
        Op::Add => "+",
        Op::Sub => "-",
        Op::Mul => "*",
        Op::Div => "/",
        Op::Pow => "^",
        Op::Eq => "=",
        Op::Ne => "<>",
        Op::Lt => "<",
        Op::Le => "<=",
        Op::Gt => ">",
        Op::Ge => ">=",
    }
}

/// Writes a tree with every operation in brackets.
fn show(e: &Expr) -> String {
    match e {
        Expr::Number { literal, suffix, unit } => format!("{literal}{suffix}:{unit:?}"),
        Expr::String(s) => format!("{s:?}"),
        Expr::Reference(r) => r.clone(),
        Expr::Unary(x) => format!("(-{})", show(x)),
        Expr::Binary(l, o, r) => format!("({} {} {})", show(l), op(o), show(r)),
        Expr::Call(name, args) => {
            format!("{name}[{}]", args.iter().map(show).collect::<Vec<_>>().join(", "))
        }
    }
}

fn parsed(input: &str) -> String {
    match parse(input, limits()) {
        Ok(e) => show(&e),
        Err(d) => format!("error: {}", d.message),
    }
}

#[test]
fn products_bind_tighter_than_sums_and_chains_group_left() {
    assert_eq!(parsed("1+2*3"), "(1:Number + (2:Number * 3:Number))");
    assert_eq!(parsed("8-3-2"), "((8:Number - 3:Number) - 2:Number)");
    assert_eq!(parsed("a/b*c"), "((a / b) * c)");
    assert_eq!(parsed("1+2<=3"), "((1:Number + 2:Number) <= 3:Number)");
}

#[test]
fn powers_group_right_and_bind_tightest() {
    assert_eq!(parsed("2^3^2"), "(2:Number ^ (3:Number ^ 2:Number))");
    assert_eq!(parsed("-2^2"), "((-2:Number) ^ 2:Number)");
    assert_eq!(parsed("2*3^2"), "(2:Number * (3:Number ^ 2:Number))");
}

#[test]
fn numbers_keep_their_spelling_and_unit() {
    assert_eq!(parsed("1.5 in"), "1.5in:Inches");
    assert_eq!(parsed("2e-3MM"), "2e-3MM:Inches");
    assert_eq!(parsed("90deg"), "90deg:Radians");
    assert_eq!(parsed("3e"), "error: unknown unit suffix e");
    assert_eq!(parsed("1 furlong"), "error: unknown unit suffix furlong");
    assert_eq!(parsed(".5"), ".5:Number");
}

#[test]
fn calls_references_strings_and_parentheses() {
    assert_eq!(
        parsed("GUARD(Width*0.5, \"x y\")"),
        "GUARD[(Width * 0.5:Number), \"x y\"]"
    );
    assert_eq!(parsed("NOW()"), "NOW[]");
    assert_eq!(parsed("Sheet.5!Width"), "Sheet.5!Width");
    assert_eq!(parsed("(1+2)*3"), "((1:Number + 2:Number) * 3:Number)");
    assert_eq!(parsed("\"open"), "\"open\"");
}

#[test]
fn no_formula_is_a_call_in_any_case() {
    assert_eq!(parsed("  no FORMULA\t"), "No Formula[]");
    assert_eq!(parsed("No Formulas"), "error: unexpected token");
}

#[test]
fn malformed_formulas_are_refused_with_a_reason() {
    assert_eq!(parsed(""), "error: expected expression");
    assert_eq!(parsed("1 +"), "error: expected expression");
    assert_eq!(parsed("(1"), "error: expected ')'");
    assert_eq!(parsed("F(1"), "error: expected ')'");
    assert_eq!(parsed("1 2"), "error: unexpected token");
    assert_eq!(parsed("*2"), "error: expected expression");
}

#[test]
fn limits_refuse_deep_large_or_long_formulas() {
    let tight = Limits { max_depth: 2, max_nodes: 3, max_tokens: 5 };
    assert_eq!(parse("((1))", tight).unwrap_err().message, "formula depth limit exceeded");
    assert_eq!(parse("1+2+3", tight).unwrap_err().message, "formula AST node limit exceeded");
    assert_eq!(parse("1+2", tight).map(|e| show(&e)).unwrap(), "(1:Number + 2:Number)");
    // The token past the limit is refused where it stands: as an operand it
    // is the reason, after a complete operand it is an unexpected token.
    let two = Limits { max_depth: 8, max_nodes: 100, max_tokens: 2 };
    assert_eq!(parse("1+2+3", two).unwrap_err().message, "formula token limit exceeded");
    let three = Limits { max_depth: 8, max_nodes: 100, max_tokens: 3 };
    assert_eq!(parse("1+2+3", three).unwrap_err().message, "unexpected token");
}

#[test]
fn the_lexer_stops_at_the_end_or_the_first_refused_token() {
    let tokens = lex("a <> b<=c", 100);
    assert!(matches!(
        tokens.as_slice(),
        [
            Token::Ident(a),
            Token::Op(Op::Ne),
            Token::Ident(b),
            Token::Op(Op::Le),
            Token::Ident(c),
            Token::End
        ] if a == "a" && b == "b" && c == "c"
    ));
    let tokens = lex("1 xx + 2", 100);
    assert!(matches!(
        tokens.as_slice(),
        [Token::Invalid(m)] if m == "unknown unit suffix xx"
    ));
    let tokens = lex("3 pt", 100);
    assert!(matches!(
        tokens.as_slice(),
        [Token::Number { literal, suffix, unit: Unit::Inches }, Token::End] if literal == "3" && suffix == "pt"
    ));
}

#[test]
fn whitespace_is_the_unicode_white_space_set() {
    for c in ['\u{a0}', '\u{2003}', '\u{3000}', '\u{85}'] {
        let text = format!("{c}1{c}+{c}2{c}");
        assert_eq!(parsed(&text), "(1:Number + 2:Number)", "{:?}", c);
    }
    assert_eq!(parsed("1\u{200b}"), "error: unexpected token");
}
