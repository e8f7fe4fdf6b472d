//! The ShapeSheet formula lexer: the tokens a formula's characters make, up
//! to its end or the first token that cannot be read. Number literals keep
//! their source spelling and unit suffix; reading them as floating-point
//! values is left to the caller.

use vstd::prelude::*;

use crate::formula::{spec_unit_kind, unit, Op, Unit};
use crate::text::{append, owned, push_char};

verus! {

/// A formula token.
#[derive(Debug)]
pub enum Token {
    /// A number literal as written, with its unit suffix and the unit it names.
    Number { literal: String, suffix: String, unit: Unit },
    Str(String),
    Ident(String),
    Op(Op),
    L,
    R,
    Comma,
    End,
    Invalid(String),
}

/// A token read by value.
pub enum TokenView {
    Number(Seq<char>, Seq<char>, Unit),
    Str(Seq<char>),
    Ident(Seq<char>),
    Op(Op),
    L,
    R,
    Comma,
    End,
    Invalid(Seq<char>),
}

/// A token's value.
pub open spec fn token_view(t: Token) -> TokenView {
    match t {
        Token::Number { literal, suffix, unit } => TokenView::Number(literal@, suffix@, unit),
        Token::Str(s) => TokenView::Str(s@),
        Token::Ident(s) => TokenView::Ident(s@),
        Token::Op(op) => TokenView::Op(op),
        Token::L => TokenView::L,
        Token::R => TokenView::R,
        Token::Comma => TokenView::Comma,
        Token::End => TokenView::End,
        Token::Invalid(m) => TokenView::Invalid(m@),
    }
}

/// The values of a list of tokens.
pub open spec fn tokens_view(ts: Seq<Token>) -> Seq<TokenView> {
    ts.map_values(|t: Token| token_view(t))
}

/// `char::is_whitespace`: the characters with the Unicode `White_Space` property.
pub open spec fn is_space(c: char) -> bool {
    ||| '\u{9}' <= c <= '\u{d}'
    ||| c == ' '
    ||| c == '\u{85}'
    ||| c == '\u{a0}'
    ||| c == '\u{1680}'
    ||| '\u{2000}' <= c <= '\u{200a}'
    ||| c == '\u{2028}'
    ||| c == '\u{2029}'
    ||| c == '\u{202f}'
    ||| c == '\u{205f}'
    ||| c == '\u{3000}'
}

/// An ASCII decimal digit.
pub open spec fn is_ascii_digit(c: char) -> bool {
    '0' <= c <= '9'
}

/// An ASCII letter.
pub open spec fn is_ascii_alpha(c: char) -> bool {
    ('a' <= c <= 'z') || ('A' <= c <= 'Z')
}

/// A character of a number's mantissa: a digit or a point.
pub open spec fn mantissa_char(c: char) -> bool {
    is_ascii_digit(c) || c == '.'
}

/// A character that continues a name: an ASCII letter or digit, `.`, `!` or `_`.
pub open spec fn name_char(c: char) -> bool {
    is_ascii_alpha(c) || is_ascii_digit(c) || c == '.' || c == '!' || c == '_'
}

/// The characters of a string literal's body: anything but a double quote.
pub open spec fn body_char(c: char) -> bool {
    c != '"'
}

/// The character classes the lexer reads runs of.
#[derive(Debug, Clone, Copy, PartialEq, Eq, Structural)]
pub enum CharClass {
    Space,
    Mantissa,
    Digit,
    Alpha,
    Body,
    Name,
}

/// The characters of a class.
pub open spec fn class_fn(class: CharClass) -> spec_fn(char) -> bool {
    |c: char|
        match class {
            CharClass::Space => is_space(c),
            CharClass::Mantissa => mantissa_char(c),
            CharClass::Digit => is_ascii_digit(c),
            CharClass::Alpha => is_ascii_alpha(c),
            CharClass::Body => body_char(c),
            CharClass::Name => name_char(c),
        }
}

/// The end of the run of characters from `i` on that satisfy `class`.
pub open spec fn run_end(chars: Seq<char>, i: int, class: spec_fn(char) -> bool) -> int
    decreases chars.len() - i,
{
    if 0 <= i < chars.len() && class(chars[i]) {
        run_end(chars, i + 1, class)
    } else {
        i
    }
}

/// Where a number literal starting at `j` ends: its digits and points, then
/// an exponent only when `e` or `E`, an optional sign and a digit follow.
pub open spec fn literal_end(chars: Seq<char>, j: int) -> int {
    let a = run_end(chars, j + 1, class_fn(CharClass::Mantissa));
    if a < chars.len() && (chars[a] == 'e' || chars[a] == 'E') {
        let b = a + 1;
        let d = if b < chars.len() && (chars[b] == '+' || chars[b] == '-') {
            b + 1
        } else {
            b
        };
        if d < chars.len() && is_ascii_digit(chars[d]) {
            run_end(chars, d, class_fn(CharClass::Digit))
        } else {
            a
        }
    } else {
        a
    }
}

/// The number token starting at `j`, and where reading goes on: the literal,
/// then any whitespace, then a run of ASCII letters as the unit suffix.
pub open spec fn number_token(chars: Seq<char>, j: int) -> (TokenView, int) {
    let e = literal_end(chars, j);
    let s = run_end(chars, e, class_fn(CharClass::Space));
    let t = run_end(chars, s, class_fn(CharClass::Alpha));
    let suffix = chars.subrange(s, t);
    match spec_unit_kind(suffix) {
        Some(unit) => (TokenView::Number(chars.subrange(j, e), suffix, unit), t),
        None => (TokenView::Invalid("unknown unit suffix "@ + suffix), t),
    }
}

/// The token read at `i` after `count` earlier tokens, where reading goes on,
/// and the new count: whitespace is skipped; beyond `max_tokens` tokens every
/// token is refused.
pub open spec fn lex_step(chars: Seq<char>, i: int, count: nat, max_tokens: nat) -> (TokenView, int, nat) {
    let j = run_end(chars, i, class_fn(CharClass::Space));
    let n = count + 1;
    if j >= chars.len() {
        (TokenView::End, j, count)
    } else if n > max_tokens {
        (TokenView::Invalid("formula token limit exceeded"@), j + 1, n)
    } else {
        let c = chars[j];
        let next = if j + 1 < chars.len() {
            Some(chars[j + 1])
        } else {
            None
        };
        if c == '(' {
            (TokenView::L, j + 1, n)
        } else if c == ')' {
            (TokenView::R, j + 1, n)
        } else if c == ',' {
            (TokenView::Comma, j + 1, n)
        } else if c == '+' {
            (TokenView::Op(Op::Add), j + 1, n)
        } else if c == '-' {
            (TokenView::Op(Op::Sub), j + 1, n)
        } else if c == '*' {
            (TokenView::Op(Op::Mul), j + 1, n)
        } else if c == '/' {
            (TokenView::Op(Op::Div), j + 1, n)
        } else if c == '^' {
            (TokenView::Op(Op::Pow), j + 1, n)
        } else if c == '=' {
            (TokenView::Op(Op::Eq), j + 1, n)
        } else if c == '<' {
            if next == Some('=') {
                (TokenView::Op(Op::Le), j + 2, n)
            } else if next == Some('>') {
                (TokenView::Op(Op::Ne), j + 2, n)
            } else {
                (TokenView::Op(Op::Lt), j + 1, n)
            }
        } else if c == '>' {
            if next == Some('=') {
                (TokenView::Op(Op::Ge), j + 2, n)
            } else {
                (TokenView::Op(Op::Gt), j + 1, n)
            }
        } else if c == '"' {
            let k = run_end(chars, j + 1, class_fn(CharClass::Body));
            (TokenView::Str(chars.subrange(j + 1, k)), if k < chars.len() {
                k + 1
            } else {
                k
            }, n)
        } else if mantissa_char(c) {
            let (t, e) = number_token(chars, j);
            (t, e, n)
        } else {
            let k = run_end(chars, j + 1, class_fn(CharClass::Name));
            (TokenView::Ident(chars.subrange(j, k)), k, n)
        }
    }
}

/// The operator spellings: at a position where reading resumes and a token
/// is still allowed, `<>` reads as not-equal, `<=` as at-most, `>=` as
/// at-least, a `<` or `>` followed by anything else as less or greater, and
/// `=` as equal; the two-character spellings consume both characters.
pub proof fn lemma_operator_spellings(chars: Seq<char>, i: int, count: nat, max_tokens: nat)
    requires
        0 <= i < chars.len(),
        count + 1 <= max_tokens,
    ensures
        chars[i] == '<' && i + 1 < chars.len() && chars[i + 1] == '>' ==> lex_step(
            chars,
            i,
            count,
            max_tokens,
        ) == (TokenView::Op(Op::Ne), i + 2, count + 1),
        chars[i] == '<' && i + 1 < chars.len() && chars[i + 1] == '=' ==> lex_step(
            chars,
            i,
            count,
            max_tokens,
        ) == (TokenView::Op(Op::Le), i + 2, count + 1),
        chars[i] == '>' && i + 1 < chars.len() && chars[i + 1] == '=' ==> lex_step(
            chars,
            i,
            count,
            max_tokens,
        ) == (TokenView::Op(Op::Ge), i + 2, count + 1),
        chars[i] == '<' && !(i + 1 < chars.len() && (chars[i + 1] == '>' || chars[i + 1] == '='))
            ==> lex_step(chars, i, count, max_tokens) == (TokenView::Op(Op::Lt), i + 1, count + 1),
        chars[i] == '>' && !(i + 1 < chars.len() && chars[i + 1] == '=') ==> lex_step(
            chars,
            i,
            count,
            max_tokens,
        ) == (TokenView::Op(Op::Gt), i + 1, count + 1),
        chars[i] == '=' ==> lex_step(chars, i, count, max_tokens) == (
            TokenView::Op(Op::Eq),
            i + 1,
            count + 1,
        ),
{
    if chars[i] == '<' || chars[i] == '>' || chars[i] == '=' {
        assert(!class_fn(CharClass::Space)(chars[i]));
        assert(run_end(chars, i, class_fn(CharClass::Space)) == i);
    }
}

/// Runs end within the text and not before they start.
pub proof fn lemma_run_end(chars: Seq<char>, i: int, class: spec_fn(char) -> bool)
    requires
        0 <= i <= chars.len(),
    ensures
        i <= run_end(chars, i, class) <= chars.len(),
        forall|k: int| i <= k < run_end(chars, i, class) ==> class(#[trigger] chars[k]),
        run_end(chars, i, class) < chars.len() ==> !class(chars[run_end(chars, i, class)]),
    decreases chars.len() - i,
{
    if i < chars.len() && class(chars[i]) {
        lemma_run_end(chars, i + 1, class);
    }
}

/// Reading a token other than the end moves forward and stays within the text.
pub proof fn lemma_lex_step_advances(chars: Seq<char>, i: int, count: nat, max_tokens: nat)
    requires
        0 <= i <= chars.len(),
    ensures
        ({
            let (t, next, n) = lex_step(chars, i, count, max_tokens);
            &&& i <= next <= chars.len()
            &&& !(t is End) ==> i < next
        }),
{
    lemma_run_end(chars, i, class_fn(CharClass::Space));
    let j = run_end(chars, i, class_fn(CharClass::Space));
    if j < chars.len() {
        lemma_run_end(chars, j + 1, class_fn(CharClass::Body));
        lemma_run_end(chars, j + 1, class_fn(CharClass::Name));
        lemma_run_end(chars, j + 1, class_fn(CharClass::Mantissa));
        let a = run_end(chars, j + 1, class_fn(CharClass::Mantissa));
        if a + 2 <= chars.len() {
            lemma_run_end(chars, a + 2, class_fn(CharClass::Digit));
        }
        if a + 1 <= chars.len() {
            lemma_run_end(chars, a + 1, class_fn(CharClass::Digit));
        }
        let e = literal_end(chars, j);
        lemma_run_end(chars, e, class_fn(CharClass::Space));
        let s = run_end(chars, e, class_fn(CharClass::Space));
        lemma_run_end(chars, s, class_fn(CharClass::Alpha));
    }
}

/// The tokens a formula's characters make from `i` on, after `count` earlier
/// tokens: each token in turn, ending with the end token or the first
/// refused one.
pub open spec fn tokens_from(chars: Seq<char>, i: int, count: nat, max_tokens: nat) -> Seq<TokenView>
    decreases chars.len() - i,
{
    if 0 <= i <= chars.len() {
        let (t, next, n) = lex_step(chars, i, count, max_tokens);
        if t is End || t is Invalid {
            seq![t]
        } else {
            proof {
                lemma_lex_step_advances(chars, i, count, max_tokens);
            }
            seq![t] + tokens_from(chars, next, n, max_tokens)
        }
    } else {
        seq![TokenView::End]
    }
}

pub(crate) fn in_class(c: char, class: CharClass) -> (res: bool)
    ensures
        res == class_fn(class)(c),
{
    match class {
        CharClass::Space => {
            ('\u{9}' <= c && c <= '\u{d}') || c == ' ' || c == '\u{85}' || c == '\u{a0}' || c
                == '\u{1680}' || ('\u{2000}' <= c && c <= '\u{200a}') || c == '\u{2028}' || c
                == '\u{2029}' || c == '\u{202f}' || c == '\u{205f}' || c == '\u{3000}'
        },
        CharClass::Mantissa => ('0' <= c && c <= '9') || c == '.',
        CharClass::Digit => '0' <= c && c <= '9',
        CharClass::Alpha => ('a' <= c && c <= 'z') || ('A' <= c && c <= 'Z'),
        CharClass::Body => c != '"',
        CharClass::Name => ('a' <= c && c <= 'z') || ('A' <= c && c <= 'Z') || ('0' <= c && c <= '9')
            || c == '.' || c == '!' || c == '_',
    }
}

pub(crate) fn class_end(chars: &Vec<char>, i: usize, class: CharClass) -> (res: usize)
    requires
        i <= chars@.len(),
    ensures
        res == run_end(chars@, i as int, class_fn(class)),
{
    let mut k: usize = i;
    while k < chars.len() && in_class(chars[k], class)
        invariant
            i <= k <= chars@.len(),
            run_end(chars@, i as int, class_fn(class)) == run_end(chars@, k as int, class_fn(class)),
        decreases chars.len() - k,
    {
        k = k + 1;
    }
    k
}

/// The characters of a string, one by one.
pub fn chars_of(s: &str) -> (res: Vec<char>)
    ensures
        res@ == s@,
{
    let n = s.unicode_len();
    let mut out: Vec<char> = Vec::new();
    let mut i: usize = 0;
    while i < n
        invariant
            i <= n,
            n == s@.len(),
            out@ == s@.take(i as int),
        decreases n - i,
    {
        out.push(s.get_char(i));
        assert(out@ =~= s@.take(i + 1));
        i = i + 1;
    }
    assert(s@.take(n as int) =~= s@);
    out
}

pub(crate) fn string_of(chars: &Vec<char>, from: usize, to: usize) -> (res: String)
    requires
        from <= to <= chars@.len(),
    ensures
        res@ == chars@.subrange(from as int, to as int),
{
    let mut out = String::new();
    let mut k: usize = from;
    while k < to
        invariant
            from <= k <= to,
            to <= chars@.len(),
            out@ == chars@.subrange(from as int, k as int),
        decreases to - k,
    {
        push_char(&mut out, chars[k]);
        assert(out@ =~= chars@.subrange(from as int, k + 1));
        k = k + 1;
    }
    out
}

fn lex_number(chars: &Vec<char>, j: usize) -> (res: (Token, usize))
    requires
        j < chars.len(),
    ensures
        token_view(res.0) == number_token(chars@, j as int).0,
        res.1 == number_token(chars@, j as int).1,
{
    proof {
        lemma_run_end(chars@, j + 1, class_fn(CharClass::Mantissa));
    }
    let a = class_end(chars, j + 1, CharClass::Mantissa);
    let mut e = a;
    if a < chars.len() && (chars[a] == 'e' || chars[a] == 'E') {
        let b = a + 1;
        let d = if b < chars.len() && (chars[b] == '+' || chars[b] == '-') {
            b + 1
        } else {
            b
        };
        if d < chars.len() && '0' <= chars[d] && chars[d] <= '9' {
            e = class_end(chars, d, CharClass::Digit);
        }
    }
    assert(e == literal_end(chars@, j as int));
    proof {
        if a + 2 <= chars@.len() {
            lemma_run_end(chars@, a + 2, class_fn(CharClass::Digit));
        }
        if a + 1 <= chars@.len() {
            lemma_run_end(chars@, a + 1, class_fn(CharClass::Digit));
        }
        lemma_run_end(chars@, e as int, class_fn(CharClass::Space));
    }
    let s = class_end(chars, e, CharClass::Space);
    proof {
        lemma_run_end(chars@, s as int, class_fn(CharClass::Alpha));
    }
    let t = class_end(chars, s, CharClass::Alpha);
    let suffix = string_of(chars, s, t);
    match unit(suffix.as_str()) {
        Some(unit) => (Token::Number { literal: string_of(chars, j, e), suffix, unit }, t),
        None => {
            let mut message = owned("unknown unit suffix ");
            append(&mut message, suffix.as_str());
            proof {
                reveal_strlit("unknown unit suffix ");
            }
            (Token::Invalid(message), t)
        },
    }
}

fn lex_one(chars: &Vec<char>, i: usize, count: usize, max_tokens: usize) -> (res: (Token, usize, usize))
    requires
        i <= chars.len(),
        count <= i,
    ensures
        token_view(res.0) == lex_step(chars@, i as int, count as nat, max_tokens as nat).0,
        res.1 == lex_step(chars@, i as int, count as nat, max_tokens as nat).1,
        res.2 == lex_step(chars@, i as int, count as nat, max_tokens as nat).2,
{
    proof {
        lemma_run_end(chars@, i as int, class_fn(CharClass::Space));
    }
    let j = class_end(chars, i, CharClass::Space);
    if j >= chars.len() {
        return (Token::End, j, count);
    }
    let n = count + 1;
    if n > max_tokens {
        proof {
            reveal_strlit("formula token limit exceeded");
        }
        return (Token::Invalid(owned("formula token limit exceeded")), j + 1, n);
    }
    let c = chars[j];
    let has_next = j + 1 < chars.len();
    if c == '(' {
        (Token::L, j + 1, n)
    } else if c == ')' {
        (Token::R, j + 1, n)
    } else if c == ',' {
        (Token::Comma, j + 1, n)
    } else if c == '+' {
        (Token::Op(Op::Add), j + 1, n)
    } else if c == '-' {
        (Token::Op(Op::Sub), j + 1, n)
    } else if c == '*' {
        (Token::Op(Op::Mul), j + 1, n)
    } else if c == '/' {
        (Token::Op(Op::Div), j + 1, n)
    } else if c == '^' {
        (Token::Op(Op::Pow), j + 1, n)
    } else if c == '=' {
        (Token::Op(Op::Eq), j + 1, n)
    } else if c == '<' {
        if has_next && chars[j + 1] == '=' {
            (Token::Op(Op::Le), j + 2, n)
        } else if has_next && chars[j + 1] == '>' {
            (Token::Op(Op::Ne), j + 2, n)
        } else {
            (Token::Op(Op::Lt), j + 1, n)
        }
    } else if c == '>' {
        if has_next && chars[j + 1] == '=' {
            (Token::Op(Op::Ge), j + 2, n)
        } else {
            (Token::Op(Op::Gt), j + 1, n)
        }
    } else if c == '"' {
        proof {
            lemma_run_end(chars@, j + 1, class_fn(CharClass::Body));
        }
        let k = class_end(chars, j + 1, CharClass::Body);
        let body = string_of(chars, j + 1, k);
        let next = if k < chars.len() {
            k + 1
        } else {
            k
        };
        (Token::Str(body), next, n)
    } else if c == '.' || ('0' <= c && c <= '9') {
        let (t, e) = lex_number(chars, j);
        (t, e, n)
    } else {
        proof {
            lemma_run_end(chars@, j + 1, class_fn(CharClass::Name));
        }
        let k = class_end(chars, j + 1, CharClass::Name);
        (Token::Ident(string_of(chars, j, k)), k, n)
    }
}

/// The tokens of a formula, ending with the end token or the first refused
/// token; beyond `max_tokens` tokens the next one is refused.
pub fn lex(input: &str, max_tokens: usize) -> (res: Vec<Token>)
    ensures
        tokens_view(res@) == tokens_from(input@, 0, 0, max_tokens as nat),
{
    let chars = chars_of(input);
    let mut out: Vec<Token> = Vec::new();
    let mut i: usize = 0;
    let mut count: usize = 0;
    assert(tokens_view(out@) =~= Seq::<TokenView>::empty());
    assert(tokens_view(out@) + tokens_from(chars@, 0, 0, max_tokens as nat) =~= tokens_from(
        chars@,
        0,
        0,
        max_tokens as nat,
    ));
    loop
        invariant
            i <= chars@.len(),
            count <= i,
            chars@ == input@,
            tokens_view(out@) + tokens_from(chars@, i as int, count as nat, max_tokens as nat)
                == tokens_from(chars@, 0, 0, max_tokens as nat),
        decreases chars@.len() - i,
    {
        let (t, next, n) = lex_one(&chars, i, count, max_tokens);
        proof {
            lemma_lex_step_advances(chars@, i as int, count as nat, max_tokens as nat);
        }
        let stop = match t {
            Token::End => true,
            Token::Invalid(_) => true,
            _ => false,
        };
        let ghost before = tokens_view(out@);
        let ghost tv = token_view(t);
        out.push(t);
        assert(tokens_view(out@) =~= before.push(tv));
        if stop {
            assert(tokens_from(chars@, i as int, count as nat, max_tokens as nat) == seq![tv]);
            assert(tokens_view(out@) =~= before + seq![tv]);
            return out;
        }
        assert(tokens_from(chars@, i as int, count as nat, max_tokens as nat) == seq![tv] + tokens_from(
            chars@,
            next as int,
            n as nat,
            max_tokens as nat,
        ));
        assert(tokens_view(out@) + tokens_from(chars@, next as int, n as nat, max_tokens as nat)
            =~= before + (seq![tv] + tokens_from(chars@, next as int, n as nat, max_tokens as nat)));
        i = next;
        count = n;
    }
}

} // verus!
