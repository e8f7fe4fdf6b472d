//! The ShapeSheet formula vocabulary: units, operators, parse limits and
//! diagnostics, and the unit a suffix names.

use vstd::prelude::*;

use crate::edit_checks::{ascii_lower, eq_ignore_ascii_case};

verus! {

/// The unit family of a formula number.
#[derive(Debug, Clone, Copy, PartialEq, Eq, Structural)]
pub enum Unit {
    Number,
    Bool,
    Inches,
    Radians,
    Seconds,
}

/// A binary formula operator.
#[derive(Debug, Clone, Copy, PartialEq, Eq, Structural)]
pub enum Op {
    Add,
    Sub,
    Mul,
    Div,
    Pow,
    Eq,
    Ne,
    Lt,
    Le,
    Gt,
    Ge,
}

/// Why a formula was refused.
#[derive(Debug)]
pub struct Diagnostic {
    pub message: String,
}

/// Bounds on the formulas a parser accepts.
#[derive(Debug, Clone, Copy)]
pub struct Limits {
    pub max_depth: usize,
    pub max_nodes: usize,
    pub max_tokens: usize,
}

/// `s` lowercased in ASCII.
pub open spec fn ascii_lowered(s: Seq<char>) -> Seq<char> {
    s.map_values(|c: char| ascii_lower(c))
}

/// The unit family a number suffix names, compared without ASCII case:
/// none for a bare number; `in`, `dl`, `cm`, `mm`, `pt`, `pica`, `ft`, `m`
/// for lengths; `deg`, `rad`, `da` for angles; `es`, `em`, `ed`, `ew` for
/// durations; `bool`; anything else is no unit.
pub open spec fn spec_unit_kind(suffix: Seq<char>) -> Option<Unit> {
    let s = ascii_lowered(suffix);
    if s.len() == 0 {
        Some(Unit::Number)
    } else if s == "in"@ || s == "dl"@ || s == "cm"@ || s == "mm"@ || s == "pt"@ || s == "pica"@
        || s == "ft"@ || s == "m"@ {
        Some(Unit::Inches)
    } else if s == "deg"@ || s == "rad"@ || s == "da"@ {
        Some(Unit::Radians)
    } else if s == "es"@ || s == "em"@ || s == "ed"@ || s == "ew"@ {
        Some(Unit::Seconds)
    } else if s == "bool"@ {
        Some(Unit::Bool)
    } else {
        None
    }
}

proof fn lemma_lowered_equal(suffix: Seq<char>, word: Seq<char>)
    requires
        ascii_lowered(word) == word,
    ensures
        (ascii_lowered(suffix) == word) == (suffix.len() == word.len() && forall|i: int|
            0 <= i < suffix.len() ==> #[trigger] ascii_lower(suffix[i]) == ascii_lower(word[i])),
{
    if ascii_lowered(suffix) == word {
        assert forall|i: int| 0 <= i < suffix.len() implies #[trigger] ascii_lower(suffix[i])
            == ascii_lower(word[i]) by {
            assert(ascii_lowered(suffix)[i] == ascii_lower(suffix[i]));
            assert(ascii_lowered(word)[i] == ascii_lower(word[i]));
        }
    }
    if suffix.len() == word.len() && forall|i: int|
        0 <= i < suffix.len() ==> #[trigger] ascii_lower(suffix[i]) == ascii_lower(word[i]) {
        assert forall|i: int| 0 <= i < suffix.len() implies ascii_lowered(suffix)[i] == word[i] by {
            assert(ascii_lowered(word)[i] == ascii_lower(word[i]));
        }
        assert(ascii_lowered(suffix) =~= word);
    }
}

fn named(suffix: &str, word: &str) -> (res: bool)
    requires
        ascii_lowered(word@) == word@,
    ensures
        res == (ascii_lowered(suffix@) == word@),
{
    proof {
        lemma_lowered_equal(suffix@, word@);
    }
    eq_ignore_ascii_case(suffix, word)
}

/// The unit family that a number suffix names; the scale it applies is left to
/// callers that work in floating point.
pub fn unit(suffix: &str) -> (res: Option<Unit>)
    ensures
        res == spec_unit_kind(suffix@),
{
    proof {
        reveal_strlit("in");
        reveal_strlit("dl");
        reveal_strlit("cm");
        reveal_strlit("mm");
        reveal_strlit("pt");
        reveal_strlit("pica");
        reveal_strlit("ft");
        reveal_strlit("m");
        reveal_strlit("deg");
        reveal_strlit("rad");
        reveal_strlit("da");
        reveal_strlit("es");
        reveal_strlit("em");
        reveal_strlit("ed");
        reveal_strlit("ew");
        reveal_strlit("bool");
        assert(ascii_lowered("in"@) =~= "in"@);
        assert(ascii_lowered("dl"@) =~= "dl"@);
        assert(ascii_lowered("cm"@) =~= "cm"@);
        assert(ascii_lowered("mm"@) =~= "mm"@);
        assert(ascii_lowered("pt"@) =~= "pt"@);
        assert(ascii_lowered("pica"@) =~= "pica"@);
        assert(ascii_lowered("ft"@) =~= "ft"@);
        assert(ascii_lowered("m"@) =~= "m"@);
        assert(ascii_lowered("deg"@) =~= "deg"@);
        assert(ascii_lowered("rad"@) =~= "rad"@);
        assert(ascii_lowered("da"@) =~= "da"@);
        assert(ascii_lowered("es"@) =~= "es"@);
        assert(ascii_lowered("em"@) =~= "em"@);
        assert(ascii_lowered("ed"@) =~= "ed"@);
        assert(ascii_lowered("ew"@) =~= "ew"@);
        assert(ascii_lowered("bool"@) =~= "bool"@);
    }
    if suffix.unicode_len() == 0 {
        assert(ascii_lowered(suffix@).len() == 0);
        Some(Unit::Number)
    } else if named(suffix, "in") || named(suffix, "dl") || named(suffix, "cm") || named(
        suffix,
        "mm",
    ) || named(suffix, "pt") || named(suffix, "pica") || named(suffix, "ft") || named(
        suffix,
        "m",
    ) {
        Some(Unit::Inches)
    } else if named(suffix, "deg") || named(suffix, "rad") || named(suffix, "da") {
        Some(Unit::Radians)
    } else if named(suffix, "es") || named(suffix, "em") || named(suffix, "ed") || named(
        suffix,
        "ew",
    ) {
        Some(Unit::Seconds)
    } else if named(suffix, "bool") {
        Some(Unit::Bool)
    } else {
        None
    }
}

} // verus!
