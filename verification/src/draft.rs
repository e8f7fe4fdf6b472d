//! Validation of a shape draft before it is added to a session: attribute
//! text that a save can write, well-formed and distinct cell locators,
//! consistent row types, and formulas that parse.

use vstd::prelude::*;

use crate::edit_checks::{
    all_xml_chars, locator_key, spec_locator_key, spec_section_key, unit_separator,
    xml_chars_only,
};
use crate::edit_model::{CellSnapshot, EditError, ParseLimits, ShapeDraft};
use crate::formula::Limits;
use crate::formula_lex::chars_of;
use crate::formula_parse::{args_view, expr_view, parse, spec_parse, Expr, ExprView};
use crate::sheet::{CellLocator, CellRow};
use crate::text::{append, decimal, decimal_string, owned};

verus! {

/// The length of text in UTF-8 bytes, as `str::len` reports it.
pub open spec fn utf8_len(s: Seq<char>) -> usize {
    vstd::utf8::encode_utf8(s).len() as usize
}

/// Text that a save can write as an attribute value: within the attribute
/// byte limit, and made only of characters XML 1.0 allows.
pub open spec fn attribute_ok(s: Seq<char>, limits: ParseLimits) -> bool {
    utf8_len(s) <= limits.max_attribute_bytes && all_xml_chars(s)
}

/// A draft cell's locator is well formed: it names a cell, agrees with the
/// cell's name, has a row exactly when it has a section, and a shape-level
/// cell has neither a section index nor a row type.
pub open spec fn locator_well_formed(cell: CellSnapshot) -> bool {
    let loc = cell.locator;
    &&& loc.cell_name@.len() > 0
    &&& cell.name@ == loc.cell_name@
    &&& (loc.section is Some) == (loc.row is Some)
    &&& loc.section is None ==> loc.section_index is None && cell.row_type is None
}

/// The key of the row a section cell belongs to: its cell key up to the last
/// unit separator.
pub open spec fn spec_row_key(locator: CellLocator) -> Seq<char> {
    match (locator.section, locator.row) {
        (Some(section), Some(CellRow::Index(row))) => spec_section_key(
            section@,
            locator.section_index,
        ) + unit_separator() + "IX:"@ + decimal(row as nat),
        (Some(section), Some(CellRow::Name(row))) => spec_section_key(
            section@,
            locator.section_index,
        ) + unit_separator() + "N:"@ + row@,
        _ => spec_locator_key(locator),
    }
}

/// Refusal for a draft cell that carries a cached value.
pub open spec fn value_message() -> Seq<char> {
    "shape draft cells must not contain value"@
}

/// Refusal for a malformed cell locator.
pub open spec fn locator_message() -> Seq<char> {
    "draft contains an invalid cell locator"@
}

/// Refusal for text a save could not write.
pub open spec fn text_message() -> Seq<char> {
    "draft contains invalid XML attribute text"@
}

/// Refusal for two cells with one locator.
pub open spec fn duplicate_message() -> Seq<char> {
    "draft contains duplicate cell locators"@
}

/// Refusal for two row types given to one row.
pub open spec fn conflict_message() -> Seq<char> {
    "draft contains conflicting row types"@
}

/// Refusal for a draft with too many cells.
pub open spec fn count_message() -> Seq<char> {
    "draft cell count exceeds maximum"@
}

/// An earlier cell of the draft has the same locator key as cell `i`.
pub open spec fn duplicate_before(cells: Seq<CellSnapshot>, i: int) -> bool {
    exists|j: int|
        0 <= j < i && spec_locator_key(#[trigger] cells[j].locator) == spec_locator_key(
            cells[i].locator,
        )
}

/// An earlier cell of the draft gives the row of cell `i` another row type.
pub open spec fn conflict_before(cells: Seq<CellSnapshot>, i: int) -> bool {
    exists|j: int|
        0 <= j < i && (#[trigger] cells[j].row_type) is Some && spec_row_key(cells[j].locator)
            == spec_row_key(cells[i].locator) && cells[j].row_type.unwrap()@
            != cells[i].row_type.unwrap()@
}

/// Why cell `i` of a draft is refused, checked in order, given what parsing
/// each cell's formula reported.
pub open spec fn draft_cell_error(
    cells: Seq<CellSnapshot>,
    limits: ParseLimits,
    formula_errors: Seq<Option<Seq<char>>>,
    i: int,
) -> Option<Seq<char>> {
    let cell = cells[i];
    let loc = cell.locator;
    if cell.value is Some {
        Some(value_message())
    } else if !locator_well_formed(cell) {
        Some(locator_message())
    } else if !attribute_ok(loc.cell_name@, limits) {
        Some(text_message())
    } else if loc.section is Some && !attribute_ok(loc.section.unwrap()@, limits) {
        Some(text_message())
    } else if (loc.row matches Some(CellRow::Name(n)) && !attribute_ok(n@, limits)) {
        Some(text_message())
    } else if duplicate_before(cells, i) {
        Some(duplicate_message())
    } else if cell.row_type is Some && !attribute_ok(cell.row_type.unwrap()@, limits) {
        Some(text_message())
    } else if cell.row_type is Some && conflict_before(cells, i) {
        Some(conflict_message())
    } else if cell.formula is Some && !attribute_ok(cell.formula.unwrap()@, limits) {
        Some(text_message())
    } else if cell.formula is Some && formula_errors[i] is Some {
        Some(formula_errors[i].unwrap())
    } else {
        None
    }
}

/// The text of each reported parse error.
pub open spec fn error_views(errors: Seq<Option<String>>) -> Seq<Option<Seq<char>>> {
    errors.map_values(|e: Option<String>| match e {
        Some(m) => Some(m@),
        None => None,
    })
}

/// The first refusal among the first `n` cells.
pub open spec fn first_cell_error(
    cells: Seq<CellSnapshot>,
    limits: ParseLimits,
    formula_errors: Seq<Option<Seq<char>>>,
    n: int,
) -> Option<Seq<char>>
    decreases n,
{
    if n <= 0 {
        None
    } else {
        match first_cell_error(cells, limits, formula_errors, n - 1) {
            Some(e) => Some(e),
            None => draft_cell_error(cells, limits, formula_errors, n - 1),
        }
    }
}

/// Why a draft is refused, if it is: its name, then its cell count, then its cells in order.
pub open spec fn draft_error(
    draft: ShapeDraft,
    limits: ParseLimits,
    formula_errors: Seq<Option<Seq<char>>>,
) -> Option<Seq<char>> {
    if draft.name is Some && !attribute_ok(draft.name.unwrap()@, limits) {
        Some(text_message())
    } else if draft.cells@.len() > limits.max_cells {
        Some(count_message())
    } else {
        first_cell_error(draft.cells@, limits, formula_errors, draft.cells@.len() as int)
    }
}

proof fn lemma_first_error_stays(
    cells: Seq<CellSnapshot>,
    limits: ParseLimits,
    formula_errors: Seq<Option<Seq<char>>>,
    m: int,
    n: int,
)
    requires
        0 <= m <= n,
        first_cell_error(cells, limits, formula_errors, m) is Some,
    ensures
        first_cell_error(cells, limits, formula_errors, n) == first_cell_error(
            cells,
            limits,
            formula_errors,
            m,
        ),
    decreases n - m,
{
    if m < n {
        lemma_first_error_stays(cells, limits, formula_errors, m, n - 1);
    }
}

fn attribute_text_ok(s: &str, limits: &ParseLimits) -> (res: bool)
    ensures
        res == attribute_ok(s@, *limits),
{
    s.len() <= limits.max_attribute_bytes && xml_chars_only(s)
}

fn is_locator_well_formed(cell: &CellSnapshot) -> (res: bool)
    ensures
        res == locator_well_formed(*cell),
{
    let loc = &cell.locator;
    let named = loc.cell_name.as_str().unicode_len() > 0;
    named && cell.name == loc.cell_name && loc.section.is_some() == loc.row.is_some() && (
    loc.section.is_some() || (loc.section_index.is_none() && cell.row_type.is_none()))
}

/// The key of the row a section cell belongs to.
fn row_locator_key(locator: &CellLocator) -> (res: String)
    ensures
        res@ == spec_row_key(*locator),
{
    match (&locator.section, &locator.row) {
        (Some(section), Some(row)) => {
            let mut key = owned(section.as_str());
            match locator.section_index {
                Some(i) => {
                    append(&mut key, "[");
                    let digits = decimal_string(i);
                    append(&mut key, digits.as_str());
                    append(&mut key, "]");
                },
                None => {},
            }
            append(&mut key, "\u{1f}");
            match row {
                CellRow::Index(index) => {
                    append(&mut key, "IX:");
                    let digits = decimal_string(*index);
                    append(&mut key, digits.as_str());
                },
                CellRow::Name(name) => {
                    append(&mut key, "N:");
                    append(&mut key, name.as_str());
                },
            }
            proof {
                reveal_strlit("\u{1f}");
                assert("\u{1f}"@ =~= unit_separator());
            }
            key
        },
        _ => locator_key(locator),
    }
}

fn refuse(message: &str) -> (res: Result<(), EditError>)
    ensures
        res matches Err(EditError::InvalidState(m)) && m@ == message@,
{
    Err(EditError::InvalidState(owned(message)))
}

/// Checks a shape draft before it is added: its name and every cell's text
/// must be writable attribute text, it may not hold more cells than the
/// limit, and each cell must carry no cached value, have a well-formed
/// locator not used by an earlier cell, give its row the same type as earlier
/// cells of that row, and have a formula that parses. `formula_errors[i]` is
/// what parsing cell `i`'s formula (without its leading `=`) reported.
#[verifier::loop_isolation(false)]
pub fn validate_shape_draft(
    draft: &ShapeDraft,
    limits: &ParseLimits,
    formula_errors: &Vec<Option<String>>,
) -> (res: Result<(), EditError>)
    requires
        formula_errors@.len() == draft.cells@.len(),
    ensures
        match draft_error(*draft, *limits, error_views(formula_errors@)) {
            None => res is Ok,
            Some(m) => (res matches Err(EditError::InvalidState(e)) && e@ == m),
        },
{
    match &draft.name {
        Some(name) => {
            if !attribute_text_ok(name.as_str(), limits) {
                return refuse("draft contains invalid XML attribute text");
            }
        },
        None => {},
    }
    if draft.cells.len() > limits.max_cells {
        return refuse("draft cell count exceeds maximum");
    }
    let cells = &draft.cells;
    let ghost s = cells@;
    let ghost fe = error_views(formula_errors@);
    let n = cells.len();
    let mut keys: Vec<String> = Vec::new();
    let mut row_keys: Vec<Option<String>> = Vec::new();
    let mut i: usize = 0;
    while i < n
        invariant
            n == s.len(),
            s == cells@,
            fe == error_views(formula_errors@),
            fe.len() == n,
            i <= n,
            keys@.len() == i,
            row_keys@.len() == i,
            forall|j: int| 0 <= j < i ==> (#[trigger] keys@[j])@ == spec_locator_key(s[j].locator),
            forall|j: int|
                0 <= j < i ==> match #[trigger] row_keys@[j] {
                    Some(k) => s[j].row_type is Some && k@ == spec_row_key(s[j].locator),
                    None => s[j].row_type is None,
                },
            first_cell_error(s, *limits, fe, i as int) is None,
            s == draft.cells@,
            draft.name is Some ==> attribute_ok(draft.name.unwrap()@, *limits),
            n <= limits.max_cells,
        decreases n - i,
    {
        let cell = &cells[i];
        let loc = &cell.locator;
        let ghost err = draft_cell_error(s, *limits, fe, i as int);
        proof {
            if err is Some {
                assert(first_cell_error(s, *limits, fe, i + 1) == err);
                lemma_first_error_stays(s, *limits, fe, i + 1, n as int);
            }
        }
        if cell.value.is_some() {
            return refuse("shape draft cells must not contain value");
        }
        if !is_locator_well_formed(cell) {
            return refuse("draft contains an invalid cell locator");
        }
        if !attribute_text_ok(loc.cell_name.as_str(), limits) {
            return refuse("draft contains invalid XML attribute text");
        }
        match &loc.section {
            Some(section) => {
                if !attribute_text_ok(section.as_str(), limits) {
                    return refuse("draft contains invalid XML attribute text");
                }
            },
            None => {},
        }
        match &loc.row {
            Some(CellRow::Name(row)) => {
                if !attribute_text_ok(row.as_str(), limits) {
                    return refuse("draft contains invalid XML attribute text");
                }
            },
            _ => {},
        }
        let key = locator_key(loc);
        let mut j: usize = 0;
        while j < i
            invariant
                i < n,
                n == s.len(),
                s == cells@,
                keys@.len() == i,
                j <= i,
                key@ == spec_locator_key(s[i as int].locator),
                forall|t: int| 0 <= t < i ==> (#[trigger] keys@[t])@ == spec_locator_key(s[t].locator),
                forall|t: int| 0 <= t < j ==> spec_locator_key(#[trigger] s[t].locator) != key@,
            decreases i - j,
        {
            if keys[j] == key {
                proof {
                    assert(spec_locator_key(s[j as int].locator) == spec_locator_key(s[i as int].locator));
                    assert(duplicate_before(s, i as int));
                }
                return refuse("draft contains duplicate cell locators");
            }
            j = j + 1;
        }
        assert(!duplicate_before(s, i as int));
        let mut row_key: Option<String> = None;
        match &cell.row_type {
            Some(row_type) => {
                if !attribute_text_ok(row_type.as_str(), limits) {
                    return refuse("draft contains invalid XML attribute text");
                }
                let rk = row_locator_key(loc);
                let mut j: usize = 0;
                while j < i
                    invariant
                        i < n,
                        n == s.len(),
                        s == cells@,
                        row_keys@.len() == i,
                        j <= i,
                        s[i as int].row_type == Some(*row_type),
                        rk@ == spec_row_key(s[i as int].locator),
                        forall|t: int|
                            0 <= t < i ==> match #[trigger] row_keys@[t] {
                                Some(k) => s[t].row_type is Some && k@ == spec_row_key(
                                    s[t].locator,
                                ),
                                None => s[t].row_type is None,
                            },
                        forall|t: int|
                            0 <= t < j ==> !((#[trigger] s[t].row_type) is Some && spec_row_key(
                                s[t].locator,
                            ) == rk@ && s[t].row_type.unwrap()@ != row_type@),
                    decreases i - j,
                {
                    match &row_keys[j] {
                        Some(k) => {
                            let other = &cells[j].row_type;
                            match other {
                                Some(u) => {
                                    if *k == rk && *u != *row_type {
                                        proof {
                                            assert(conflict_before(s, i as int));
                                        }
                                        return refuse("draft contains conflicting row types");
                                    }
                                },
                                None => {},
                            }
                        },
                        None => {},
                    }
                    j = j + 1;
                }
                assert(!conflict_before(s, i as int));
                row_key = Some(rk);
            },
            None => {},
        }
        match &cell.formula {
            Some(formula) => {
                if !attribute_text_ok(formula.as_str(), limits) {
                    return refuse("draft contains invalid XML attribute text");
                }
                match &formula_errors[i] {
                    Some(e) => {
                        return Err(EditError::InvalidState(e.clone()));
                    },
                    None => {},
                }
            },
            None => {},
        }
        assert(err is None);
        keys.push(key);
        row_keys.push(row_key);
        i = i + 1;
    }
    Ok(())
}

/// Where the run of `=` signs that starts at `k` ends.
pub open spec fn equals_run_end(s: Seq<char>, k: int) -> int
    decreases s.len() - k,
{
    if 0 <= k < s.len() && s[k] == '=' {
        equals_run_end(s, k + 1)
    } else {
        k
    }
}

/// A formula without the `=` signs it starts with.
pub open spec fn formula_body(f: Seq<char>) -> Seq<char> {
    f.subrange(equals_run_end(f, 0), f.len() as int)
}

/// What parsing a cell's formula body reports: the parser's message where
/// the formula does not parse, nothing where it parses or is absent.
pub open spec fn formula_parse_error(cell: CellSnapshot, formula_limits: Limits) -> Option<
    Seq<char>,
> {
    match cell.formula {
        Some(f) => match spec_parse(formula_body(f@), formula_limits) {
            Ok(_) => None,
            Err(m) => Some(m),
        },
        None => None,
    }
}

/// The parse report of every cell of a draft.
pub open spec fn formula_parse_errors(cells: Seq<CellSnapshot>, formula_limits: Limits) -> Seq<
    Option<Seq<char>>,
> {
    Seq::new(cells.len(), |i: int| formula_parse_error(cells[i], formula_limits))
}

fn strip_leading_equals(f: &str) -> (res: &str)
    ensures
        res@ == formula_body(f@),
{
    let chars = chars_of(f);
    let n = chars.len();
    let mut k: usize = 0;
    while k < n && chars[k] == '='
        invariant
            k <= n,
            n == f@.len(),
            chars@ == f@,
            equals_run_end(f@, k as int) == equals_run_end(f@, 0),
        decreases n - k,
    {
        k = k + 1;
    }
    f.substring_char(k, n)
}

/// The cell at `i` holds a formula whose body does not parse.
pub open spec fn formula_unparsable(cells: Seq<CellSnapshot>, i: int, formula_limits: Limits) -> bool {
    &&& 0 <= i < cells.len()
    &&& formula_parse_error(cells[i], formula_limits) is Some
}

proof fn lemma_cell_error_refuses(
    cells: Seq<CellSnapshot>,
    limits: ParseLimits,
    formula_errors: Seq<Option<Seq<char>>>,
    i: int,
    n: int,
)
    requires
        0 <= i < n,
        draft_cell_error(cells, limits, formula_errors, i) is Some,
    ensures
        first_cell_error(cells, limits, formula_errors, n) is Some,
    decreases n - i,
{
    if n > i + 1 {
        lemma_cell_error_refuses(cells, limits, formula_errors, i, n - 1);
    }
}

/// A draft that holds a formula whose body does not parse is refused.
pub proof fn lemma_unparsable_formula_refused(
    draft: ShapeDraft,
    limits: ParseLimits,
    formula_limits: Limits,
    i: int,
)
    requires
        formula_unparsable(draft.cells@, i, formula_limits),
    ensures
        draft_error(draft, limits, formula_parse_errors(draft.cells@, formula_limits)) is Some,
{
    let cells = draft.cells@;
    let fe = formula_parse_errors(cells, formula_limits);
    assert(fe[i] == formula_parse_error(cells[i], formula_limits));
    assert(draft_cell_error(cells, limits, fe, i) is Some);
    lemma_cell_error_refuses(cells, limits, fe, i, cells.len() as int);
}

/// Cell `i` of a draft is refused on its own: it carries a cached value, its
/// locator is malformed, its cell name, section, row name, row type or
/// formula is not writable attribute text, an earlier cell has its locator,
/// an earlier cell gives its row another type, or its formula does not parse.
pub open spec fn cell_faulty(cells: Seq<CellSnapshot>, limits: ParseLimits, formula_limits: Limits, i: int) -> bool {
    let cell = cells[i];
    let loc = cell.locator;
    ||| cell.value is Some
    ||| !locator_well_formed(cell)
    ||| !attribute_ok(loc.cell_name@, limits)
    ||| (loc.section matches Some(sec) && !attribute_ok(sec@, limits))
    ||| (loc.row matches Some(CellRow::Name(n)) && !attribute_ok(n@, limits))
    ||| duplicate_before(cells, i)
    ||| (cell.row_type matches Some(t) && !attribute_ok(t@, limits))
    ||| (cell.row_type is Some && conflict_before(cells, i))
    ||| (cell.formula matches Some(f) && !attribute_ok(f@, limits))
    ||| formula_unparsable(cells, i, formula_limits)
}

/// A draft is refused: its name is not writable attribute text, it holds
/// more cells than the limit, or one of its cells is refused.
pub open spec fn draft_refused(draft: ShapeDraft, limits: ParseLimits, formula_limits: Limits) -> bool {
    ||| (draft.name matches Some(n) && !attribute_ok(n@, limits))
    ||| draft.cells@.len() > limits.max_cells
    ||| exists|i: int| 0 <= i < draft.cells@.len() && #[trigger] cell_faulty(draft.cells@, limits, formula_limits, i)
}

proof fn lemma_first_cell_error_some(
    cells: Seq<CellSnapshot>,
    limits: ParseLimits,
    formula_limits: Limits,
    n: int,
)
    requires
        0 <= n <= cells.len(),
    ensures
        first_cell_error(cells, limits, formula_parse_errors(cells, formula_limits), n) is Some <==> exists|i: int|
            0 <= i < n && #[trigger] cell_faulty(cells, limits, formula_limits, i),
    decreases n,
{
    let fe = formula_parse_errors(cells, formula_limits);
    if n > 0 {
        lemma_first_cell_error_some(cells, limits, formula_limits, n - 1);
        assert(fe[n - 1] == formula_parse_error(cells[n - 1], formula_limits));
        assert(draft_cell_error(cells, limits, fe, n - 1) is Some <==> cell_faulty(
            cells,
            limits,
            formula_limits,
            n - 1,
        ));
        if exists|i: int| 0 <= i < n && #[trigger] cell_faulty(cells, limits, formula_limits, i) {
            let i = choose|i: int| 0 <= i < n && #[trigger] cell_faulty(cells, limits, formula_limits, i);
            if i < n - 1 {
                assert(exists|j: int| 0 <= j < n - 1 && #[trigger] cell_faulty(cells, limits, formula_limits, j));
            }
        }
    }
}

/// The draft check refuses a draft exactly when its name is not writable
/// attribute text, it holds more cells than the limit, or some cell carries
/// a cached value, has a malformed locator, holds text a save cannot write,
/// repeats an earlier cell's locator, gives its row a type an earlier cell
/// contradicts, or has a formula that does not parse.
pub proof fn lemma_draft_refused_iff(draft: ShapeDraft, limits: ParseLimits, formula_limits: Limits)
    ensures
        draft_error(draft, limits, formula_parse_errors(draft.cells@, formula_limits)) is Some
            <==> draft_refused(draft, limits, formula_limits),
{
    lemma_first_cell_error_some(draft.cells@, limits, formula_limits, draft.cells@.len() as int);
}

/// Checks a shape draft as [`validate_shape_draft`] does, parsing each cell's
/// formula (without its leading `=` signs) under `formula_limits`; a formula
/// that does not parse refuses the draft with the parser's message.
pub fn validate_draft(draft: &ShapeDraft, limits: &ParseLimits, formula_limits: Limits) -> (res: Result<
    (),
    EditError,
>)
    ensures
        match draft_error(*draft, *limits, formula_parse_errors(draft.cells@, formula_limits)) {
            None => res is Ok,
            Some(m) => (res matches Err(EditError::InvalidState(e)) && e@ == m),
        },
        (exists|i: int| formula_unparsable(draft.cells@, i, formula_limits)) ==> res is Err,
        res is Err <==> draft_refused(*draft, *limits, formula_limits),
{
    let cells = &draft.cells;
    let n = cells.len();
    let mut errors: Vec<Option<String>> = Vec::new();
    let mut i: usize = 0;
    while i < n
        invariant
            i <= n,
            n == cells@.len(),
            cells == &draft.cells,
            errors@.len() == i,
            forall|j: int|
                0 <= j < i ==> error_views(errors@)[j] == formula_parse_error(
                    cells@[j],
                    formula_limits,
                ),
        decreases n - i,
    {
        let report = match &cells[i].formula {
            Some(f) => {
                let body = strip_leading_equals(f.as_str());
                match parse(body, formula_limits) {
                    Ok(_) => None,
                    Err(d) => Some(d.message),
                }
            },
            None => None,
        };
        proof {
            assert(match report {
                Some(m) => Some(m@),
                None => None::<Seq<char>>,
            } == formula_parse_error(cells@[i as int], formula_limits));
        }
        let ghost before = errors@;
        errors.push(report);
        proof {
            assert(errors@ == before.push(report));
            assert forall|j: int| 0 <= j < i + 1 implies error_views(errors@)[j]
                == formula_parse_error(cells@[j], formula_limits) by {
                if j < i {
                    assert(errors@[j] == before[j]);
                    assert(error_views(before)[j] == formula_parse_error(cells@[j], formula_limits));
                } else {
                    assert(errors@[j] == report);
                }
                assert(error_views(errors@)[j] == match errors@[j] {
                    Some(m) => Some(m@),
                    None => None::<Seq<char>>,
                });
            }
        }
        i = i + 1;
    }
    proof {
        assert(error_views(errors@) =~= formula_parse_errors(cells@, formula_limits));
        if exists|i: int| formula_unparsable(draft.cells@, i, formula_limits) {
            let k = choose|i: int| formula_unparsable(draft.cells@, i, formula_limits);
            lemma_unparsable_formula_refused(*draft, *limits, formula_limits, k);
        }
        lemma_draft_refused_iff(*draft, *limits, formula_limits);
    }
    validate_shape_draft(draft, limits, &errors)
}

/// `c` is `upper` or, for an ASCII letter, its lowercase form: what
/// `to_ascii_uppercase` turns into `upper`.
pub open spec fn ascii_upper_is(c: char, upper: char) -> bool {
    c == upper || (('A' <= upper <= 'Z') && (c as int) == (upper as int) + 32)
}

/// The text spells `GUARD` at `i`, in any ASCII case.
pub open spec fn guard_at(s: Seq<char>, i: int) -> bool {
    &&& 0 <= i && i + 5 <= s.len()
    &&& ascii_upper_is(s[i], 'G')
    &&& ascii_upper_is(s[i + 1], 'U')
    &&& ascii_upper_is(s[i + 2], 'A')
    &&& ascii_upper_is(s[i + 3], 'R')
    &&& ascii_upper_is(s[i + 4], 'D')
}

/// The text contains `GUARD` in any ASCII case.
pub open spec fn has_guard(s: Seq<char>) -> bool {
    exists|i: int| #[trigger] guard_at(s, i)
}

/// Some string, reference or function name in a formula contains `GUARD`
/// in any ASCII case.
pub open spec fn mentions_guard(e: ExprView) -> bool
    decreases e,
{
    match e {
        ExprView::Number(_, _, _) => false,
        ExprView::String(s) => has_guard(s),
        ExprView::Reference(s) => has_guard(s),
        ExprView::Unary(x) => mentions_guard(*x),
        ExprView::Binary(l, _, r) => mentions_guard(*l) || mentions_guard(*r),
        ExprView::Call(name, args) => has_guard(name) || args_mention_guard(args),
    }
}

/// Some formula of a list mentions `GUARD`.
pub open spec fn args_mention_guard(s: Seq<ExprView>) -> bool
    decreases s,
{
    if s.len() == 0 {
        false
    } else {
        proof {
            assert(decreases_to!(s => s[s.len() - 1]));
        }
        args_mention_guard(s.drop_last()) || mentions_guard(s[s.len() - 1])
    }
}

fn upper_is(c: char, upper: char) -> (res: bool)
    requires
        'A' <= upper <= 'Z',
    ensures
        res == ascii_upper_is(c, upper),
{
    let lower = ((upper as u32) + 32) as u8 as char;
    c == upper || c == lower
}

fn text_has_guard(s: &str) -> (res: bool)
    ensures
        res == has_guard(s@),
{
    let c = chars_of(s);
    let n = c.len();
    if n < 5 {
        return false;
    }
    let mut i: usize = 0;
    while i <= n - 5
        invariant
            n == s@.len(),
            c@ == s@,
            n >= 5,
            i <= n - 4,
            forall|j: int| 0 <= j < i ==> !#[trigger] guard_at(s@, j),
        decreases n - i,
    {
        if upper_is(c[i], 'G') && upper_is(c[i + 1], 'U') && upper_is(c[i + 2], 'A') && upper_is(
            c[i + 3],
            'R',
        ) && upper_is(c[i + 4], 'D') {
            assert(guard_at(s@, i as int));
            return true;
        }
        i = i + 1;
    }
    false
}

fn expr_mentions_guard(e: &Expr) -> (res: bool)
    ensures
        res == mentions_guard(expr_view(*e)),
    decreases e,
{
    match e {
        Expr::Number { .. } => false,
        Expr::String(s) => text_has_guard(s.as_str()),
        Expr::Reference(s) => text_has_guard(s.as_str()),
        Expr::Unary(x) => expr_mentions_guard(x),
        Expr::Binary(l, _, r) => expr_mentions_guard(l) || expr_mentions_guard(r),
        Expr::Call(name, args) => {
            if text_has_guard(name.as_str()) {
                return true;
            }
            let mut i: usize = 0;
            while i < args.len()
                invariant
                    i <= args@.len(),
                    *e == Expr::Call(*name, *args),
                    !args_mention_guard(args_view(args@.take(i as int))),
                decreases args.len() - i,
            {
                proof {
                    assert(args@.take(i + 1).drop_last() =~= args@.take(i as int));
                    assert(args@.take(i + 1)[i as int] == args@[i as int]);
                    let v = args_view(args@.take(i + 1));
                    lemma_args_view_len(args@.take(i as int));
                    assert(v.drop_last() =~= args_view(args@.take(i as int)));
                    assert(v[i as int] == expr_view(args@[i as int]));
                    assert(decreases_to!(*e => *args));
                    assert(decreases_to!(*args => args@));
                    assert(decreases_to!(args@ => args@[i as int]));
                }
                if expr_mentions_guard(&args[i]) {
                    proof {
                        assert(args@.take(args@.len() as int) =~= args@);
                        lemma_args_mention_take(args@, i as int + 1);
                    }
                    return true;
                }
                i = i + 1;
            }
            proof {
                assert(args@.take(args@.len() as int) =~= args@);
            }
            false
        },
    }
}

proof fn lemma_args_view_len(s: Seq<Expr>)
    ensures
        args_view(s).len() == s.len(),
    decreases s.len(),
{
    if s.len() > 0 {
        lemma_args_view_len(s.drop_last());
    }
}

proof fn lemma_args_mention_take(s: Seq<Expr>, k: int)
    requires
        0 <= k <= s.len(),
        args_mention_guard(args_view(s.take(k))),
    ensures
        args_mention_guard(args_view(s)),
    decreases s.len() - k,
{
    if k < s.len() {
        assert(s.take(k + 1).drop_last() =~= s.take(k));
        let v = args_view(s.take(k + 1));
        assert(v.drop_last() =~= args_view(s.take(k)));
        lemma_args_mention_take(s, k + 1);
    } else {
        assert(s.take(k) =~= s);
    }
}

/// Whether a formula is guarded: its body (without its leading `=` signs)
/// parses, and some string, reference or function name in it contains
/// `GUARD` in any ASCII case. This is what reading the parsed formula's
/// debug text in ASCII upper case finds: that text quotes each string and
/// name with escapes that all begin with a backslash, and spells every other
/// part (node kinds, operators, units, numbers) without the word.
pub fn is_guarded(formula: &str, formula_limits: Limits) -> (res: bool)
    ensures
        res == match spec_parse(formula_body(formula@), formula_limits) {
            Ok(e) => mentions_guard(e),
            Err(_) => false,
        },
{
    let body = strip_leading_equals(formula);
    match parse(body, formula_limits) {
        Ok(e) => expr_mentions_guard(&e),
        Err(_) => false,
    }
}

} // verus!
