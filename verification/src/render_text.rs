//! The renderer's text runs and their structured diagnostics: the category
//! each diagnostic code belongs to, character case transforms, run property
//! lookups, and the renderer's budgets, errors and hit-test results.

use vstd::prelude::*;

use crate::resolve_model::{Lookup, ResolveError};
use crate::text::{append, decimal, decimal_string, owned, push_char, str_eq};

verus! {

/// Whether a diagnostic means lost content (integrity) or only a less
/// faithful rendering of content that is still there (fidelity).
#[derive(Debug, Clone, Copy, PartialEq, Eq, Structural)]
pub enum DiagnosticCategory {
    Integrity,
    Fidelity,
}

/// A structured diagnostic attached to a text run.
#[derive(Debug)]
pub struct Diagnostic {
    pub category: DiagnosticCategory,
    pub code: String,
    pub detail: String,
    /// Whether the category was not given and so defaulted to integrity.
    pub category_defaulted: bool,
}

/// A run of text with its character properties and diagnostics. Sizes and
/// spacing, which only layout reads, are kept by the layout engine.
#[derive(Debug)]
pub struct TextRun {
    pub text: String,
    pub family: String,
    pub bold: bool,
    pub italic: bool,
    pub underline: bool,
    pub small_caps: bool,
    pub superscript: bool,
    pub subscript: bool,
    pub case: i32,
    pub color: String,
    pub diagnostics: Vec<Diagnostic>,
    pub diagnosed_face: Option<String>,
}

/// A paragraph of runs.
#[derive(Debug)]
pub struct TextParagraph {
    pub runs: Vec<TextRun>,
}

/// The diagnostic codes that only cost rendering fidelity; every other code,
/// known or not, is an integrity diagnostic.
pub open spec fn fidelity_code(code: Seq<char>) -> bool {
    ||| code == "missing-tab-position"@
    ||| code == "unresolvable-character-pos"@
    ||| code == "unresolvable-character-case"@
    ||| code == "font-substituted"@
    ||| code == "unregistered-font"@
    ||| code == "justify-fallback"@
}

/// The category a diagnostic code belongs to.
pub open spec fn code_category(code: Seq<char>) -> DiagnosticCategory {
    if fidelity_code(code) {
        DiagnosticCategory::Fidelity
    } else {
        DiagnosticCategory::Integrity
    }
}

impl Diagnostic {
    /// A diagnostic of the given category.
    pub fn new(category: DiagnosticCategory, code: &str, detail: &str) -> (res: Diagnostic)
        ensures
            res.category == category,
            res.code@ == code@,
            res.detail@ == detail@,
            !res.category_defaulted,
    {
        Diagnostic { category, code: owned(code), detail: owned(detail), category_defaulted: false }
    }

    /// A diagnostic whose category follows from its code; unknown codes fail
    /// safe as integrity diagnostics.
    pub fn for_code(code: &str, detail: &str) -> (res: Diagnostic)
        ensures
            res.category == code_category(code@),
            res.code@ == code@,
            res.detail@ == detail@,
            !res.category_defaulted,
    {
        let fidelity = str_eq(code, "missing-tab-position") || str_eq(
            code,
            "unresolvable-character-pos",
        ) || str_eq(code, "unresolvable-character-case") || str_eq(code, "font-substituted")
            || str_eq(code, "unregistered-font") || str_eq(code, "justify-fallback");
        let category = if fidelity {
            DiagnosticCategory::Fidelity
        } else {
            DiagnosticCategory::Integrity
        };
        Diagnostic::new(category, code, detail)
    }
}

/// Records a diagnostic on a run, after those it already has.
pub fn append_diagnostic(run: &mut TextRun, code: &str, detail: &str)
    ensures
        final(run).diagnostics@.len() == old(run).diagnostics@.len() + 1,
        final(run).diagnostics@.take(old(run).diagnostics@.len() as int) == old(run).diagnostics@,
        final(run).diagnostics@.last().category == code_category(code@),
        final(run).diagnostics@.last().code@ == code@,
        final(run).diagnostics@.last().detail@ == detail@,
        !final(run).diagnostics@.last().category_defaulted,
        final(run).text == old(run).text,
        final(run).case == old(run).case,
        final(run).family == old(run).family,
        final(run).color == old(run).color,
{
    let ghost before = run.diagnostics@;
    run.diagnostics.push(Diagnostic::for_code(code, detail));
    assert(run.diagnostics@.take(before.len() as int) =~= before);
}

/// Names what `str::to_uppercase` returns for a string.
pub uninterp spec fn str_uppercase(s: Seq<char>) -> Seq<char>;

/// Names the characters `char::to_uppercase` yields for a character.
pub uninterp spec fn char_uppercase(c: char) -> Seq<char>;

/// Names the characters `char::to_lowercase` yields for a character.
pub uninterp spec fn char_lowercase(c: char) -> Seq<char>;

/// Names what `char::is_alphanumeric` answers for a character.
pub uninterp spec fn char_alphanumeric(c: char) -> bool;

/// `str::to_uppercase`: the Unicode uppercase form of a string.
#[verifier::external_body]
fn uppercase(s: &str) -> (res: String)
    ensures
        res@ == str_uppercase(s@),
{
    s.to_uppercase()
}

/// `char::to_uppercase`, collected: the Unicode uppercase mapping of a character.
#[verifier::external_body]
fn upper_char(c: char) -> (res: String)
    ensures
        res@ == char_uppercase(c),
{
    c.to_uppercase().collect()
}

/// `char::to_lowercase`, collected: the Unicode lowercase mapping of a character.
#[verifier::external_body]
fn lower_char(c: char) -> (res: String)
    ensures
        res@ == char_lowercase(c),
{
    c.to_lowercase().collect()
}

/// `char::is_alphanumeric`: whether a character is alphabetic or numeric in Unicode.
#[verifier::external_body]
fn is_alphanumeric(c: char) -> (res: bool)
    ensures
        res == char_alphanumeric(c),
{
    c.is_alphanumeric()
}

/// Character `i` begins a word: it is first, or follows a character that is
/// not alphanumeric.
pub open spec fn starts_word(s: Seq<char>, i: int) -> bool {
    i == 0 || !char_alphanumeric(s[i - 1])
}

/// The title-cased spelling of the first `n` characters: each character that
/// begins a word in uppercase, every other one in lowercase.
pub open spec fn title_cased(s: Seq<char>, n: int) -> Seq<char>
    decreases n,
{
    if n <= 0 {
        Seq::empty()
    } else {
        title_cased(s, n - 1) + if starts_word(s, n - 1) {
            char_uppercase(s[n - 1])
        } else {
            char_lowercase(s[n - 1])
        }
    }
}

/// Capitalizes the first letter of each word and lowercases the rest.
pub fn title_case(text: &str) -> (res: String)
    ensures
        res@ == title_cased(text@, text@.len() as int),
{
    let n = text.unicode_len();
    let mut out = String::new();
    let mut start = true;
    let mut i: usize = 0;
    while i < n
        invariant
            n == text@.len(),
            i <= n,
            out@ == title_cased(text@, i as int),
            start == starts_word(text@, i as int),
        decreases n - i,
    {
        let c = text.get_char(i);
        let mapped = if start {
            upper_char(c)
        } else {
            lower_char(c)
        };
        append(&mut out, mapped.as_str());
        start = !is_alphanumeric(c);
        i = i + 1;
    }
    out
}

/// The decimal spelling of a signed number, with a leading `-` when negative.
pub open spec fn signed_decimal(v: i32) -> Seq<char> {
    if v < 0 {
        seq!['-'] + decimal((-v) as nat)
    } else {
        decimal(v as nat)
    }
}

fn signed_decimal_string(v: i32) -> (res: String)
    ensures
        res@ == signed_decimal(v),
{
    if v < 0 {
        let magnitude: u32 = if v == i32::MIN {
            2147483648u32
        } else {
            (-v) as u32
        };
        let mut s = String::new();
        push_char(&mut s, '-');
        let digits = decimal_string(magnitude);
        append(&mut s, digits.as_str());
        s
    } else {
        decimal_string(v as u32)
    }
}

/// What a run's `Character.Case` does to text: 0 keeps it, 1 uppercases it,
/// 2 title-cases it, and any other value is refused.
pub open spec fn spec_character_case(case: i32, text: Seq<char>) -> Result<Seq<char>, Seq<char>> {
    if case == 0 {
        Ok(text)
    } else if case == 1 {
        Ok(str_uppercase(text))
    } else if case == 2 {
        Ok(title_cased(text, text.len() as int))
    } else {
        Err("unresolvable Character.Case value "@ + signed_decimal(case))
    }
}

/// Applies the run's character case to `text`.
pub fn character_case(run: &TextRun, text: &str) -> (res: Result<String, String>)
    ensures
        match (res, spec_character_case(run.case, text@)) {
            (Ok(s), Ok(t)) => s@ == t,
            (Err(s), Err(t)) => s@ == t,
            _ => false,
        },
{
    if run.case == 0 {
        Ok(owned(text))
    } else if run.case == 1 {
        Ok(uppercase(text))
    } else if run.case == 2 {
        Ok(title_case(text))
    } else {
        let mut message = owned("unresolvable Character.Case value ");
        let digits = signed_decimal_string(run.case);
        append(&mut message, digits.as_str());
        Err(message)
    }
}

/// Matches a property entry by name.
pub open spec fn property_named(name: Seq<char>) -> spec_fn((String, Lookup)) -> bool {
    |e: (String, Lookup)| e.0@ == name
}

/// The cached value of a run property: present only when the property was
/// found and has a value.
pub open spec fn spec_property_value(properties: Seq<(String, Lookup)>, name: Seq<char>) -> Option<
    Seq<char>,
> {
    match crate::seqs::find_first(properties, property_named(name)) {
        Some(e) => match e.1 {
            Lookup::Found(cell) => match cell.cell.value {
                Some(v) => Some(v@),
                None => None,
            },
            _ => None,
        },
        None => None,
    }
}

/// The cached value of the named run property.
pub fn property_value<'a>(properties: &'a Vec<(String, Lookup)>, name: &str) -> (res: Option<
    &'a str,
>)
    ensures
        match res {
            Some(v) => spec_property_value(properties@, name@) == Some(v@),
            None => spec_property_value(properties@, name@) is None,
        },
{
    let ghost p = property_named(name@);
    let mut i: usize = 0;
    while i < properties.len()
        invariant
            i <= properties@.len(),
            p == property_named(name@),
            forall|j: int| 0 <= j < i ==> !p(#[trigger] properties@[j]),
        decreases properties.len() - i,
    {
        if str_eq(properties[i].0.as_str(), name) {
            proof {
                crate::seqs::lemma_find_first_skip(properties@, p, i as int);
                assert(properties@.skip(i as int)[0] == properties@[i as int]);
                assert(p(properties@.skip(i as int)[0]));
            }
            return match &properties[i].1 {
                Lookup::Found(cell) => match &cell.cell.value {
                    Some(v) => Some(v.as_str()),
                    None => None,
                },
                _ => None,
            };
        }
        i = i + 1;
    }
    proof {
        crate::seqs::lemma_find_first_index(properties@, p);
    }
    None
}

/// The renderer's running counters while it lays out a page.
#[derive(Debug)]
pub struct RenderState {
    pub count: usize,
    pub z_order: u32,
    pub text_bytes: usize,
    pub text_paragraphs: usize,
    pub text_lines: usize,
    pub text_runs: usize,
}

impl RenderState {
    /// Hands out the next paint order.
    pub fn next_z(&mut self) -> (res: u32)
        requires
            old(self).z_order < u32::MAX,
        ensures
            res == old(self).z_order,
            final(self).z_order == old(self).z_order + 1,
            final(self).count == old(self).count,
            final(self).text_bytes == old(self).text_bytes,
            final(self).text_paragraphs == old(self).text_paragraphs,
            final(self).text_lines == old(self).text_lines,
            final(self).text_runs == old(self).text_runs,
    {
        let z = self.z_order;
        self.z_order = self.z_order + 1;
        z
    }

    /// Counts one more shape on the page; refused once the count passes the
    /// shape budget (the count stays raised).
    pub fn charge_shape(&mut self, limits: &RenderLimits) -> (res: Result<(), RenderError>)
        requires
            old(self).count < usize::MAX,
        ensures
            final(self).count == old(self).count + 1,
            final(self).z_order == old(self).z_order,
            final(self).text_bytes == old(self).text_bytes,
            final(self).text_paragraphs == old(self).text_paragraphs,
            final(self).text_lines == old(self).text_lines,
            final(self).text_runs == old(self).text_runs,
            res is Ok <==> old(self).count + 1 <= limits.max_shapes,
            res matches Err(e) ==> (e matches RenderError::Budget(m) && m@ == "shapes"@),
    {
        self.count = self.count + 1;
        if self.count > limits.max_shapes {
            return Err(RenderError::Budget("shapes"));
        }
        Ok(())
    }

    /// Charges a shape's text, before it is laid out, against the text
    /// budgets: its bytes, its paragraphs and its runs, and refuses it when
    /// the page has no line or run left. Byte and paragraph refusals leave
    /// the counters as they were; once the bytes, paragraphs and runs are
    /// counted, running over the run budget is refused with them counted.
    pub fn charge_text(&mut self, limits: &RenderLimits, bytes: usize, paragraphs: usize, runs: usize) -> (res:
        Result<(), RenderError>)
        requires
            old(self).text_runs + runs <= usize::MAX,
        ensures
            final(self).count == old(self).count,
            final(self).z_order == old(self).z_order,
            final(self).text_lines == old(self).text_lines,
            old(self).text_bytes + bytes > limits.max_text_bytes ==> (res matches Err(
                RenderError::Budget(m),
            ) && m@ == "text bytes"@ && *final(self) == *old(self)),
            old(self).text_bytes + bytes <= limits.max_text_bytes && old(self).text_paragraphs
                + paragraphs > limits.max_text_paragraphs ==> (res matches Err(RenderError::Budget(m))
                && m@ == "text paragraphs"@ && *final(self) == *old(self)),
            old(self).text_bytes + bytes <= limits.max_text_bytes && old(self).text_paragraphs
                + paragraphs <= limits.max_text_paragraphs && old(self).text_lines
                >= limits.max_text_lines ==> (res matches Err(RenderError::Budget(m)) && m@
                == "text lines"@ && *final(self) == *old(self)),
            old(self).text_bytes + bytes <= limits.max_text_bytes && old(self).text_paragraphs
                + paragraphs <= limits.max_text_paragraphs && old(self).text_lines
                < limits.max_text_lines && old(self).text_runs >= limits.max_text_runs ==> (
            res matches Err(RenderError::Budget(m)) && m@ == "text runs"@ && *final(self)
                == *old(self)),
            old(self).text_bytes + bytes <= limits.max_text_bytes && old(self).text_paragraphs
                + paragraphs <= limits.max_text_paragraphs && old(self).text_lines
                < limits.max_text_lines && old(self).text_runs < limits.max_text_runs ==> {
                &&& final(self).text_bytes == old(self).text_bytes + bytes
                &&& final(self).text_paragraphs == old(self).text_paragraphs + paragraphs
                &&& final(self).text_runs == old(self).text_runs + runs
                &&& (res is Ok <==> final(self).text_runs <= limits.max_text_runs)
                &&& (res matches Err(e) ==> (e matches RenderError::Budget(m) && m@ == "text runs"@))
            },
    {
        let text_bytes = match self.text_bytes.checked_add(bytes) {
            Some(t) => t,
            None => return Err(RenderError::Budget("text bytes")),
        };
        if text_bytes > limits.max_text_bytes {
            return Err(RenderError::Budget("text bytes"));
        }
        let text_paragraphs = match self.text_paragraphs.checked_add(paragraphs) {
            Some(t) => t,
            None => return Err(RenderError::Budget("text paragraphs")),
        };
        if text_paragraphs > limits.max_text_paragraphs {
            return Err(RenderError::Budget("text paragraphs"));
        }
        if self.text_lines >= limits.max_text_lines {
            return Err(RenderError::Budget("text lines"));
        }
        if self.text_runs >= limits.max_text_runs {
            return Err(RenderError::Budget("text runs"));
        }
        self.text_bytes = text_bytes;
        self.text_paragraphs = text_paragraphs;
        self.text_runs = self.text_runs + runs;
        if self.text_runs > limits.max_text_runs {
            return Err(RenderError::Budget("text runs"));
        }
        Ok(())
    }

    /// Charges the lines a shape's text was laid out in against the line
    /// budget; a refusal leaves the counters as they were.
    pub fn charge_lines(&mut self, limits: &RenderLimits, lines: usize) -> (res: Result<(), RenderError>)
        ensures
            final(self).count == old(self).count,
            final(self).z_order == old(self).z_order,
            final(self).text_bytes == old(self).text_bytes,
            final(self).text_paragraphs == old(self).text_paragraphs,
            final(self).text_runs == old(self).text_runs,
            res is Ok <==> old(self).text_lines + lines <= limits.max_text_lines,
            res is Ok ==> final(self).text_lines == old(self).text_lines + lines,
            res matches Err(e) ==> (e matches RenderError::Budget(m) && m@ == "text lines"@
                && final(self).text_lines == old(self).text_lines),
    {
        let total = match self.text_lines.checked_add(lines) {
            Some(t) => t,
            None => return Err(RenderError::Budget("text lines")),
        };
        if total > limits.max_text_lines {
            return Err(RenderError::Budget("text lines"));
        }
        self.text_lines = total;
        Ok(())
    }
}

/// The renderer's budgets.
#[derive(Debug, Clone, Copy)]
pub struct RenderLimits {
    pub max_shapes: usize,
    pub max_text_bytes: usize,
    pub max_text_paragraphs: usize,
    pub max_text_lines: usize,
    pub max_text_runs: usize,
    pub max_fonts: usize,
    pub max_font_bytes: usize,
    pub max_display_list_bytes: usize,
}

impl Default for RenderLimits {
    fn default() -> (res: RenderLimits)
        ensures
            res.max_shapes == 100_000,
            res.max_text_bytes == 16 * 1024 * 1024,
            res.max_text_paragraphs == 100_000,
            res.max_text_lines == 1_000_000,
            res.max_text_runs == 1_000_000,
            res.max_fonts == 256,
            res.max_font_bytes == 64 * 1024 * 1024,
            res.max_display_list_bytes == 64 * 1024 * 1024,
    {
        RenderLimits {
            max_shapes: 100_000,
            max_text_bytes: 16 * 1024 * 1024,
            max_text_paragraphs: 100_000,
            max_text_lines: 1_000_000,
            max_text_runs: 1_000_000,
            max_fonts: 256,
            max_font_bytes: 64 * 1024 * 1024,
            max_display_list_bytes: 64 * 1024 * 1024,
        }
    }
}

/// Why a page could not be rendered.
#[derive(Debug)]
pub enum RenderError {
    MissingPage(String),
    Budget(&'static str),
    Font(String),
    Resolve(ResolveError),
    PageDimensions(String),
}

/// What a point of the canvas hits: a shape, or a caret position in a shape's text.
#[derive(Debug)]
pub enum HitTestResult {
    Shape { shape_id: String },
    Text { shape_id: String, position: u32 },
}

} // verus!
