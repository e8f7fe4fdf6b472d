use vsdx::render_text::{
    append_diagnostic, character_case, property_value, title_case, Diagnostic, DiagnosticCategory,
    RenderError, RenderLimits, RenderState, TextParagraph, TextRun,
};
use vsdx::resolve_model::{Lookup, Provenance, ResolvedCell};
use vsdx::sheet::Cell;

fn run_with(text: &str, case: i32) -> TextRun {
    TextRun {
        text: text.into(),
        family: "sans-serif".into(),
        bold: false,
        italic: false,
        underline: false,
        small_caps: false,
        superscript: false,
        subscript: false,
        case,
        color: "currentColor".into(),
        diagnostics: Vec::new(),
        diagnosed_face: None,
    }
}

#[test]
fn text_runs_append_structured_diagnostics_without_losing_integrity() {
    let mut run = TextRun {
        text: String::new(),
        family: "sans-serif".into(),
        bold: false,
        italic: false,
        underline: false,
        small_caps: false,
        superscript: false,
        subscript: false,
        case: 0,
        color: "currentColor".into(),
        diagnostics: Vec::new(),
        diagnosed_face: None,
    };
    append_diagnostic(&mut run, "missing-tab-position", "missing tab position");
    append_diagnostic(&mut run, "unresolvable-text-colour", "unresolvable colour");
    assert_eq!(
        run.diagnostics
            .iter()
            .map(|diagnostic| diagnostic.category)
            .collect::<Vec<_>>(),
        [DiagnosticCategory::Fidelity, DiagnosticCategory::Integrity]
    );
}

struct ExpectedTextRun {
    text: String,
    diagnostic_categories: Vec<DiagnosticCategory>,
}

fn accounting_oracle_fixture() -> (Vec<TextParagraph>, Vec<Vec<ExpectedTextRun>>) {
    let run = |text: &str, category| TextRun {
        text: text.into(),
        family: "sans-serif".into(),
        bold: false,
        italic: false,
        underline: false,
        small_caps: false,
        superscript: false,
        subscript: false,
        case: 0,
        color: "currentColor".into(),
        diagnostics: vec![Diagnostic::new(category, "fixture", "fixture")],
        diagnosed_face: None,
    };
    let paragraphs = vec![
        TextParagraph {
            runs: vec![
                run("first", DiagnosticCategory::Integrity),
                run("second", DiagnosticCategory::Fidelity),
            ],
        },
        TextParagraph {
            runs: vec![run("third", DiagnosticCategory::Integrity)],
        },
    ];
    let expected = paragraphs
        .iter()
        .map(|paragraph| {
            paragraph
                .runs
                .iter()
                .map(|run| ExpectedTextRun {
                    text: run.text.clone(),
                    diagnostic_categories: run.diagnostics.iter().map(|item| item.category).collect(),
                })
                .collect()
        })
        .collect();
    (paragraphs, expected)
}

fn assert_display_text_matches(
    id: &str,
    paragraphs: &[TextParagraph],
    expected: &[Vec<ExpectedTextRun>],
) -> Result<(), String> {
    if paragraphs.len() != expected.len() {
        return Err(format!("{id}: paragraph count"));
    }
    for (paragraph_index, (actual, expected)) in paragraphs.iter().zip(expected).enumerate() {
        if actual.runs.len() != expected.len() {
            return Err(format!("{id}: paragraph {paragraph_index} run count"));
        }
        for (run_index, (actual, expected)) in actual.runs.iter().zip(expected).enumerate() {
            if actual.text != expected.text {
                return Err(format!("{id}: paragraph {paragraph_index} run {run_index} text"));
            }
            let categories = actual
                .diagnostics
                .iter()
                .map(|item| item.category)
                .collect::<Vec<_>>();
            if categories != expected.diagnostic_categories {
                return Err(format!(
                    "{id}: paragraph {paragraph_index} run {run_index} diagnostics"
                ));
            }
        }
    }
    Ok(())
}

#[test]
fn accounting_oracle_accepts_the_unchanged_fixture() {
    let (paragraphs, expected) = accounting_oracle_fixture();
    assert!(assert_display_text_matches("fixture", &paragraphs, &expected).is_ok());
}

#[test]
fn accounting_oracle_rejects_a_dropped_run() {
    let (mut paragraphs, expected) = accounting_oracle_fixture();
    paragraphs[0].runs.pop();
    assert!(assert_display_text_matches("fixture", &paragraphs, &expected).is_err());
}

#[test]
fn accounting_oracle_rejects_a_dropped_paragraph() {
    let (mut paragraphs, expected) = accounting_oracle_fixture();
    paragraphs.pop();
    assert!(assert_display_text_matches("fixture", &paragraphs, &expected).is_err());
}

#[test]
fn accounting_oracle_rejects_reordered_runs() {
    let (mut paragraphs, expected) = accounting_oracle_fixture();
    paragraphs[0].runs.swap(0, 1);
    assert!(assert_display_text_matches("fixture", &paragraphs, &expected).is_err());
}

#[test]
fn accounting_oracle_rejects_a_swapped_diagnostic_category() {
    let (mut paragraphs, expected) = accounting_oracle_fixture();
    paragraphs[0].runs[0].diagnostics[0].category = DiagnosticCategory::Fidelity;
    assert!(assert_display_text_matches("fixture", &paragraphs, &expected).is_err());
}

#[test]
fn unknown_diagnostic_codes_fail_safe_as_integrity() {
    let diagnostic = Diagnostic::for_code("future-diagnostic", "detail");
    assert_eq!(diagnostic.category, DiagnosticCategory::Integrity);
    assert_eq!(diagnostic.code, "future-diagnostic");
    assert_eq!(diagnostic.detail, "detail");
    assert!(!diagnostic.category_defaulted);
}

#[test]
fn every_fidelity_code_is_classified_as_fidelity() {
    for code in [
        "missing-tab-position",
        "unresolvable-character-pos",
        "unresolvable-character-case",
        "font-substituted",
        "unregistered-font",
        "justify-fallback",
    ] {
        assert_eq!(Diagnostic::for_code(code, "x").category, DiagnosticCategory::Fidelity);
    }
    for code in ["unresolved-character-row", "unresolvable-text-colour", "unresolvable-field"] {
        assert_eq!(Diagnostic::for_code(code, "x").category, DiagnosticCategory::Integrity);
    }
}

#[test]
fn appended_diagnostics_keep_earlier_ones_and_the_text() {
    let mut run = run_with("abc", 0);
    append_diagnostic(&mut run, "unresolvable-field", "no Value cell");
    append_diagnostic(&mut run, "justify-fallback", "justify falls back to left");
    assert_eq!(run.text, "abc");
    assert_eq!(run.diagnostics.len(), 2);
    assert_eq!(run.diagnostics[0].code, "unresolvable-field");
    assert_eq!(run.diagnostics[0].detail, "no Value cell");
    assert_eq!(run.diagnostics[1].category, DiagnosticCategory::Fidelity);
}

#[test]
fn character_case_keeps_uppercases_and_title_cases() {
    assert_eq!(character_case(&run_with("", 0), "hello World").unwrap(), "hello World");
    assert_eq!(character_case(&run_with("", 1), "hello World").unwrap(), "HELLO WORLD");
    assert_eq!(character_case(&run_with("", 2), "hELLO wORLD").unwrap(), "Hello World");
}

#[test]
fn character_case_refuses_unknown_values() {
    assert_eq!(
        character_case(&run_with("", 9), "x").unwrap_err(),
        "unresolvable Character.Case value 9"
    );
    assert_eq!(
        character_case(&run_with("", -3), "x").unwrap_err(),
        "unresolvable Character.Case value -3"
    );
    assert_eq!(
        character_case(&run_with("", i32::MIN), "x").unwrap_err(),
        "unresolvable Character.Case value -2147483648"
    );
}

#[test]
fn title_case_starts_words_after_non_alphanumerics() {
    assert_eq!(title_case("the quick-brown fox"), "The Quick-Brown Fox");
    assert_eq!(title_case("x2y abc"), "X2y Abc");
    assert_eq!(title_case("ÉCOLE élève"), "École Élève");
    assert_eq!(title_case(""), "");
}

fn found(value: &str) -> Lookup {
    Lookup::Found(ResolvedCell {
        cell: Cell {
            name: "Size".into(),
            formula: None,
            value: Some(value.into()),
            unit: None,
            del: false,
        },
        provenance: Provenance::Local,
    })
}

#[test]
fn property_value_reads_found_cells_only() {
    let properties = vec![
        ("Size".to_string(), found("0.25")),
        ("Size".to_string(), found("9")),
        ("Color".to_string(), Lookup::Deleted),
        ("Font".to_string(), Lookup::Absent),
    ];
    assert_eq!(property_value(&properties, "Size"), Some("0.25"));
    assert_eq!(property_value(&properties, "Color"), None);
    assert_eq!(property_value(&properties, "Font"), None);
    assert_eq!(property_value(&properties, "Missing"), None);
}

#[test]
fn paint_order_counts_up() {
    let mut state = RenderState {
        count: 0,
        z_order: 7,
        text_bytes: 0,
        text_paragraphs: 0,
        text_lines: 0,
        text_runs: 0,
    };
    assert_eq!(state.next_z(), 7);
    assert_eq!(state.next_z(), 8);
    assert_eq!(state.z_order, 9);
}

fn fresh_state() -> RenderState {
    RenderState { count: 0, z_order: 0, text_bytes: 0, text_paragraphs: 0, text_lines: 0, text_runs: 0 }
}

fn budget(result: Result<(), RenderError>) -> &'static str {
    match result {
        Err(RenderError::Budget(which)) => which,
        other => panic!("unexpected {other:?}"),
    }
}

#[test]
fn every_text_budget_refuses_in_turn() {
    let limits = RenderLimits {
        max_shapes: 1,
        max_text_bytes: 10,
        max_text_paragraphs: 2,
        max_text_lines: 3,
        max_text_runs: 4,
        ..RenderLimits::default()
    };
    let mut state = fresh_state();
    assert!(state.charge_shape(&limits).is_ok());
    assert_eq!(budget(state.charge_shape(&limits)), "shapes");
    assert_eq!(state.count, 2);

    let mut state = fresh_state();
    assert!(state.charge_text(&limits, 6, 1, 2).is_ok());
    assert_eq!((state.text_bytes, state.text_paragraphs, state.text_runs), (6, 1, 2));
    assert_eq!(budget(state.charge_text(&limits, 5, 1, 1)), "text bytes");
    assert_eq!(budget(state.charge_text(&limits, 4, 2, 1)), "text paragraphs");
    assert_eq!(state.text_bytes, 6);
    assert_eq!(budget(state.charge_text(&limits, 1, 1, 3)), "text runs");
    assert_eq!((state.text_bytes, state.text_paragraphs, state.text_runs), (7, 2, 5));
    assert_eq!(budget(state.charge_text(&limits, 0, 0, 0)), "text runs");

    let mut state = fresh_state();
    assert!(state.charge_lines(&limits, 3).is_ok());
    assert_eq!(budget(state.charge_lines(&limits, 1)), "text lines");
    assert_eq!(state.text_lines, 3);
    assert_eq!(budget(state.charge_text(&limits, 0, 0, 0)), "text lines");
    assert_eq!(budget(state.charge_lines(&limits, usize::MAX)), "text lines");
}

#[test]
fn render_limits_default_budgets() {
    let limits = RenderLimits::default();
    assert_eq!(limits.max_shapes, 100_000);
    assert_eq!(limits.max_text_bytes, 16 * 1024 * 1024);
    assert_eq!(limits.max_fonts, 256);
    assert_eq!(limits.max_display_list_bytes, 64 * 1024 * 1024);
}
