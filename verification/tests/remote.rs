use vsdx::edit_model::EditError;
use vsdx::remote::{
    check_identities, check_kept_formulas, check_new_shapes, deletions_to_authorize, removed_shape_ids,
    FormulaGuard, ShapePlace,
};

fn place(page: Option<&str>, parent: Option<&str>, origin: &str) -> ShapePlace {
    ShapePlace {
        page_id: page.map(str::to_owned),
        parent_id: parent.map(str::to_owned),
        origin: Some(origin.to_owned()),
    }
}

fn message(result: Result<(), EditError>) -> String {
    match result {
        Err(EditError::InvalidState(m)) => m,
        other => panic!("unexpected {other:?}"),
    }
}

fn shapes() -> Vec<(String, ShapePlace)> {
    vec![
        ("a".into(), place(Some("page:1"), None, "original")),
        ("a:shape:2".into(), place(Some("page:1"), Some("a"), "original")),
        ("b".into(), place(None, None, "original")),
        ("c".into(), place(Some("page:2"), None, "original")),
    ]
}

#[test]
fn removed_shapes_are_those_no_longer_recorded() {
    let after = vec!["c".to_string(), "a:shape:2".to_string()];
    assert_eq!(removed_shape_ids(&shapes(), &after), vec!["a".to_string(), "b".to_string()]);
}

#[test]
fn removals_are_authorized_on_their_page_unless_their_parent_goes_too() {
    let removed = vec!["a".to_string(), "a:shape:2".to_string(), "c".to_string()];
    assert_eq!(
        deletions_to_authorize(&shapes(), &removed).unwrap(),
        vec![("page:1".to_string(), "a".to_string()), ("page:2".to_string(), "c".to_string())]
    );
    let pageless = vec!["c".to_string(), "b".to_string()];
    match deletions_to_authorize(&shapes(), &pageless) {
        Err(EditError::InvalidState(m)) => {
            assert_eq!(m, "remote update deletes shape b with no page to authorize its removal")
        }
        other => panic!("unexpected {other:?}"),
    }
}

#[test]
fn new_shapes_need_session_provenance() {
    let mut after = shapes();
    after.push(("n".into(), place(Some("page:1"), None, "added")));
    assert!(check_new_shapes(&shapes(), &after).is_ok());
    after.push(("x".into(), place(Some("page:1"), None, "original")));
    assert_eq!(
        message(check_new_shapes(&shapes(), &after)),
        "remote update adds shape x without session provenance"
    );
}

#[test]
fn recorded_identities_may_not_change() {
    let before = shapes();
    let mut after = shapes();
    assert!(check_identities(&before, &after, &vec![true; 4]).is_ok());
    assert_eq!(
        message(check_identities(&before, &after, &vec![true, true, false, true])),
        "remote update changes the identity of shape b"
    );
    after[1].1.parent_id = None;
    assert_eq!(
        message(check_identities(&before, &after, &vec![true; 4])),
        "remote update changes the identity of shape a:shape:2"
    );
    after.remove(1);
    assert!(check_identities(&before, &after, &vec![true; 4]).is_ok());
}

#[test]
fn guarded_formulas_survive_unless_their_shape_is_removed() {
    let before = vec![("a/PinX".to_string(), "1".to_string()), ("c/PinY".to_string(), "2".to_string())];
    let removed = vec!["a".to_string()];
    assert!(check_kept_formulas(&before, &before, &removed, FormulaGuard::Baseline).is_ok());
    let dropped_a = vec![("c/PinY".to_string(), "2".to_string())];
    assert!(check_kept_formulas(&before, &dropped_a, &removed, FormulaGuard::Baseline).is_ok());
    assert_eq!(
        message(check_kept_formulas(&before, &dropped_a, &vec![], FormulaGuard::Baseline)),
        "remote update removes the save baseline of a/PinX while its shape survives"
    );
    let changed = vec![("a/PinX".to_string(), "1".to_string()), ("c/PinY".to_string(), "3".to_string())];
    assert_eq!(
        message(check_kept_formulas(&before, &changed, &removed, FormulaGuard::Protected)),
        "remote update changes protected cell c/PinY"
    );
    assert_eq!(
        message(check_kept_formulas(&before, &changed, &removed, FormulaGuard::Baseline)),
        "remote update changes the save baseline of c/PinY"
    );
    assert_eq!(
        message(check_kept_formulas(&before, &vec![], &vec![], FormulaGuard::Protected)),
        "remote update removes protected cell a/PinX while its shape survives"
    );
}
