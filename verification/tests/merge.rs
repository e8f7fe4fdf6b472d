use vsdx::edit_model::EditError;
use vsdx::merge::{chain_fault, normalize_order, order_removals, validate_parent_chains, ChainFault};

fn entry(id: &str, known: bool) -> Option<(String, bool)> {
    Some((id.to_owned(), known))
}

#[test]
fn a_merged_order_keeps_the_last_entry_of_each_shape() {
    let order = vec![entry("a", true), entry("b", true), None, entry("a", true), entry("b", true)];
    assert_eq!(order_removals(&order, false), vec![1, 0]);
}

#[test]
fn shape_orders_drop_entries_for_missing_shapes() {
    let order = vec![entry("a", true), entry("gone", false), entry("a", true), entry("gone", false)];
    assert_eq!(order_removals(&order, true), vec![3, 1, 0]);
    // A page order does not ask whether the shape still exists.
    assert_eq!(order_removals(&order, false), vec![1, 0]);
}

#[test]
fn an_order_without_duplicates_is_left_alone() {
    let order = vec![entry("a", true), entry("b", true), None];
    assert!(order_removals(&order, true).is_empty());
    assert!(order_removals(&vec![], true).is_empty());
}

#[test]
fn a_normalized_order_names_each_shape_once_in_last_place() {
    let order = vec![entry("a", true), entry("b", true), None, entry("a", true), entry("gone", false), entry("b", true)];
    assert_eq!(normalize_order(&order, true), vec![None, entry("a", true), entry("b", true)]);
    assert_eq!(
        normalize_order(&order, false),
        vec![None, entry("a", true), entry("gone", false), entry("b", true)]
    );
    let again = normalize_order(&order, true);
    assert_eq!(normalize_order(&again, true), again);
    assert!(normalize_order(&vec![], true).is_empty());
}

fn record(id: &str, parent: Option<&str>) -> (String, Option<String>) {
    (id.to_owned(), parent.map(str::to_owned))
}

#[test]
fn parent_chains_that_reach_a_root_are_sound() {
    let records = vec![record("c", Some("b")), record("b", Some("a")), record("a", None)];
    assert_eq!(chain_fault(&records, "c"), None);
    assert!(validate_parent_chains(&records).is_ok());
    // A parent without a record of its own ends the chain too.
    assert_eq!(chain_fault(&vec![record("x", Some("elsewhere"))], "x"), None);
}

#[test]
fn a_self_parent_is_a_cycle() {
    let records = vec![record("a", None), record("s", Some("s"))];
    assert_eq!(chain_fault(&records, "s"), Some(ChainFault::Cycle));
    let err = validate_parent_chains(&records).unwrap_err();
    assert!(matches!(err, EditError::InvalidState(m) if m == "shape s has a cyclic parent chain"));
}

#[test]
fn a_two_shape_cycle_is_reported_for_the_first_record() {
    let records = vec![record("p", Some("q")), record("q", Some("p"))];
    let err = validate_parent_chains(&records).unwrap_err();
    assert!(matches!(err, EditError::InvalidState(m) if m == "shape p has a cyclic parent chain"));
}

#[test]
fn chains_longer_than_the_nesting_limit_are_refused() {
    let mut records = vec![record("n0", None)];
    for i in 1..=256 {
        records.push((format!("n{i}"), Some(format!("n{}", i - 1))));
    }
    // 256 shapes in a chain are fine; the 257th goes beyond the limit.
    assert_eq!(chain_fault(&records, "n255"), None);
    assert_eq!(chain_fault(&records, "n256"), Some(ChainFault::TooDeep));
    let err = validate_parent_chains(&records).unwrap_err();
    assert!(matches!(err, EditError::InvalidState(m) if m == "shape nesting exceeds maximum depth"));
}
