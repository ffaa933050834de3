//! End-to-end checks of the registry, the index planner and builder, and
//! the query engine.
use enrichment::bridge::find_enrichment_table_records;
use enrichment::index::IndexHandle;
use enrichment::query::Condition;
use enrichment::registry::TableRegistry;
use enrichment::scalar::{Case, Scalar};
use enrichment::table::Row;
use enrichment::Error;

fn text(s: &str) -> Scalar {
    Scalar::Text(s.to_string())
}

fn row(cells: Vec<(&str, Scalar)>) -> Row {
    Row::new(cells.into_iter().map(|(k, v)| (k.to_string(), v)).collect())
}

fn person(id: i64, first: &str, last: &str) -> Row {
    row(vec![
        ("id", Scalar::Integer(id)),
        ("firstname", text(first)),
        ("surname", text(last)),
    ])
}

fn cond(field: &str, value: Scalar) -> Condition {
    Condition::new(field.to_string(), value)
}

fn loaded_registry() -> TableRegistry {
    let mut registry = TableRegistry::new();
    registry
        .register_table(
            "test".to_string(),
            vec!["id".to_string(), "firstname".to_string(), "surname".to_string()],
            vec![
                person(1, "Bob", "Smith"),
                person(2, "Fred", "Smith"),
                person(3, "Jane", "Doe"),
            ],
        )
        .unwrap();
    registry
}

#[test]
fn scenario_sensitive_match_keeps_order() {
    let mut registry = loaded_registry();
    registry.finish_load();
    let search = registry.as_readonly();
    let got = search
        .find_table_rows(
            &"test".to_string(),
            Case::Sensitive,
            &vec![cond("surname", text("Smith"))],
            None,
            None,
            None,
        )
        .unwrap();
    assert_eq!(got, vec![person(1, "Bob", "Smith"), person(2, "Fred", "Smith")]);
}

#[test]
fn scenario_insensitive_matches_and_sensitive_does_not() {
    let mut registry = loaded_registry();
    registry.finish_load();
    let search = registry.as_readonly();
    let conds = vec![cond("surname", text("smith"))];
    let relaxed = search
        .find_table_rows(&"test".to_string(), Case::Insensitive, &conds, None, None, None)
        .unwrap();
    assert_eq!(relaxed, vec![person(1, "Bob", "Smith"), person(2, "Fred", "Smith")]);
    let strict = search
        .find_table_rows(&"test".to_string(), Case::Sensitive, &conds, None, None, None)
        .unwrap();
    assert_eq!(strict, Vec::<Row>::new());
}

#[test]
fn scenario_select_projects_columns() {
    let mut registry = loaded_registry();
    registry.finish_load();
    let search = registry.as_readonly();
    let got = search
        .find_table_rows(
            &"test".to_string(),
            Case::Sensitive,
            &vec![cond("surname", text("Smith"))],
            Some(&vec!["firstname".to_string()]),
            None,
            None,
        )
        .unwrap();
    assert_eq!(
        got,
        vec![row(vec![("firstname", text("Bob"))]), row(vec![("firstname", text("Fred"))])]
    );
}

#[test]
fn scenario_missing_table_fails() {
    let mut registry = loaded_registry();
    registry.finish_load();
    let search = registry.as_readonly();
    let got = search.find_table_rows(
        &"missing".to_string(),
        Case::Sensitive,
        &vec![cond("surname", text("Smith"))],
        None,
        None,
        None,
    );
    assert_eq!(got, Err(Error::UnknownTable));
}

#[test]
fn find_table_row() {
    let mut registry = TableRegistry::new();
    registry
        .register_table(
            "dummy1".to_string(),
            vec!["field".to_string()],
            vec![row(vec![("field", text("value"))])],
        )
        .unwrap();
    registry.finish_load();
    let search = registry.as_readonly();
    let got = search
        .find_table_rows(
            &"dummy1".to_string(),
            Case::Sensitive,
            &vec![cond("field", text("value"))],
            None,
            None,
            None,
        )
        .unwrap();
    assert_eq!(got, vec![row(vec![("field", text("value"))])]);
    // A stale handle such as 999 is refused instead of silently rescanned.
    let result = search.find_table_rows(
        &"dummy1".to_string(),
        Case::Sensitive,
        &vec![cond("field", text("value"))],
        None,
        None,
        Some(IndexHandle(999)),
    );
    assert_eq!(result, Err(Error::IndexTableMismatch));
}

#[test]
fn request_index_deduplicates_in_any_field_order() {
    let mut registry = loaded_registry();
    let first = registry
        .request_index(
            &"test".to_string(),
            vec!["surname".to_string(), "firstname".to_string()],
            Case::Sensitive,
        )
        .unwrap();
    let second = registry
        .request_index(
            &"test".to_string(),
            vec!["firstname".to_string(), "surname".to_string()],
            Case::Sensitive,
        )
        .unwrap();
    assert_eq!(first, second);
    // A different case flag is a different index.
    let third = registry
        .request_index(
            &"test".to_string(),
            vec!["surname".to_string(), "firstname".to_string()],
            Case::Insensitive,
        )
        .unwrap();
    assert_ne!(first, third);
}

#[test]
fn indexed_query_answers_like_the_scan() {
    let mut registry = loaded_registry();
    let handle = registry
        .request_index(&"test".to_string(), vec!["surname".to_string()], Case::Sensitive)
        .unwrap();
    registry.finish_load();
    let search = registry.as_readonly();
    let conds = vec![cond("surname", text("Smith"))];
    let got = search
        .find_table_rows(&"test".to_string(), Case::Sensitive, &conds, None, None, Some(handle))
        .unwrap();
    assert_eq!(got, vec![person(1, "Bob", "Smith"), person(2, "Fred", "Smith")]);
    // A probe that hits no bucket is an empty result, not an error.
    let miss = search
        .find_table_rows(
            &"test".to_string(),
            Case::Sensitive,
            &vec![cond("surname", text("Stone"))],
            None,
            None,
            Some(handle),
        )
        .unwrap();
    assert_eq!(miss, Vec::<Row>::new());
}

#[test]
fn indexed_query_rejects_wrong_field_set() {
    let mut registry = loaded_registry();
    let handle = registry
        .request_index(&"test".to_string(), vec!["surname".to_string()], Case::Sensitive)
        .unwrap();
    registry.finish_load();
    let search = registry.as_readonly();
    let got = search.find_table_rows(
        &"test".to_string(),
        Case::Sensitive,
        &vec![cond("firstname", text("Bob"))],
        None,
        None,
        Some(handle),
    );
    assert_eq!(got, Err(Error::IndexTableMismatch));
}

#[test]
fn index_is_case_insensitive_when_requested() {
    let mut registry = loaded_registry();
    let handle = registry
        .request_index(&"test".to_string(), vec!["surname".to_string()], Case::Insensitive)
        .unwrap();
    registry.finish_load();
    let search = registry.as_readonly();
    let got = search
        .find_table_rows(
            &"test".to_string(),
            Case::Insensitive,
            &vec![cond("surname", text("SMITH"))],
            None,
            None,
            Some(handle),
        )
        .unwrap();
    assert_eq!(got, vec![person(1, "Bob", "Smith"), person(2, "Fred", "Smith")]);
}

#[test]
fn lifecycle_errors() {
    let mut registry = loaded_registry();
    // Unknown table at plan time.
    assert_eq!(
        registry.request_index(&"absent".to_string(), vec!["surname".to_string()], Case::Sensitive),
        Err(Error::UnknownTable)
    );
    // Duplicate registration.
    assert_eq!(
        registry.register_table("test".to_string(), vec!["id".to_string()], vec![]),
        Err(Error::DuplicateTable)
    );
    registry.finish_load();
    // Mutation after the freeze.
    assert_eq!(
        registry.register_table("late".to_string(), vec!["id".to_string()], vec![]),
        Err(Error::LifecycleError)
    );
    assert_eq!(
        registry.request_index(&"test".to_string(), vec!["surname".to_string()], Case::Sensitive),
        Err(Error::LifecycleError)
    );
    // Repeated finish_load stays a no-op.
    registry.finish_load();
    assert_eq!(registry.table_ids(), vec!["test".to_string()]);
}

#[test]
fn handle_taken_before_ready_fails_table_not_loaded() {
    let registry = loaded_registry();
    let early = registry.as_readonly();
    let got = early.find_table_rows(
        &"test".to_string(),
        Case::Sensitive,
        &vec![cond("surname", text("Smith"))],
        None,
        None,
        None,
    );
    assert_eq!(got, Err(Error::TableNotLoaded));
}

#[test]
fn wildcard_supplies_value_for_missing_column() {
    let mut registry = TableRegistry::new();
    registry
        .register_table(
            "people".to_string(),
            vec!["name".to_string(), "nick".to_string()],
            vec![
                row(vec![("name", text("Ada")), ("nick", text("countess"))]),
                row(vec![("name", text("Grace"))]),
            ],
        )
        .unwrap();
    registry.finish_load();
    let search = registry.as_readonly();
    let conds = vec![cond("nick", text("countess"))];
    // Without a wildcard the row lacking the column never matches.
    let bare = search
        .find_table_rows(&"people".to_string(), Case::Sensitive, &conds, None, None, None)
        .unwrap();
    assert_eq!(bare.len(), 1);
    // With a wildcard equal to the condition value it does.
    let with = search
        .find_table_rows(
            &"people".to_string(),
            Case::Sensitive,
            &conds,
            None,
            Some(&text("countess")),
            None,
        )
        .unwrap();
    assert_eq!(with.len(), 2);
    // A wildcard of a different value still fails the comparison.
    let other = search
        .find_table_rows(
            &"people".to_string(),
            Case::Sensitive,
            &conds,
            None,
            Some(&text("admiral")),
            None,
        )
        .unwrap();
    assert_eq!(other.len(), 1);
}

#[test]
fn kind_mismatch_fails_the_lookup() {
    let mut registry = loaded_registry();
    registry.finish_load();
    let search = registry.as_readonly();
    let got = search.find_table_rows(
        &"test".to_string(),
        Case::Sensitive,
        &vec![cond("id", text("1"))],
        None,
        None,
        None,
    );
    assert_eq!(got, Err(Error::ConditionTypeMismatch));
}

#[test]
fn select_outside_schema_fails_whole_call() {
    let mut registry = loaded_registry();
    registry.finish_load();
    let search = registry.as_readonly();
    let got = search.find_table_rows(
        &"test".to_string(),
        Case::Sensitive,
        &vec![cond("surname", text("Smith"))],
        Some(&vec!["firstname".to_string(), "age".to_string()]),
        None,
        None,
    );
    assert_eq!(got, Err(Error::SelectFieldMissing));
}

#[test]
fn other_scalar_kinds_compare_exactly() {
    let mut registry = TableRegistry::new();
    registry
        .register_table(
            "mixed".to_string(),
            vec!["f".to_string(), "b".to_string(), "n".to_string()],
            vec![row(vec![
                ("f", Scalar::Float(2.5f64.to_bits())),
                ("b", Scalar::Boolean(true)),
                ("n", Scalar::Null),
            ])],
        )
        .unwrap();
    registry.finish_load();
    let search = registry.as_readonly();
    let hit = search
        .find_table_rows(
            &"mixed".to_string(),
            Case::Sensitive,
            &vec![
                cond("f", Scalar::Float(2.5f64.to_bits())),
                cond("b", Scalar::Boolean(true)),
                cond("n", Scalar::Null),
            ],
            None,
            None,
            None,
        )
        .unwrap();
    assert_eq!(hit.len(), 1);
    let miss = search
        .find_table_rows(
            &"mixed".to_string(),
            Case::Sensitive,
            &vec![cond("f", Scalar::Float(3.5f64.to_bits()))],
            None,
            None,
            None,
        )
        .unwrap();
    assert_eq!(miss.len(), 0);
}

#[test]
fn empty_condition_list_matches_every_row() {
    let mut registry = loaded_registry();
    registry.finish_load();
    let search = registry.as_readonly();
    let got = search
        .find_table_rows(&"test".to_string(), Case::Sensitive, &vec![], None, None, None)
        .unwrap();
    assert_eq!(got.len(), 3);
}

#[test]
fn bridge_checks_the_selection_shape() {
    let mut registry = loaded_registry();
    registry.finish_load();
    let search = registry.as_readonly();
    let good = find_enrichment_table_records(
        Some(vec![text("firstname")]),
        &search,
        &"test".to_string(),
        Case::Sensitive,
        None,
        &vec![cond("surname", text("Smith"))],
        None,
    )
    .unwrap();
    assert_eq!(good, vec![row(vec![("firstname", text("Bob"))]), row(vec![("firstname", text("Fred"))])]);
    let bad = find_enrichment_table_records(
        Some(vec![Scalar::Integer(1)]),
        &search,
        &"test".to_string(),
        Case::Sensitive,
        None,
        &vec![cond("surname", text("Smith"))],
        None,
    );
    assert_eq!(bad, Err(Error::EvaluationError));
}

#[test]
fn handles_can_be_shared_and_cloned() {
    let mut registry = loaded_registry();
    registry.finish_load();
    let search = registry.as_readonly();
    let twin = search.clone();
    let conds = vec![cond("surname", text("Doe"))];
    let a = search
        .find_table_rows(&"test".to_string(), Case::Sensitive, &conds, None, None, None)
        .unwrap();
    let b = twin
        .find_table_rows(&"test".to_string(), Case::Sensitive, &conds, None, None, None)
        .unwrap();
    assert_eq!(a, b);
    assert_eq!(a, vec![person(3, "Jane", "Doe")]);
}
