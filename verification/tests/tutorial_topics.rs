use spark_dump::tutorial::{render, FILTERS, OVERVIEW, VIEWS};

#[test]
fn tutorial_defaults_to_overview() {
    assert_eq!(render(None), OVERVIEW);
}

#[test]
fn tutorial_topic_is_case_insensitive() {
    assert_eq!(render(Some("VIEWS")), VIEWS);
    assert_eq!(render(Some("Filters")), FILTERS);
}

#[test]
fn tutorial_unknown_topic_gives_overview() {
    assert_eq!(render(Some("nonsense")), OVERVIEW);
}
