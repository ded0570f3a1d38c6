use spark_dump::cli::{run_health, run_heap, CommonOut, FormatArg, HealthArgs, HeapArgs};
use spark_dump::render::{
    duration_ms, first_health_windows, heap_entries_shown, platform_class_name, plugin_list, sampler_engine_name,
    sampler_mode_name, sort_heap_entries, HeapEntry,
};

fn entry(order: i32, size: i64, class: &str) -> HeapEntry {
    HeapEntry { order, instances: order as i64 * 10, size, class_name: class.into() }
}

fn summary(v: &[HeapEntry]) -> Vec<(i32, i64)> {
    v.iter().map(|e| (e.order, e.size)).collect()
}

fn out() -> CommonOut {
    CommonOut { out: None, format: FormatArg::Text }
}

#[test]
fn code_names() {
    assert_eq!(platform_class_name(0), "SERVER");
    assert_eq!(platform_class_name(1), "CLIENT");
    assert_eq!(platform_class_name(2), "PROXY");
    assert_eq!(platform_class_name(3), "APPLICATION");
    assert_eq!(platform_class_name(9), "UNKNOWN");
    assert_eq!(sampler_mode_name(0), "EXECUTION");
    assert_eq!(sampler_mode_name(1), "ALLOCATION");
    assert_eq!(sampler_mode_name(-1), "UNKNOWN");
    assert_eq!(sampler_engine_name(0), "JAVA");
    assert_eq!(sampler_engine_name(1), "ASYNC");
    assert_eq!(sampler_engine_name(2), "UNKNOWN");
}

#[test]
fn duration_saturates() {
    assert_eq!(duration_ms(1000, 66000), 65000);
    assert_eq!(duration_ms(5, 3), -2);
    assert_eq!(duration_ms(i64::MIN, i64::MAX), i64::MAX);
    assert_eq!(duration_ms(i64::MAX, i64::MIN), i64::MIN);
    assert_eq!(duration_ms(-5, i64::MAX), 5i64.saturating_add(i64::MAX));
}

#[test]
fn plugins_are_sorted() {
    let v = plugin_list(vec!["b".into(), "B".into(), "a".into(), "b".into()]);
    assert_eq!(v, vec!["B".to_string(), "a".into(), "b".into(), "b".into()]);
}

#[test]
fn heap_sort_is_largest_first_and_stable() {
    let v = vec![entry(1, 10, "A"), entry(2, 30, "B"), entry(3, 10, "C"), entry(4, 30, "D"), entry(5, 20, "E")];
    assert_eq!(summary(&sort_heap_entries(v)), vec![(2, 30), (4, 30), (5, 20), (1, 10), (3, 10)]);
}

#[test]
fn heap_search_and_top() {
    let v = vec![entry(1, 10, "java.lang.String"), entry(2, 30, "net.Entity"), entry(3, 20, "net.ENTITYPlayer")];
    let shown = heap_entries_shown(v, Some("entity"), 1);
    assert_eq!(summary(&shown), vec![(2, 30)]);
    let v = vec![entry(1, 10, "java.lang.String"), entry(2, 30, "net.Entity"), entry(3, 20, "net.ENTITYPlayer")];
    assert_eq!(summary(&heap_entries_shown(v, Some("Entity"), 100)), vec![(2, 30), (3, 20)]);
    let v = vec![entry(1, 10, "a")];
    assert!(heap_entries_shown(v, None, 0).is_empty());
}

#[test]
fn run_heap_uses_search_and_top() {
    let args = HeapArgs { input: "x.sparkheap".into(), out: out(), search: Some("STRING".into()), top: 5 };
    let v = vec![entry(1, 10, "java.lang.String"), entry(2, 30, "net.Entity"), entry(3, 40, "StringBuilder")];
    assert_eq!(summary(&run_heap(&args, v)), vec![(3, 40), (1, 10)]);
}

#[test]
fn health_shows_the_first_twenty_windows_by_id() {
    let ids: Vec<i32> = (0..30).rev().collect();
    assert_eq!(first_health_windows(ids), (0..20).collect::<Vec<i32>>());
    assert_eq!(first_health_windows(vec![5, -1, 3]), vec![-1, 3, 5]);
    let args = HealthArgs { input: "x.sparkhealth".into(), out: out() };
    assert_eq!(run_health(&args, vec![9, 8]), vec![8, 9]);
}
