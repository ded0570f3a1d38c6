use spark_dump::meta::{debug_ints, format_meta_text, join_lines, join_strings, push_interval, MetaFloatText, MetaSnapshot};

fn meta() -> MetaSnapshot<f64> {
    MetaSnapshot {
        platform_brand: String::new(),
        platform_name: "Paper".into(),
        platform_version: "1.20.4-R0.1".into(),
        minecraft_version: "1.20.4".into(),
        spark_version: 3,
        platform_type: "SERVER".into(),
        user: String::new(),
        comment: String::new(),
        start_time_ms: 1000,
        end_time_ms: 66000,
        duration_ms: 65000,
        interval_us: 4000,
        sampler_mode: "EXECUTION".into(),
        sampler_engine: "ASYNC".into(),
        sampler_engine_version: "v3".into(),
        tps_1m: None,
        tps_5m: None,
        tps_15m: None,
        tps_target: None,
        mspt_mean: None,
        mspt_median: None,
        mspt_p95: None,
        mspt_max: None,
        players: None,
        heap_used: None,
        heap_committed: None,
        os: String::new(),
        arch: String::new(),
        cpu_threads: None,
        cpu_model: String::new(),
        cpu_process_1m: None,
        cpu_system_1m: None,
        java: String::new(),
        plugins_mods: vec![],
        time_window_ids: vec![],
    }
}

fn floats() -> MetaFloatText {
    MetaFloatText {
        duration: "1m 5.0s".into(),
        tps: "1m=19.99  5m=20.00  15m=20.00".into(),
        mspt: "mean=1.000 median=1.000 p95=2.000 max=3.000".into(),
        heap: "1.00 GiB / 2.00 GiB".into(),
        cpu_usage: "process 1m=5.0%  system 1m=10.0%".into(),
    }
}

#[test]
fn the_fixed_lines() {
    let text = format_meta_text(&meta(), &floats());
    assert_eq!(
        text,
        "=== Spark Sampler Profile ===\n\
         Platform     : Paper (SERVER)\n\
         Version      : 1.20.4-R0.1\n\
         Spark        : v3\n\
         Engine       : ASYNC v3\n\
         Mode         : EXECUTION\n\
         Interval     : 4.000 ms\n\
         Duration     : 1m 5.0s\n"
    );
}

#[test]
fn every_optional_line() {
    let mut m = meta();
    m.platform_brand = "Purpur".into();
    m.minecraft_version = "1.21".into();
    m.user = "alice".into();
    m.comment = "lag".into();
    m.tps_1m = Some(19.99);
    m.tps_5m = Some(20.0);
    m.tps_15m = Some(20.0);
    m.mspt_mean = Some(1.0);
    m.mspt_median = Some(1.0);
    m.mspt_p95 = Some(2.0);
    m.mspt_max = Some(3.0);
    m.players = Some(12);
    m.heap_used = Some(1 << 30);
    m.heap_committed = Some(2 << 30);
    m.os = "Linux 6.1".into();
    m.arch = "amd64".into();
    m.cpu_threads = Some(8);
    m.cpu_model = "EPYC".into();
    m.java = "Eclipse 21".into();
    m.plugins_mods = (1..=13).map(|i| format!("P{i:02}")).collect();
    m.time_window_ids = vec![5, -6];
    let text = format_meta_text(&m, &floats());
    let expected = [
        "=== Spark Sampler Profile ===",
        "Platform     : Purpur (SERVER)",
        "Version      : 1.20.4-R0.1  MC 1.21",
        "Spark        : v3",
        "Engine       : ASYNC v3",
        "Mode         : EXECUTION",
        "Interval     : 4.000 ms",
        "Duration     : 1m 5.0s",
        "Uploaded by  : alice",
        "Comment      : lag",
        "TPS          : 1m=19.99  5m=20.00  15m=20.00  target=20",
        "MSPT (1m)    : mean=1.000 median=1.000 p95=2.000 max=3.000",
        "Players      : 12",
        "Heap         : 1.00 GiB / 2.00 GiB",
        "OS           : Linux 6.1 (amd64)",
        "CPU          : 8 threads | process 1m=5.0%  system 1m=10.0%",
        "CPU model    : EPYC",
        "Java         : Eclipse 21",
        "Plugins/Mods : 13 (P01, P02, P03, P04, P05, P06, P07, P08, P09, P10, P11, P12)",
        "Windows      : 2 [5, -6]",
    ]
    .join("\n")
        + "\n";
    assert_eq!(text, expected);
}

#[test]
fn partial_statistics_leave_their_line_out() {
    let mut m = meta();
    m.tps_1m = Some(20.0);
    m.tps_target = Some(30);
    m.heap_used = Some(1);
    m.time_window_ids = vec![1];
    let text = format_meta_text(&m, &floats());
    assert!(!text.contains("TPS"));
    assert!(!text.contains("Heap"));
    assert!(!text.contains("Windows"));
    m.tps_5m = Some(20.0);
    m.tps_15m = Some(20.0);
    let text = format_meta_text(&m, &floats());
    assert!(text.contains("  target=30\n"));
}

#[test]
fn interval_matches_three_decimal_float_formatting() {
    for us in [0, 1, -1, 5, 50, 500, 999, 1000, 1001, 4000, 12345, -12345, 999_999, i32::MAX, i32::MIN] {
        let mut s = String::new();
        push_interval(&mut s, us);
        assert_eq!(s, format!("{:.3}", us as f64 / 1000.0), "interval {us}");
    }
}

#[test]
fn integer_lists_print_as_debug() {
    for v in [vec![], vec![7], vec![1, -2, 3], vec![i32::MIN, i32::MAX]] {
        assert_eq!(debug_ints(&v), format!("{v:?}"));
    }
}

#[test]
fn joining() {
    let v: Vec<String> = vec!["a".into(), "b".into(), "c".into()];
    assert_eq!(join_strings(&v, ", "), "a, b, c");
    assert_eq!(join_strings(&vec![], ", "), "");
    assert_eq!(join_lines(&v), v.join("\n") + "\n");
    assert_eq!(join_lines(&vec![]), "");
}

#[test]
fn names_joined_by_a_space() {
    assert_eq!(spark_dump::meta::space_joined("Linux", "6.1"), "Linux 6.1");
    assert_eq!(spark_dump::meta::space_joined("", ""), " ");
}
