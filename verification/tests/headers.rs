use spark_dump::headers::{
    health_header, heap_header, more_threads_line, no_source_map_text, CpuNames, HealthHeader, OsNames, PlatformNames,
};

fn paper() -> PlatformNames {
    PlatformNames {
        brand: String::new(),
        name: "Paper".into(),
        version: "1.20.4-R0.1".into(),
        minecraft_version: "1.20.4".into(),
    }
}

#[test]
fn heap_header_lines() {
    assert_eq!(
        heap_header(&Some(paper()), 3),
        vec!["=== Spark Heap Summary ===", "Platform: Paper 1.20.4-R0.1", "Showing 3 entries", ""]
    );
    let mut p = paper();
    p.brand = "Purpur".into();
    assert_eq!(heap_header(&Some(p), 0)[1], "Platform: Purpur 1.20.4-R0.1");
    assert_eq!(heap_header(&None, 1), vec!["=== Spark Heap Summary ===", "Showing 1 entries", ""]);
}

#[test]
fn health_header_lines() {
    let h = HealthHeader {
        platform: Some(paper()),
        user: Some("alice".into()),
        generated_time: 1700,
        os: Some(OsNames { name: "Linux".into(), version: "6.1".into(), arch: "amd64".into() }),
        cpu: Some(CpuNames { threads: 8, model: "EPYC".into() }),
        sources: vec!["A".into(), "B".into()],
    };
    let lines = health_header(&Some(h), &Some("1m=20.00 5m=20.00 15m=20.00".into()), &None, 2);
    assert_eq!(
        lines,
        vec![
            "=== Spark Health Report ===",
            "Platform: Paper 1.20.4-R0.1 (1.20.4)",
            "User    : alice",
            "Generated: 1700",
            "TPS     : 1m=20.00 5m=20.00 15m=20.00",
            "OS      : Linux 6.1 (amd64)",
            "CPU     : 8 threads EPYC",
            "Sources : A, B",
            "Windows : 2",
        ]
    );
    assert_eq!(health_header(&None, &Some("x".into()), &None, 0), vec!["=== Spark Health Report ===", "Windows : 0"]);
}

#[test]
fn no_source_map_lists_the_installed_plugins() {
    let text = no_source_map_text(&vec!["A".into(), "B".into()]);
    let expected = [
        "No plugin/mod source map in this profile (plugin occupancy unavailable).\n",
        "Installed plugins/mods from metadata:\n",
        "  - A",
        "  - B",
    ]
    .join("\n")
        + "\n";
    assert_eq!(text, expected);
}

#[test]
fn more_threads_beyond_eight() {
    assert_eq!(more_threads_line(8), None);
    assert_eq!(more_threads_line(11), Some("  • … +3 more".to_string()));
}
