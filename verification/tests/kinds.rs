use spark_dump::cli::{
    content_kind_of, flat_mode_of, format_of, label_of, run_meta, run_raw, sources_mode_of, view_of, CommonOut,
    FlatModeArg, FormatArg, LabelArg, MetaArgs, RawArgs, SourcesModeArg, TypeArg, ViewArg,
};
use spark_dump::load::{detect_kind, kind_for_extension, ContentKind};
use spark_dump::render::{Format, LabelMode};
use spark_dump::views::{FlatMode, ProfileView, SourcesMode};

fn out() -> CommonOut {
    CommonOut { out: None, format: FormatArg::Text }
}

#[test]
fn the_extension_names_the_kind() {
    assert_eq!(detect_kind("dir/a.sparkprofile", None, &[]).unwrap(), ContentKind::Sampler);
    assert_eq!(detect_kind("dir/a.sparkheap", None, &[]).unwrap(), ContentKind::Heap);
    assert_eq!(detect_kind("A.SparkHealth", None, &[]).unwrap(), ContentKind::Health);
    assert_eq!(detect_kind("x.tar.sparkheap", None, &[]).unwrap(), ContentKind::Heap);
}

#[test]
fn other_inputs_are_samplers() {
    assert_eq!(detect_kind("aBcDeF", None, &[]).unwrap(), ContentKind::Sampler);
    assert_eq!(detect_kind("a.sparkheap/", None, &[]).unwrap(), ContentKind::Heap);
    assert_eq!(detect_kind(".sparkheap", None, &[]).unwrap(), ContentKind::Sampler);
    assert_eq!(detect_kind("dir/..", None, &[]).unwrap(), ContentKind::Sampler);
    assert_eq!(detect_kind("", None, &[]).unwrap(), ContentKind::Sampler);
}

#[test]
fn a_forced_kind_wins() {
    assert_eq!(detect_kind("a.sparkheap", Some(ContentKind::Health), &[]).unwrap(), ContentKind::Health);
}

#[test]
fn raw_takes_the_forced_type_else_the_extension() {
    let a = RawArgs { input: "x.sparkheap".into(), out: out(), content_type: None };
    assert_eq!(run_raw(&a, &[]).unwrap(), ContentKind::Heap);
    let a = RawArgs { input: "x.sparkheap".into(), out: out(), content_type: Some(TypeArg::Sampler) };
    assert_eq!(run_raw(&a, &[]).unwrap(), ContentKind::Sampler);
}

#[test]
fn meta_reads_the_extension() {
    let a = MetaArgs { input: "x.sparkhealth".into(), out: out() };
    assert_eq!(run_meta(&a, &[]).unwrap(), ContentKind::Health);
}

#[test]
fn option_values_map_one_to_one() {
    assert_eq!(format_of(&FormatArg::Json), Format::Json);
    assert_eq!(format_of(&FormatArg::Text), Format::Text);
    assert_eq!(view_of(&ViewArg::Summary), ProfileView::Summary);
    assert_eq!(view_of(&ViewArg::Flame), ProfileView::Flame);
    assert_eq!(flat_mode_of(&FlatModeArg::TotalTime), FlatMode::TotalTime);
    assert_eq!(sources_mode_of(&SourcesModeArg::Separate), SourcesMode::Separate);
    assert_eq!(label_of(&LabelArg::Absolute), LabelMode::Absolute);
    assert_eq!(content_kind_of(&TypeArg::Health), ContentKind::Health);
}

fn std_kind(p: &str) -> ContentKind {
    let ext = std::path::Path::new(p).extension().and_then(|e| e.to_str()).map(|e| e.to_ascii_lowercase());
    match ext.as_deref() {
        Some("sparkheap") => ContentKind::Heap,
        Some("sparkhealth") => ContentKind::Health,
        _ => ContentKind::Sampler,
    }
}

#[test]
fn the_kind_follows_the_platform_path_rules() {
    for p in [
        "a.sparkheap",
        "x.sparkheap\\.",
        "dir\\a.SPARKHEALTH",
        "C:.sparkheap",
        "C:x.sparkheap",
        "//server/x.sparkheap",
        "//server/share/x.sparkhealth",
        "a/./b.sparkheap/.",
        "a/b.sparkheap/..",
        "noext",
        "a.",
        "https://host/dump.sparkheap",
        "backup:2024.sparkheap",
        "http://bytebin.example/abc",
    ] {
        assert_eq!(detect_kind(p, None, &[]).unwrap(), std_kind(p), "{p}");
    }
}

#[test]
fn urls_are_read_by_their_extension() {
    assert_eq!(detect_kind("https://host/dump.sparkheap", None, &[]).unwrap(), ContentKind::Heap);
    assert_eq!(detect_kind("backup:2024.SPARKHEALTH", None, &[]).unwrap(), ContentKind::Health);
    assert_eq!(detect_kind("https://bytebin.lucko.me/abcDEF", None, &[]).unwrap(), ContentKind::Sampler);
}

#[test]
fn extensions_name_kinds() {
    assert_eq!(kind_for_extension(Some("SparkHeap")), ContentKind::Heap);
    assert_eq!(kind_for_extension(Some("sparkhealth")), ContentKind::Health);
    assert_eq!(kind_for_extension(Some("sparkprofile")), ContentKind::Sampler);
    assert_eq!(kind_for_extension(Some("")), ContentKind::Sampler);
    assert_eq!(kind_for_extension(None), ContentKind::Sampler);
}
