use spark_dump::cli::{build_filter, resolve_windows, CliError, FilterArgs};
use spark_dump::graph::{ProfileGraph, SamplerData, ThreadNode};
use spark_dump::pattern::FilterPat;
use spark_dump::window::WindowSelect;

fn args() -> FilterArgs {
    FilterArgs {
        search: None,
        thread: None,
        includes: vec![],
        excludes: vec![],
        regex: false,
        depth: 16,
        top: 250,
        windows: None,
        window_range: None,
        top_threads: 0,
    }
}

fn graph(windows: Vec<i32>) -> ProfileGraph<u32> {
    let t = ThreadNode { name: "main".into(), time: 1, children: vec![], times: vec![], children_refs: vec![] };
    let data = SamplerData {
        threads: vec![t],
        class_sources: vec![],
        method_sources: vec![],
        line_sources: vec![],
        time_windows: windows,
    };
    ProfileGraph::try_from_sampler(data).unwrap()
}

#[test]
fn options_become_filters() {
    let mut a = args();
    a.search = Some("TickTask".into());
    a.thread = Some("Server".into());
    a.includes = vec!["Foo".into()];
    a.excludes = vec!["Bar".into(), "baz".into()];
    a.windows = Some("@1".into());
    a.depth = 3;
    a.top = 7;
    a.top_threads = 2;
    let f = build_filter(&a).unwrap();
    assert_eq!(f.search.as_deref(), Some("ticktask"));
    assert!(matches!(&f.thread, Some(FilterPat::Substr(s)) if s == "server"));
    assert_eq!(f.includes.len(), 1);
    assert_eq!(f.excludes.len(), 2);
    assert!(matches!(&f.excludes[0], FilterPat::Substr(s) if s == "bar"));
    assert!(matches!(&f.windows, WindowSelect::Indices(v) if v == &vec![1]));
    assert_eq!((f.depth, f.top, f.top_threads), (3, 7, 2));
}

#[test]
fn regex_options_compile_as_regexes() {
    let mut a = args();
    a.regex = true;
    a.thread = Some("^Server".into());
    let f = build_filter(&a).unwrap();
    assert!(matches!(&f.thread, Some(FilterPat::Regex(r)) if r.as_str() == "^Server"));
}

#[test]
fn a_bad_regex_is_refused_with_its_message() {
    let mut a = args();
    a.regex = true;
    a.excludes = vec!["ok".into(), "(".into()];
    match build_filter(&a) {
        Err(e @ CliError::Regex(_)) => {
            assert_eq!(e.message(), regex::Regex::new("(").unwrap_err().to_string());
        }
        other => panic!("unexpected {:?}", other.err()),
    }
    a.regex = false;
    assert!(build_filter(&a).is_ok());
}

#[test]
fn a_bad_window_selection_is_refused() {
    let mut a = args();
    a.window_range = Some("1".into());
    match build_filter(&a) {
        Err(e @ CliError::Window(_)) => assert_eq!(e.message(), "--window-range expects start,end"),
        other => panic!("unexpected {:?}", other.err()),
    }
}

#[test]
fn a_selection_of_no_window_is_refused() {
    let g = graph(vec![10, 11, 12]);
    let ok = resolve_windows(&g, &WindowSelect::Range(0, 1)).unwrap();
    assert_eq!(ok.len(), 2);
    match resolve_windows(&g, &WindowSelect::Indices(vec![9])) {
        Err(e @ CliError::NoWindows(3)) => assert_eq!(
            e.message(),
            "no time windows matched selection (profile has 3 window(s); try `spark-dump windows <file>`)"
        ),
        other => panic!("unexpected {:?}", other.err()),
    }
}
