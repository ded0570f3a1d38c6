use spark_dump::filter::FilterOpts;
use spark_dump::pattern::{compile_pat, CompiledRegex, FilterPat};
use spark_dump::window::WindowSelect;

fn opts(includes: Vec<FilterPat>, excludes: Vec<FilterPat>) -> FilterOpts {
    FilterOpts {
        search: None,
        thread: None,
        includes,
        excludes,
        depth: 16,
        top: 250,
        windows: WindowSelect::All,
        top_threads: 0,
    }
}

fn substr(s: &str) -> FilterPat {
    compile_pat(s, false).unwrap()
}

#[test]
fn substring_patterns_are_lower_cased_and_ignore_case() {
    let p = substr("TickTask");
    match &p {
        FilterPat::Substr(s) => assert_eq!(s, "ticktask"),
        FilterPat::Regex(_) => panic!("expected a substring"),
    }
    assert!(p.is_match("net.minecraft.server.TICKTASK.run"));
    assert!(!p.is_match("net.minecraft.server.Tick"));
}

#[test]
fn regex_patterns_use_the_regex_crate() {
    let p = compile_pat("^Server thread$", true).unwrap();
    assert!(p.is_match("Server thread"));
    assert!(!p.is_match("server thread"));
    assert!(!p.is_match("Server thread 2"));
    assert!(compile_pat("(", true).is_err());
    assert!(compile_pat("(", false).is_ok());
}

#[test]
fn compiled_regex_keeps_its_pattern() {
    let r = CompiledRegex::compile("a+b").unwrap();
    assert_eq!(r.as_str(), "a+b");
    assert!(r.is_match("xaab"));
    assert!(!r.is_match("a"));
}

#[test]
fn without_patterns_everything_passes() {
    let f = opts(vec![], vec![]);
    assert!(f.node_text_allowed("a.B", "run", None));
    assert!(f.node_text_allowed("", "", Some("plugin")));
}

#[test]
fn includes_need_one_match_among_class_method_source() {
    let f = opts(vec![substr("essentials"), substr("tick")], vec![]);
    assert!(f.node_text_allowed("com.earth2me.Essentials", "run", None));
    assert!(f.node_text_allowed("a.B", "doTick", None));
    assert!(f.node_text_allowed("a.B", "run", Some("EssentialsX")));
    assert!(!f.node_text_allowed("a.B", "run", Some("WorldEdit")));
}

#[test]
fn an_exclude_match_hides_whatever_the_includes() {
    let f = opts(vec![substr("tick")], vec![substr("native")]);
    assert!(!f.node_text_allowed("native", "tick", None));
    assert!(f.node_text_allowed("a.B", "tick", None));
    let f = opts(vec![], vec![substr("worldedit")]);
    assert!(!f.node_text_allowed("a.B", "run", Some("WorldEdit")));
}
