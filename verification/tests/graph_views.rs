use std::collections::HashSet;

use spark_dump::filter::FilterOpts;
use spark_dump::flat::flat_visits;
use spark_dump::graph::{fits_in_graph, Node, ProfileGraph, SamplerData, StackTraceNode, ThreadNode};
use spark_dump::pattern::compile_pat;
use spark_dump::views::{
    find_source_roots, flame_query, hide_carpet_node, idle_plugins, is_vis, passes_include_exclude,
    plugin_attributions, resolve_visibility, thread_allowed, SourcesMode,
};
use spark_dump::window::WindowSelect;

fn frame(class: &str, method: &str, desc: &str, line: i32, children: Vec<StackTraceNode<u32>>) -> StackTraceNode<u32> {
    StackTraceNode {
        time: 10,
        children,
        class_name: class.into(),
        method_name: method.into(),
        method_desc: desc.into(),
        line_number: line,
        times: vec![],
        children_refs: vec![],
    }
}

fn with_refs(mut f: StackTraceNode<u32>, refs: Vec<i32>) -> StackTraceNode<u32> {
    f.children_refs = refs;
    f
}

fn thread(name: &str, children: Vec<StackTraceNode<u32>>, refs: Vec<i32>) -> ThreadNode<u32> {
    ThreadNode { name: name.into(), time: 100, children, times: vec![60, 40], children_refs: refs }
}

fn pairs(v: &[(&str, &str)]) -> Vec<(String, String)> {
    v.iter().map(|(a, b)| (a.to_string(), b.to_string())).collect()
}

/// Thread 1 "Server thread": 2 a.A.run (3 b.B.tick:12), 4 native.
/// Thread 5 "Worker" (frames by reference): 6 x.X.loop (7 y.Y.idle), 8 x.X.loop (9 y.Y.idle).
/// Thread 10 "Rec": 11 r.R.f (12 r.R.f (13 z.Z.leaf)).
fn sample() -> SamplerData<u32> {
    let t1 = thread(
        "Server thread",
        vec![
            frame("a.A", "run", "()V", 0, vec![frame("b.B", "tick", "", 12, vec![])]),
            frame("native", "", "", 0, vec![]),
        ],
        vec![],
    );
    let table = vec![with_refs(frame("x.X", "loop", "()V", 0, vec![]), vec![1]), frame("y.Y", "idle", "()V", 0, vec![])];
    let t2 = thread("Worker", table, vec![0, 0, 5]);
    let t3 = thread(
        "Rec",
        vec![frame("r.R", "f", "()V", 0, vec![frame("r.R", "f", "()V", 0, vec![frame("z.Z", "leaf", "()V", 0, vec![])])])],
        vec![],
    );
    SamplerData {
        threads: vec![t1, t2, t3],
        class_sources: pairs(&[("a.A", "PluginA"), ("x.X", "java")]),
        method_sources: pairs(&[("a.A;run;()V", "minecraft")]),
        line_sources: pairs(&[("b.B;12", "PluginB")]),
        time_windows: vec![101, 102],
    }
}

fn graph() -> ProfileGraph<u32> {
    ProfileGraph::try_from_sampler(sample()).expect("the sample fits")
}

fn no_filter() -> FilterOpts {
    FilterOpts {
        search: None,
        thread: None,
        includes: vec![],
        excludes: vec![],
        depth: 16,
        top: 250,
        windows: WindowSelect::All,
        top_threads: 0,
    }
}

fn set(v: &[u32]) -> HashSet<u32> {
    v.iter().copied().collect()
}

#[test]
fn nodes_are_numbered_in_pre_order() {
    let g = graph();
    assert_eq!(g.node_count(), 13);
    let ids: Vec<u32> = g.threads().iter().map(|t| t.id).collect();
    assert_eq!(ids, vec![1, 5, 10]);
    assert_eq!(g.get(1).unwrap().children, vec![2, 4]);
    assert_eq!(g.get(2).unwrap().children, vec![3]);
    assert_eq!(g.get(5).unwrap().children, vec![6, 8]);
    assert_eq!(g.get(6).unwrap().children, vec![7]);
    assert_eq!(g.get(8).unwrap().children, vec![9]);
    assert!(g.get(0).is_none());
    assert!(g.get(14).is_none());
    assert!(g.get(1).unwrap().is_thread);
    assert_eq!(g.get(9).unwrap().class_name, "y.Y");
}

#[test]
fn times_fall_back_to_the_single_time() {
    let g = graph();
    assert_eq!(g.get(1).unwrap().times, vec![60, 40]);
    assert_eq!(g.get(2).unwrap().times, vec![10]);
}

#[test]
fn each_frame_has_the_node_it_hangs_from_as_parent() {
    let g = graph();
    assert!(g.parents_of(1).is_none());
    assert_eq!(g.parents_of(3).unwrap(), &vec![2]);
    assert_eq!(g.parents_of(4).unwrap(), &vec![1]);
    assert_eq!(g.parents_of(9).unwrap(), &vec![8]);
}

#[test]
fn a_reference_cycle_does_not_fit() {
    let table = vec![with_refs(frame("c.C", "loop", "", 0, vec![]), vec![0])];
    let data = SamplerData {
        threads: vec![thread("Cycle", table, vec![0])],
        class_sources: vec![],
        method_sources: vec![],
        line_sources: vec![],
        time_windows: vec![],
    };
    assert!(!fits_in_graph(&data));
    assert!(ProfileGraph::try_from_sampler(data).is_none());
    assert!(fits_in_graph(&sample()));
}

#[test]
fn sources_by_method_then_line_then_class_without_vanilla() {
    let g = graph();
    // the method lookup gives "minecraft", which is no plugin
    assert_eq!(g.source_of(2), None);
    assert_eq!(g.source_of(3), Some("PluginB"));
    assert_eq!(g.source_of(4), None);
    assert_eq!(g.source_of(6), None);
    assert_eq!(g.source_of(1), None);
    assert!(g.has_sources());
    assert_eq!(g.all_sources(), &vec!["PluginA".to_string(), "PluginB".into(), "java".into(), "minecraft".into()]);
    assert_eq!(g.time_windows(), &vec![101, 102]);
    assert_eq!(g.window_count(), 2);
}

#[test]
fn generated_event_executors_belong_to_no_plugin() {
    let mut data = sample();
    data.threads[0].children[1].class_name = "com.destroystokyo.paper.event.executor.asm.generated.Gen1".into();
    data.class_sources.push(("com.destroystokyo.paper.event.executor.asm.generated.Gen1".into(), "PluginC".into()));
    let g = ProfileGraph::try_from_sampler(data).unwrap();
    assert_eq!(g.source_of(4), None);
}

#[test]
fn labels_and_keys() {
    let g = graph();
    assert_eq!(g.get(1).unwrap().label(), "Server thread");
    assert_eq!(g.get(2).unwrap().label(), "a.A.run");
    assert_eq!(g.get(3).unwrap().label(), "b.B.tick:12");
    assert_eq!(g.get(4).unwrap().label(), "native");
    assert_eq!(g.get(2).unwrap().key(), "a.A\0run\0()V");
    let n = Node::<u32> {
        id: 1,
        is_thread: false,
        name: String::new(),
        class_name: "native".into(),
        method_name: "park".into(),
        method_desc: String::new(),
        line_number: 3,
        times: vec![],
        children: vec![],
    };
    assert_eq!(n.label(), "native park:3");
    let unknown = Node::<u32> { class_name: String::new(), method_name: String::new(), ..n };
    assert_eq!(unknown.label(), "(unknown)");
}

#[test]
fn without_filters_everything_is_visible() {
    let g = graph();
    let f = no_filter();
    let v = resolve_visibility(&g, &f, &HashSet::new());
    assert!(v.is_none());
    assert!(is_vis(&v, 7));
}

#[test]
fn search_shows_matches_with_ancestors_and_descendants() {
    let g = graph();
    let mut f = no_filter();
    f.search = Some("tick".into());
    let v = resolve_visibility(&g, &f, &HashSet::new());
    assert_eq!(v, Some(set(&[1, 2, 3])));
    f.search = Some("x.x".into());
    let v = resolve_visibility(&g, &f, &HashSet::new());
    assert_eq!(v, Some(set(&[5, 6, 7, 8, 9])));
    assert!(!is_vis(&v, 1));
}

#[test]
fn a_thread_filter_alone_keeps_whole_threads() {
    let g = graph();
    let mut f = no_filter();
    f.thread = Some(compile_pat("WORK", false).unwrap());
    assert!(thread_allowed(&g, 5, &f));
    assert!(!thread_allowed(&g, 1, &f));
    assert!(!thread_allowed(&g, 99, &f));
    let v = resolve_visibility(&g, &f, &HashSet::new());
    assert_eq!(v, Some(set(&[5, 6, 7, 8, 9])));
}

#[test]
fn include_and_exclude_apply_to_frames_not_threads() {
    let g = graph();
    let mut f = no_filter();
    f.excludes = vec![compile_pat("native", false).unwrap()];
    assert!(!passes_include_exclude(&g, 4, &f));
    assert!(passes_include_exclude(&g, 2, &f));
    assert!(passes_include_exclude(&g, 1, &f));
    assert!(!passes_include_exclude(&g, 99, &f));
    // the thread itself passes, so everything below it stays visible; the
    // views drop the excluded frame when they draw it
    let v = resolve_visibility(&g, &f, &HashSet::new()).unwrap();
    assert!(v.contains(&2) && v.contains(&4));
}

#[test]
fn source_roots_stop_at_the_first_attributed_frame() {
    let g = graph();
    let roots = find_source_roots(&g, 1, &None);
    assert_eq!(roots, vec![("PluginB".to_string(), 3)]);
    assert!(find_source_roots(&g, 5, &None).is_empty());
    assert!(find_source_roots(&g, 1, &Some(set(&[2, 3]))).is_empty());
}

#[test]
fn plugin_attributions_by_mode() {
    let g = graph();
    let f = no_filter();
    let merged = plugin_attributions(&g, &f, SourcesMode::Merge, &None, &vec![1, 5, 10]);
    assert_eq!(merged.len(), 1);
    assert_eq!(merged[0].source, "PluginB");
    assert_eq!(merged[0].node_id, 3);
    assert_eq!(merged[0].key, "b.B\0tick\0");
    assert_eq!(merged[0].label, "b.B.tick:12");
    let separate = plugin_attributions(&g, &f, SourcesMode::Separate, &None, &vec![1]);
    assert_eq!(separate[0].key, "3:b.B.tick:12");
    let mut f = no_filter();
    f.search = Some("nothing".into());
    assert!(plugin_attributions(&g, &f, SourcesMode::Merge, &None, &vec![1]).is_empty());
    f.search = Some("pluginb".into());
    assert_eq!(plugin_attributions(&g, &f, SourcesMode::Merge, &None, &vec![1]).len(), 1);
}

#[test]
fn carpet_run_loop_frames_are_hidden() {
    let n = Node::<u32> {
        id: 1,
        is_thread: false,
        name: String::new(),
        class_name: "net.minecraft.server.MinecraftServer".into(),
        method_name: "carpet$modifiedRunLoop".into(),
        method_desc: String::new(),
        line_number: 0,
        times: vec![],
        children: vec![],
    };
    assert!(hide_carpet_node(&n, "Carpet"));
    assert!(!hide_carpet_node(&n, "lithium"));
    let other = Node::<u32> { method_name: "tickServer".into(), ..n };
    assert!(!hide_carpet_node(&other, "carpet"));
}

#[test]
fn idle_plugins_ignore_case_and_dashes() {
    let installed = vec!["WorldEdit".to_string(), "Essentials-X".into(), "LuckPerms".into(), "Alpha".into()];
    let sampled = vec!["worldedit".to_string(), "EssentialsX".into()];
    assert_eq!(idle_plugins(&installed, &sampled), vec!["Alpha".to_string(), "LuckPerms".into()]);
}

#[test]
fn flat_walk_counts_children_before_their_frame() {
    let g = graph();
    let f = no_filter();
    let v = flat_visits(&g, 1, &f, &None);
    let ids: Vec<u32> = v.iter().map(|x| x.id).collect();
    assert_eq!(ids, vec![3, 2, 4]);
    assert_eq!(v[1].key, "a.A\0run\0()V");
    assert_eq!(v[1].counted_children, vec![3]);
    assert!(v[0].counted_children.is_empty());
}

#[test]
fn flat_walk_counts_a_recursion_once() {
    let g = graph();
    let f = no_filter();
    let v = flat_visits(&g, 10, &f, &None);
    let ids: Vec<u32> = v.iter().map(|x| x.id).collect();
    assert_eq!(ids, vec![13, 11]);
    assert_eq!(v[1].counted_children, vec![12]);
}

#[test]
fn flat_walk_passes_through_excluded_and_hidden_frames() {
    let g = graph();
    let mut f = no_filter();
    f.excludes = vec![compile_pat("a.a", false).unwrap()];
    let v = flat_visits(&g, 1, &f, &None);
    let ids: Vec<u32> = v.iter().map(|x| x.id).collect();
    assert_eq!(ids, vec![3, 4]);
    let f = no_filter();
    let v = flat_visits(&g, 1, &f, &Some(set(&[1, 2])));
    let ids: Vec<u32> = v.iter().map(|x| x.id).collect();
    assert_eq!(ids, vec![2]);
    assert!(v[0].counted_children.is_empty());
}

#[test]
fn the_flame_thread_query() {
    let mut f = no_filter();
    assert_eq!(flame_query(Some("Server"), &f), Some("server".to_string()));
    assert_eq!(flame_query(None, &f), None);
    f.thread = Some(compile_pat("Work", false).unwrap());
    assert_eq!(flame_query(None, &f), Some("work".to_string()));
    f.thread = Some(compile_pat("Work", true).unwrap());
    assert_eq!(flame_query(None, &f), None);
}

#[test]
fn parent_and_child_lists_agree() {
    let g = graph();
    for id in 1..=g.node_count() as u32 {
        let n = g.get(id).unwrap();
        for &c in &n.children {
            assert_eq!(g.parents_of(c).unwrap(), &vec![id]);
        }
        match g.parents_of(id) {
            None => assert!(n.is_thread),
            Some(ps) => {
                assert!(!n.is_thread);
                assert_eq!(ps.len(), 1);
                assert!(g.get(ps[0]).unwrap().children.contains(&id));
            }
        }
    }
}

#[test]
fn a_source_key_given_twice_does_not_fit() {
    let mut data = sample();
    data.class_sources.push(("a.A".into(), "Other".into()));
    assert!(!fits_in_graph(&data));
    assert!(ProfileGraph::try_from_sampler(data).is_none());
}

#[test]
fn every_frame_lies_under_one_thread() {
    let g = graph();
    let thread_ids: Vec<u32> = g.threads().iter().map(|t| t.id).collect();
    for id in 1..=g.node_count() as u32 {
        let n = g.get(id).unwrap();
        assert_eq!(n.id, id);
        assert!(!n.times.is_empty());
        if n.is_thread {
            assert!(thread_ids.contains(&id));
            continue;
        }
        let mut top = id;
        while let Some(ps) = g.parents_of(top) {
            top = ps[0];
        }
        assert!(thread_ids.contains(&top));
        let under: Vec<u32> = thread_ids
            .iter()
            .copied()
            .filter(|t| {
                let mut stack = vec![*t];
                let mut found = false;
                while let Some(x) = stack.pop() {
                    for &c in &g.get(x).unwrap().children {
                        found |= c == id;
                        stack.push(c);
                    }
                }
                found
            })
            .collect();
        assert_eq!(under, vec![top]);
    }
}
