//! What the search, the flat view and the plugin report keep, stated over
//! the graph's nodes, names and sources.
use vstd::prelude::*;
use crate::filter::{FilterOpts, node_texts, pat_models, text_allowed};
use crate::flat::{children_flat_walk, counted_children, flat_walk, FlatVisitView};
use crate::graph::ProfileGraph;
use crate::text::{contains, lower};
use crate::views::{
    AttributionView, SourcesMode, attribution_kept, attribution_of, carpet_hidden, child_step,
    children_source_roots, in_subtree, is_ancestor, is_child, is_child_path, is_descendant,
    lemma_source_roots_exist, root_attributions, source_roots, string_opt_view, thread_attributions,
    filters_text, loose_name, plugin_sampled, thread_passes, unsampled, visible_in, visible_nodes,
};
use crate::pattern::pat_matches;

verus! {

/// The search text matches a frame when its class, its method or its
/// plugin or mod contains it, ASCII case-insensitively.
pub open spec fn search_hits_frame<T>(g: &ProfileGraph<T>, q: Seq<char>, m: u32) -> bool {
    let n = g.node(m)->0;
    ||| contains(lower(n.class_name), q)
    ||| contains(lower(n.method_name), q)
    ||| (g.source(m) matches Some(s) && contains(lower(s), q))
}

/// A search with no include or exclude patterns shows, in each thread that
/// passes the thread filter, every frame whose class, method or plugin/mod
/// contains the (lower-cased) search text, with all its ancestors and
/// descendants.
pub proof fn law_search_finds_class_method_or_source<T>(
    g: &ProfileGraph<T>,
    f: &FilterOpts,
    q: Seq<char>,
    k: int,
    m: u32,
    x: u32,
)
    requires
        string_opt_view(f.search) == Some(q),
        f.includes@.len() == 0,
        f.excludes@.len() == 0,
        0 <= k < g.thread_seq().len(),
        thread_passes(g, f, g.thread_seq()[k].id),
        in_subtree(g, g.thread_seq()[k].id, m),
        g.node(m) is Some,
        !g.node(m)->0.is_thread,
        search_hits_frame(g, q, m),
        x == m || is_ancestor(g, m, x) || is_descendant(g, m, x),
    ensures
        visible_nodes(g, f) matches Some(v) && v.contains(x),
{
    let n = g.node(m)->0;
    let texts = node_texts(n.class_name, n.method_name, g.source(m));
    assert(!crate::filter::any_matches(pat_models(f.excludes@), texts));
    assert(pat_models(f.includes@).len() == 0);
    assert(text_allowed(pat_models(f.includes@), pat_models(f.excludes@), texts));
    assert(crate::views::node_matches(g, f, m));
    crate::laws::law_search_shows_match_with_family(g, f, k, m, x);
}

/// The same for a thread, by its name.
pub proof fn law_search_finds_thread_by_name<T>(g: &ProfileGraph<T>, f: &FilterOpts, q: Seq<char>, k: int, x: u32)
    requires
        string_opt_view(f.search) == Some(q),
        f.includes@.len() == 0,
        f.excludes@.len() == 0,
        0 <= k < g.thread_seq().len(),
        thread_passes(g, f, g.thread_seq()[k].id),
        contains(lower(g.node(g.thread_seq()[k].id)->0.name), q),
        g.node(g.thread_seq()[k].id)->0.is_thread,
        x == g.thread_seq()[k].id || is_descendant(g, g.thread_seq()[k].id, x),
    ensures
        visible_nodes(g, f) matches Some(v) && v.contains(x),
{
    let t = g.thread_seq()[k].id;
    let n = g.node(t)->0;
    let texts = node_texts(n.name, Seq::empty(), g.source(t));
    assert(!crate::filter::any_matches(pat_models(f.excludes@), texts));
    assert(text_allowed(pat_models(f.includes@), pat_models(f.excludes@), texts));
    assert(crate::views::node_matches(g, f, t));
    crate::laws::law_search_shows_match_with_family(g, f, k, t, x);
}

/// A thread that the thread filter lets through: it is a node, and its
/// name matches the `--thread` pattern when one is given.
pub open spec fn thread_let_through<T>(g: &ProfileGraph<T>, f: &FilterOpts, t: u32) -> bool {
    g.node(t) is Some && (f.thread matches Some(p) ==> pat_matches(p@, g.node(t)->0.name))
}

/// A node the text filters pick: the search text (when given) is in a
/// thread's name, or in a frame's class, method or plugin/mod; and its
/// texts (name or class and method, with its plugin/mod) pass `--include`
/// and `--exclude`.
pub open spec fn text_match<T>(g: &ProfileGraph<T>, f: &FilterOpts, m: u32) -> bool {
    let n = g.node(m)->0;
    &&& g.node(m) is Some
    &&& (string_opt_view(f.search) matches Some(q) ==> if n.is_thread {
        contains(lower(n.name), q)
    } else {
        search_hits_frame(g, q, m)
    })
    &&& text_allowed(
        pat_models(f.includes@),
        pat_models(f.excludes@),
        if n.is_thread {
            node_texts(n.name, Seq::empty(), g.source(m))
        } else {
            node_texts(n.class_name, n.method_name, g.source(m))
        },
    )
}

/// With a search, include or exclude filter, a node that the text filters
/// pick, at or below a thread that the thread filter lets through, is
/// shown with everything above and below it.
pub proof fn law_text_match_shown_with_family<T>(g: &ProfileGraph<T>, f: &FilterOpts, k: int, m: u32, x: u32)
    requires
        filters_text(f),
        0 <= k < g.thread_seq().len(),
        thread_let_through(g, f, g.thread_seq()[k].id),
        in_subtree(g, g.thread_seq()[k].id, m),
        text_match(g, f, m),
        x == m || is_ancestor(g, m, x) || is_descendant(g, m, x),
    ensures
        visible_nodes(g, f) matches Some(v) && v.contains(x),
{
    assert(thread_passes(g, f, g.thread_seq()[k].id));
    assert(crate::views::node_matches(g, f, m));
    crate::laws::law_search_shows_match_with_family(g, f, k, m, x);
}

/// With a search, include or exclude filter, nothing else is shown: every
/// visible node is a node that the text filters pick, at or below a thread
/// that the thread filter lets through, or lies above or below such a
/// node.
pub proof fn law_shown_only_near_text_matches<T>(g: &ProfileGraph<T>, f: &FilterOpts, x: u32)
    requires
        filters_text(f),
        visible_nodes(g, f) matches Some(v) && v.contains(x),
    ensures
        exists|k: int, m: u32|
            #![trigger g.thread_seq()[k], text_match(g, f, m)]
            0 <= k < g.thread_seq().len() && thread_let_through(g, f, g.thread_seq()[k].id) && in_subtree(
                g,
                g.thread_seq()[k].id,
                m,
            ) && text_match(g, f, m) && (x == m || is_ancestor(g, m, x) || is_descendant(g, m, x)),
{
    crate::laws::law_search_shows_only_families(g, f, x);
    let (k, m) = choose|k: int, m: u32|
        #![trigger g.thread_seq()[k], crate::views::node_matches(g, f, m)]
        0 <= k < g.thread_seq().len() && thread_passes(g, f, g.thread_seq()[k].id) && in_subtree(
            g,
            g.thread_seq()[k].id,
            m,
        ) && crate::views::node_matches(g, f, m) && (x == m || is_descendant(g, m, x) || is_ancestor(g, m, x));
    assert(thread_let_through(g, f, g.thread_seq()[k].id));
    assert(text_match(g, f, m));
}

// ---------------------------------------------------------------------------
// the flat view

/// A node passes `--include` / `--exclude`: it is a thread, or its class,
/// method and plugin/mod pass the patterns.
pub open spec fn passes_patterns<T>(g: &ProfileGraph<T>, f: &FilterOpts, c: u32) -> bool {
    g.node(c) is Some && (g.node(c)->0.is_thread || text_allowed(
        pat_models(f.includes@),
        pat_models(f.excludes@),
        node_texts(g.node(c)->0.class_name, g.node(c)->0.method_name, g.source(c)),
    ))
}

pub proof fn lemma_filter_member<A>(s: Seq<A>, pred: spec_fn(A) -> bool, c: A)
    ensures
        s.filter(pred).contains(c) <==> (s.contains(c) && pred(c)),
    decreases s.len(),
{
    reveal_with_fuel(Seq::filter, 1);
    if s.len() > 0 {
        lemma_filter_member(s.drop_last(), pred, c);
        let r = s.drop_last().filter(pred);
        if pred(s.last()) {
            assert(s.filter(pred) == r.push(s.last()));
        } else {
            assert(s.filter(pred) == r);
        }
        if s.contains(c) && !s.drop_last().contains(c) {
            let i = choose|i: int| 0 <= i < s.len() && s[i] == c;
            if i < s.len() - 1 {
                assert(s.drop_last()[i] == c);
            }
        }
        if s.drop_last().contains(c) {
            let i = choose|i: int| 0 <= i < s.drop_last().len() && s.drop_last()[i] == c;
            assert(s[i] == c);
        }
        if s.filter(pred).contains(c) && pred(s.last()) && !r.contains(c) {
            let i = choose|i: int| 0 <= i < r.len() + 1 && r.push(s.last())[i] == c;
            if i < r.len() {
                assert(r[i] == c);
            }
        }
    } else {
        assert(s.filter(pred) =~= Seq::<A>::empty());
    }
}

/// Every counted frame is a node, and the children taken off its self time
/// are those that `counted_children` picks from its child list.
proof fn lemma_flat_visits_from_nodes<T>(
    g: &ProfileGraph<T>,
    f: &FilterOpts,
    vis: Option<Set<u32>>,
    keys: Seq<Seq<char>>,
    id: u32,
)
    ensures
        forall|i: int|
            0 <= i < flat_walk(g, f, vis, keys, id).len() ==> g.node(#[trigger] flat_walk(g, f, vis, keys, id)[i].id)
                is Some && flat_walk(g, f, vis, keys, id)[i].counted_children == counted_children(
                g,
                f,
                vis,
                g.node(flat_walk(g, f, vis, keys, id)[i].id)->0.children,
            ),
    decreases g.node_seq().len() - id, 1int, 0int,
{
    match g.node(id) {
        None => {},
        Some(n) => {
            let k = n.children.len() as int;
            if n.is_thread || !crate::views::include_exclude_pass(g, f, id) || keys.contains(crate::graph::node_key(n)) {
                lemma_flat_children_from_nodes(g, f, vis, keys, id, n.children, k);
                assert(flat_walk(g, f, vis, keys, id) == children_flat_walk(g, f, vis, keys, id, n.children, k));
            } else {
                let inner = keys.push(crate::graph::node_key(n));
                lemma_flat_children_from_nodes(g, f, vis, inner, id, n.children, k);
                let c = children_flat_walk(g, f, vis, inner, id, n.children, k);
                let v = FlatVisitView {
                    id,
                    key: crate::graph::node_key(n),
                    counted_children: counted_children(g, f, vis, n.children),
                };
                assert(flat_walk(g, f, vis, keys, id) == c.push(v));
                let w = flat_walk(g, f, vis, keys, id);
                assert forall|i: int| 0 <= i < w.len() implies g.node(#[trigger] w[i].id) is Some
                    && w[i].counted_children == counted_children(g, f, vis, g.node(w[i].id)->0.children) by {
                    if i < c.len() {
                        assert(w[i] == c[i]);
                    } else {
                        assert(w[i] == v);
                    }
                }
            }
        },
    }
}

proof fn lemma_flat_children_from_nodes<T>(
    g: &ProfileGraph<T>,
    f: &FilterOpts,
    vis: Option<Set<u32>>,
    keys: Seq<Seq<char>>,
    id: u32,
    ch: Seq<u32>,
    k: int,
)
    ensures
        forall|i: int|
            0 <= i < children_flat_walk(g, f, vis, keys, id, ch, k).len() ==> g.node(
                #[trigger] children_flat_walk(g, f, vis, keys, id, ch, k)[i].id,
            ) is Some && children_flat_walk(g, f, vis, keys, id, ch, k)[i].counted_children
                == counted_children(g, f, vis, g.node(children_flat_walk(g, f, vis, keys, id, ch, k)[i].id)->0.children),
    decreases g.node_seq().len() - id, 0int, k,
{
    if 0 < k <= ch.len() {
        lemma_flat_children_from_nodes(g, f, vis, keys, id, ch, k - 1);
        let c = ch[k - 1];
        let a = children_flat_walk(g, f, vis, keys, id, ch, k - 1);
        let e = children_flat_walk(g, f, vis, keys, id, ch, k);
        if id < c <= g.node_seq().len() && crate::views::visible_in(vis, c) {
            lemma_flat_visits_from_nodes(g, f, vis, keys, c);
            let b = flat_walk(g, f, vis, keys, c);
            assert(e == a + b);
            assert forall|i: int| 0 <= i < e.len() implies g.node(#[trigger] e[i].id) is Some
                && e[i].counted_children == counted_children(g, f, vis, g.node(e[i].id)->0.children) by {
                if i < a.len() {
                    assert(e[i] == a[i]);
                } else {
                    assert(e[i] == b[i - a.len()]);
                }
            }
        } else {
            assert(e == a);
        }
    }
}

/// In the flat view, the children whose time is taken off a counted frame's
/// self time are exactly its children that are visible and pass
/// `--include` / `--exclude`: a child that an exclude pattern drops keeps
/// its time in its parent's self time.
pub proof fn law_flat_self_time_children<T>(
    g: &ProfileGraph<T>,
    f: &FilterOpts,
    vis: Option<Set<u32>>,
    keys: Seq<Seq<char>>,
    id: u32,
    i: int,
    c: u32,
)
    requires
        0 <= i < flat_walk(g, f, vis, keys, id).len(),
    ensures
        flat_walk(g, f, vis, keys, id)[i].counted_children.contains(c) <==> (is_child(
            g,
            flat_walk(g, f, vis, keys, id)[i].id,
            c,
        ) && crate::views::visible_in(vis, c) && passes_patterns(g, f, c)),
{
    lemma_flat_visits_from_nodes(g, f, vis, keys, id);
    let w = flat_walk(g, f, vis, keys, id);
    let n = g.node(w[i].id)->0;
    lemma_filter_member(
        n.children,
        |c: u32| crate::views::visible_in(vis, c) && crate::views::include_exclude_pass(g, f, c),
        c,
    );
}

/// Frame `d` may be counted by a flat walk from `a`: it is a frame (no
/// thread) that passes `--include` / `--exclude`, and it is `a` or a
/// visible node below `a`.
pub open spec fn flat_countable<T>(g: &ProfileGraph<T>, f: &FilterOpts, vis: Option<Set<u32>>, a: u32, d: u32) -> bool {
    &&& g.node(d) is Some
    &&& !g.node(d)->0.is_thread
    &&& passes_patterns(g, f, d)
    &&& (d == a || (is_descendant(g, a, d) && crate::views::visible_in(vis, d)))
}

proof fn lemma_flat_walk_countable<T>(
    g: &ProfileGraph<T>,
    f: &FilterOpts,
    vis: Option<Set<u32>>,
    keys: Seq<Seq<char>>,
    id: u32,
)
    ensures
        forall|i: int|
            0 <= i < flat_walk(g, f, vis, keys, id).len() ==> flat_countable(
                g,
                f,
                vis,
                id,
                (#[trigger] flat_walk(g, f, vis, keys, id)[i]).id,
            ),
    decreases g.node_seq().len() - id, 1int, 0int,
{
    match g.node(id) {
        None => {},
        Some(n) => {
            let k = n.children.len() as int;
            if n.is_thread || !crate::views::include_exclude_pass(g, f, id) || keys.contains(crate::graph::node_key(n)) {
                lemma_flat_children_countable(g, f, vis, keys, id, n.children, k);
                assert(flat_walk(g, f, vis, keys, id) == children_flat_walk(g, f, vis, keys, id, n.children, k));
            } else {
                let inner = keys.push(crate::graph::node_key(n));
                lemma_flat_children_countable(g, f, vis, inner, id, n.children, k);
                let c = children_flat_walk(g, f, vis, inner, id, n.children, k);
                let v = FlatVisitView {
                    id,
                    key: crate::graph::node_key(n),
                    counted_children: counted_children(g, f, vis, n.children),
                };
                assert(flat_walk(g, f, vis, keys, id) == c.push(v));
                assert(flat_countable(g, f, vis, id, id));
                let w = flat_walk(g, f, vis, keys, id);
                assert forall|i: int| 0 <= i < w.len() implies flat_countable(g, f, vis, id, (#[trigger] w[i]).id) by {
                    if i < c.len() {
                        assert(w[i] == c[i]);
                    } else {
                        assert(w[i] == v);
                    }
                }
            }
        },
    }
}

proof fn lemma_flat_children_countable<T>(
    g: &ProfileGraph<T>,
    f: &FilterOpts,
    vis: Option<Set<u32>>,
    keys: Seq<Seq<char>>,
    id: u32,
    ch: Seq<u32>,
    k: int,
)
    requires
        g.node(id) is Some,
        ch == g.node(id)->0.children,
    ensures
        forall|i: int|
            0 <= i < children_flat_walk(g, f, vis, keys, id, ch, k).len() ==> flat_countable(
                g,
                f,
                vis,
                id,
                (#[trigger] children_flat_walk(g, f, vis, keys, id, ch, k)[i]).id,
            ),
    decreases g.node_seq().len() - id, 0int, k,
{
    if 0 < k <= ch.len() {
        lemma_flat_children_countable(g, f, vis, keys, id, ch, k - 1);
        let c = ch[k - 1];
        let a = children_flat_walk(g, f, vis, keys, id, ch, k - 1);
        let e = children_flat_walk(g, f, vis, keys, id, ch, k);
        if id < c <= g.node_seq().len() && crate::views::visible_in(vis, c) {
            lemma_flat_walk_countable(g, f, vis, keys, c);
            let b = flat_walk(g, f, vis, keys, c);
            assert(e == a + b);
            assert(is_child(g, id, c)) by {
                assert(g.node(id)->0.children[k - 1] == c);
            }
            assert forall|i: int| 0 <= i < e.len() implies flat_countable(g, f, vis, id, (#[trigger] e[i]).id) by {
                if i < a.len() {
                    assert(e[i] == a[i]);
                } else {
                    assert(e[i] == b[i - a.len()]);
                    let d = b[i - a.len()].id;
                    assert(flat_countable(g, f, vis, c, d));
                    crate::views::lemma_descendant_unfold(g, id, d);
                }
            }
        } else {
            assert(e == a);
        }
    }
}

/// The flat view counts only frames that the filters keep: each counted
/// frame is the frame walked from or a visible frame below it, no thread,
/// and passes `--include` / `--exclude`.
pub proof fn law_flat_counts_only_kept_frames<T>(
    g: &ProfileGraph<T>,
    f: &FilterOpts,
    vis: Option<Set<u32>>,
    id: u32,
    i: int,
)
    requires
        0 <= i < flat_walk(g, f, vis, Seq::empty(), id).len(),
    ensures
        flat_countable(g, f, vis, id, flat_walk(g, f, vis, Seq::empty(), id)[i].id),
{
    lemma_flat_walk_countable(g, f, vis, Seq::empty(), id);
}

// ---------------------------------------------------------------------------
// plugin occupancy

/// An attribution the plugin report counts: its frame is a node attributed
/// to its source; the search text, when given, is in the source, class or
/// method; the include/exclude patterns pass the frame's class, method and
/// source; and it is no hidden carpet run loop frame.
pub open spec fn attribution_allowed<T>(g: &ProfileGraph<T>, f: &FilterOpts, a: AttributionView) -> bool {
    &&& g.node(a.node_id) is Some
    &&& g.source(a.node_id) == Some(a.source)
    &&& text_allowed(
        pat_models(f.includes@),
        pat_models(f.excludes@),
        node_texts(g.node(a.node_id)->0.class_name, g.node(a.node_id)->0.method_name, Some(a.source)),
    )
    &&& (string_opt_view(f.search) matches Some(q) ==> (contains(lower(a.source), q) || contains(
        lower(g.node(a.node_id)->0.class_name),
        q,
    ) || contains(lower(g.node(a.node_id)->0.method_name), q)))
    &&& !carpet_hidden(g.node(a.node_id)->0, a.source)
}

proof fn lemma_root_attributions_allowed<T>(
    g: &ProfileGraph<T>,
    f: &FilterOpts,
    mode: SourcesMode,
    roots: Seq<(Seq<char>, u32)>,
)
    requires
        forall|j: int|
            0 <= j < roots.len() ==> (#[trigger] g.node(roots[j].1)) is Some && g.source(roots[j].1) == Some(
                roots[j].0,
            ),
    ensures
        forall|j: int|
            0 <= j < root_attributions(g, f, mode, roots).len() ==> attribution_allowed(
                g,
                f,
                #[trigger] root_attributions(g, f, mode, roots)[j],
            ),
    decreases roots.len(),
{
    if roots.len() > 0 {
        let init = roots.drop_last();
        assert forall|j: int| 0 <= j < init.len() implies (#[trigger] g.node(init[j].1)) is Some && g.source(
            init[j].1,
        ) == Some(init[j].0) by {
            assert(init[j] == roots[j]);
        }
        lemma_root_attributions_allowed(g, f, mode, init);
        let last = roots.last();
        assert(g.node(roots[roots.len() - 1].1) is Some);
        let r = root_attributions(g, f, mode, roots);
        let a = root_attributions(g, f, mode, init);
        assert forall|j: int| 0 <= j < r.len() implies attribution_allowed(g, f, #[trigger] r[j]) by {
            if j < a.len() {
                assert(r[j] == a[j]);
            }
        }
    }
}

/// The plugin report counts only frames that pass the filters: each
/// attribution's frame is attributed to that source, the search (when
/// given) is in its source, class or method, `--include` / `--exclude` pass
/// its class, method and source (so an exclude pattern matching a source
/// drops all of that source's frames), and carpet run loop frames are left
/// out.
pub proof fn law_attributions_pass_filters<T>(
    g: &ProfileGraph<T>,
    f: &FilterOpts,
    mode: SourcesMode,
    vis: Option<Set<u32>>,
    tids: Seq<u32>,
)
    ensures
        forall|j: int|
            0 <= j < thread_attributions(g, f, mode, vis, tids).len() ==> attribution_allowed(
                g,
                f,
                #[trigger] thread_attributions(g, f, mode, vis, tids)[j],
            ),
    decreases tids.len(),
{
    if tids.len() > 0 {
        law_attributions_pass_filters(g, f, mode, vis, tids.drop_last());
        let roots = source_roots(g, vis, tids.last());
        lemma_source_roots_exist(g, vis, tids.last());
        lemma_root_attributions_allowed(g, f, mode, roots);
        let a = thread_attributions(g, f, mode, vis, tids.drop_last());
        let b = root_attributions(g, f, mode, roots);
        let r = thread_attributions(g, f, mode, vis, tids);
        assert(r == a + b);
        assert forall|j: int| 0 <= j < r.len() implies attribution_allowed(g, f, #[trigger] r[j]) by {
            if j < a.len() {
                assert(r[j] == a[j]);
            } else {
                assert(r[j] == b[j - a.len()]);
            }
        }
    }
}

// ---------------------------------------------------------------------------
// the topmost frames with a plugin or mod

/// `p` leads down, node to child, to a frame with a plugin or mod: every
/// node on it is a visible node of the graph, and no node before the last
/// has a source.
pub open spec fn path_to_source<T>(g: &ProfileGraph<T>, vis: Option<Set<u32>>, p: Seq<u32>) -> bool {
    &&& p.len() >= 1
    &&& is_child_path(g, p)
    &&& forall|i: int| 0 <= i < p.len() ==> visible_in(vis, #[trigger] p[i]) && g.node(p[i]) is Some
    &&& forall|i: int| 0 <= i < p.len() - 1 ==> g.source(#[trigger] p[i]) is None
    &&& g.source(p.last()) is Some
}

/// Such a path leads from `a` to `d`.
pub open spec fn source_path_from<T>(g: &ProfileGraph<T>, vis: Option<Set<u32>>, a: u32, d: u32) -> bool {
    exists|p: Seq<u32>| #![trigger path_to_source(g, vis, p)] path_to_source(g, vis, p) && p[0] == a && p.last() == d
}

/// Such a path leads from one of the threads `tids` to `d`.
pub open spec fn reached_from_threads<T>(g: &ProfileGraph<T>, vis: Option<Set<u32>>, tids: Seq<u32>, d: u32) -> bool {
    exists|k: int| 0 <= k < tids.len() && #[trigger] source_path_from(g, vis, tids[k], d)
}

proof fn lemma_prepend_path<T>(g: &ProfileGraph<T>, vis: Option<Set<u32>>, id: u32, q: Seq<u32>)
    requires
        path_to_source(g, vis, q),
        is_child(g, id, q[0]),
        visible_in(vis, id),
        g.node(id) is Some,
        g.source(id) is None,
    ensures
        path_to_source(g, vis, seq![id] + q),
        (seq![id] + q)[0] == id,
        (seq![id] + q).last() == q.last(),
{
    let p = seq![id] + q;
    assert forall|i: int| 0 <= i < p.len() - 1 implies #[trigger] child_step(g, p, i) by {
        if i == 0 {
            assert(p[0] == id && p[1] == q[0]);
        } else {
            assert(child_step(g, q, i - 1));
            assert(p[i] == q[i - 1] && p[i + 1] == q[i]);
        }
    }
    assert forall|i: int| 0 <= i < p.len() implies visible_in(vis, #[trigger] p[i]) && g.node(p[i]) is Some by {
        if i > 0 {
            assert(p[i] == q[i - 1]);
        }
    }
    assert forall|i: int| 0 <= i < p.len() - 1 implies g.source(#[trigger] p[i]) is None by {
        if i > 0 {
            assert(p[i] == q[i - 1]);
        }
    }
    assert(p.last() == q.last());
}

proof fn lemma_roots_reached<T>(g: &ProfileGraph<T>, vis: Option<Set<u32>>, id: u32)
    ensures
        forall|j: int|
            0 <= j < source_roots(g, vis, id).len() ==> source_path_from(
                g,
                vis,
                id,
                (#[trigger] source_roots(g, vis, id)[j]).1,
            ),
    decreases g.node_seq().len() - id, 1int, 0int,
{
    if visible_in(vis, id) {
        match g.node(id) {
            None => {},
            Some(n) => match g.source(id) {
                Some(s) => {
                    let p = seq![id];
                    assert(p[0] == id && p.last() == id);
                    assert(path_to_source(g, vis, p));
                    assert(source_path_from(g, vis, id, id));
                    assert(source_roots(g, vis, id) == seq![(s, id)]);
                    assert(source_roots(g, vis, id)[0].1 == id);
                },
                None => {
                    lemma_children_roots_reached(g, vis, id, n.children, n.children.len() as int);
                    assert(source_roots(g, vis, id) == children_source_roots(
                        g,
                        vis,
                        id,
                        n.children,
                        n.children.len() as int,
                    ));
                },
            },
        }
    }
}

proof fn lemma_children_roots_reached<T>(g: &ProfileGraph<T>, vis: Option<Set<u32>>, id: u32, ch: Seq<u32>, k: int)
    requires
        visible_in(vis, id),
        g.node(id) is Some,
        g.source(id) is None,
        ch == g.node(id)->0.children,
    ensures
        forall|j: int|
            0 <= j < children_source_roots(g, vis, id, ch, k).len() ==> source_path_from(
                g,
                vis,
                id,
                (#[trigger] children_source_roots(g, vis, id, ch, k)[j]).1,
            ),
    decreases g.node_seq().len() - id, 0int, k,
{
    if 0 < k <= ch.len() {
        lemma_children_roots_reached(g, vis, id, ch, k - 1);
        let c = ch[k - 1];
        if id < c <= g.node_seq().len() {
            lemma_roots_reached(g, vis, c);
            let a = children_source_roots(g, vis, id, ch, k - 1);
            let b = source_roots(g, vis, c);
            let e = children_source_roots(g, vis, id, ch, k);
            assert(e == a + b);
            assert(is_child(g, id, c)) by {
                assert(g.node(id)->0.children[k - 1] == c);
            }
            assert forall|j: int| 0 <= j < e.len() implies source_path_from(g, vis, id, (#[trigger] e[j]).1) by {
                if j < a.len() {
                    assert(e[j] == a[j]);
                } else {
                    assert(e[j] == b[j - a.len()]);
                    let d = b[j - a.len()].1;
                    assert(source_path_from(g, vis, c, d));
                    let q = choose|q: Seq<u32>|
                        #![trigger path_to_source(g, vis, q)]
                        path_to_source(g, vis, q) && q[0] == c && q.last() == d;
                    lemma_prepend_path(g, vis, id, q);
                    let p = seq![id] + q;
                    assert(path_to_source(g, vis, p) && p[0] == id && p.last() == d);
                }
            }
        }
    }
}

proof fn lemma_child_roots_in<T>(
    g: &ProfileGraph<T>,
    vis: Option<Set<u32>>,
    id: u32,
    ch: Seq<u32>,
    k: int,
    i: int,
    x: (Seq<char>, u32),
)
    requires
        0 <= i < k <= ch.len(),
        id < ch[i] <= g.node_seq().len(),
        source_roots(g, vis, ch[i]).contains(x),
    ensures
        children_source_roots(g, vis, id, ch, k).contains(x),
    decreases k,
{
    let a = children_source_roots(g, vis, id, ch, k - 1);
    let e = children_source_roots(g, vis, id, ch, k);
    let c = ch[k - 1];
    if i == k - 1 {
        let b = source_roots(g, vis, c);
        assert(e == a + b);
        let j = choose|j: int| 0 <= j < b.len() && b[j] == x;
        assert(e[a.len() + j] == x);
    } else {
        lemma_child_roots_in(g, vis, id, ch, k - 1, i, x);
        let j = choose|j: int| 0 <= j < a.len() && a[j] == x;
        if id < c <= g.node_seq().len() {
            assert(e == a + source_roots(g, vis, c));
            assert(e[j] == x);
        } else {
            assert(e == a);
        }
    }
}

proof fn lemma_path_reaches_root<T>(g: &ProfileGraph<T>, vis: Option<Set<u32>>, p: Seq<u32>)
    requires
        g.wf(),
        path_to_source(g, vis, p),
    ensures
        source_roots(g, vis, p[0]).contains((g.source(p.last())->0, p.last())),
    decreases p.len(),
{
    let id = p[0];
    assert(visible_in(vis, p[0]) && g.node(p[0]) is Some);
    let n = g.node(id)->0;
    if p.len() == 1 {
        assert(source_roots(g, vis, id) == seq![(g.source(id)->0, id)]);
        assert(source_roots(g, vis, id)[0] == (g.source(p.last())->0, p.last()));
    } else {
        assert(g.source(p[0]) is None);
        assert(child_step(g, p, 0));
        let c = p[1];
        let i = choose|i: int| 0 <= i < n.children.len() && n.children[i] == c;
        g.lemma_node_shape(id);
        assert(n == g.node_seq()[id - 1]);
        assert(id < c <= g.node_seq().len());
        let q = p.skip(1);
        assert forall|j: int| 0 <= j < q.len() - 1 implies #[trigger] child_step(g, q, j) by {
            assert(child_step(g, p, j + 1));
            assert(q[j] == p[j + 1] && q[j + 1] == p[j + 2]);
        }
        assert forall|j: int| 0 <= j < q.len() implies visible_in(vis, #[trigger] q[j]) && g.node(q[j]) is Some by {
            assert(q[j] == p[j + 1]);
        }
        assert forall|j: int| 0 <= j < q.len() - 1 implies g.source(#[trigger] q[j]) is None by {
            assert(q[j] == p[j + 1]);
        }
        assert(q.last() == p.last());
        assert(q[0] == c);
        lemma_path_reaches_root(g, vis, q);
        assert(source_roots(g, vis, id) == children_source_roots(g, vis, id, n.children, n.children.len() as int));
        lemma_child_roots_in(g, vis, id, n.children, n.children.len() as int, i, (g.source(p.last())->0, p.last()));
    }
}

proof fn lemma_root_attributions_from<T>(
    g: &ProfileGraph<T>,
    f: &FilterOpts,
    mode: SourcesMode,
    roots: Seq<(Seq<char>, u32)>,
)
    ensures
        forall|j: int|
            0 <= j < root_attributions(g, f, mode, roots).len() ==> exists|i: int|
                0 <= i < roots.len() && (#[trigger] roots[i]).1 == (#[trigger] root_attributions(g, f, mode, roots)[j]).node_id,
        forall|sr: Seq<char>, d: u32|
            roots.contains((sr, d)) && attribution_kept(g, f, sr, d) ==> #[trigger] root_attributions(
                g,
                f,
                mode,
                roots,
            ).contains(#[trigger] attribution_of(g, mode, sr, d)),
    decreases roots.len(),
{
    if roots.len() > 0 {
        let init = roots.drop_last();
        lemma_root_attributions_from(g, f, mode, init);
        let r = root_attributions(g, f, mode, roots);
        let a = root_attributions(g, f, mode, init);
        let last = roots.last();
        assert forall|j: int| 0 <= j < r.len() implies exists|i: int|
            0 <= i < roots.len() && (#[trigger] roots[i]).1 == (#[trigger] r[j]).node_id by {
            if j < a.len() {
                assert(r[j] == a[j]);
                let i = choose|i: int| 0 <= i < init.len() && (#[trigger] init[i]).1 == a[j].node_id;
                assert(roots[i] == init[i]);
            } else {
                assert(r[j] == attribution_of(g, mode, last.0, last.1));
                assert(roots[roots.len() - 1] == last);
            }
        }
        assert forall|sr: Seq<char>, d: u32| roots.contains((sr, d)) && attribution_kept(g, f, sr, d) implies #[trigger] r.contains(
            #[trigger] attribution_of(g, mode, sr, d),
        ) by {
            let x = (sr, d);
            let at = attribution_of(g, mode, sr, d);
            let i = choose|i: int| 0 <= i < roots.len() && roots[i] == x;
            if i < init.len() {
                assert(init[i] == x);
                assert(init.contains(x));
                assert(a.contains(at));
                let j = choose|j: int| 0 <= j < a.len() && a[j] == at;
                if attribution_kept(g, f, last.0, last.1) {
                    assert(r == a.push(attribution_of(g, mode, last.0, last.1)));
                } else {
                    assert(r == a);
                }
                assert(r[j] == a[j]);
            } else {
                assert(x == last);
                assert(r == a.push(attribution_of(g, mode, last.0, last.1)));
                assert(r[a.len() as int] == at);
            }
        }
    }
}

/// The plugin report counts, under each thread, the topmost frames that
/// have a plugin or mod. Each attribution's frame is reached from one of
/// the threads by a path of visible frames on which no frame above it has
/// a source (so nothing below a counted frame is counted again, and hidden
/// frames count for nothing); and every frame so reached whose attribution
/// passes the filters is counted.
pub proof fn law_attributions_are_topmost<T>(
    g: &ProfileGraph<T>,
    f: &FilterOpts,
    mode: SourcesMode,
    vis: Option<Set<u32>>,
    tids: Seq<u32>,
)
    requires
        g.wf(),
    ensures
        forall|j: int|
            0 <= j < thread_attributions(g, f, mode, vis, tids).len() ==> reached_from_threads(
                g,
                vis,
                tids,
                (#[trigger] thread_attributions(g, f, mode, vis, tids)[j]).node_id,
            ),
        forall|k: int, p: Seq<u32>|
            #![trigger tids[k], path_to_source(g, vis, p)]
            0 <= k < tids.len() && path_to_source(g, vis, p) && p[0] == tids[k] && attribution_allowed(
                g,
                f,
                attribution_of(g, mode, g.source(p.last())->0, p.last()),
            ) ==> thread_attributions(g, f, mode, vis, tids).contains(
                attribution_of(g, mode, g.source(p.last())->0, p.last()),
            ),
    decreases tids.len(),
{
    if tids.len() > 0 {
        let init = tids.drop_last();
        let t = tids.last();
        law_attributions_are_topmost(g, f, mode, vis, init);
        let roots = source_roots(g, vis, t);
        lemma_roots_reached(g, vis, t);
        lemma_root_attributions_from(g, f, mode, roots);
        let a = thread_attributions(g, f, mode, vis, init);
        let b = root_attributions(g, f, mode, roots);
        let r = thread_attributions(g, f, mode, vis, tids);
        assert(r == a + b);
        assert forall|j: int| 0 <= j < r.len() implies reached_from_threads(g, vis, tids, (#[trigger] r[j]).node_id) by {
            if j < a.len() {
                assert(r[j] == a[j]);
                assert(reached_from_threads(g, vis, init, a[j].node_id));
                let k = choose|k: int| 0 <= k < init.len() && #[trigger] source_path_from(g, vis, init[k], a[j].node_id);
                assert(tids[k] == init[k]);
            } else {
                assert(r[j] == b[j - a.len()]);
                let i = choose|i: int| 0 <= i < roots.len() && (#[trigger] roots[i]).1 == b[j - a.len()].node_id;
                assert(source_path_from(g, vis, t, roots[i].1));
                assert(tids[tids.len() - 1] == t);
            }
        }
        assert forall|k: int, p: Seq<u32>|
            #![trigger tids[k], path_to_source(g, vis, p)]
            0 <= k < tids.len() && path_to_source(g, vis, p) && p[0] == tids[k] && attribution_allowed(
                g,
                f,
                attribution_of(g, mode, g.source(p.last())->0, p.last()),
            ) implies r.contains(attribution_of(g, mode, g.source(p.last())->0, p.last())) by {
            let x = (g.source(p.last())->0, p.last());
            let at = attribution_of(g, mode, x.0, x.1);
            if k < init.len() {
                assert(init[k] == tids[k]);
                assert(a.contains(at));
                let j = choose|j: int| 0 <= j < a.len() && a[j] == at;
                assert(r[j] == at);
            } else {
                lemma_path_reaches_root(g, vis, p);
                assert(roots.contains(x));
                assert(attribution_kept(g, f, x.0, x.1));
                assert(b.contains(at));
                let j = choose|j: int| 0 <= j < b.len() && b[j] == at;
                assert(r[a.len() + j] == at);
            }
        }
    }
}

// ---------------------------------------------------------------------------
// installed plugins without samples

/// A name with its ASCII letters lower-cased and every `-` taken out.
pub open spec fn without_dashes(s: Seq<char>) -> Seq<char> {
    lower(s).filter(|c: char| c != '-')
}

/// A sampled source row names plugin `p`: the same name ignoring ASCII
/// case, or the same once both are lower-cased and stripped of `-`.
pub open spec fn row_names(row: Seq<char>, p: Seq<char>) -> bool {
    lower(row) == lower(p) || without_dashes(row) == without_dashes(p)
}

/// The idle list holds exactly the installed plugins and mods that no
/// sampled source row names.
pub proof fn law_idle_are_the_unnamed(plugins: Seq<Seq<char>>, rows: Seq<Seq<char>>, x: Seq<char>)
    ensures
        unsampled(plugins, rows).contains(x) <==> (plugins.contains(x) && forall|i: int|
            0 <= i < rows.len() ==> !row_names(#[trigger] rows[i], x)),
    decreases plugins.len(),
{
    let named = forall|i: int| 0 <= i < rows.len() ==> !row_names(#[trigger] rows[i], x);
    assert(plugin_sampled(rows, x) <==> !named) by {
        assert forall|r: Seq<char>| loose_name(r) == without_dashes(r) by {}
    }
    if plugins.len() > 0 {
        let init = plugins.drop_last();
        law_idle_are_the_unnamed(init, rows, x);
        let u = unsampled(plugins, rows);
        let ui = unsampled(init, rows);
        assert(plugins.contains(x) <==> (init.contains(x) || plugins.last() == x)) by {
            if plugins.contains(x) {
                let i = choose|i: int| 0 <= i < plugins.len() && plugins[i] == x;
                if i < init.len() {
                    assert(init[i] == x);
                }
            }
            if init.contains(x) {
                let i = choose|i: int| 0 <= i < init.len() && init[i] == x;
                assert(plugins[i] == x);
            }
            if plugins.last() == x {
                assert(plugins[plugins.len() - 1] == x);
            }
        }
        if plugin_sampled(rows, plugins.last()) {
            assert(u == ui);
        } else {
            assert(u == ui.push(plugins.last()));
            if u.contains(x) && !ui.contains(x) {
                let i = choose|i: int| 0 <= i < u.len() && u[i] == x;
                if i < ui.len() {
                    assert(ui[i] == x);
                }
            }
            if ui.contains(x) {
                let i = choose|i: int| 0 <= i < ui.len() && ui[i] == x;
                assert(u[i] == x);
            }
            if plugins.last() == x {
                assert(u[ui.len() as int] == x);
            }
        }
    } else {
        assert(unsampled(plugins, rows) == Seq::<Seq<char>>::empty());
    }
}

} // verus!
