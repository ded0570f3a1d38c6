//! Properties that hold across the library's functions.
use vstd::prelude::*;
use crate::flat::{children_flat_walk, flat_walk};
use crate::filter::{FilterOpts, any_matches, node_texts, pat_models, text_allowed};
use crate::graph::{ProfileGraph, SamplerData, forest_entries, forest_roots, sampler_entries, sampler_fits, thread_frames};
use crate::links::{children_ok, lemma_thread_links, parent_ok};
use crate::pattern::{compiled_pat, pat_matches};
use crate::text::{contains, decimal, lower};
use crate::views::{
    child_step, is_child, is_child_path, is_parent_path, parent_step,
    filters_text, hit_by, in_subtree, is_ancestor, is_descendant, shown_for_thread, shown_for_threads,
    thread_passes, visible_nodes, walk_hit,
};
use crate::window::{
    WindowSelectModel, WindowSpecErrorModel, index_token, lemma_decimal_digits, lemma_parse_usize_decimal,
    lemma_split_none, lemma_split_pair, read_indices, selected_windows, trim, window_select_of, window_tokens,
};

verus! {

/// A pattern given without `--regex` matches a text exactly when the text
/// contains it, ignoring ASCII case on both sides.
pub proof fn law_substring_pattern_ignores_case(pattern: Seq<char>, hay: Seq<char>)
    ensures
        pat_matches(compiled_pat(pattern, false), hay) == contains(lower(hay), lower(pattern)),
{
}

/// A window range selects the same windows whichever bound comes first.
pub proof fn law_window_range_symmetric(ids: Seq<i32>, a: usize, b: usize)
    ensures
        selected_windows(ids, WindowSelectModel::Range(a, b)) == selected_windows(
            ids,
            WindowSelectModel::Range(b, a),
        ),
{
    assert(selected_windows(ids, WindowSelectModel::Range(a, b)) =~= selected_windows(
        ids,
        WindowSelectModel::Range(b, a),
    ));
}

/// Every selection picks only existing buckets (a profile without window
/// ids has the single bucket 0), and every selection but a list of indices
/// picks at least one.
pub proof fn law_window_selection_in_range(ids: Seq<i32>, sel: WindowSelectModel)
    ensures
        forall|i: usize|
            selected_windows(ids, sel).contains(i) ==> i < ids.len() || (ids.len() == 0 && i == 0),
        !(sel is Indices) ==> !selected_windows(ids, sel).is_empty(),
{
    let n = ids.len();
    let s = selected_windows(ids, sel);
    match sel {
        WindowSelectModel::All => {
            if n > 0 {
                assert(s.contains(0));
            } else {
                assert(s.contains(0));
            }
        },
        WindowSelectModel::Ids(q) => {
            let t = Set::new(|i: usize| i < n && q.contains(ids[i as int]));
            if t.is_empty() {
                assert(s.contains(0));
            } else {
                let w = t.choose();
                assert(s.contains(w));
            }
        },
        WindowSelectModel::Indices(_) => {},
        WindowSelectModel::Range(a, b) => {
            if n == 0 {
                assert(s.contains(0));
            } else {
                let lo: int = if a < n - 1 {
                    a as int
                } else {
                    n - 1
                };
                assert(s.contains(lo as usize));
            }
        },
    }
}

/// All windows of a profile that has window ids are selected by `all`.
pub proof fn law_all_selects_every_window(ids: Seq<i32>, i: usize)
    requires
        i < ids.len(),
    ensures
        selected_windows(ids, WindowSelectModel::All).contains(i),
{
}

/// Without include and exclude patterns every node passes the text
/// filters.
pub proof fn law_no_patterns_allow_all(class: Seq<char>, method: Seq<char>, source: Option<Seq<char>>)
    ensures
        text_allowed(Seq::empty(), Seq::empty(), node_texts(class, method, source)),
{
}

/// An exclude pattern that matches any of a node's texts hides it, whatever
/// the includes.
pub proof fn law_exclude_wins(
    includes: Seq<crate::pattern::FilterPatModel>,
    excludes: Seq<crate::pattern::FilterPatModel>,
    texts: Seq<Seq<char>>,
    i: int,
    j: int,
)
    requires
        0 <= i < excludes.len(),
        0 <= j < texts.len(),
        pat_matches(excludes[i], texts[j]),
    ensures
        !text_allowed(includes, excludes, texts),
{
    assert(any_matches(excludes, texts));
}

/// The search shows a matching node together with everything above and
/// below it: if node `m` lies at or below a thread that passes the thread
/// filter and matches the text filters, then `m`, its ancestors and its
/// descendants are visible.
pub proof fn law_search_shows_match_with_family<T>(
    g: &ProfileGraph<T>,
    f: &FilterOpts,
    k: int,
    m: u32,
    x: u32,
)
    requires
        filters_text(f),
        0 <= k < g.thread_seq().len(),
        thread_passes(g, f, g.thread_seq()[k].id),
        in_subtree(g, g.thread_seq()[k].id, m),
        crate::views::node_matches(g, f, m),
        x == m || is_descendant(g, m, x) || is_ancestor(g, m, x),
    ensures
        visible_nodes(g, f) matches Some(s) && s.contains(x),
{
    let t = g.thread_seq()[k].id;
    assert(hit_by(g, f, m, x));
    assert(walk_hit(g, f, t, x));
    assert(shown_for_thread(g, f, t, x));
    assert(shown_for_threads(g, f, g.thread_seq().len() as int, x));
}

/// Conversely, with text filters every visible node is shown because of
/// some matching node at or below an allowed thread: it is that node, or
/// lies above or below it.
pub proof fn law_search_shows_only_families<T>(g: &ProfileGraph<T>, f: &FilterOpts, x: u32)
    requires
        filters_text(f),
        visible_nodes(g, f) matches Some(s) && s.contains(x),
    ensures
        exists|k: int, m: u32|
            #![trigger g.thread_seq()[k], crate::views::node_matches(g, f, m)]
            0 <= k < g.thread_seq().len() && thread_passes(g, f, g.thread_seq()[k].id) && in_subtree(
                g,
                g.thread_seq()[k].id,
                m,
            ) && crate::views::node_matches(g, f, m) && (x == m || is_descendant(g, m, x)
                || is_ancestor(g, m, x)),
{
    assert(shown_for_threads(g, f, g.thread_seq().len() as int, x));
    let k = choose|k: int|
        0 <= k < g.thread_seq().len() && #[trigger] shown_for_thread(g, f, g.thread_seq()[k].id, x);
    let t = g.thread_seq()[k].id;
    assert(walk_hit(g, f, t, x));
    let m = choose|m: u32| #![trigger hit_by(g, f, m, x)] in_subtree(g, t, m) && hit_by(g, f, m, x);
    assert(crate::views::node_matches(g, f, m));
}

/// With only a thread filter, a thread that passes it is visible with
/// everything below it.
pub proof fn law_thread_filter_keeps_whole_thread<T>(g: &ProfileGraph<T>, f: &FilterOpts, k: int, x: u32)
    requires
        !filters_text(f),
        f.thread is Some,
        0 <= k < g.thread_seq().len(),
        thread_passes(g, f, g.thread_seq()[k].id),
        x == g.thread_seq()[k].id || is_descendant(g, g.thread_seq()[k].id, x),
    ensures
        visible_nodes(g, f) matches Some(s) && s.contains(x),
{
    let t = g.thread_seq()[k].id;
    assert(shown_for_thread(g, f, t, x));
    assert(shown_for_threads(g, f, g.thread_seq().len() as int, x));
}

/// The flat view counts a method at most once per stack: no frame counted
/// at or below a node has a method that is already counted above it
/// (`keys`), so a recursion does not count its time twice.
pub proof fn law_flat_counts_method_once_per_stack<T>(
    g: &ProfileGraph<T>,
    f: &FilterOpts,
    vis: Option<Set<u32>>,
    keys: Seq<Seq<char>>,
    id: u32,
)
    ensures
        forall|i: int|
            0 <= i < flat_walk(g, f, vis, keys, id).len() ==> !keys.contains(
                #[trigger] flat_walk(g, f, vis, keys, id)[i].key,
            ),
    decreases g.node_seq().len() - id, 1int, 0int,
{
    match g.node(id) {
        None => {},
        Some(n) => {
            let k = n.children.len() as int;
            if n.is_thread || !crate::views::include_exclude_pass(g, f, id) || keys.contains(
                crate::graph::node_key(n),
            ) {
                lemma_flat_children_once(g, f, vis, keys, id, n.children, k);
                assert(flat_walk(g, f, vis, keys, id) == children_flat_walk(g, f, vis, keys, id, n.children, k));
            } else {
                let inner = keys.push(crate::graph::node_key(n));
                lemma_flat_children_once(g, f, vis, inner, id, n.children, k);
                let w = flat_walk(g, f, vis, keys, id);
                let c = children_flat_walk(g, f, vis, inner, id, n.children, k);
                assert(w == c.push(
                    crate::flat::FlatVisitView {
                        id,
                        key: crate::graph::node_key(n),
                        counted_children: crate::flat::counted_children(g, f, vis, n.children),
                    },
                ));
                assert forall|i: int| 0 <= i < w.len() implies !keys.contains(#[trigger] w[i].key) by {
                    if i < c.len() {
                        assert(w[i] == c[i]);
                        if keys.contains(w[i].key) {
                            let j = choose|j: int| 0 <= j < keys.len() && keys[j] == w[i].key;
                            assert(inner[j] == keys[j]);
                            assert(inner.contains(c[i].key));
                        }
                    }
                }
            }
        },
    }
}

proof fn lemma_flat_children_once<T>(
    g: &ProfileGraph<T>,
    f: &FilterOpts,
    vis: Option<Set<u32>>,
    keys: Seq<Seq<char>>,
    id: u32,
    ch: Seq<u32>,
    k: int,
)
    ensures
        forall|i: int|
            0 <= i < children_flat_walk(g, f, vis, keys, id, ch, k).len() ==> !keys.contains(
                #[trigger] children_flat_walk(g, f, vis, keys, id, ch, k)[i].key,
            ),
    decreases g.node_seq().len() - id, 0int, k,
{
    if 0 < k <= ch.len() {
        lemma_flat_children_once(g, f, vis, keys, id, ch, k - 1);
        let c = ch[k - 1];
        if id < c <= g.node_seq().len() && crate::views::visible_in(vis, c) {
            law_flat_counts_method_once_per_stack(g, f, vis, keys, c);
            let a = children_flat_walk(g, f, vis, keys, id, ch, k - 1);
            let b = flat_walk(g, f, vis, keys, c);
            let e = children_flat_walk(g, f, vis, keys, id, ch, k);
            assert(e == a + b);
            assert forall|i: int| 0 <= i < e.len() implies !keys.contains(#[trigger] e[i].key) by {
                if i < a.len() {
                    assert(e[i] == a[i]);
                } else {
                    assert(e[i] == b[i - a.len()]);
                }
            }
        } else {
            assert(children_flat_walk(g, f, vis, keys, id, ch, k) == children_flat_walk(
                g,
                f,
                vis,
                keys,
                id,
                ch,
                k - 1,
            ));
        }
    }
}

/// In the graph of a sampler upload the parent lists and the child lists
/// agree: a child lists the node it hangs from as its only parent, every
/// frame has exactly one parent, numbered before it, and is among that
/// parent's children, and a thread has no parent.
pub proof fn law_parents_and_children_agree<T>(data: SamplerData<T>, g: &ProfileGraph<T>)
    requires
        sampler_fits(data),
        g.entries() == sampler_entries(data),
    ensures
        forall|a: u32, c: u32| #[trigger] is_child(g, a, c) ==> g.parents(c) == seq![a],
        forall|d: u32|
            (#[trigger] g.node(d)) is Some ==> if g.node(d)->0.is_thread {
                g.parents(d).len() == 0
            } else {
                g.parents(d).len() == 1 && g.parents(d)[0] < d && is_child(g, g.parents(d)[0], d)
            },
{
    let ts = data.threads@;
    let fs = thread_frames(ts);
    let roots = forest_roots(fs, 1);
    lemma_thread_links(ts);
    crate::graph::lemma_forest_entries_len(fs, 1, 0);
    let e = g.entries();
    assert(e == forest_entries(fs, 1, 0));
    assert forall|a: u32, c: u32| #[trigger] is_child(g, a, c) implies g.parents(c) == seq![a] by {
        let k = a - 1;
        assert(e[k].0 == g.node_seq()[k]);
        assert(children_ok(e, 1, k));
        let n = g.node(a)->0;
        let j = choose|j: int| 0 <= j < n.children.len() && n.children[j] == c;
        assert(e[k].0.children[j] == c);
        assert(e[c - 1].1 == g.parent_seq()[c - 1]);
    }
    assert forall|d: u32| (#[trigger] g.node(d)) is Some implies if g.node(d)->0.is_thread {
        g.parents(d).len() == 0
    } else {
        g.parents(d).len() == 1 && g.parents(d)[0] < d && is_child(g, g.parents(d)[0], d)
    } by {
        let k = d - 1;
        assert(e[k] == (g.node_seq()[k], g.parent_seq()[k]));
        assert(parent_ok(e, 1, 0, roots, k));
        if !e[k].0.is_thread {
            let p = e[k].1[0];
            if p == 0 && roots.contains((1 + k) as u32) {
                let j = choose|j: int| 0 <= j < roots.len() && roots[j] == (1 + k) as u32;
                assert(e[roots[j] - 1].0.is_thread);
            } else {
                assert(e[p - 1] == (g.node_seq()[p - 1], g.parent_seq()[p - 1]));
            }
        }
    }
}

/// In the graph of a sampler upload, `a` lies above `d` (following parent
/// lists) exactly when `d` lies below `a` (following child lists), so
/// the search's ancestors of a match are the nodes it is reached from.
pub proof fn law_ancestors_mirror_descendants<T>(data: SamplerData<T>, g: &ProfileGraph<T>, a: u32, d: u32)
    requires
        sampler_fits(data),
        g.entries() == sampler_entries(data),
    ensures
        is_ancestor(g, d, a) <==> is_descendant(g, a, d),
{
    law_parents_and_children_agree(data, g);
    if is_descendant(g, a, d) {
        let p = choose|p: Seq<u32>|
            #![trigger is_child_path(g, p)]
            p.len() >= 2 && p[0] == a && p[p.len() - 1] == d && is_child_path(g, p);
        let q = p.reverse();
        assert forall|i: int| 0 <= i < q.len() - 1 implies #[trigger] parent_step(g, q, i) by {
            let m = p.len() - 2 - i;
            assert(child_step(g, p, m));
            assert(q[i] == p[m + 1]);
            assert(q[i + 1] == p[m]);
            assert(g.parents(p[m + 1]) == seq![p[m]]);
            assert(g.parents(p[m + 1])[0] == p[m]);
        }
        assert(is_parent_path(g, q));
        assert(q[0] == d && q[q.len() - 1] == a);
    }
    if is_ancestor(g, d, a) {
        let p = choose|p: Seq<u32>|
            #![trigger is_parent_path(g, p)]
            p.len() >= 2 && p[0] == d && p[p.len() - 1] == a && is_parent_path(g, p);
        let q = p.reverse();
        assert forall|i: int| 0 <= i < q.len() - 1 implies #[trigger] child_step(g, q, i) by {
            let m = p.len() - 2 - i;
            assert(parent_step(g, p, m));
            assert(q[i] == p[m + 1]);
            assert(q[i + 1] == p[m]);
            let x = p[m];
            assert(g.parents(x).contains(p[m + 1]));
            assert(g.node(x) is Some);
            assert(!g.node(x)->0.is_thread);
            assert(g.parents(x).len() == 1);
            assert(g.parents(x)[0] == p[m + 1]);
        }
        assert(is_child_path(g, q));
        assert(q[0] == a && q[q.len() - 1] == d);
    }
}

/// Picking one window by its index, as `--windows @i` or as
/// `--window-range i,i`, selects exactly that window when the profile has
/// it.
pub proof fn law_single_window_round_trip(ids: Seq<i32>, i: usize)
    requires
        i < ids.len(),
    ensures
        window_select_of(Some(seq!['@'] + decimal(i as nat)), None) == Ok::<
            WindowSelectModel,
            WindowSpecErrorModel,
        >(WindowSelectModel::Indices(seq![i])),
        window_select_of(None, Some(decimal(i as nat) + seq![','] + decimal(i as nat))) == Ok::<
            WindowSelectModel,
            WindowSpecErrorModel,
        >(WindowSelectModel::Range(i, i)),
        selected_windows(ids, WindowSelectModel::Indices(seq![i])) == set![i],
        selected_windows(ids, WindowSelectModel::Range(i, i)) == set![i],
{
    let d = decimal(i as nat);
    lemma_decimal_digits(i as nat);
    lemma_parse_usize_decimal(i);
    // the range
    lemma_split_pair(d, d, ',');
    // the index token
    let w = seq!['@'] + d;
    assert(w[0] == '@');
    assert forall|k: int| 0 <= k < w.len() implies w[k] != ',' by {
        if k > 0 {
            assert(w[k] == d[k - 1]);
        }
    }
    lemma_split_none(w, ',');
    assert(!crate::window::is_white(w[0]));
    assert(w.last() == d.last());
    assert(!crate::window::is_white(d[d.len() - 1]));
    assert(crate::window::trim_start(w) == w);
    assert(crate::window::trim_end(w) == w);
    assert(trim(w) == w);
    assert(seq![w].drop_last() =~= Seq::<Seq<char>>::empty());
    assert(seq![w].last() == w);
    assert(trim(w).len() > 0);
    assert(window_tokens(Seq::<Seq<char>>::empty()) == Seq::<Seq<char>>::empty());
    assert(Seq::<Seq<char>>::empty().push(w) =~= seq![w]);
    assert(window_tokens(seq![w]) == seq![w]);
    assert(index_token(w));
    assert(w.drop_first() =~= d);
    assert(crate::window::strip_index_marks(w) == d);
    assert(seq![w].drop_first() =~= Seq::<Seq<char>>::empty());
    assert(seq![w][0] == w);
    assert(read_indices(Seq::<Seq<char>>::empty()) == Ok::<Seq<usize>, Seq<char>>(Seq::empty()));
    assert(crate::window::parse_usize_text(crate::window::strip_index_marks(w)) == Ok::<int, crate::window::IntErrorKind>(i as int));
    assert(read_indices(seq![w]) == Ok::<Seq<usize>, Seq<char>>(seq![i as usize] + Seq::<usize>::empty()));
    assert(seq![i as usize] + Seq::<usize>::empty() =~= seq![i]);
    reveal_strlit("all");
    assert(lower(w)[0] == '@');
    assert(lower(w) != "all"@) by {
        if lower(w) == "all"@ {
            assert("all"@[0] == 'a');
        }
    }
    // the selections
    assert forall|x: usize| selected_windows(ids, WindowSelectModel::Indices(seq![i])).contains(x) <==> x == i by {
        assert(seq![i][0] == i);
    }
    assert(selected_windows(ids, WindowSelectModel::Indices(seq![i])) =~= set![i]);
    assert(selected_windows(ids, WindowSelectModel::Range(i, i)) =~= set![i]);
}

/// The thread a node lies in: the node itself for a thread, else the
/// thread of its parent (0 when there is none).
pub open spec fn thread_of<T>(g: &ProfileGraph<T>, d: u32) -> u32
    decreases d,
{
    match g.node(d) {
        None => 0,
        Some(n) => if n.is_thread {
            d
        } else if g.parents(d).len() == 1 && g.parents(d)[0] < d {
            thread_of(g, g.parents(d)[0])
        } else {
            0
        },
    }
}

proof fn lemma_thread_has_no_ancestor<T>(data: SamplerData<T>, g: &ProfileGraph<T>, t: u32, a: u32)
    requires
        sampler_fits(data),
        g.entries() == sampler_entries(data),
        g.node(t) is Some,
        g.node(t)->0.is_thread,
    ensures
        !is_ancestor(g, t, a),
{
    law_parents_and_children_agree(data, g);
    crate::views::lemma_ancestor_unfold(g, t, a);
    assert(g.parents(t).len() == 0);
}

/// A frame's thread is a thread of the graph.
proof fn lemma_thread_of<T>(data: SamplerData<T>, g: &ProfileGraph<T>, d: u32)
    requires
        sampler_fits(data),
        g.entries() == sampler_entries(data),
        g.node(d) is Some,
        !g.node(d)->0.is_thread,
    ensures
        g.node(thread_of(g, d)) is Some && g.node(thread_of(g, d))->0.is_thread,
    decreases d,
{
    law_parents_and_children_agree(data, g);
    assert(g.node(d) is Some);
    let q = g.parents(d)[0];
    assert(is_child(g, q, d));
    assert(g.node(q) is Some);
    assert(thread_of(g, d) == thread_of(g, q));
    if !g.node(q)->0.is_thread {
        lemma_thread_of(data, g, q);
    }
}

/// Above a frame lie, among the threads, exactly the thread it lies in.
proof fn lemma_ancestor_thread<T>(data: SamplerData<T>, g: &ProfileGraph<T>, d: u32, t: u32)
    requires
        sampler_fits(data),
        g.entries() == sampler_entries(data),
        g.node(d) is Some,
        !g.node(d)->0.is_thread,
        g.node(t) is Some,
        g.node(t)->0.is_thread,
    ensures
        is_ancestor(g, d, t) <==> t == thread_of(g, d),
    decreases d,
{
    law_parents_and_children_agree(data, g);
    assert(g.node(d) is Some);
    let q = g.parents(d)[0];
    assert(is_child(g, q, d));
    assert(g.node(q) is Some);
    assert(thread_of(g, d) == thread_of(g, q));
    crate::views::lemma_ancestor_unfold(g, d, t);
    assert forall|x: u32| crate::views::is_parent(g, d, x) <==> x == q by {
        assert(g.parents(d) == seq![q]);
        if x == q {
            assert(g.parents(d)[0] == q);
        }
    }
    if g.node(q)->0.is_thread {
        lemma_thread_has_no_ancestor(data, g, q, t);
        assert(thread_of(g, q) == q);
    } else {
        lemma_ancestor_thread(data, g, q, t);
    }
    if is_ancestor(g, d, t) {
        let x = choose|x: u32| #![trigger crate::views::is_parent(g, d, x)] crate::views::is_parent(g, d, x) && (x
            == t || is_ancestor(g, x, t));
        assert(x == q);
    }
    if t == thread_of(g, d) {
        assert(crate::views::is_parent(g, d, q));
        assert(q == t || is_ancestor(g, q, t));
    }
}

/// The graph of a sampler upload is shaped as its threads unfold: the ids
/// run from 1 to the number of nodes, each node holding its own id and some
/// times; every child is a node; and every frame lies under exactly one of
/// the threads.
pub proof fn law_graph_shape<T>(data: SamplerData<T>, g: &ProfileGraph<T>)
    requires
        sampler_fits(data),
        g.entries() == sampler_entries(data),
        g.thread_seq() == crate::graph::sampler_thread_ids(data).map_values(|id: u32| g.node_seq()[id - 1]),
    ensures
        forall|id: u32| (#[trigger] g.node(id)) is Some <==> 1 <= id <= g.node_seq().len(),
        forall|id: u32|
            (#[trigger] g.node(id)) is Some ==> g.node(id)->0.id == id && g.node(id)->0.times.len() > 0,
        forall|a: u32, c: u32| #[trigger] is_child(g, a, c) ==> g.node(c) is Some,
        forall|d: u32|
            (#[trigger] g.node(d)) is Some && !g.node(d)->0.is_thread ==> exists|k: int|
                0 <= k < g.thread_seq().len() && is_descendant(g, #[trigger] g.thread_seq()[k].id, d) && forall|
                    k2: int,
                |
                    0 <= k2 < g.thread_seq().len() && is_descendant(g, #[trigger] g.thread_seq()[k2].id, d)
                        ==> g.thread_seq()[k2].id == g.thread_seq()[k].id,
{
    let ts = data.threads@;
    let fs = thread_frames(ts);
    let roots = forest_roots(fs, 1);
    lemma_thread_links(ts);
    law_parents_and_children_agree(data, g);
    crate::graph::lemma_forest_entries_len(fs, 1, 0);
    assert forall|k: int| 0 <= k < fs.len() implies (#[trigger] fs[k]).is_thread by {
        crate::links::lemma_thread_frames_each(ts);
        crate::links::lemma_thread_children_plain(ts[k]);
    }
    crate::graph::lemma_forest_shaped(fs, 1, 0, 1);
    let e = g.entries();
    assert(e == forest_entries(fs, 1, 0));
    assert forall|id: u32| (#[trigger] g.node(id)) is Some implies g.node(id)->0.id == id && g.node(id)->0.times.len()
        > 0 by {
        let k = id - 1;
        assert(e[k].0 == g.node_seq()[k]);
        assert(crate::graph::entry_shaped(e, 1, 1, k));
        assert(crate::links::node_ok(e, 1, roots, k));
    }
    assert forall|a: u32, c: u32| #[trigger] is_child(g, a, c) implies g.node(c) is Some by {
        let k = a - 1;
        assert(e[k].0 == g.node_seq()[k]);
        assert(children_ok(e, 1, k));
        let n = g.node(a)->0;
        let j = choose|j: int| 0 <= j < n.children.len() && n.children[j] == c;
        assert(e[k].0.children[j] == c);
    }
    assert forall|d: u32| (#[trigger] g.node(d)) is Some && !g.node(d)->0.is_thread implies exists|k: int|
        0 <= k < g.thread_seq().len() && is_descendant(g, #[trigger] g.thread_seq()[k].id, d) && forall|k2: int|
            0 <= k2 < g.thread_seq().len() && is_descendant(g, #[trigger] g.thread_seq()[k2].id, d)
                ==> g.thread_seq()[k2].id == g.thread_seq()[k].id by {
        let t0 = thread_of(g, d);
        lemma_thread_of(data, g, d);
        // t0 is a thread node, so it is one of the roots
        let k0 = t0 - 1;
        assert(e[k0].0 == g.node_seq()[k0]);
        assert(crate::links::node_ok(e, 1, roots, k0));
        let j = choose|j: int| 0 <= j < roots.len() && roots[j] == (1 + k0) as u32;
        assert(g.thread_seq()[j] == g.node_seq()[roots[j] - 1]);
        assert(g.node(t0)->0.id == t0);
        assert(g.thread_seq()[j].id == t0);
        lemma_ancestor_thread(data, g, d, t0);
        law_ancestors_mirror_descendants(data, g, t0, d);
        assert(is_descendant(g, g.thread_seq()[j].id, d));
        assert forall|k2: int|
            0 <= k2 < g.thread_seq().len() && is_descendant(g, #[trigger] g.thread_seq()[k2].id, d) implies g.thread_seq()[k2].id
                == g.thread_seq()[j].id by {
            let t2 = roots[k2];
            assert(g.thread_seq()[k2] == g.node_seq()[t2 - 1]);
            assert(e[t2 - 1].0.is_thread);
            assert(e[t2 - 1].0 == g.node_seq()[t2 - 1]);
            assert(g.node(t2) is Some);
            assert(g.node(t2)->0.id == t2);
            law_ancestors_mirror_descendants(data, g, t2, d);
            lemma_ancestor_thread(data, g, d, t2);
        }
    }
}

} // verus!
