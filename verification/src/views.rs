//! What the profile views show: which nodes the filters keep visible,
//! which threads pass the thread filter, and how frames are attributed to
//! plugins and mods.
use std::collections::HashSet;
use vstd::prelude::*;
use crate::filter::{FilterOpts, node_texts, pat_models, text_allowed};
use crate::graph::{Node, NodeView, ProfileGraph};
use crate::pattern::pat_matches;
use crate::text::{contains, decimal, ends_with, lower, starts_with};
use crate::graph::{node_key, node_label};
use crate::sort::{sort_strings, sorted_texts, texts};

verus! {

/// Which profile view to show.
#[derive(Debug, Clone, Copy, PartialEq, Eq, Structural)]
pub enum ProfileView {
    All,
    Flat,
    Sources,
    Flame,
    Summary,
}

/// Flat view: self time or total time per method.
#[derive(Debug, Clone, Copy, PartialEq, Eq, Structural)]
pub enum FlatMode {
    SelfTime,
    TotalTime,
}

/// Sources view: merge equal methods or keep each frame apart.
#[derive(Debug, Clone, Copy, PartialEq, Eq, Structural)]
pub enum SourcesMode {
    Merge,
    Separate,
}

// ---------------------------------------------------------------------------
// paths through the graph

/// `c` is a child of `a`.
pub open spec fn is_child<T>(g: &ProfileGraph<T>, a: u32, c: u32) -> bool {
    match g.node(a) {
        Some(n) => n.children.contains(c),
        None => false,
    }
}

/// `q` is a parent of `d`.
pub open spec fn is_parent<T>(g: &ProfileGraph<T>, d: u32, q: u32) -> bool {
    g.parents(d).contains(q)
}

pub open spec fn child_step<T>(g: &ProfileGraph<T>, p: Seq<u32>, i: int) -> bool {
    is_child(g, p[i], p[i + 1])
}

pub open spec fn parent_step<T>(g: &ProfileGraph<T>, p: Seq<u32>, i: int) -> bool {
    is_parent(g, p[i], p[i + 1])
}

/// `p` goes from node to child at every step.
pub open spec fn is_child_path<T>(g: &ProfileGraph<T>, p: Seq<u32>) -> bool {
    forall|i: int| 0 <= i < p.len() - 1 ==> #[trigger] child_step(g, p, i)
}

/// `p` goes from node to parent at every step.
pub open spec fn is_parent_path<T>(g: &ProfileGraph<T>, p: Seq<u32>) -> bool {
    forall|i: int| 0 <= i < p.len() - 1 ==> #[trigger] parent_step(g, p, i)
}

/// `d` lies below `a`: a path of one or more child steps leads from `a`
/// to `d`.
pub open spec fn is_descendant<T>(g: &ProfileGraph<T>, a: u32, d: u32) -> bool {
    exists|p: Seq<u32>|
        #![trigger is_child_path(g, p)]
        p.len() >= 2 && p[0] == a && p[p.len() - 1] == d && is_child_path(g, p)
}

/// `a` lies above `d`: a path of one or more parent steps leads from `d`
/// to `a`.
pub open spec fn is_ancestor<T>(g: &ProfileGraph<T>, d: u32, a: u32) -> bool {
    exists|p: Seq<u32>|
        #![trigger is_parent_path(g, p)]
        p.len() >= 2 && p[0] == d && p[p.len() - 1] == a && is_parent_path(g, p)
}

pub open spec fn descendants<T>(g: &ProfileGraph<T>, a: u32) -> Set<u32> {
    Set::new(|d: u32| is_descendant(g, a, d))
}

pub open spec fn ancestors<T>(g: &ProfileGraph<T>, d: u32) -> Set<u32> {
    Set::new(|a: u32| is_ancestor(g, d, a))
}

/// Below `a` lie its children and what lies below them.
pub proof fn lemma_descendant_unfold<T>(g: &ProfileGraph<T>, a: u32, d: u32)
    ensures
        is_descendant(g, a, d) <==> exists|c: u32|
            #![trigger is_child(g, a, c)]
            is_child(g, a, c) && (c == d || is_descendant(g, c, d)),
{
    if is_descendant(g, a, d) {
        let p = choose|p: Seq<u32>|
            #![trigger is_child_path(g, p)]
            p.len() >= 2 && p[0] == a && p[p.len() - 1] == d && is_child_path(g, p);
        assert(child_step(g, p, 0));
        let c = p[1];
        if p.len() > 2 {
            let q = p.skip(1);
            assert forall|i: int| 0 <= i < q.len() - 1 implies #[trigger] child_step(g, q, i) by {
                assert(child_step(g, p, i + 1));
            }
            assert(is_child_path(g, q));
        }
    }
    if exists|c: u32| #![trigger is_child(g, a, c)] is_child(g, a, c) && (c == d || is_descendant(g, c, d)) {
        let c = choose|c: u32| #![trigger is_child(g, a, c)] is_child(g, a, c) && (c == d || is_descendant(g, c, d));
        if c == d {
            let p = seq![a, d];
            assert(child_step(g, p, 0));
            assert(is_child_path(g, p));
        } else {
            let q = choose|p: Seq<u32>|
                #![trigger is_child_path(g, p)]
                p.len() >= 2 && p[0] == c && p[p.len() - 1] == d && is_child_path(g, p);
            let p = seq![a] + q;
            assert forall|i: int| 0 <= i < p.len() - 1 implies #[trigger] child_step(g, p, i) by {
                if i > 0 {
                    assert(child_step(g, q, i - 1));
                }
            }
            assert(is_child_path(g, p));
        }
    }
}

/// Above `d` lie its parents and what lies above them.
pub proof fn lemma_ancestor_unfold<T>(g: &ProfileGraph<T>, d: u32, a: u32)
    ensures
        is_ancestor(g, d, a) <==> exists|q: u32|
            #![trigger is_parent(g, d, q)]
            is_parent(g, d, q) && (q == a || is_ancestor(g, q, a)),
{
    if is_ancestor(g, d, a) {
        let p = choose|p: Seq<u32>|
            #![trigger is_parent_path(g, p)]
            p.len() >= 2 && p[0] == d && p[p.len() - 1] == a && is_parent_path(g, p);
        assert(parent_step(g, p, 0));
        if p.len() > 2 {
            let q = p.skip(1);
            assert forall|i: int| 0 <= i < q.len() - 1 implies #[trigger] parent_step(g, q, i) by {
                assert(parent_step(g, p, i + 1));
            }
            assert(is_parent_path(g, q));
        }
    }
    if exists|q: u32| #![trigger is_parent(g, d, q)] is_parent(g, d, q) && (q == a || is_ancestor(g, q, a)) {
        let q = choose|q: u32| #![trigger is_parent(g, d, q)] is_parent(g, d, q) && (q == a || is_ancestor(g, q, a));
        if q == a {
            let p = seq![d, a];
            assert(parent_step(g, p, 0));
            assert(is_parent_path(g, p));
        } else {
            let r = choose|p: Seq<u32>|
                #![trigger is_parent_path(g, p)]
                p.len() >= 2 && p[0] == q && p[p.len() - 1] == a && is_parent_path(g, p);
            let p = seq![d] + r;
            assert forall|i: int| 0 <= i < p.len() - 1 implies #[trigger] parent_step(g, p, i) by {
                if i > 0 {
                    assert(parent_step(g, r, i - 1));
                }
            }
            assert(is_parent_path(g, p));
        }
    }
}

/// `x` is `c` or lies below it.
pub open spec fn covers_below<T>(g: &ProfileGraph<T>, c: u32, x: u32) -> bool {
    x == c || is_descendant(g, c, x)
}

/// `x` is `q` or lies above it.
pub open spec fn covers_above<T>(g: &ProfileGraph<T>, q: u32, x: u32) -> bool {
    x == q || is_ancestor(g, q, x)
}

pub open spec fn below_some<T>(g: &ProfileGraph<T>, ch: Seq<u32>, k: int, x: u32) -> bool {
    exists|j: int| 0 <= j < k && #[trigger] covers_below(g, ch[j], x)
}

pub open spec fn above_some<T>(g: &ProfileGraph<T>, pl: Seq<u32>, k: int, x: u32) -> bool {
    exists|j: int| 0 <= j < k && #[trigger] covers_above(g, pl[j], x)
}

proof fn lemma_below_some_step<T>(g: &ProfileGraph<T>, ch: Seq<u32>, k: int, x: u32)
    requires
        0 <= k < ch.len(),
    ensures
        below_some(g, ch, k + 1, x) <==> (below_some(g, ch, k, x) || covers_below(g, ch[k], x)),
{
    if below_some(g, ch, k + 1, x) {
        let j = choose|j: int| 0 <= j < k + 1 && #[trigger] covers_below(g, ch[j], x);
        if j < k {
            assert(below_some(g, ch, k, x));
        }
    }
    if below_some(g, ch, k, x) {
        let j = choose|j: int| 0 <= j < k && #[trigger] covers_below(g, ch[j], x);
        assert(0 <= j < k + 1 && covers_below(g, ch[j], x));
    }
    if covers_below(g, ch[k], x) {
        assert(0 <= k < k + 1 && covers_below(g, ch[k], x));
    }
}

proof fn lemma_above_some_step<T>(g: &ProfileGraph<T>, pl: Seq<u32>, k: int, x: u32)
    requires
        0 <= k < pl.len(),
    ensures
        above_some(g, pl, k + 1, x) <==> (above_some(g, pl, k, x) || covers_above(g, pl[k], x)),
{
    if above_some(g, pl, k + 1, x) {
        let j = choose|j: int| 0 <= j < k + 1 && #[trigger] covers_above(g, pl[j], x);
        if j < k {
            assert(above_some(g, pl, k, x));
        }
    }
    if above_some(g, pl, k, x) {
        let j = choose|j: int| 0 <= j < k && #[trigger] covers_above(g, pl[j], x);
        assert(0 <= j < k + 1 && covers_above(g, pl[j], x));
    }
    if covers_above(g, pl[k], x) {
        assert(0 <= k < k + 1 && covers_above(g, pl[k], x));
    }
}

/// Below a node lie exactly its children and what lies below them.
proof fn lemma_below_children<T>(g: &ProfileGraph<T>, id: u32, ch: Seq<u32>, x: u32)
    requires
        g.node(id) matches Some(n) && n.children == ch,
    ensures
        below_some(g, ch, ch.len() as int, x) <==> is_descendant(g, id, x),
{
    lemma_descendant_unfold(g, id, x);
    if is_descendant(g, id, x) {
        let c = choose|c: u32| #![trigger is_child(g, id, c)] is_child(g, id, c) && (c == x || is_descendant(g, c, x));
        assert(ch.contains(c));
        let j = choose|j: int| 0 <= j < ch.len() && ch[j] == c;
        assert(covers_below(g, ch[j], x));
    }
    if below_some(g, ch, ch.len() as int, x) {
        let j = choose|j: int| 0 <= j < ch.len() && #[trigger] covers_below(g, ch[j], x);
        assert(ch.contains(ch[j]));
        assert(is_child(g, id, ch[j]));
    }
}

/// Above a node lie exactly its parents and what lies above them.
proof fn lemma_above_parents<T>(g: &ProfileGraph<T>, id: u32, pl: Seq<u32>, x: u32)
    requires
        g.parents(id) == pl,
    ensures
        above_some(g, pl, pl.len() as int, x) <==> is_ancestor(g, id, x),
{
    lemma_ancestor_unfold(g, id, x);
    if is_ancestor(g, id, x) {
        let q = choose|q: u32| #![trigger is_parent(g, id, q)] is_parent(g, id, q) && (q == x || is_ancestor(g, q, x));
        assert(pl.contains(q));
        let j = choose|j: int| 0 <= j < pl.len() && pl[j] == q;
        assert(covers_above(g, pl[j], x));
    }
    if above_some(g, pl, pl.len() as int, x) {
        let j = choose|j: int| 0 <= j < pl.len() && #[trigger] covers_above(g, pl[j], x);
        assert(pl.contains(pl[j]));
        assert(is_parent(g, id, pl[j]));
    }
}

/// Adds everything below node `id`.
fn add_descendants<T>(graph: &ProfileGraph<T>, id: u32, acc: &mut HashSet<u32>)
    ensures
        final(acc)@ == old(acc)@.union(descendants(graph, id)),
    decreases graph.node_seq().len() - id,
{
    broadcast use vstd::std_specs::hash::group_hash_axioms;
    proof {
        use_type_invariant(graph);
    }
    let node = match graph.get(id) {
        Some(n) => n,
        None => {
            proof {
                assert forall|d: u32| !is_descendant(graph, id, d) by {
                    lemma_descendant_unfold(graph, id, d);
                }
                assert(acc@ =~= old(acc)@.union(descendants(graph, id)));
            }
            return;
        },
    };
    proof {
        graph.lemma_node_shape(id);
        assert(node@ == graph.node_seq()[id - 1]);
    }
    let ghost ch = node.children@;
    assert forall|j: int| 0 <= j < ch.len() implies id < #[trigger] ch[j] <= graph.node_seq().len() by {
        assert(ch[j] == graph.node_seq()[id - 1].children[j]);
    }
    let m = node.children.len();
    for k in 0..m
        invariant
            m == ch.len(),
            ch == node.children@,
            graph.node(id) == Some(node@),
            forall|j: int| 0 <= j < ch.len() ==> id < #[trigger] ch[j] <= graph.node_seq().len(),
            acc@ == old(acc)@.union(Set::new(|x: u32| below_some(graph, ch, k as int, x))),
    {
        let c = node.children[k];
        let ghost before = acc@;
        acc.insert(c);
        add_descendants(graph, c, acc);
        proof {
            assert forall|x: u32| acc@.contains(x) <==> old(acc)@.union(
                Set::new(|x: u32| below_some(graph, ch, k + 1, x)),
            ).contains(x) by {
                lemma_below_some_step(graph, ch, k as int, x);
            }
            assert(acc@ =~= old(acc)@.union(Set::new(|x: u32| below_some(graph, ch, k + 1, x))));
        }
    }
    proof {
        assert forall|x: u32| below_some(graph, ch, m as int, x) <==> is_descendant(graph, id, x) by {
            lemma_below_children(graph, id, ch, x);
        }
        assert(acc@ =~= old(acc)@.union(descendants(graph, id)));
    }
}

/// Adds everything above node `id`.
fn add_ancestors<T>(graph: &ProfileGraph<T>, id: u32, acc: &mut HashSet<u32>)
    ensures
        final(acc)@ == old(acc)@.union(ancestors(graph, id)),
    decreases id,
{
    broadcast use vstd::std_specs::hash::group_hash_axioms;
    proof {
        use_type_invariant(graph);
    }
    let ps = match graph.parents_of(id) {
        Some(ps) => ps,
        None => {
            proof {
                assert forall|a: u32| !is_ancestor(graph, id, a) by {
                    lemma_ancestor_unfold(graph, id, a);
                }
                assert(acc@ =~= old(acc)@.union(ancestors(graph, id)));
            }
            return;
        },
    };
    proof {
        graph.lemma_node_shape(id);
    }
    let ghost pl = ps@;
    let m = ps.len();
    for k in 0..m
        invariant
            m == pl.len(),
            pl == ps@,
            pl == graph.parents(id),
            1 <= id <= graph.node_seq().len(),
            forall|j: int| 0 <= j < pl.len() ==> 1 <= #[trigger] pl[j] < id,
            acc@ == old(acc)@.union(Set::new(|x: u32| above_some(graph, pl, k as int, x))),
    {
        let q = ps[k];
        let ghost before = acc@;
        acc.insert(q);
        add_ancestors(graph, q, acc);
        proof {
            assert forall|x: u32| acc@.contains(x) <==> old(acc)@.union(
                Set::new(|x: u32| above_some(graph, pl, k + 1, x)),
            ).contains(x) by {
                lemma_above_some_step(graph, pl, k as int, x);
            }
            assert(acc@ =~= old(acc)@.union(Set::new(|x: u32| above_some(graph, pl, k + 1, x))));
        }
    }
    proof {
        assert forall|x: u32| above_some(graph, pl, m as int, x) <==> is_ancestor(graph, id, x) by {
            lemma_above_parents(graph, id, pl, x);
        }
        assert(acc@ =~= old(acc)@.union(ancestors(graph, id)));
    }
}

// ---------------------------------------------------------------------------
// filters on nodes

pub open spec fn string_opt_view(s: Option<String>) -> Option<Seq<char>> {
    match s {
        Some(v) => Some(v@),
        None => None,
    }
}

/// Whether a node passes the search and the include/exclude filters. A
/// thread is searched by name; a frame by class, method and plugin or mod,
/// ASCII case-insensitively.
pub open spec fn node_matches<T>(g: &ProfileGraph<T>, f: &FilterOpts, id: u32) -> bool {
    match g.node(id) {
        None => false,
        Some(n) => {
            let src = g.source(id);
            let searched = match string_opt_view(f.search) {
                None => true,
                Some(q) => if n.is_thread {
                    contains(lower(n.name), q)
                } else {
                    contains(lower(n.class_name), q) || contains(lower(n.method_name), q) || (
                    src matches Some(s) && contains(lower(s), q))
                },
            };
            searched && if n.is_thread {
                text_allowed(
                    pat_models(f.includes@),
                    pat_models(f.excludes@),
                    node_texts(n.name, Seq::empty(), src),
                )
            } else {
                text_allowed(
                    pat_models(f.includes@),
                    pat_models(f.excludes@),
                    node_texts(n.class_name, n.method_name, src),
                )
            }
        },
    }
}

/// A node exists and its name passes the thread filter.
pub open spec fn thread_passes<T>(g: &ProfileGraph<T>, f: &FilterOpts, id: u32) -> bool {
    match g.node(id) {
        None => false,
        Some(n) => match f.thread {
            None => true,
            Some(p) => pat_matches(p@, n.name),
        },
    }
}

/// Whether the node exists and its name passes the thread filter.
pub fn thread_allowed<T>(graph: &ProfileGraph<T>, id: u32, filter: &FilterOpts) -> (r: bool)
    ensures
        r == thread_passes(graph, filter, id),
{
    let n = match graph.get(id) {
        Some(n) => n,
        None => {
            return false;
        },
    };
    if let Some(pat) = &filter.thread {
        if !pat.is_match(n.name.as_str()) {
            return false;
        }
    }
    true
}

fn matches_filters<T>(graph: &ProfileGraph<T>, node: &Node<T>, filter: &FilterOpts) -> (r: bool)
    requires
        graph.node(node.id) == Some(node@),
    ensures
        r == node_matches(graph, filter, node.id),
{
    let source = graph.source_of(node.id);
    if node.is_thread {
        if let Some(q) = &filter.search {
            let l = crate::text::to_ascii_lowercase(node.name.as_str());
            if !crate::text::str_contains(l.as_str(), q.as_str()) {
                return false;
            }
        }
        let r = filter.node_text_allowed(node.name.as_str(), "", source);
        proof {
            reveal_strlit("");
            assert(""@ =~= Seq::<char>::empty());
            assert(crate::filter::opt_view(source) == graph.source(node.id));
        }
        return r;
    }
    if let Some(q) = &filter.search {
        let lc = crate::text::to_ascii_lowercase(node.class_name.as_str());
        let lm = crate::text::to_ascii_lowercase(node.method_name.as_str());
        let ok = crate::text::str_contains(lc.as_str(), q.as_str()) || crate::text::str_contains(
            lm.as_str(),
            q.as_str(),
        ) || match source {
            Some(s) => {
                let ls = crate::text::to_ascii_lowercase(s);
                crate::text::str_contains(ls.as_str(), q.as_str())
            },
            None => false,
        };
        if !ok {
            return false;
        }
    }
    let r = filter.node_text_allowed(node.class_name.as_str(), node.method_name.as_str(), source);
    proof {
        assert(crate::filter::opt_view(source) == graph.source(node.id));
    }
    r
}

/// Whether a node passes `--include` / `--exclude` (threads always do).
pub open spec fn include_exclude_pass<T>(g: &ProfileGraph<T>, f: &FilterOpts, id: u32) -> bool {
    match g.node(id) {
        None => false,
        Some(n) => n.is_thread || text_allowed(
            pat_models(f.includes@),
            pat_models(f.excludes@),
            node_texts(n.class_name, n.method_name, g.source(id)),
        ),
    }
}

/// Whether a node passes `--include` / `--exclude` (threads always do).
pub fn passes_include_exclude<T>(graph: &ProfileGraph<T>, id: u32, filter: &FilterOpts) -> (r: bool)
    ensures
        r == include_exclude_pass(graph, filter, id),
{
    let node = match graph.get(id) {
        Some(n) => n,
        None => {
            return false;
        },
    };
    if node.is_thread {
        return true;
    }
    let src = graph.source_of(id);
    let r = filter.node_text_allowed(node.class_name.as_str(), node.method_name.as_str(), src);
    proof {
        assert(crate::filter::opt_view(src) == graph.source(id));
    }
    r
}

// ---------------------------------------------------------------------------
// search

/// `m` is `r` or lies below it.
pub open spec fn in_subtree<T>(g: &ProfileGraph<T>, r: u32, m: u32) -> bool {
    m == r || is_descendant(g, r, m)
}

/// `x` is shown because of the matching node `m`: it is `m`, lies below it
/// or lies above it.
pub open spec fn hit_by<T>(g: &ProfileGraph<T>, f: &FilterOpts, m: u32, x: u32) -> bool {
    node_matches(g, f, m) && (x == m || is_descendant(g, m, x) || is_ancestor(g, m, x))
}

/// `x` is shown because of some matching node at or below `r`.
pub open spec fn walk_hit<T>(g: &ProfileGraph<T>, f: &FilterOpts, r: u32, x: u32) -> bool {
    exists|m: u32| #![trigger hit_by(g, f, m, x)] in_subtree(g, r, m) && hit_by(g, f, m, x)
}

pub open spec fn walk_some<T>(g: &ProfileGraph<T>, f: &FilterOpts, ch: Seq<u32>, k: int, x: u32) -> bool {
    exists|j: int| 0 <= j < k && #[trigger] walk_hit(g, f, ch[j], x)
}

proof fn lemma_walk_some_step<T>(g: &ProfileGraph<T>, f: &FilterOpts, ch: Seq<u32>, k: int, x: u32)
    requires
        0 <= k < ch.len(),
    ensures
        walk_some(g, f, ch, k + 1, x) <==> (walk_some(g, f, ch, k, x) || walk_hit(g, f, ch[k], x)),
{
    if walk_some(g, f, ch, k + 1, x) {
        let j = choose|j: int| 0 <= j < k + 1 && #[trigger] walk_hit(g, f, ch[j], x);
        if j < k {
            assert(walk_some(g, f, ch, k, x));
        }
    }
    if walk_some(g, f, ch, k, x) {
        let j = choose|j: int| 0 <= j < k && #[trigger] walk_hit(g, f, ch[j], x);
        assert(0 <= j < k + 1 && walk_hit(g, f, ch[j], x));
    }
    if walk_hit(g, f, ch[k], x) {
        assert(0 <= k < k + 1 && walk_hit(g, f, ch[k], x));
    }
}

proof fn lemma_walk_children<T>(g: &ProfileGraph<T>, f: &FilterOpts, id: u32, ch: Seq<u32>, x: u32)
    requires
        g.node(id) matches Some(n) && n.children == ch,
    ensures
        walk_hit(g, f, id, x) <==> (hit_by(g, f, id, x) || walk_some(g, f, ch, ch.len() as int, x)),
{
    if walk_hit(g, f, id, x) {
        let m = choose|m: u32| #![trigger hit_by(g, f, m, x)] in_subtree(g, id, m) && hit_by(g, f, m, x);
        if m != id {
            lemma_descendant_unfold(g, id, m);
            let c = choose|c: u32| #![trigger is_child(g, id, c)] is_child(g, id, c) && (c == m || is_descendant(g, c, m));
            assert(ch.contains(c));
            let j = choose|j: int| 0 <= j < ch.len() && ch[j] == c;
            assert(in_subtree(g, ch[j], m));
            assert(walk_hit(g, f, ch[j], x));
        }
    }
    if hit_by(g, f, id, x) {
        assert(in_subtree(g, id, id));
    }
    if walk_some(g, f, ch, ch.len() as int, x) {
        let j = choose|j: int| 0 <= j < ch.len() && #[trigger] walk_hit(g, f, ch[j], x);
        let m = choose|m: u32| #![trigger hit_by(g, f, m, x)] in_subtree(g, ch[j], m) && hit_by(g, f, m, x);
        assert(ch.contains(ch[j]));
        assert(is_child(g, id, ch[j]));
        lemma_descendant_unfold(g, id, m);
        assert(in_subtree(g, id, m));
    }
}

/// Adds every node shown because of a match at or below node `id`.
fn walk_search<T>(graph: &ProfileGraph<T>, id: u32, filter: &FilterOpts, acc: &mut HashSet<u32>)
    ensures
        final(acc)@ == old(acc)@.union(Set::new(|x: u32| walk_hit(graph, filter, id, x))),
    decreases graph.node_seq().len() - id,
{
    broadcast use vstd::std_specs::hash::group_hash_axioms;
    proof {
        use_type_invariant(graph);
    }
    let node = match graph.get(id) {
        Some(n) => n,
        None => {
            proof {
                assert forall|x: u32| !walk_hit(graph, filter, id, x) by {
                    if walk_hit(graph, filter, id, x) {
                        let m = choose|m: u32| #![trigger hit_by(graph, filter, m, x)] in_subtree(graph, id, m) && hit_by(graph, filter, m, x);
                        if m != id {
                            lemma_descendant_unfold(graph, id, m);
                        }
                    }
                }
                assert(acc@ =~= old(acc)@.union(Set::new(|x: u32| walk_hit(graph, filter, id, x))));
            }
            return;
        },
    };
    proof {
        graph.lemma_node_shape(id);
        assert(node@ == graph.node_seq()[id - 1]);
    }
    let matched = matches_filters(graph, node, filter);
    if matched {
        acc.insert(id);
        add_descendants(graph, id, acc);
        add_ancestors(graph, id, acc);
    }
    let ghost start = acc@;
    proof {
        assert forall|x: u32| start.contains(x) <==> (old(acc)@.contains(x) || hit_by(graph, filter, id, x)) by {
        }
    }
    let ghost ch = node.children@;
    assert forall|j: int| 0 <= j < ch.len() implies id < #[trigger] ch[j] <= graph.node_seq().len() by {
        assert(ch[j] == graph.node_seq()[id - 1].children[j]);
    }
    let m = node.children.len();
    for k in 0..m
        invariant
            m == ch.len(),
            ch == node.children@,
            graph.node(id) == Some(node@),
            forall|j: int| 0 <= j < ch.len() ==> id < #[trigger] ch[j] <= graph.node_seq().len(),
            acc@ == start.union(Set::new(|x: u32| walk_some(graph, filter, ch, k as int, x))),
    {
        let c = node.children[k];
        walk_search(graph, c, filter, acc);
        proof {
            assert forall|x: u32| acc@.contains(x) <==> start.union(
                Set::new(|x: u32| walk_some(graph, filter, ch, k + 1, x)),
            ).contains(x) by {
                lemma_walk_some_step(graph, filter, ch, k as int, x);
            }
            assert(acc@ =~= start.union(Set::new(|x: u32| walk_some(graph, filter, ch, k + 1, x))));
        }
    }
    proof {
        assert forall|x: u32| acc@.contains(x) <==> old(acc)@.union(Set::new(|x: u32| walk_hit(graph, filter, id, x))).contains(x) by {
            lemma_walk_children(graph, filter, id, ch, x);
        }
        assert(acc@ =~= old(acc)@.union(Set::new(|x: u32| walk_hit(graph, filter, id, x))));
    }
}

/// Some text filter (search, include, exclude) is set.
pub open spec fn filters_text(f: &FilterOpts) -> bool {
    f.search is Some || f.includes@.len() > 0 || f.excludes@.len() > 0
}

/// `x` is shown for thread `t`: with text filters, because of a match at or
/// below the thread; with only a thread filter, because it is the thread or
/// lies below it.
pub open spec fn shown_for_thread<T>(g: &ProfileGraph<T>, f: &FilterOpts, t: u32, x: u32) -> bool {
    thread_passes(g, f, t) && if filters_text(f) {
        walk_hit(g, f, t, x)
    } else {
        x == t || is_descendant(g, t, x)
    }
}

pub open spec fn shown_for_threads<T>(g: &ProfileGraph<T>, f: &FilterOpts, k: int, x: u32) -> bool {
    exists|j: int| 0 <= j < k && #[trigger] shown_for_thread(g, f, g.thread_seq()[j].id, x)
}

/// The nodes the filters leave visible: `None` (everything) without any
/// filter; else, over the threads that pass the thread filter, each node
/// that matches the search and include/exclude filters with everything
/// above and below it (the whole thread when only the thread filter is
/// set).
pub open spec fn visible_nodes<T>(g: &ProfileGraph<T>, f: &FilterOpts) -> Option<Set<u32>> {
    if !filters_text(f) && f.thread is None {
        None
    } else {
        Some(Set::new(|x: u32| shown_for_threads(g, f, g.thread_seq().len() as int, x)))
    }
}

/// The nodes left visible by the filters: every node that matches the
/// search and include/exclude filters, with everything above and below it,
/// in the threads that pass the thread filter; `None` without filters.
pub fn resolve_visibility<T>(graph: &ProfileGraph<T>, filter: &FilterOpts, _windows: &HashSet<usize>) -> (r: Option<
    HashSet<u32>,
>)
    ensures
        match r {
            Some(s) => visible_nodes(graph, filter) == Some(s@),
            None => visible_nodes(graph, filter) is None,
        },
{
    broadcast use vstd::std_specs::hash::group_hash_axioms;
    let need_search = filter.search.is_some() || filter.includes.len() > 0 || filter.excludes.len() > 0;
    if !need_search && filter.thread.is_none() {
        return None;
    }
    let mut acc: HashSet<u32> = HashSet::new();
    let threads = graph.threads();
    let ghost tv = graph.thread_seq();
    let n = threads.len();
    proof {
        assert(tv.len() == n);
    }
    for k in 0..n
        invariant
            n == tv.len(),
            tv == graph.thread_seq(),
            threads@.map_values(|t: Node<T>| t@) == tv,
            need_search == filters_text(filter),
            acc@ == Set::new(|x: u32| shown_for_threads(graph, filter, k as int, x)),
    {
        let tid = threads[k].id;
        assert(tv[k as int].id == tid);
        let ghost before = acc@;
        if thread_allowed(graph, tid, filter) {
            if !need_search {
                add_descendants(graph, tid, &mut acc);
                acc.insert(tid);
            } else {
                walk_search(graph, tid, filter, &mut acc);
            }
        }
        proof {
            assert forall|x: u32| acc@.contains(x) <==> shown_for_threads(graph, filter, k + 1, x) by {
                if shown_for_threads(graph, filter, k + 1, x) {
                    let j = choose|j: int| 0 <= j < k + 1 && #[trigger] shown_for_thread(graph, filter, graph.thread_seq()[j].id, x);
                    if j < k {
                        assert(shown_for_threads(graph, filter, k as int, x));
                    }
                }
                if before.contains(x) {
                    let j = choose|j: int| 0 <= j < k && #[trigger] shown_for_thread(graph, filter, graph.thread_seq()[j].id, x);
                    assert(0 <= j < k + 1);
                }
                if shown_for_thread(graph, filter, tid, x) {
                    assert(shown_for_thread(graph, filter, graph.thread_seq()[k as int].id, x));
                }
            }
            assert(acc@ =~= Set::new(|x: u32| shown_for_threads(graph, filter, k + 1, x)));
        }
    }
    Some(acc)
}

/// A node is visible: there is no visibility set, or it holds the node.
pub open spec fn visible_in(visible: Option<Set<u32>>, id: u32) -> bool {
    match visible {
        None => true,
        Some(s) => s.contains(id),
    }
}

pub open spec fn opt_set_view(v: &Option<HashSet<u32>>) -> Option<Set<u32>> {
    match v {
        Some(s) => Some(s@),
        None => None,
    }
}

pub fn is_vis(visible: &Option<HashSet<u32>>, id: u32) -> (r: bool)
    ensures
        r == visible_in(opt_set_view(visible), id),
{
    broadcast use vstd::std_specs::hash::group_hash_axioms;
    match visible {
        Some(s) => s.contains(&id),
        None => true,
    }
}

// ---------------------------------------------------------------------------
// plugins and mods

/// The topmost visible nodes at or below `id` that are attributed to a
/// plugin or mod, in pre-order, with their source; below such a node
/// nothing more is looked at.
pub open spec fn source_roots<T>(g: &ProfileGraph<T>, vis: Option<Set<u32>>, id: u32) -> Seq<
    (Seq<char>, u32),
>
    decreases g.node_seq().len() - id, 1int, 0int,
{
    if !visible_in(vis, id) {
        Seq::empty()
    } else {
        match g.node(id) {
            None => Seq::empty(),
            Some(n) => match g.source(id) {
                Some(s) => seq![(s, id)],
                None => children_source_roots(g, vis, id, n.children, n.children.len() as int),
            },
        }
    }
}

/// The source roots below the first `k` children (`ch`) of node `id`
/// (children are numbered after their node).
pub open spec fn children_source_roots<T>(
    g: &ProfileGraph<T>,
    vis: Option<Set<u32>>,
    id: u32,
    ch: Seq<u32>,
    k: int,
) -> Seq<(Seq<char>, u32)>
    decreases g.node_seq().len() - id, 0int, k,
{
    if k <= 0 || k > ch.len() {
        Seq::empty()
    } else {
        let rest = children_source_roots(g, vis, id, ch, k - 1);
        let c = ch[k - 1];
        if id < c <= g.node_seq().len() {
            rest + source_roots(g, vis, c)
        } else {
            rest
        }
    }
}

/// Carpet's own run loop frames on `MinecraftServer` are not counted as the
/// mod's time.
pub open spec fn carpet_hidden<T>(n: NodeView<T>, source: Seq<char>) -> bool {
    &&& contains(lower(source), "carpet"@)
    &&& starts_with(n.class_name, "net.minecraft.server.MinecraftServer"@)
    &&& (ends_with(n.method_name, "modifiedRunLoop"@) || ends_with(
        n.method_name,
        "fixUpdateSuppressionCrashTick"@,
    ))
}

pub fn hide_carpet_node<T>(node: &Node<T>, source: &str) -> (r: bool)
    ensures
        r == carpet_hidden(node@, source@),
{
    let ls = crate::text::to_ascii_lowercase(source);
    crate::text::str_contains(ls.as_str(), "carpet") && crate::text::str_starts_with(
        node.class_name.as_str(),
        "net.minecraft.server.MinecraftServer",
    ) && (crate::text::str_ends_with(node.method_name.as_str(), "modifiedRunLoop")
        || crate::text::str_ends_with(node.method_name.as_str(), "fixUpdateSuppressionCrashTick"))
}

fn find_source_roots_rec<T>(
    graph: &ProfileGraph<T>,
    id: u32,
    visible: &Option<HashSet<u32>>,
    out: &mut Vec<(String, u32)>,
)
    ensures
        source_pairs(final(out)@) == source_pairs(old(out)@) + source_roots(graph, opt_set_view(visible), id),
    decreases graph.node_seq().len() - id,
{
    proof {
        use_type_invariant(graph);
    }
    if !is_vis(visible, id) {
        assert(source_pairs(out@) =~= source_pairs(old(out)@) + Seq::<(Seq<char>, u32)>::empty());
        return;
    }
    let node = match graph.get(id) {
        Some(n) => n,
        None => {
            assert(source_pairs(out@) =~= source_pairs(old(out)@) + Seq::<(Seq<char>, u32)>::empty());
            return;
        },
    };
    proof {
        graph.lemma_node_shape(id);
        assert(node@ == graph.node_seq()[id - 1]);
    }
    if let Some(src) = graph.source_of(id) {
        let ghost o = out@;
        out.push((crate::text::string_of(src), id));
        assert(source_pairs(out@) =~= source_pairs(o) + seq![(src@, id)]);
        return;
    }
    let ghost ch = node.children@;
    let ghost vis = opt_set_view(visible);
    assert forall|j: int| 0 <= j < ch.len() implies id < #[trigger] ch[j] <= graph.node_seq().len() by {
        assert(ch[j] == graph.node_seq()[id - 1].children[j]);
    }
    let m = node.children.len();
    assert(source_pairs(out@) =~= source_pairs(old(out)@) + children_source_roots(graph, vis, id, ch, 0));
    for k in 0..m
        invariant
            m == ch.len(),
            ch == node.children@,
            vis == opt_set_view(visible),
            forall|j: int| 0 <= j < ch.len() ==> id < #[trigger] ch[j] <= graph.node_seq().len(),
            source_pairs(out@) == source_pairs(old(out)@) + children_source_roots(graph, vis, id, ch, k as int),
    {
        let c = node.children[k];
        let ghost o = out@;
        find_source_roots_rec(graph, c, visible, out);
        assert(source_pairs(out@) =~= source_pairs(old(out)@) + children_source_roots(graph, vis, id, ch, k + 1));
    }
}

/// The plugin or mod of each pair, with the node id.
pub open spec fn source_pairs(v: Seq<(String, u32)>) -> Seq<(Seq<char>, u32)> {
    v.map_values(|e: (String, u32)| (e.0@, e.1))
}

/// Highest matching source nodes (don't descend into a match).
pub fn find_source_roots<T>(graph: &ProfileGraph<T>, id: u32, visible: &Option<HashSet<u32>>) -> (r: Vec<(String, u32)>)
    ensures
        source_pairs(r@) == source_roots(graph, opt_set_view(visible), id),
{
    let mut out: Vec<(String, u32)> = Vec::new();
    find_source_roots_rec(graph, id, visible, &mut out);
    assert(source_pairs(out@) =~= source_roots(graph, opt_set_view(visible), id));
    out
}

/// A frame's time counted for a plugin or mod: what the occupancy report
/// lists under the source, with the merge key and label of the frame.
pub struct Attribution {
    pub source: String,
    pub node_id: u32,
    /// The method key (merge mode) or `id:label` (separate mode)
    pub key: String,
    pub label: String,
}

pub struct AttributionView {
    pub source: Seq<char>,
    pub node_id: u32,
    pub key: Seq<char>,
    pub label: Seq<char>,
}

impl View for Attribution {
    type V = AttributionView;

    open spec fn view(&self) -> AttributionView {
        AttributionView { source: self.source@, node_id: self.node_id, key: self.key@, label: self.label@ }
    }
}

/// A source root is counted: not a hidden carpet frame, passes the search
/// (by source, class or method) and the include/exclude filters (with its
/// source).
pub open spec fn attribution_kept<T>(g: &ProfileGraph<T>, f: &FilterOpts, src: Seq<char>, id: u32) -> bool {
    match g.node(id) {
        None => false,
        Some(n) => {
            &&& !carpet_hidden(n, src)
            &&& match string_opt_view(f.search) {
                None => true,
                Some(q) => contains(lower(src), q) || contains(lower(n.class_name), q) || contains(
                    lower(n.method_name),
                    q,
                ),
            }
            &&& text_allowed(
                pat_models(f.includes@),
                pat_models(f.excludes@),
                node_texts(n.class_name, n.method_name, Some(src)),
            )
        },
    }
}

/// The attribution of a counted source root.
pub open spec fn attribution_of<T>(g: &ProfileGraph<T>, mode: SourcesMode, src: Seq<char>, id: u32) -> AttributionView {
    let n = g.node(id)->0;
    AttributionView {
        source: src,
        node_id: id,
        key: match mode {
            SourcesMode::Merge => node_key(n),
            SourcesMode::Separate => decimal(id as nat) + seq![':'] + node_label(n),
        },
        label: node_label(n),
    }
}

pub open spec fn root_attributions<T>(
    g: &ProfileGraph<T>,
    f: &FilterOpts,
    mode: SourcesMode,
    roots: Seq<(Seq<char>, u32)>,
) -> Seq<AttributionView>
    decreases roots.len(),
{
    if roots.len() == 0 {
        Seq::empty()
    } else {
        let rest = root_attributions(g, f, mode, roots.drop_last());
        let (src, id) = roots.last();
        if attribution_kept(g, f, src, id) {
            rest.push(attribution_of(g, mode, src, id))
        } else {
            rest
        }
    }
}

/// The attributions of the given threads, thread by thread.
pub open spec fn thread_attributions<T>(
    g: &ProfileGraph<T>,
    f: &FilterOpts,
    mode: SourcesMode,
    vis: Option<Set<u32>>,
    tids: Seq<u32>,
) -> Seq<AttributionView>
    decreases tids.len(),
{
    if tids.len() == 0 {
        Seq::empty()
    } else {
        thread_attributions(g, f, mode, vis, tids.drop_last()) + root_attributions(
            g,
            f,
            mode,
            source_roots(g, vis, tids.last()),
        )
    }
}

pub open spec fn attribution_views(v: Seq<Attribution>) -> Seq<AttributionView> {
    v.map_values(|a: Attribution| a@)
}

pub proof fn lemma_source_roots_exist<T>(g: &ProfileGraph<T>, vis: Option<Set<u32>>, id: u32)
    ensures
        forall|j: int| 0 <= j < source_roots(g, vis, id).len() ==> (#[trigger] g.node(source_roots(g, vis, id)[j].1)) is Some
            && g.source(source_roots(g, vis, id)[j].1) == Some(source_roots(g, vis, id)[j].0),
    decreases g.node_seq().len() - id, 1int, 0int,
{
    if visible_in(vis, id) {
        match g.node(id) {
            None => {},
            Some(n) => match g.source(id) {
                Some(s) => {},
                None => {
                    lemma_children_source_roots_exist(g, vis, id, n.children, n.children.len() as int);
                },
            },
        }
    }
}

proof fn lemma_children_source_roots_exist<T>(
    g: &ProfileGraph<T>,
    vis: Option<Set<u32>>,
    id: u32,
    ch: Seq<u32>,
    k: int,
)
    ensures
        forall|j: int| 0 <= j < children_source_roots(g, vis, id, ch, k).len() ==> (#[trigger] g.node(
            children_source_roots(g, vis, id, ch, k)[j].1,
        )) is Some && g.source(children_source_roots(g, vis, id, ch, k)[j].1) == Some(
            children_source_roots(g, vis, id, ch, k)[j].0,
        ),
    decreases g.node_seq().len() - id, 0int, k,
{
    if 0 < k <= ch.len() {
        lemma_children_source_roots_exist(g, vis, id, ch, k - 1);
        let c = ch[k - 1];
        if id < c <= g.node_seq().len() {
            lemma_source_roots_exist(g, vis, c);
            let a = children_source_roots(g, vis, id, ch, k - 1);
            let b = source_roots(g, vis, c);
            let e = children_source_roots(g, vis, id, ch, k);
            assert(e == a + b);
            assert forall|j: int| 0 <= j < e.len() implies (#[trigger] g.node(e[j].1)) is Some && g.source(e[j].1) == Some(e[j].0) by {
                if j < a.len() {
                    assert(e[j] == a[j]);
                } else {
                    assert(e[j] == b[j - a.len()]);
                }
            }
        }
    }
}

/// Which frames count for which plugin or mod in the given threads (the
/// topmost visible frames with a source, kept by the filters), in order;
/// the times are added up by the caller.
pub fn plugin_attributions<T>(
    graph: &ProfileGraph<T>,
    filter: &FilterOpts,
    mode: SourcesMode,
    visible: &Option<HashSet<u32>>,
    thread_ids: &Vec<u32>,
) -> (r: Vec<Attribution>)
    ensures
        attribution_views(r@) == thread_attributions(graph, filter, mode, opt_set_view(visible), thread_ids@),
{
    let ghost vis = opt_set_view(visible);
    let mut out: Vec<Attribution> = Vec::new();
    let n = thread_ids.len();
    assert(thread_ids@.take(0) =~= Seq::<u32>::empty());
    for k in 0..n
        invariant
            n == thread_ids@.len(),
            vis == opt_set_view(visible),
            attribution_views(out@) == thread_attributions(graph, filter, mode, vis, thread_ids@.take(k as int)),
    {
        let tid = thread_ids[k];
        let roots = find_source_roots(graph, tid, visible);
        let ghost rv = source_pairs(roots@);
        let ghost base = attribution_views(out@);
        proof {
            lemma_source_roots_exist(graph, vis, tid);
            assert(thread_ids@.take(k + 1).drop_last() =~= thread_ids@.take(k as int));
            assert(thread_ids@.take(k + 1).last() == tid);
            assert(rv.take(0) =~= Seq::<(Seq<char>, u32)>::empty());
            assert(base + root_attributions(graph, filter, mode, rv.take(0)) =~= base);
        }
        let m = roots.len();
        for j in 0..m
            invariant
                m == roots@.len(),
                rv == source_pairs(roots@),
                rv == source_roots(graph, vis, tid),
                forall|i: int| 0 <= i < rv.len() ==> (#[trigger] graph.node(rv[i].1)) is Some
                    && graph.source(rv[i].1) == Some(rv[i].0),
                attribution_views(out@) == base + root_attributions(graph, filter, mode, rv.take(j as int)),
        {
            let src = &roots[j].0;
            let id = roots[j].1;
            assert(rv[j as int] == (src@, id));
            assert(graph.node(rv[j as int].1) is Some);
            let node = match graph.get(id) {
                Some(nd) => nd,
                None => {
                    assert(false);
                    return out;
                },
            };
            let ghost o = out@;
            proof {
                assert(rv.take(j + 1).drop_last() =~= rv.take(j as int));
                assert(rv.take(j + 1).last() == (src@, id));
            }
            let mut kept = !hide_carpet_node(node, src.as_str());
            if kept {
                if let Some(q) = &filter.search {
                    let ls = crate::text::to_ascii_lowercase(src.as_str());
                    let lc = crate::text::to_ascii_lowercase(node.class_name.as_str());
                    let lm = crate::text::to_ascii_lowercase(node.method_name.as_str());
                    if !crate::text::str_contains(ls.as_str(), q.as_str()) && !(crate::text::str_contains(
                        lc.as_str(),
                        q.as_str(),
                    ) || crate::text::str_contains(lm.as_str(), q.as_str())) {
                        kept = false;
                    }
                }
            }
            if kept {
                kept = filter.node_text_allowed(node.class_name.as_str(), node.method_name.as_str(), Some(src.as_str()));
            }
            if kept {
                let label = node.label();
                let key = match mode {
                    SourcesMode::Merge => node.key(),
                    SourcesMode::Separate => {
                        let mut k2 = String::new();
                        crate::text::push_decimal(&mut k2, id as u64);
                        crate::text::push_char(&mut k2, ':');
                        crate::text::push_str(&mut k2, label.as_str());
                        assert(k2@ =~= decimal(id as nat) + seq![':'] + node_label(node@));
                        k2
                    },
                };
                out.push(Attribution { source: crate::text::string_of(src.as_str()), node_id: id, key, label });
                assert(attribution_views(out@) =~= attribution_views(o).push(attribution_of(graph, mode, src@, id)));
            }
            assert(kept == attribution_kept(graph, filter, src@, id));
        }
        assert(rv.take(m as int) =~= rv);
    }
    assert(thread_ids@.take(n as int) =~= thread_ids@);
    out
}

/// A name with ASCII lower-casing and all `-` removed.
pub open spec fn loose_name(s: Seq<char>) -> Seq<char> {
    lower(s).filter(|c: char| c != '-')
}

/// An installed plugin or mod shows up among the sampled sources: one of
/// them has its name ASCII case-insensitively, or up to `-`.
pub open spec fn plugin_sampled(rows: Seq<Seq<char>>, p: Seq<char>) -> bool {
    exists|i: int| 0 <= i < rows.len() && (lower(#[trigger] rows[i]) == lower(p) || loose_name(rows[i]) == loose_name(p))
}

/// The installed plugins and mods that show up in no sampled source.
pub open spec fn unsampled(plugins: Seq<Seq<char>>, rows: Seq<Seq<char>>) -> Seq<Seq<char>>
    decreases plugins.len(),
{
    if plugins.len() == 0 {
        Seq::empty()
    } else if plugin_sampled(rows, plugins.last()) {
        unsampled(plugins.drop_last(), rows)
    } else {
        unsampled(plugins.drop_last(), rows).push(plugins.last())
    }
}

fn loose_name_exec(s: &str) -> (r: Vec<char>)
    ensures
        r@ == loose_name(s@),
{
    let l = crate::text::lower_chars(&crate::text::chars_of(s));
    let mut r: Vec<char> = Vec::new();
    let n = l.len();
    for i in 0..n
        invariant
            n == l@.len(),
            r@ == l@.take(i as int).filter(|c: char| c != '-'),
    {
        proof {
            assert(l@.take(i + 1).drop_last() =~= l@.take(i as int));
            assert(l@.take(i + 1).last() == l@[i as int]);
            reveal_with_fuel(Seq::filter, 1);
        }
        if l[i] != '-' {
            r.push(l[i]);
        }
    }
    assert(l@.take(n as int) =~= l@);
    r
}

/// The installed plugins and mods without samples in the selected threads,
/// ascending.
pub fn idle_plugins(plugins_mods: &Vec<String>, sampled: &Vec<String>) -> (r: Vec<String>)
    ensures
        texts(r@).to_multiset() == unsampled(texts(plugins_mods@), texts(sampled@)).to_multiset(),
        sorted_texts(texts(r@)),
{
    let ghost rows = texts(sampled@);
    let ghost ps = texts(plugins_mods@);
    let mut idle: Vec<String> = Vec::new();
    let n = plugins_mods.len();
    let m = sampled.len();
    assert(ps.take(0) =~= Seq::<Seq<char>>::empty());
    for i in 0..n
        invariant
            n == plugins_mods@.len(),
            m == sampled@.len(),
            rows == texts(sampled@),
            ps == texts(plugins_mods@),
            texts(idle@) == unsampled(ps.take(i as int), rows),
    {
        let p = &plugins_mods[i];
        let lp = crate::text::to_ascii_lowercase(p.as_str());
        let dp = loose_name_exec(p.as_str());
        let mut seen = false;
        for j in 0..m
            invariant
                m == sampled@.len(),
                rows == texts(sampled@),
                lp@ == lower(p@),
                dp@ == loose_name(p@),
                seen == exists|k: int| 0 <= k < j && (lower(#[trigger] rows[k]) == lower(p@) || loose_name(rows[k]) == loose_name(p@)),
        {
            let r = &sampled[j];
            assert(rows[j as int] == r@);
            let lr = crate::text::to_ascii_lowercase(r.as_str());
            let dr = loose_name_exec(r.as_str());
            let hit = crate::text::str_eq(lr.as_str(), lp.as_str()) || crate::text::chars_eq(&dr, &dp);
            seen = seen || hit;
        }
        proof {
            assert(ps.take(i + 1).drop_last() =~= ps.take(i as int));
            assert(ps.take(i + 1).last() == p@);
            assert(ps[i as int] == p@);
        }
        if !seen {
            let ghost o = idle@;
            idle.push(p.clone());
            assert(texts(idle@) =~= texts(o).push(p@));
        }
    }
    assert(ps.take(n as int) =~= ps);
    sort_strings(idle)
}

// ---------------------------------------------------------------------------
// flame view

/// The name text the flame view picks its thread by: `--flame-thread`
/// ASCII lower-cased, else a substring `--thread` pattern (a regular
/// expression gives none).
pub open spec fn flame_query_text(flame_thread: Option<Seq<char>>, f: &FilterOpts) -> Option<Seq<char>> {
    match flame_thread {
        Some(s) => Some(lower(s)),
        None => match f.thread {
            Some(p) => match p@ {
                crate::pattern::FilterPatModel::Substr(s) => Some(s),
                crate::pattern::FilterPatModel::Regex(_) => None,
            },
            None => None,
        },
    }
}

pub fn flame_query(flame_thread: Option<&str>, filter: &FilterOpts) -> (r: Option<String>)
    ensures
        string_opt_view(r) == flame_query_text(crate::filter::opt_view(flame_thread), filter),
{
    match flame_thread {
        Some(s) => Some(crate::text::to_ascii_lowercase(s)),
        None => match &filter.thread {
            Some(crate::pattern::FilterPat::Substr(s)) => Some(crate::text::string_of(s.as_str())),
            _ => None,
        },
    }
}

} // verus!
