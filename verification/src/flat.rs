//! The flat view's walk over a thread: which frames count towards which
//! method, and which children are taken off a frame's self time. The times
//! themselves are added up by the caller.
use std::collections::HashSet;
use vstd::prelude::*;
use crate::filter::FilterOpts;
use crate::graph::{ProfileGraph, node_key};
use crate::sort::texts;
use crate::text::str_eq;
use crate::views::{include_exclude_pass, is_vis, opt_set_view, passes_include_exclude, visible_in};

verus! {

/// A frame the flat view counts: its id, its method key, and the children
/// whose time is taken off its self time.
pub struct FlatVisit {
    pub id: u32,
    pub key: String,
    pub counted_children: Vec<u32>,
}

pub struct FlatVisitView {
    pub id: u32,
    pub key: Seq<char>,
    pub counted_children: Seq<u32>,
}

impl View for FlatVisit {
    type V = FlatVisitView;

    open spec fn view(&self) -> FlatVisitView {
        FlatVisitView { id: self.id, key: self.key@, counted_children: self.counted_children@ }
    }
}

pub open spec fn visit_views(v: Seq<FlatVisit>) -> Seq<FlatVisitView> {
    v.map_values(|x: FlatVisit| x@)
}

/// The children whose time is taken off a frame's self time: the visible
/// ones that pass `--include` / `--exclude`.
pub open spec fn counted_children<T>(
    g: &ProfileGraph<T>,
    f: &FilterOpts,
    vis: Option<Set<u32>>,
    ch: Seq<u32>,
) -> Seq<u32> {
    ch.filter(|c: u32| visible_in(vis, c) && include_exclude_pass(g, f, c))
}

/// The frames counted at or below node `id`, children before their frame
/// (the order in which the walk finishes them). Threads, and frames that
/// `--include` / `--exclude` drop, are passed through to their children. A
/// frame whose method is already counted further up (`keys`, a recursion)
/// is passed through as well, so that a method's time is counted once per
/// stack.
pub open spec fn flat_walk<T>(
    g: &ProfileGraph<T>,
    f: &FilterOpts,
    vis: Option<Set<u32>>,
    keys: Seq<Seq<char>>,
    id: u32,
) -> Seq<FlatVisitView>
    decreases g.node_seq().len() - id, 1int, 0int,
{
    match g.node(id) {
        None => Seq::empty(),
        Some(n) => if n.is_thread || !include_exclude_pass(g, f, id) || keys.contains(node_key(n)) {
            children_flat_walk(g, f, vis, keys, id, n.children, n.children.len() as int)
        } else {
            children_flat_walk(g, f, vis, keys.push(node_key(n)), id, n.children, n.children.len() as int).push(
                FlatVisitView {
                    id,
                    key: node_key(n),
                    counted_children: counted_children(g, f, vis, n.children),
                },
            )
        },
    }
}

/// The frames counted below the first `k` children (`ch`) of node `id`
/// that are visible (children are numbered after their node).
pub open spec fn children_flat_walk<T>(
    g: &ProfileGraph<T>,
    f: &FilterOpts,
    vis: Option<Set<u32>>,
    keys: Seq<Seq<char>>,
    id: u32,
    ch: Seq<u32>,
    k: int,
) -> Seq<FlatVisitView>
    decreases g.node_seq().len() - id, 0int, k,
{
    if k <= 0 || k > ch.len() {
        Seq::empty()
    } else {
        let rest = children_flat_walk(g, f, vis, keys, id, ch, k - 1);
        let c = ch[k - 1];
        if id < c <= g.node_seq().len() && visible_in(vis, c) {
            rest + flat_walk(g, f, vis, keys, c)
        } else {
            rest
        }
    }
}

fn keys_contain(keys: &Vec<String>, key: &str) -> (r: bool)
    ensures
        r == texts(keys@).contains(key@),
{
    let n = keys.len();
    for i in 0..n
        invariant
            n == keys@.len(),
            forall|j: int| 0 <= j < i ==> texts(keys@)[j] != key@,
    {
        if str_eq(keys[i].as_str(), key) {
            assert(texts(keys@)[i as int] == key@);
            return true;
        }
    }
    false
}

fn counted_children_exec<T>(
    graph: &ProfileGraph<T>,
    ch: &Vec<u32>,
    filter: &FilterOpts,
    visible: &Option<HashSet<u32>>,
) -> (r: Vec<u32>)
    ensures
        r@ == counted_children(graph, filter, opt_set_view(visible), ch@),
{
    let ghost vis = opt_set_view(visible);
    let mut r: Vec<u32> = Vec::new();
    let n = ch.len();
    for i in 0..n
        invariant
            n == ch@.len(),
            vis == opt_set_view(visible),
            r@ == ch@.take(i as int).filter(|c: u32| visible_in(vis, c) && include_exclude_pass(graph, filter, c)),
    {
        proof {
            assert(ch@.take(i + 1).drop_last() =~= ch@.take(i as int));
            assert(ch@.take(i + 1).last() == ch@[i as int]);
            reveal_with_fuel(Seq::filter, 1);
        }
        let c = ch[i];
        if is_vis(visible, c) && passes_include_exclude(graph, c, filter) {
            r.push(c);
        }
    }
    assert(ch@.take(n as int) =~= ch@);
    r
}

fn flat_walk_rec<T>(
    graph: &ProfileGraph<T>,
    id: u32,
    filter: &FilterOpts,
    visible: &Option<HashSet<u32>>,
    keys: &mut Vec<String>,
    out: &mut Vec<FlatVisit>,
)
    ensures
        texts(final(keys)@) == texts(old(keys)@),
        visit_views(final(out)@) == visit_views(old(out)@) + flat_walk(
            graph,
            filter,
            opt_set_view(visible),
            texts(old(keys)@),
            id,
        ),
    decreases graph.node_seq().len() - id,
{
    proof {
        use_type_invariant(graph);
    }
    let ghost vis = opt_set_view(visible);
    let ghost ks = texts(keys@);
    let node = match graph.get(id) {
        Some(n) => n,
        None => {
            assert(visit_views(out@) =~= visit_views(old(out)@) + Seq::<FlatVisitView>::empty());
            return;
        },
    };
    proof {
        graph.lemma_node_shape(id);
        assert(node@ == graph.node_seq()[id - 1]);
    }
    let mut pushed = false;
    if !node.is_thread && passes_include_exclude(graph, id, filter) {
        let key = node.key();
        if !keys_contain(keys, key.as_str()) {
            keys.push(key);
            pushed = true;
            assert(texts(keys@) =~= ks.push(node_key(node@)));
        }
    }
    let ghost inner = texts(keys@);
    proof {
        if pushed {
            assert(inner == ks.push(node_key(node@)));
        } else {
            assert(inner == ks);
        }
    }
    let ghost ch = node.children@;
    assert forall|j: int| 0 <= j < ch.len() implies id < #[trigger] ch[j] <= graph.node_seq().len() by {
        assert(ch[j] == graph.node_seq()[id - 1].children[j]);
    }
    let ghost base = visit_views(out@);
    let m = node.children.len();
    assert(visit_views(out@) =~= base + children_flat_walk(graph, filter, vis, inner, id, ch, 0));
    for k in 0..m
        invariant
            m == ch.len(),
            ch == node.children@,
            vis == opt_set_view(visible),
            texts(keys@) == inner,
            pushed ==> inner == ks.push(node_key(node@)),
            !pushed ==> inner == ks,
            forall|j: int| 0 <= j < ch.len() ==> id < #[trigger] ch[j] <= graph.node_seq().len(),
            visit_views(out@) == base + children_flat_walk(graph, filter, vis, inner, id, ch, k as int),
    {
        let c = node.children[k];
        if is_vis(visible, c) {
            flat_walk_rec(graph, c, filter, visible, keys, out);
        }
        assert(visit_views(out@) =~= base + children_flat_walk(graph, filter, vis, inner, id, ch, k + 1));
    }
    if pushed {
        let ghost before_pop = keys@;
        let key = match keys.pop() {
            Some(k) => k,
            None => {
                assert(false);
                return;
            },
        };
        proof {
            assert(texts(before_pop)[before_pop.len() - 1] == key@);
            assert(texts(keys@) =~= texts(before_pop).drop_last());
            assert(inner.drop_last() =~= ks);
        }
        let counted = counted_children_exec(graph, &node.children, filter, visible);
        let ghost o = visit_views(out@);
        out.push(FlatVisit { id, key, counted_children: counted });
        assert(visit_views(out@) =~= o.push(
            FlatVisitView { id, key: node_key(node@), counted_children: counted_children(graph, filter, vis, ch) },
        ));
    }
}

/// The frames the flat view counts in the thread (or frame) `id`, children
/// before their frame, with no method counted further up.
pub fn flat_visits<T>(
    graph: &ProfileGraph<T>,
    id: u32,
    filter: &FilterOpts,
    visible: &Option<HashSet<u32>>,
) -> (r: Vec<FlatVisit>)
    ensures
        visit_views(r@) == flat_walk(graph, filter, opt_set_view(visible), Seq::empty(), id),
{
    let mut keys: Vec<String> = Vec::new();
    let mut out: Vec<FlatVisit> = Vec::new();
    assert(texts(keys@) =~= Seq::<Seq<char>>::empty());
    flat_walk_rec(graph, id, filter, visible, &mut keys, &mut out);
    assert(visit_views(out@) =~= flat_walk(graph, filter, opt_set_view(visible), Seq::empty(), id));
    out
}

} // verus!
