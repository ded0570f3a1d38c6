//! The call graph of a sampler profile: every thread and stack frame of the
//! upload becomes a node with a numeric id.
//!
//! Sample times are carried through unchanged and never computed with
//! here, so their type is a parameter (`f64` in the command-line tool).
use vstd::prelude::*;
use crate::sort::{sorted_distinct_strings, strictly_sorted_texts, texts};
use std::collections::HashSet;
use crate::window::{select_windows, selected_windows, WindowSelect};
use crate::text::{
    decimal, int_text, push_char, push_decimal, push_int, push_str, starts_with, str_eq, str_starts_with,
    string_of,
};

verus! {

// ---------------------------------------------------------------------------
// the upload

/// A stack frame of the upload (spark's `StackTraceNode`).
pub struct StackTraceNode<T> {
    pub time: T,
    pub children: Vec<StackTraceNode<T>>,
    pub class_name: String,
    pub method_name: String,
    pub method_desc: String,
    pub line_number: i32,
    pub times: Vec<T>,
    pub children_refs: Vec<i32>,
}

/// A thread of the upload (spark's `ThreadNode`). When `children_refs` is
/// not empty, `children` is a table of frames and the refs are indices into
/// it (as are the refs of those frames); otherwise `children` are the
/// thread's frames themselves.
pub struct ThreadNode<T> {
    pub name: String,
    pub time: T,
    pub children: Vec<StackTraceNode<T>>,
    pub times: Vec<T>,
    pub children_refs: Vec<i32>,
}

// ---------------------------------------------------------------------------
// the graph

/// A thread or stack frame of the graph.
pub struct Node<T> {
    pub id: u32,
    pub is_thread: bool,
    pub name: String,
    pub class_name: String,
    pub method_name: String,
    pub method_desc: String,
    pub line_number: i32,
    pub times: Vec<T>,
    pub children: Vec<u32>,
}

pub struct NodeView<T> {
    pub id: u32,
    pub is_thread: bool,
    pub name: Seq<char>,
    pub class_name: Seq<char>,
    pub method_name: Seq<char>,
    pub method_desc: Seq<char>,
    pub line_number: i32,
    pub times: Seq<T>,
    pub children: Seq<u32>,
}

impl<T> View for Node<T> {
    type V = NodeView<T>;

    open spec fn view(&self) -> NodeView<T> {
        NodeView {
            id: self.id,
            is_thread: self.is_thread,
            name: self.name@,
            class_name: self.class_name@,
            method_name: self.method_name@,
            method_desc: self.method_desc@,
            line_number: self.line_number,
            times: self.times@,
            children: self.children@,
        }
    }
}

// ---------------------------------------------------------------------------
// the model: the upload unfolded into a tree of frames

/// A thread or stack frame with its sub-frames, after references are
/// followed.
pub struct Frame<T> {
    pub is_thread: bool,
    pub name: Seq<char>,
    pub class_name: Seq<char>,
    pub method_name: Seq<char>,
    pub method_desc: Seq<char>,
    pub line_number: i32,
    pub times: Seq<T>,
    pub children: Seq<Frame<T>>,
}

/// The per-window times of a node: its `times`, or its single `time` when
/// it has none.
pub open spec fn times_of<T>(times: Seq<T>, time: T) -> Seq<T> {
    if times.len() == 0 {
        seq![time]
    } else {
        times
    }
}

/// A stack frame with its own (nested) sub-frames.
pub open spec fn owned_frame<T>(n: StackTraceNode<T>) -> Frame<T>
    decreases n,
{
    Frame {
        is_thread: false,
        name: Seq::empty(),
        class_name: n.class_name@,
        method_name: n.method_name@,
        method_desc: n.method_desc@,
        line_number: n.line_number,
        times: times_of(n.times@, n.time),
        children: owned_frames(n.children@),
    }
}

pub open spec fn owned_frames<T>(s: Seq<StackTraceNode<T>>) -> Seq<Frame<T>>
    decreases s,
{
    if s.len() == 0 {
        Seq::empty()
    } else {
        owned_frames(s.drop_last()).push(owned_frame(s.last()))
    }
}

/// A frame index that names an entry of the frame table.
pub open spec fn valid_ref<T>(flat: Seq<StackTraceNode<T>>, r: i32) -> bool {
    0 <= r < flat.len()
}

/// The frame at index `idx` of the table, following references; `fuel`
/// bounds how deep references are followed.
pub open spec fn ref_frame<T>(flat: Seq<StackTraceNode<T>>, idx: int, fuel: nat) -> Frame<T>
    decreases fuel, 0int,
{
    let n = flat[idx];
    Frame {
        is_thread: false,
        name: Seq::empty(),
        class_name: n.class_name@,
        method_name: n.method_name@,
        method_desc: n.method_desc@,
        line_number: n.line_number,
        times: times_of(n.times@, n.time),
        children: if n.children_refs@.len() > 0 {
            if fuel == 0 {
                Seq::empty()
            } else {
                ref_frames(flat, n.children_refs@, (fuel - 1) as nat)
            }
        } else {
            owned_frames(n.children@)
        },
    }
}

/// The frames that a list of references names, in order; references
/// outside the table are skipped.
pub open spec fn ref_frames<T>(flat: Seq<StackTraceNode<T>>, refs: Seq<i32>, fuel: nat) -> Seq<
    Frame<T>,
>
    decreases fuel, refs.len() + 1,
{
    if refs.len() == 0 {
        Seq::empty()
    } else {
        let rest = ref_frames(flat, refs.drop_last(), fuel);
        if valid_ref(flat, refs.last()) {
            rest.push(ref_frame(flat, refs.last() as int, fuel))
        } else {
            rest
        }
    }
}

/// Following references from table entry `idx` ends within `fuel` steps.
pub open spec fn ref_ok<T>(flat: Seq<StackTraceNode<T>>, idx: int, fuel: nat) -> bool
    decreases fuel, 0int,
{
    let n = flat[idx];
    n.children_refs@.len() > 0 ==> fuel > 0 && refs_ok(flat, n.children_refs@, (fuel - 1) as nat)
}

pub open spec fn refs_ok<T>(flat: Seq<StackTraceNode<T>>, refs: Seq<i32>, fuel: nat) -> bool
    decreases fuel, refs.len() + 1,
{
    if refs.len() == 0 {
        true
    } else {
        refs_ok(flat, refs.drop_last(), fuel) && (valid_ref(flat, refs.last()) ==> ref_ok(
            flat,
            refs.last() as int,
            fuel,
        ))
    }
}

/// A thread with its frames. Following references gets as much fuel as the
/// table has entries: enough for every chain of references without a
/// cycle.
pub open spec fn thread_frame<T>(t: ThreadNode<T>) -> Frame<T> {
    Frame {
        is_thread: true,
        name: t.name@,
        class_name: Seq::empty(),
        method_name: Seq::empty(),
        method_desc: Seq::empty(),
        line_number: 0,
        times: times_of(t.times@, t.time),
        children: if t.children_refs@.len() > 0 {
            ref_frames(t.children@, t.children_refs@, t.children@.len())
        } else {
            owned_frames(t.children@)
        },
    }
}

/// The references of a thread lead to no cycle (on a cycle, unfolding the
/// thread would never end).
pub open spec fn thread_ok<T>(t: ThreadNode<T>) -> bool {
    t.children_refs@.len() > 0 ==> refs_ok(t.children@, t.children_refs@, t.children@.len())
}

pub open spec fn thread_frames<T>(ts: Seq<ThreadNode<T>>) -> Seq<Frame<T>>
    decreases ts.len(),
{
    if ts.len() == 0 {
        Seq::empty()
    } else {
        thread_frames(ts.drop_last()).push(thread_frame(ts.last()))
    }
}

pub open spec fn threads_ok<T>(ts: Seq<ThreadNode<T>>) -> bool {
    forall|k: int| 0 <= k < ts.len() ==> thread_ok(#[trigger] ts[k])
}

// ---------------------------------------------------------------------------
// numbering the frames

/// The number of nodes a frame becomes.
pub open spec fn frame_size<T>(f: Frame<T>) -> nat
    decreases f,
{
    1 + forest_size(f.children)
}

pub open spec fn forest_size<T>(fs: Seq<Frame<T>>) -> nat
    decreases fs,
{
    if fs.len() == 0 {
        0
    } else {
        forest_size(fs.drop_last()) + frame_size(fs.last())
    }
}

/// The ids of a list of frames numbered in order from `first`, each frame
/// before its sub-frames (pre-order).
pub open spec fn forest_roots<T>(fs: Seq<Frame<T>>, first: int) -> Seq<u32>
    decreases fs.len(),
{
    if fs.len() == 0 {
        Seq::empty()
    } else {
        forest_roots(fs.drop_last(), first).push((first + forest_size(fs.drop_last())) as u32)
    }
}

/// The node a frame becomes under id `id`, with the given children.
pub open spec fn frame_node_with<T>(f: Frame<T>, id: int, children: Seq<u32>) -> NodeView<T> {
    NodeView {
        id: id as u32,
        is_thread: f.is_thread,
        name: f.name,
        class_name: f.class_name,
        method_name: f.method_name,
        method_desc: f.method_desc,
        line_number: f.line_number,
        times: f.times,
        children,
    }
}

/// The node a frame becomes under id `id`.
pub open spec fn frame_node<T>(f: Frame<T>, id: int) -> NodeView<T> {
    frame_node_with(f, id, forest_roots(f.children, id + 1))
}

/// The nodes (each with its parent list) that a frame becomes, numbered in
/// pre-order from `id`; a thread has no parent, any other frame the single
/// parent `parent`.
pub open spec fn frame_entries<T>(f: Frame<T>, id: int, parent: u32) -> Seq<(NodeView<T>, Seq<u32>)>
    decreases f,
{
    seq![
        (
            frame_node(f, id),
            if f.is_thread {
                Seq::<u32>::empty()
            } else {
                seq![parent]
            },
        ),
    ] + forest_entries(f.children, id + 1, id as u32)
}

pub open spec fn forest_entries<T>(fs: Seq<Frame<T>>, first: int, parent: u32) -> Seq<
    (NodeView<T>, Seq<u32>),
>
    decreases fs,
{
    if fs.len() == 0 {
        Seq::empty()
    } else {
        forest_entries(fs.drop_last(), first, parent) + frame_entries(
            fs.last(),
            first + forest_size(fs.drop_last()),
            parent,
        )
    }
}

/// The nodes and parent lists of a graph, by id (`id - 1` is the index).
pub open spec fn graph_entries<T>(nodes: Seq<Node<T>>, parents: Seq<Vec<u32>>) -> Seq<
    (NodeView<T>, Seq<u32>),
> {
    Seq::new(nodes.len(), |i: int| (nodes[i]@, parents[i]@))
}

// ---------------------------------------------------------------------------
// facts about the numbering

pub proof fn lemma_forest_push<T>(fs: Seq<Frame<T>>, f: Frame<T>, first: int, parent: u32)
    ensures
        forest_size(fs.push(f)) == forest_size(fs) + frame_size(f),
        forest_roots(fs.push(f), first) == forest_roots(fs, first).push(
            (first + forest_size(fs)) as u32,
        ),
        forest_entries(fs.push(f), first, parent) == forest_entries(fs, first, parent)
            + frame_entries(f, first + forest_size(fs), parent),
{
    assert(fs.push(f).drop_last() =~= fs);
    assert(fs.push(f).last() == f);
}

pub proof fn lemma_entries_len<T>(f: Frame<T>, id: int, parent: u32)
    ensures
        frame_entries(f, id, parent).len() == frame_size(f),
    decreases f,
{
    lemma_forest_entries_len(f.children, id + 1, id as u32);
}

pub proof fn lemma_forest_entries_len<T>(fs: Seq<Frame<T>>, first: int, parent: u32)
    ensures
        forest_entries(fs, first, parent).len() == forest_size(fs),
        forest_roots(fs, first).len() == fs.len(),
    decreases fs,
{
    if fs.len() > 0 {
        lemma_forest_entries_len(fs.drop_last(), first, parent);
        lemma_entries_len(fs.last(), first + forest_size(fs.drop_last()), parent);
    }
}

/// Entry `k` of entries numbered from `first`: its id is `first + k`, its
/// children come after it and within the entries, its parents come before
/// it and not below `lo`.
pub open spec fn entry_shaped<T>(e: Seq<(NodeView<T>, Seq<u32>)>, first: int, lo: int, k: int) -> bool {
    &&& e[k].0.id == first + k
    &&& forall|j: int|
        0 <= j < e[k].0.children.len() ==> first + k < #[trigger] e[k].0.children[j] < first + e.len()
    &&& forall|j: int| 0 <= j < e[k].1.len() ==> lo <= #[trigger] e[k].1[j] < first + k
}

pub open spec fn entries_shaped<T>(e: Seq<(NodeView<T>, Seq<u32>)>, first: int, lo: int) -> bool {
    forall|k: int| 0 <= k < e.len() ==> #[trigger] entry_shaped(e, first, lo, k)
}

pub proof fn lemma_roots_bounds<T>(fs: Seq<Frame<T>>, first: int)
    requires
        0 <= first,
        first + forest_size(fs) <= u32::MAX + 1,
    ensures
        forall|j: int|
            0 <= j < forest_roots(fs, first).len() ==> first <= #[trigger] forest_roots(fs, first)[j]
                < first + forest_size(fs),
    decreases fs.len(),
{
    if fs.len() > 0 {
        let init = fs.drop_last();
        lemma_roots_bounds(init, first);
        lemma_forest_entries_len(init, first, 0);
        lemma_forest_entries_len(fs, first, 0);
        let r = forest_roots(fs, first);
        let ri = forest_roots(init, first);
        assert(frame_size(fs.last()) >= 1);
        assert forall|j: int| 0 <= j < r.len() implies first <= #[trigger] r[j] < first + forest_size(fs) by {
            if j < ri.len() {
                assert(r[j] == ri[j]);
            } else {
                assert(r[j] == (first + forest_size(init)) as u32);
            }
        }
    }
}

pub proof fn lemma_frame_shaped<T>(f: Frame<T>, id: int, parent: u32, lo: int)
    requires
        1 <= lo <= id,
        f.is_thread || (lo <= parent < id),
        id + frame_size(f) <= u32::MAX + 1,
    ensures
        entries_shaped(frame_entries(f, id, parent), id, lo),
    decreases f,
{
    let tail = forest_entries(f.children, id + 1, id as u32);
    lemma_forest_shaped(f.children, id + 1, id as u32, lo);
    lemma_forest_entries_len(f.children, id + 1, id as u32);
    lemma_roots_bounds(f.children, id + 1);
    let e = frame_entries(f, id, parent);
    assert forall|k: int| 0 <= k < e.len() implies #[trigger] entry_shaped(e, id, lo, k) by {
        if k == 0 {
            let roots = forest_roots(f.children, id + 1);
            assert(e[0].0 == frame_node(f, id));
            assert forall|j: int| 0 <= j < e[0].0.children.len() implies id < #[trigger] e[0].0.children[j]
                < id + e.len() by {
                assert(e[0].0.children[j] == roots[j]);
            }
        } else {
            assert(e[k] == tail[k - 1]);
            assert(entry_shaped(tail, id + 1, lo, k - 1));
        }
    }
}

pub proof fn lemma_forest_shaped<T>(fs: Seq<Frame<T>>, first: int, parent: u32, lo: int)
    requires
        1 <= lo <= first,
        (forall|k: int| 0 <= k < fs.len() ==> (#[trigger] fs[k]).is_thread) || (lo <= parent < first),
        first + forest_size(fs) <= u32::MAX + 1,
    ensures
        entries_shaped(forest_entries(fs, first, parent), first, lo),
    decreases fs,
{
    if fs.len() > 0 {
        let init = fs.drop_last();
        let s0 = forest_size(init);
        assert forall|k: int| 0 <= k < init.len() implies (#[trigger] init[k]).is_thread || (lo <= parent
            < first) by {
            assert(init[k] == fs[k]);
        }
        lemma_forest_shaped(init, first, parent, lo);
        assert(fs.last() == fs[fs.len() - 1]);
        lemma_frame_shaped(fs.last(), first + s0, parent, lo);
        lemma_forest_entries_len(init, first, parent);
        lemma_entries_len(fs.last(), first + s0, parent);
        let a = forest_entries(init, first, parent);
        let b = frame_entries(fs.last(), first + s0, parent);
        let e = forest_entries(fs, first, parent);
        assert(e == a + b);
        assert forall|k: int| 0 <= k < e.len() implies #[trigger] entry_shaped(e, first, lo, k) by {
            if k < a.len() {
                assert(e[k] == a[k]);
                assert(entry_shaped(a, first, lo, k));
            } else {
                assert(e[k] == b[k - a.len()]);
                assert(entry_shaped(b, first + s0, lo, k - a.len()));
            }
        }
    }
}

// ---------------------------------------------------------------------------
// building

fn copy_vec<T: Copy>(v: &Vec<T>) -> (r: Vec<T>)
    ensures
        r@ == v@,
{
    let mut r: Vec<T> = Vec::new();
    let n = v.len();
    for i in 0..n
        invariant
            n == v@.len(),
            r@ == v@.take(i as int),
    {
        r.push(v[i]);
        assert(v@.take(i + 1) =~= v@.take(i as int).push(v@[i as int]));
    }
    assert(v@.take(n as int) =~= v@);
    r
}

fn times_vec<T: Copy>(times: &Vec<T>, time: T) -> (r: Vec<T>)
    ensures
        r@ == times_of(times@, time),
{
    if times.len() == 0 {
        let mut r: Vec<T> = Vec::new();
        r.push(time);
        assert(r@ =~= seq![time]);
        r
    } else {
        copy_vec(times)
    }
}

proof fn lemma_graph_entries_push<T>(nodes: Seq<Node<T>>, parents: Seq<Vec<u32>>, n: Node<T>, p: Vec<u32>)
    requires
        nodes.len() == parents.len(),
    ensures
        graph_entries(nodes.push(n), parents.push(p)) == graph_entries(nodes, parents).push((n@, p@)),
{
    assert(graph_entries(nodes.push(n), parents.push(p)) =~= graph_entries(nodes, parents).push((n@, p@)));
}

/// Gives node `i` (the last pushed placeholder's index) its children.
proof fn lemma_set_children<T>(
    old_nodes: Seq<Node<T>>,
    nodes: Seq<Node<T>>,
    parents: Seq<Vec<u32>>,
    i: int,
    before: Seq<(NodeView<T>, Seq<u32>)>,
    head: (NodeView<T>, Seq<u32>),
    rest: Seq<(NodeView<T>, Seq<u32>)>,
)
    requires
        old_nodes.len() == parents.len(),
        0 <= i < old_nodes.len(),
        before.len() == i,
        graph_entries(old_nodes, parents) == before + seq![(old_nodes[i]@, parents[i]@)] + rest,
        nodes == old_nodes.update(i, nodes[i]),
        head == (nodes[i]@, parents[i]@),
    ensures
        graph_entries(nodes, parents) == before + seq![head] + rest,
{
    let g0 = graph_entries(old_nodes, parents);
    let g1 = graph_entries(nodes, parents);
    let old_head = (old_nodes[i]@, parents[i]@);
    let want = before + seq![head] + rest;
    let had = before + seq![old_head] + rest;
    assert(g0.len() == had.len());
    assert(g1.len() == g0.len());
    assert(want.len() == had.len());
    assert forall|k: int| 0 <= k < g1.len() implies g1[k] == want[k] by {
        if k < i {
            assert(g1[k] == g0[k]);
            assert(had[k] == before[k]);
            assert(want[k] == before[k]);
        } else if k == i {
            assert(want[k] == head);
        } else {
            assert(g1[k] == g0[k]);
            assert(had[k] == rest[k - i - 1]);
            assert(want[k] == rest[k - i - 1]);
        }
    }
    assert(g1 =~= want);
}

fn stack_node<T: Copy>(n: &StackTraceNode<T>, id: u32) -> (r: Node<T>)
    ensures
        r@ == frame_node_with(owned_frame(*n), id as int, Seq::empty()),
{
    Node {
        id,
        is_thread: false,
        name: String::new(),
        class_name: n.class_name.clone(),
        method_name: n.method_name.clone(),
        method_desc: n.method_desc.clone(),
        line_number: n.line_number,
        times: times_vec(&n.times, n.time),
        children: Vec::new(),
    }
}

proof fn lemma_owned_frames_step<T>(s: Seq<StackTraceNode<T>>, k: int)
    requires
        0 <= k < s.len(),
    ensures
        owned_frames(s.take(k + 1)) == owned_frames(s.take(k)).push(owned_frame(s[k])),
{
    assert(s.take(k + 1).drop_last() =~= s.take(k));
    assert(s.take(k + 1).last() == s[k]);
}

proof fn lemma_owned_frames_prefix<T>(s: Seq<StackTraceNode<T>>, k: int)
    requires
        0 <= k <= s.len(),
    ensures
        forest_size(owned_frames(s.take(k))) <= forest_size(owned_frames(s)),
    decreases s.len() - k,
{
    if k < s.len() {
        lemma_owned_frames_prefix(s, k + 1);
        lemma_owned_frames_step(s, k);
        lemma_forest_push(owned_frames(s.take(k)), owned_frame(s[k]), 0, 0);
    } else {
        assert(s.take(k) =~= s);
    }
}

/// Adds a stack frame and its nested frames, numbered in pre-order from the
/// next free id, under `parent`.
fn build_owned<T: Copy>(
    n: &StackTraceNode<T>,
    parent: u32,
    nodes: &mut Vec<Node<T>>,
    parents: &mut Vec<Vec<u32>>,
) -> (id: u32)
    requires
        old(nodes)@.len() == old(parents)@.len(),
        old(nodes)@.len() + frame_size(owned_frame(*n)) < u32::MAX,
    ensures
        final(nodes)@.len() == final(parents)@.len(),
        id == old(nodes)@.len() + 1,
        graph_entries(final(nodes)@, final(parents)@) == graph_entries(old(nodes)@, old(parents)@)
            + frame_entries(owned_frame(*n), id as int, parent),
    decreases n,
{
    let ghost f = owned_frame(*n);
    let ghost before = graph_entries(nodes@, parents@);
    let id: u32 = (nodes.len() + 1) as u32;
    let ghost i = nodes@.len() as int;
    let node = stack_node(n, id);
    let mut plist: Vec<u32> = Vec::new();
    plist.push(parent);
    proof {
        lemma_graph_entries_push(nodes@, parents@, node, plist);
    }
    nodes.push(node);
    parents.push(plist);
    let ghost head_parents = parents@[i]@;
    assert(head_parents =~= seq![parent]);
    let mut roots: Vec<u32> = Vec::new();
    let m = n.children.len();
    let ghost kids = n.children@;
    assert(kids.take(0) =~= Seq::<StackTraceNode<T>>::empty());
    assert(graph_entries(nodes@, parents@) =~= before + seq![(nodes@[i]@, head_parents)]
        + forest_entries(owned_frames(kids.take(0)), id + 1, id));
    for k in 0..m
        invariant
            m == kids.len(),
            kids == n.children@,
            f == owned_frame(*n),
            f.children == owned_frames(kids),
            i == id - 1,
            before.len() == i,
            nodes@.len() == parents@.len(),
            nodes@.len() == i + 1 + forest_size(owned_frames(kids.take(k as int))),
            i + 1 + forest_size(owned_frames(kids)) < u32::MAX,
            nodes@[i]@ == frame_node_with(f, id as int, Seq::empty()),
            parents@[i]@ == head_parents,
            graph_entries(nodes@, parents@) == before + seq![(nodes@[i]@, head_parents)]
                + forest_entries(owned_frames(kids.take(k as int)), id + 1, id),
            roots@ == forest_roots(owned_frames(kids.take(k as int)), id + 1),
    {
        let ghost pre = owned_frames(kids.take(k as int));
        let ghost old_nodes = nodes@;
        let ghost old_parents = parents@;
        proof {
            lemma_owned_frames_step(kids, k as int);
            lemma_owned_frames_prefix(kids, k + 1);
            lemma_forest_push(pre, owned_frame(kids[k as int]), id + 1, id);
        }
        let c = build_owned(&n.children[k], id, nodes, parents);
        roots.push(c);
        proof {
            assert(c == i + 1 + forest_size(pre) + 1);
            lemma_entries_len(owned_frame(kids[k as int]), c as int, id);
            let g1 = graph_entries(nodes@, parents@);
            let g0 = graph_entries(old_nodes, old_parents);
            lemma_entries_len(owned_frame(kids[k as int]), c as int, id);
            assert(g1.len() == nodes@.len());
            assert(g0.len() == old_nodes.len());
            assert(nodes@.len() == old_nodes.len() + frame_size(owned_frame(kids[k as int])));
            assert(g1[i] == g0[i]);
            assert(g1[i] == (nodes@[i]@, parents@[i]@));
            assert(g0[i] == (old_nodes[i]@, old_parents[i]@));
            assert(nodes@[i]@ == old_nodes[i]@);
            assert(parents@[i]@ == old_parents[i]@);
            assert((id + 1 + forest_size(pre)) as u32 == c);
        }
    }
    proof {
        assert(kids.take(m as int) =~= kids);
    }
    let ghost old_nodes = nodes@;
    let ghost rest = forest_entries(owned_frames(kids), id + 1, id);
    nodes[(id - 1) as usize].children = roots;
    proof {
        assert(nodes@[i]@ == frame_node(f, id as int));
        lemma_set_children(old_nodes, nodes@, parents@, i, before, (frame_node(f, id as int), head_parents), rest);
        assert(frame_entries(f, id as int, parent) == seq![(frame_node(f, id as int), head_parents)] + rest);
        assert(graph_entries(nodes@, parents@) =~= before + frame_entries(f, id as int, parent));
    }
    id
}

proof fn lemma_ref_frames_step<T>(flat: Seq<StackTraceNode<T>>, refs: Seq<i32>, fuel: nat, k: int)
    requires
        0 <= k < refs.len(),
    ensures
        ref_frames(flat, refs.take(k + 1), fuel) == if valid_ref(flat, refs[k]) {
            ref_frames(flat, refs.take(k), fuel).push(ref_frame(flat, refs[k] as int, fuel))
        } else {
            ref_frames(flat, refs.take(k), fuel)
        },
        refs_ok(flat, refs.take(k + 1), fuel) == (refs_ok(flat, refs.take(k), fuel) && (valid_ref(
            flat,
            refs[k],
        ) ==> ref_ok(flat, refs[k] as int, fuel))),
{
    assert(refs.take(k + 1).drop_last() =~= refs.take(k));
    assert(refs.take(k + 1).last() == refs[k]);
}

proof fn lemma_ref_frames_prefix<T>(flat: Seq<StackTraceNode<T>>, refs: Seq<i32>, fuel: nat, k: int)
    requires
        0 <= k <= refs.len(),
    ensures
        forest_size(ref_frames(flat, refs.take(k), fuel)) <= forest_size(ref_frames(flat, refs, fuel)),
        refs_ok(flat, refs, fuel) ==> refs_ok(flat, refs.take(k), fuel),
    decreases refs.len() - k,
{
    if k < refs.len() {
        lemma_ref_frames_prefix(flat, refs, fuel, k + 1);
        lemma_ref_frames_step(flat, refs, fuel, k);
        if valid_ref(flat, refs[k]) {
            lemma_forest_push(ref_frames(flat, refs.take(k), fuel), ref_frame(flat, refs[k] as int, fuel), 0, 0);
        }
    } else {
        assert(refs.take(k) =~= refs);
    }
}

fn flat_node<T: Copy>(n: &StackTraceNode<T>, id: u32, Ghost(flat): Ghost<Seq<StackTraceNode<T>>>, Ghost(idx): Ghost<int>, Ghost(fuel): Ghost<nat>) -> (r: Node<T>)
    requires
        0 <= idx < flat.len(),
        *n == flat[idx],
    ensures
        r@ == frame_node_with(ref_frame(flat, idx, fuel), id as int, Seq::empty()),
{
    Node {
        id,
        is_thread: false,
        name: String::new(),
        class_name: n.class_name.clone(),
        method_name: n.method_name.clone(),
        method_desc: n.method_desc.clone(),
        line_number: n.line_number,
        times: times_vec(&n.times, n.time),
        children: Vec::new(),
    }
}

/// Adds entry `idx` of the frame table and the frames it leads to,
/// numbered in pre-order from the next free id, under `parent`.
fn build_from_flat<T: Copy>(
    flat: &Vec<StackTraceNode<T>>,
    idx: usize,
    parent: u32,
    Ghost(fuel): Ghost<nat>,
    nodes: &mut Vec<Node<T>>,
    parents: &mut Vec<Vec<u32>>,
) -> (id: u32)
    requires
        idx < flat@.len(),
        ref_ok(flat@, idx as int, fuel),
        old(nodes)@.len() == old(parents)@.len(),
        old(nodes)@.len() + frame_size(ref_frame(flat@, idx as int, fuel)) < u32::MAX,
    ensures
        final(nodes)@.len() == final(parents)@.len(),
        id == old(nodes)@.len() + 1,
        graph_entries(final(nodes)@, final(parents)@) == graph_entries(old(nodes)@, old(parents)@)
            + frame_entries(ref_frame(flat@, idx as int, fuel), id as int, parent),
    decreases fuel,
{
    let ghost f = ref_frame(flat@, idx as int, fuel);
    let ghost before = graph_entries(nodes@, parents@);
    let n = &flat[idx];
    let id: u32 = (nodes.len() + 1) as u32;
    let ghost i = nodes@.len() as int;
    let node = flat_node(n, id, Ghost(flat@), Ghost(idx as int), Ghost(fuel));
    let mut plist: Vec<u32> = Vec::new();
    plist.push(parent);
    proof {
        lemma_graph_entries_push(nodes@, parents@, node, plist);
    }
    nodes.push(node);
    parents.push(plist);
    let ghost head_parents = parents@[i]@;
    assert(head_parents =~= seq![parent]);
    let mut roots: Vec<u32> = Vec::new();
    if n.children_refs.len() > 0 {
        let refs = &n.children_refs;
        let m = refs.len();
        let ghost sub = (fuel - 1) as nat;
        assert(refs@.take(0) =~= Seq::<i32>::empty());
        assert(graph_entries(nodes@, parents@) =~= before + seq![(nodes@[i]@, head_parents)]
            + forest_entries(ref_frames(flat@, refs@.take(0), sub), id + 1, id));
        for k in 0..m
            invariant
                m == refs@.len(),
                *refs == n.children_refs,
                *n == flat@[idx as int],
                fuel > 0,
                sub == fuel - 1,
                refs_ok(flat@, refs@, sub),
                f == ref_frame(flat@, idx as int, fuel),
                f.children == ref_frames(flat@, refs@, sub),
                i == id - 1,
                before.len() == i,
                nodes@.len() == parents@.len(),
                nodes@.len() == i + 1 + forest_size(ref_frames(flat@, refs@.take(k as int), sub)),
                i + 1 + forest_size(ref_frames(flat@, refs@, sub)) < u32::MAX,
                nodes@[i]@ == frame_node_with(f, id as int, Seq::empty()),
                parents@[i]@ == head_parents,
                graph_entries(nodes@, parents@) == before + seq![(nodes@[i]@, head_parents)]
                    + forest_entries(ref_frames(flat@, refs@.take(k as int), sub), id + 1, id),
                roots@ == forest_roots(ref_frames(flat@, refs@.take(k as int), sub), id + 1),
        {
            let ghost pre = ref_frames(flat@, refs@.take(k as int), sub);
            let r = refs[k];
            proof {
                lemma_ref_frames_step(flat@, refs@, sub, k as int);
                lemma_ref_frames_prefix(flat@, refs@, sub, k + 1);
            }
            if 0 <= r && (r as usize) < flat.len() {
                let ghost old_nodes = nodes@;
                let ghost old_parents = parents@;
                let ghost cf = ref_frame(flat@, r as int, sub);
                proof {
                    lemma_forest_push(pre, cf, id + 1, id);
                }
                let c = build_from_flat(flat, r as usize, id, Ghost(sub), nodes, parents);
                roots.push(c);
                proof {
                    let g1 = graph_entries(nodes@, parents@);
                    let g0 = graph_entries(old_nodes, old_parents);
                    lemma_entries_len(cf, c as int, id);
                    assert(g1.len() == nodes@.len());
                    assert(g0.len() == old_nodes.len());
                    assert(g1[i] == g0[i]);
                    assert(g1[i] == (nodes@[i]@, parents@[i]@));
                    assert(g0[i] == (old_nodes[i]@, old_parents[i]@));
                    assert((id + 1 + forest_size(pre)) as u32 == c);
                }
            }
        }
        proof {
            assert(refs@.take(m as int) =~= refs@);
        }
    } else {
        let m = n.children.len();
        let ghost kids = n.children@;
        assert(kids.take(0) =~= Seq::<StackTraceNode<T>>::empty());
        assert(graph_entries(nodes@, parents@) =~= before + seq![(nodes@[i]@, head_parents)]
            + forest_entries(owned_frames(kids.take(0)), id + 1, id));
        for k in 0..m
            invariant
                m == kids.len(),
                kids == n.children@,
                f == ref_frame(flat@, idx as int, fuel),
                f.children == owned_frames(kids),
                i == id - 1,
                before.len() == i,
                nodes@.len() == parents@.len(),
                nodes@.len() == i + 1 + forest_size(owned_frames(kids.take(k as int))),
                i + 1 + forest_size(owned_frames(kids)) < u32::MAX,
                nodes@[i]@ == frame_node_with(f, id as int, Seq::empty()),
                parents@[i]@ == head_parents,
                graph_entries(nodes@, parents@) == before + seq![(nodes@[i]@, head_parents)]
                    + forest_entries(owned_frames(kids.take(k as int)), id + 1, id),
                roots@ == forest_roots(owned_frames(kids.take(k as int)), id + 1),
        {
            let ghost pre = owned_frames(kids.take(k as int));
            let ghost old_nodes = nodes@;
            let ghost old_parents = parents@;
            proof {
                lemma_owned_frames_step(kids, k as int);
                lemma_owned_frames_prefix(kids, k + 1);
                lemma_forest_push(pre, owned_frame(kids[k as int]), id + 1, id);
            }
            let c = build_owned(&n.children[k], id, nodes, parents);
            roots.push(c);
            proof {
                let g1 = graph_entries(nodes@, parents@);
                let g0 = graph_entries(old_nodes, old_parents);
                lemma_entries_len(owned_frame(kids[k as int]), c as int, id);
                assert(g1.len() == nodes@.len());
                assert(g0.len() == old_nodes.len());
                assert(g1[i] == g0[i]);
                assert(g1[i] == (nodes@[i]@, parents@[i]@));
                assert(g0[i] == (old_nodes[i]@, old_parents[i]@));
                assert((id + 1 + forest_size(pre)) as u32 == c);
            }
        }
        proof {
            assert(kids.take(m as int) =~= kids);
        }
    }
    let ghost old_nodes = nodes@;
    let ghost rest = forest_entries(f.children, id + 1, id);
    nodes[(id - 1) as usize].children = roots;
    proof {
        assert(nodes@[i]@ == frame_node(f, id as int));
        lemma_set_children(old_nodes, nodes@, parents@, i, before, (frame_node(f, id as int), head_parents), rest);
        assert(frame_entries(f, id as int, parent) == seq![(frame_node(f, id as int), head_parents)] + rest);
        assert(graph_entries(nodes@, parents@) =~= before + frame_entries(f, id as int, parent));
    }
    id
}

fn thread_node<T: Copy>(t: &ThreadNode<T>, id: u32) -> (r: Node<T>)
    ensures
        r@ == frame_node_with(thread_frame(*t), id as int, Seq::empty()),
{
    let r = Node {
        id,
        is_thread: true,
        name: t.name.clone(),
        class_name: String::new(),
        method_name: String::new(),
        method_desc: String::new(),
        line_number: 0,
        times: times_vec(&t.times, t.time),
        children: Vec::new(),
    };
    assert(r@ =~= frame_node_with(thread_frame(*t), id as int, Seq::empty()));
    r
}

/// Adds a thread and all its frames, numbered in pre-order from the next
/// free id.
fn build_thread<T: Copy>(t: &ThreadNode<T>, nodes: &mut Vec<Node<T>>, parents: &mut Vec<Vec<u32>>) -> (id: u32)
    requires
        thread_ok(*t),
        old(nodes)@.len() == old(parents)@.len(),
        old(nodes)@.len() + frame_size(thread_frame(*t)) < u32::MAX,
    ensures
        final(nodes)@.len() == final(parents)@.len(),
        id == old(nodes)@.len() + 1,
        graph_entries(final(nodes)@, final(parents)@) == graph_entries(old(nodes)@, old(parents)@)
            + frame_entries(thread_frame(*t), id as int, 0),
{
    let ghost f = thread_frame(*t);
    let ghost before = graph_entries(nodes@, parents@);
    let flat = &t.children;
    let id: u32 = (nodes.len() + 1) as u32;
    let ghost i = nodes@.len() as int;
    let node = thread_node(t, id);
    let plist: Vec<u32> = Vec::new();
    proof {
        lemma_graph_entries_push(nodes@, parents@, node, plist);
    }
    nodes.push(node);
    parents.push(plist);
    let ghost head_parents = parents@[i]@;
    assert(head_parents =~= Seq::<u32>::empty());
    let mut roots: Vec<u32> = Vec::new();
    if t.children_refs.len() > 0 {
        let refs = &t.children_refs;
        let m = refs.len();
        let ghost sub = flat@.len();
        assert(refs@.take(0) =~= Seq::<i32>::empty());
        assert(graph_entries(nodes@, parents@) =~= before + seq![(nodes@[i]@, head_parents)]
            + forest_entries(ref_frames(flat@, refs@.take(0), sub), id + 1, id));
        for k in 0..m
            invariant
                m == refs@.len(),
                *refs == t.children_refs,
                *flat == t.children,
                sub == flat@.len(),
                refs_ok(flat@, refs@, sub),
                f == thread_frame(*t),
                f.children == ref_frames(flat@, refs@, sub),
                i == id - 1,
                before.len() == i,
                nodes@.len() == parents@.len(),
                nodes@.len() == i + 1 + forest_size(ref_frames(flat@, refs@.take(k as int), sub)),
                i + 1 + forest_size(ref_frames(flat@, refs@, sub)) < u32::MAX,
                nodes@[i]@ == frame_node_with(f, id as int, Seq::empty()),
                parents@[i]@ == head_parents,
                graph_entries(nodes@, parents@) == before + seq![(nodes@[i]@, head_parents)]
                    + forest_entries(ref_frames(flat@, refs@.take(k as int), sub), id + 1, id),
                roots@ == forest_roots(ref_frames(flat@, refs@.take(k as int), sub), id + 1),
        {
            let ghost pre = ref_frames(flat@, refs@.take(k as int), sub);
            let r = refs[k];
            proof {
                lemma_ref_frames_step(flat@, refs@, sub, k as int);
                lemma_ref_frames_prefix(flat@, refs@, sub, k + 1);
            }
            if 0 <= r && (r as usize) < flat.len() {
                let ghost old_nodes = nodes@;
                let ghost old_parents = parents@;
                let ghost cf = ref_frame(flat@, r as int, sub);
                proof {
                    lemma_forest_push(pre, cf, id + 1, id);
                }
                let c = build_from_flat(flat, r as usize, id, Ghost(sub), nodes, parents);
                roots.push(c);
                proof {
                    let g1 = graph_entries(nodes@, parents@);
                    let g0 = graph_entries(old_nodes, old_parents);
                    lemma_entries_len(cf, c as int, id);
                    assert(g1.len() == nodes@.len());
                    assert(g0.len() == old_nodes.len());
                    assert(g1[i] == g0[i]);
                    assert(g1[i] == (nodes@[i]@, parents@[i]@));
                    assert(g0[i] == (old_nodes[i]@, old_parents[i]@));
                    assert((id + 1 + forest_size(pre)) as u32 == c);
                }
            }
        }
        proof {
            assert(refs@.take(m as int) =~= refs@);
        }
    } else {
        let m = flat.len();
        let ghost kids = flat@;
        assert(kids.take(0) =~= Seq::<StackTraceNode<T>>::empty());
        assert(graph_entries(nodes@, parents@) =~= before + seq![(nodes@[i]@, head_parents)]
            + forest_entries(owned_frames(kids.take(0)), id + 1, id));
        for k in 0..m
            invariant
                m == kids.len(),
                kids == flat@,
                f == thread_frame(*t),
                f.children == owned_frames(kids),
                i == id - 1,
                before.len() == i,
                nodes@.len() == parents@.len(),
                nodes@.len() == i + 1 + forest_size(owned_frames(kids.take(k as int))),
                i + 1 + forest_size(owned_frames(kids)) < u32::MAX,
                nodes@[i]@ == frame_node_with(f, id as int, Seq::empty()),
                parents@[i]@ == head_parents,
                graph_entries(nodes@, parents@) == before + seq![(nodes@[i]@, head_parents)]
                    + forest_entries(owned_frames(kids.take(k as int)), id + 1, id),
                roots@ == forest_roots(owned_frames(kids.take(k as int)), id + 1),
        {
            let ghost pre = owned_frames(kids.take(k as int));
            let ghost old_nodes = nodes@;
            let ghost old_parents = parents@;
            proof {
                lemma_owned_frames_step(kids, k as int);
                lemma_owned_frames_prefix(kids, k + 1);
                lemma_forest_push(pre, owned_frame(kids[k as int]), id + 1, id);
            }
            let c = build_owned(&flat[k], id, nodes, parents);
            roots.push(c);
            proof {
                let g1 = graph_entries(nodes@, parents@);
                let g0 = graph_entries(old_nodes, old_parents);
                lemma_entries_len(owned_frame(kids[k as int]), c as int, id);
                assert(g1.len() == nodes@.len());
                assert(g0.len() == old_nodes.len());
                assert(g1[i] == g0[i]);
                assert(g1[i] == (nodes@[i]@, parents@[i]@));
                assert(g0[i] == (old_nodes[i]@, old_parents[i]@));
                assert((id + 1 + forest_size(pre)) as u32 == c);
            }
        }
        proof {
            assert(kids.take(m as int) =~= kids);
        }
    }
    let ghost old_nodes = nodes@;
    let ghost rest = forest_entries(f.children, id + 1, id);
    nodes[(id - 1) as usize].children = roots;
    proof {
        assert(nodes@[i]@ == frame_node(f, id as int));
        lemma_set_children(old_nodes, nodes@, parents@, i, before, (frame_node(f, id as int), head_parents), rest);
        assert(frame_entries(f, id as int, 0) == seq![(frame_node(f, id as int), head_parents)] + rest);
        assert(graph_entries(nodes@, parents@) =~= before + frame_entries(f, id as int, 0));
    }
    id
}

// ---------------------------------------------------------------------------
// counting before building

/// The number of nodes a nested frame becomes, when at most `cap`.
fn owned_count<T>(n: &StackTraceNode<T>, cap: u64) -> (r: Option<u64>)
    ensures
        r == (if frame_size(owned_frame(*n)) <= cap {
            Some(frame_size(owned_frame(*n)) as u64)
        } else {
            None::<u64>
        }),
    decreases n,
{
    let ghost kids = n.children@;
    if cap == 0 {
        return None;
    }
    let mut total: u64 = 1;
    let m = n.children.len();
    assert(kids.take(0) =~= Seq::<StackTraceNode<T>>::empty());
    for k in 0..m
        invariant
            m == kids.len(),
            kids == n.children@,
            owned_frame(*n).children == owned_frames(kids),
            total == 1 + forest_size(owned_frames(kids.take(k as int))),
            total <= cap,
    {
        proof {
            lemma_owned_frames_step(kids, k as int);
            lemma_owned_frames_prefix(kids, k + 1);
            lemma_forest_push(owned_frames(kids.take(k as int)), owned_frame(kids[k as int]), 0, 0);
        }
        match owned_count(&n.children[k], cap - total) {
            None => {
                return None;
            },
            Some(c) => {
                total = total + c;
            },
        }
    }
    assert(kids.take(m as int) =~= kids);
    Some(total)
}

/// The number of nodes table entry `idx` becomes, when references end
/// within `fuel` steps and the number is at most `cap`.
fn flat_count<T>(flat: &Vec<StackTraceNode<T>>, idx: usize, fuel: u64, cap: u64) -> (r: Option<u64>)
    requires
        idx < flat@.len(),
    ensures
        r == (if ref_ok(flat@, idx as int, fuel as nat) && frame_size(ref_frame(flat@, idx as int, fuel as nat)) <= cap {
            Some(frame_size(ref_frame(flat@, idx as int, fuel as nat)) as u64)
        } else {
            None::<u64>
        }),
    decreases fuel,
{
    let ghost f = ref_frame(flat@, idx as int, fuel as nat);
    let n = &flat[idx];
    if cap == 0 {
        return None;
    }
    let mut total: u64 = 1;
    if n.children_refs.len() > 0 {
        if fuel == 0 {
            return None;
        }
        let sub: u64 = fuel - 1;
        let refs = &n.children_refs;
        let m = refs.len();
        assert(refs@.take(0) =~= Seq::<i32>::empty());
        for k in 0..m
            invariant
                m == refs@.len(),
                *refs == n.children_refs,
                *n == flat@[idx as int],
                fuel > 0,
                sub == fuel - 1,
                f == ref_frame(flat@, idx as int, fuel as nat),
                f.children == ref_frames(flat@, refs@, sub as nat),
                total == 1 + forest_size(ref_frames(flat@, refs@.take(k as int), sub as nat)),
                refs_ok(flat@, refs@.take(k as int), sub as nat),
                total <= cap,
        {
            let r = refs[k];
            proof {
                lemma_ref_frames_step(flat@, refs@, sub as nat, k as int);
                lemma_ref_frames_prefix(flat@, refs@, sub as nat, k + 1);
            }
            if 0 <= r && (r as usize) < flat.len() {
                proof {
                    lemma_forest_push(
                        ref_frames(flat@, refs@.take(k as int), sub as nat),
                        ref_frame(flat@, r as int, sub as nat),
                        0,
                        0,
                    );
                }
                match flat_count(flat, r as usize, sub, cap - total) {
                    None => {
                        return None;
                    },
                    Some(c) => {
                        total = total + c;
                    },
                }
            }
        }
        assert(refs@.take(m as int) =~= refs@);
    } else {
        let m = n.children.len();
        let ghost kids = n.children@;
        assert(kids.take(0) =~= Seq::<StackTraceNode<T>>::empty());
        for k in 0..m
            invariant
                m == kids.len(),
                kids == n.children@,
                *n == flat@[idx as int],
                n.children_refs@.len() == 0,
                f == ref_frame(flat@, idx as int, fuel as nat),
                f.children == owned_frames(kids),
                total == 1 + forest_size(owned_frames(kids.take(k as int))),
                total <= cap,
        {
            proof {
                lemma_owned_frames_step(kids, k as int);
                lemma_owned_frames_prefix(kids, k + 1);
                lemma_forest_push(owned_frames(kids.take(k as int)), owned_frame(kids[k as int]), 0, 0);
            }
            match owned_count(&n.children[k], cap - total) {
                None => {
                    return None;
                },
                Some(c) => {
                    total = total + c;
                },
            }
        }
        assert(kids.take(m as int) =~= kids);
    }
    Some(total)
}

/// The number of nodes a thread becomes, when its references lead to no
/// cycle and the number is at most `cap`.
fn thread_count<T>(t: &ThreadNode<T>, cap: u64) -> (r: Option<u64>)
    ensures
        r == (if thread_ok(*t) && frame_size(thread_frame(*t)) <= cap {
            Some(frame_size(thread_frame(*t)) as u64)
        } else {
            None::<u64>
        }),
{
    let ghost f = thread_frame(*t);
    let flat = &t.children;
    if cap == 0 {
        return None;
    }
    let mut total: u64 = 1;
    if t.children_refs.len() > 0 {
        let sub: u64 = flat.len() as u64;
        let refs = &t.children_refs;
        let m = refs.len();
        assert(refs@.take(0) =~= Seq::<i32>::empty());
        for k in 0..m
            invariant
                m == refs@.len(),
                *refs == t.children_refs,
                *flat == t.children,
                sub == flat@.len(),
                f == thread_frame(*t),
                f.children == ref_frames(flat@, refs@, sub as nat),
                total == 1 + forest_size(ref_frames(flat@, refs@.take(k as int), sub as nat)),
                refs_ok(flat@, refs@.take(k as int), sub as nat),
                total <= cap,
        {
            let r = refs[k];
            proof {
                lemma_ref_frames_step(flat@, refs@, sub as nat, k as int);
                lemma_ref_frames_prefix(flat@, refs@, sub as nat, k + 1);
            }
            if 0 <= r && (r as usize) < flat.len() {
                proof {
                    lemma_forest_push(
                        ref_frames(flat@, refs@.take(k as int), sub as nat),
                        ref_frame(flat@, r as int, sub as nat),
                        0,
                        0,
                    );
                }
                match flat_count(flat, r as usize, sub, cap - total) {
                    None => {
                        return None;
                    },
                    Some(c) => {
                        total = total + c;
                    },
                }
            }
        }
        assert(refs@.take(m as int) =~= refs@);
    } else {
        let m = flat.len();
        let ghost kids = flat@;
        assert(kids.take(0) =~= Seq::<StackTraceNode<T>>::empty());
        for k in 0..m
            invariant
                m == kids.len(),
                kids == flat@,
                *flat == t.children,
                t.children_refs@.len() == 0,
                f == thread_frame(*t),
                f.children == owned_frames(kids),
                total == 1 + forest_size(owned_frames(kids.take(k as int))),
                total <= cap,
        {
            proof {
                lemma_owned_frames_step(kids, k as int);
                lemma_owned_frames_prefix(kids, k + 1);
                lemma_forest_push(owned_frames(kids.take(k as int)), owned_frame(kids[k as int]), 0, 0);
            }
            match owned_count(&flat[k], cap - total) {
                None => {
                    return None;
                },
                Some(c) => {
                    total = total + c;
                },
            }
        }
        assert(kids.take(m as int) =~= kids);
    }
    Some(total)
}

// ---------------------------------------------------------------------------
// sources

/// A sampler upload: its threads, the plugin/mod source maps (each key at
/// most once, as in a map) and its time window ids.
pub struct SamplerData<T> {
    pub threads: Vec<ThreadNode<T>>,
    pub class_sources: Vec<(String, String)>,
    pub method_sources: Vec<(String, String)>,
    pub line_sources: Vec<(String, String)>,
    pub time_windows: Vec<i32>,
}

/// The value of the first entry with the given key.
pub open spec fn lookup(m: Seq<(String, String)>, key: Seq<char>) -> Option<Seq<char>>
    decreases m.len(),
{
    if m.len() == 0 {
        None
    } else if m[0].0@ == key {
        Some(m[0].1@)
    } else {
        lookup(m.drop_first(), key)
    }
}

/// The values of a map.
pub open spec fn map_values_of(m: Seq<(String, String)>) -> Seq<Seq<char>> {
    m.map_values(|e: (String, String)| e.1@)
}

/// Frames of classes Paper generates for event executors belong to no
/// plugin.
pub open spec fn generated_prefix() -> Seq<char> {
    "com.destroystokyo.paper.event.executor.asm.generated."@
}

/// The source a frame's lookups give: by method
/// (`class;method;descriptor`, when both are named), else by line
/// (`class;line`, when the line is not 0), else by class.
pub open spec fn source_lookup<T>(
    n: NodeView<T>,
    class_sources: Seq<(String, String)>,
    method_sources: Seq<(String, String)>,
    line_sources: Seq<(String, String)>,
) -> Option<Seq<char>> {
    let by_method = if n.method_name.len() > 0 && n.method_desc.len() > 0 {
        lookup(method_sources, n.class_name + seq![';'] + n.method_name + seq![';'] + n.method_desc)
    } else {
        None
    };
    let by_line = if by_method is None && n.line_number != 0 {
        lookup(line_sources, n.class_name + seq![';'] + int_text(n.line_number as int))
    } else {
        by_method
    };
    if by_line is None {
        lookup(class_sources, n.class_name)
    } else {
        by_line
    }
}

/// The plugin or mod a node is attributed to: none for threads, frames
/// without a class and generated event executors, and none when the
/// lookup gives `minecraft` or `java`.
pub open spec fn attributed_source<T>(
    n: NodeView<T>,
    class_sources: Seq<(String, String)>,
    method_sources: Seq<(String, String)>,
    line_sources: Seq<(String, String)>,
) -> Option<Seq<char>> {
    if n.is_thread || n.class_name.len() == 0 || starts_with(n.class_name, generated_prefix()) {
        None
    } else {
        match source_lookup(n, class_sources, method_sources, line_sources) {
            Some(s) => if s == "minecraft"@ || s == "java"@ {
                None
            } else {
                Some(s)
            },
            None => None,
        }
    }
}

fn lookup_exec(m: &Vec<(String, String)>, key: &str) -> (r: Option<String>)
    ensures
        match r {
            Some(v) => lookup(m@, key@) == Some(v@),
            None => lookup(m@, key@) is None,
        },
{
    let n = m.len();
    assert(m@.skip(0) =~= m@);
    for i in 0..n
        invariant
            n == m@.len(),
            lookup(m@, key@) == lookup(m@.skip(i as int), key@),
    {
        assert(m@.skip(i as int)[0] == m@[i as int]);
        assert(m@.skip(i as int).drop_first() =~= m@.skip(i + 1));
        if str_eq(m[i].0.as_str(), key) {
            return Some(m[i].1.clone());
        }
    }
    None
}

fn source_of_node<T>(
    n: &Node<T>,
    class_sources: &Vec<(String, String)>,
    method_sources: &Vec<(String, String)>,
    line_sources: &Vec<(String, String)>,
) -> (r: Option<String>)
    ensures
        match r {
            Some(v) => attributed_source(n@, class_sources@, method_sources@, line_sources@) == Some(v@),
            None => attributed_source(n@, class_sources@, method_sources@, line_sources@) is None,
        },
{
    if n.is_thread || n.class_name.as_str().is_empty()
        || str_starts_with(n.class_name.as_str(), "com.destroystokyo.paper.event.executor.asm.generated.") {
        return None;
    }
    let mut source: Option<String> = None;
    if !n.method_name.as_str().is_empty() && !n.method_desc.as_str().is_empty() {
        let mut key = n.class_name.clone();
        push_char(&mut key, ';');
        push_str(&mut key, n.method_name.as_str());
        push_char(&mut key, ';');
        push_str(&mut key, n.method_desc.as_str());
        assert(key@ =~= n.class_name@ + seq![';'] + n.method_name@ + seq![';'] + n.method_desc@);
        source = lookup_exec(method_sources, key.as_str());
    }
    if source.is_none() && n.line_number != 0 {
        let mut key = n.class_name.clone();
        push_char(&mut key, ';');
        push_int(&mut key, n.line_number as i64);
        assert(key@ =~= n.class_name@ + seq![';'] + int_text(n.line_number as int));
        source = lookup_exec(line_sources, key.as_str());
    }
    if source.is_none() {
        source = lookup_exec(class_sources, n.class_name.as_str());
    }
    match source {
        Some(s) => {
            if str_eq(s.as_str(), "minecraft") || str_eq(s.as_str(), "java") {
                None
            } else {
                Some(s)
            }
        },
        None => None,
    }
}

/// The entry of each root of a list of frames is the node of that frame.
pub proof fn lemma_root_entries<T>(fs: Seq<Frame<T>>, first: int, parent: u32)
    requires
        0 <= first,
        first + forest_size(fs) <= u32::MAX + 1,
    ensures
        forall|j: int|
            0 <= j < fs.len() ==> forest_entries(fs, first, parent)[forest_roots(fs, first)[j] - first].0
                == frame_node(fs[j], forest_roots(fs, first)[j] as int),
    decreases fs.len(),
{
    if fs.len() > 0 {
        let init = fs.drop_last();
        lemma_root_entries(init, first, parent);
        lemma_forest_entries_len(init, first, parent);
        lemma_forest_entries_len(fs, first, parent);
        lemma_roots_bounds(init, first);
        let e = forest_entries(fs, first, parent);
        let a = forest_entries(init, first, parent);
        let r = forest_roots(fs, first);
        let ri = forest_roots(init, first);
        assert(frame_size(fs.last()) >= 1);
        assert forall|j: int| 0 <= j < fs.len() implies e[r[j] - first].0 == frame_node(fs[j], r[j] as int) by {
            if j < init.len() {
                assert(r[j] == ri[j]);
                assert(fs[j] == init[j]);
                assert(e[r[j] - first] == a[r[j] - first]);
            } else {
                assert(r[j] == (first + forest_size(init)) as u32);
                assert(e[r[j] - first] == frame_entries(fs.last(), first + forest_size(init), parent)[0]);
            }
        }
    }
}

// ---------------------------------------------------------------------------
// the graph

/// The call graph of a sampler profile. Node `id` is at index `id - 1`;
/// ids are given in pre-order, so children come after their node and
/// parents before it.
pub struct ProfileGraph<T> {
    threads: Vec<Node<T>>,
    nodes: Vec<Node<T>>,
    parents: Vec<Vec<u32>>,
    id_to_source: Vec<Option<String>>,
    all_sources: Vec<String>,
    /// Ordered window ids matching times[] index
    time_windows: Vec<i32>,
}

pub open spec fn opt_string_view(s: Option<String>) -> Option<Seq<char>> {
    match s {
        Some(v) => Some(v@),
        None => None,
    }
}

/// No key occurs twice in a source map (as in the upload's maps).
pub open spec fn distinct_keys(m: Seq<(String, String)>) -> bool {
    forall|i: int, j: int| 0 <= i < j < m.len() ==> m[i].0@ != m[j].0@
}

/// The threads unfold within the ids: no cycle of references, and fewer
/// nodes than `u32::MAX`.
pub open spec fn threads_fit<T>(data: SamplerData<T>) -> bool {
    threads_ok(data.threads@) && forest_size(thread_frames(data.threads@)) < u32::MAX
}

/// Whether an upload can become a graph: its threads unfold within the ids
/// and each source map holds every key at most once.
pub open spec fn sampler_fits<T>(data: SamplerData<T>) -> bool {
    &&& threads_fit(data)
    &&& distinct_keys(data.class_sources@)
    &&& distinct_keys(data.method_sources@)
    &&& distinct_keys(data.line_sources@)
}

/// The nodes and parent lists a sampler upload becomes.
pub open spec fn sampler_entries<T>(data: SamplerData<T>) -> Seq<(NodeView<T>, Seq<u32>)> {
    forest_entries(thread_frames(data.threads@), 1, 0)
}

/// The ids of the threads of a sampler upload, in order.
pub open spec fn sampler_thread_ids<T>(data: SamplerData<T>) -> Seq<u32> {
    forest_roots(thread_frames(data.threads@), 1)
}

/// The sources that the source maps name, whatever they are attached to.
pub open spec fn named_sources<T>(data: SamplerData<T>) -> Set<Seq<char>> {
    (map_values_of(data.class_sources@) + map_values_of(data.method_sources@) + map_values_of(
        data.line_sources@,
    )).to_set()
}

/// `g` is the graph of the upload `data`: its entries are the upload's
/// threads unfolded, its threads are the roots, its windows are the
/// upload's, each node has the source its frame is attributed, and the
/// named sources are listed once each, ascending.
pub open spec fn graph_of<T>(g: ProfileGraph<T>, data: SamplerData<T>) -> bool {
    &&& g.entries() == sampler_entries(data)
    &&& g.thread_seq() == sampler_thread_ids(data).map_values(|id: u32| g.node_seq()[id - 1])
    &&& g.window_seq() == data.time_windows@
    &&& forall|i: int|
        0 <= i < g.node_seq().len() ==> #[trigger] g.source_seq()[i] == attributed_source(
            g.node_seq()[i],
            data.class_sources@,
            data.method_sources@,
            data.line_sources@,
        )
    &&& g.all_source_seq().to_set() == named_sources(data)
    &&& strictly_sorted_texts(g.all_source_seq())
}

impl<T> ProfileGraph<T> {
    /// The nodes, by index (`id - 1`).
    pub closed spec fn node_seq(&self) -> Seq<NodeView<T>> {
        self.nodes@.map_values(|n: Node<T>| n@)
    }

    /// The parent lists, by index (`id - 1`); empty for threads.
    pub closed spec fn parent_seq(&self) -> Seq<Seq<u32>> {
        self.parents@.map_values(|p: Vec<u32>| p@)
    }

    /// The plugin or mod of each node, by index (`id - 1`).
    pub closed spec fn source_seq(&self) -> Seq<Option<Seq<char>>> {
        self.id_to_source@.map_values(|s: Option<String>| opt_string_view(s))
    }

    /// The threads, in upload order.
    pub closed spec fn thread_seq(&self) -> Seq<NodeView<T>> {
        self.threads@.map_values(|n: Node<T>| n@)
    }

    pub closed spec fn all_source_seq(&self) -> Seq<Seq<char>> {
        texts(self.all_sources@)
    }

    pub closed spec fn window_seq(&self) -> Seq<i32> {
        self.time_windows@
    }

    pub open spec fn entries(&self) -> Seq<(NodeView<T>, Seq<u32>)> {
        Seq::new(self.node_seq().len(), |i: int| (self.node_seq()[i], self.parent_seq()[i]))
    }

    /// Node `id - 1` has id `id`; children lie after their node and parents
    /// before it; every thread is the node of its id.
    #[verifier::type_invariant]
    pub open spec fn wf(&self) -> bool {
        &&& self.node_seq().len() == self.parent_seq().len()
        &&& self.node_seq().len() == self.source_seq().len()
        &&& self.node_seq().len() < u32::MAX
        &&& entries_shaped(self.entries(), 1, 1)
        &&& forall|k: int|
            0 <= k < self.thread_seq().len() ==> {
                let t = #[trigger] self.thread_seq()[k];
                &&& 1 <= t.id <= self.node_seq().len()
                &&& t == self.node_seq()[t.id - 1]
                &&& t.is_thread
            }
    }
}

fn copy_node<T: Copy>(n: &Node<T>) -> (r: Node<T>)
    ensures
        r@ == n@,
{
    let mut children: Vec<u32> = Vec::new();
    let m = n.children.len();
    for i in 0..m
        invariant
            m == n.children@.len(),
            children@ == n.children@.take(i as int),
    {
        children.push(n.children[i]);
        assert(n.children@.take(i + 1) =~= n.children@.take(i as int).push(n.children@[i as int]));
    }
    assert(n.children@.take(m as int) =~= n.children@);
    Node {
        id: n.id,
        is_thread: n.is_thread,
        name: n.name.clone(),
        class_name: n.class_name.clone(),
        method_name: n.method_name.clone(),
        method_desc: n.method_desc.clone(),
        line_number: n.line_number,
        times: copy_vec(&n.times),
        children,
    }
}

proof fn lemma_thread_frames<T>(ts: Seq<ThreadNode<T>>)
    ensures
        thread_frames(ts).len() == ts.len(),
        forall|k: int| 0 <= k < ts.len() ==> #[trigger] thread_frames(ts)[k] == thread_frame(ts[k]),
    decreases ts.len(),
{
    if ts.len() > 0 {
        lemma_thread_frames(ts.drop_last());
        assert forall|k: int| 0 <= k < ts.len() implies #[trigger] thread_frames(ts)[k] == thread_frame(ts[k]) by {
            if k < ts.len() - 1 {
                assert(ts.drop_last()[k] == ts[k]);
            }
        }
    }
}

proof fn lemma_thread_frames_step<T>(ts: Seq<ThreadNode<T>>, k: int)
    requires
        0 <= k < ts.len(),
    ensures
        thread_frames(ts.take(k + 1)) == thread_frames(ts.take(k)).push(thread_frame(ts[k])),
{
    assert(ts.take(k + 1).drop_last() =~= ts.take(k));
    assert(ts.take(k + 1).last() == ts[k]);
}

proof fn lemma_thread_frames_prefix<T>(ts: Seq<ThreadNode<T>>, k: int)
    requires
        0 <= k <= ts.len(),
    ensures
        forest_size(thread_frames(ts.take(k))) <= forest_size(thread_frames(ts)),
    decreases ts.len() - k,
{
    if k < ts.len() {
        lemma_thread_frames_prefix(ts, k + 1);
        lemma_thread_frames_step(ts, k);
        lemma_forest_push(thread_frames(ts.take(k)), thread_frame(ts[k]), 0, 0);
    } else {
        assert(ts.take(k) =~= ts);
    }
}

/// Whether no key occurs twice in a source map.
pub fn keys_distinct(m: &Vec<(String, String)>) -> (r: bool)
    ensures
        r == distinct_keys(m@),
{
    let n = m.len();
    for i in 0..n
        invariant
            n == m@.len(),
            forall|a: int, b: int| 0 <= a < b < m@.len() && a < i ==> m@[a].0@ != m@[b].0@,
    {
        for j in i + 1..n
            invariant
                n == m@.len(),
                i < n,
                forall|a: int, b: int| 0 <= a < b < m@.len() && a < i ==> m@[a].0@ != m@[b].0@,
                forall|b: int| i < b < j ==> m@[i as int].0@ != m@[b].0@,
        {
            if str_eq(m[i].0.as_str(), m[j].0.as_str()) {
                return false;
            }
        }
    }
    true
}

/// Whether a sampler upload can become a graph: its references lead to no
/// cycle, it has fewer nodes than `u32::MAX`, and no source map holds a key
/// twice.
pub fn fits_in_graph<T>(data: &SamplerData<T>) -> (r: bool)
    ensures
        r == sampler_fits(*data),
{
    threads_fit_exec(data) && keys_distinct(&data.class_sources) && keys_distinct(&data.method_sources)
        && keys_distinct(&data.line_sources)
}

fn threads_fit_exec<T>(data: &SamplerData<T>) -> (r: bool)
    ensures
        r == threads_fit(*data),
{
    let ts = &data.threads;
    let n = ts.len();
    let cap: u64 = 0xffff_fffe;
    let mut total: u64 = 0;
    assert(ts@.take(0) =~= Seq::<ThreadNode<T>>::empty());
    for k in 0..n
        invariant
            n == ts@.len(),
            *ts == data.threads,
            total == forest_size(thread_frames(ts@.take(k as int))),
            cap == 0xffff_fffe,
            total <= cap,
            forall|j: int| 0 <= j < k ==> thread_ok(#[trigger] ts@[j]),
    {
        proof {
            lemma_thread_frames_step(ts@, k as int);
            lemma_thread_frames_prefix(ts@, k + 1);
            lemma_forest_push(thread_frames(ts@.take(k as int)), thread_frame(ts@[k as int]), 0, 0);
        }
        match thread_count(&ts[k], cap - total) {
            None => {
                proof {
                    if thread_ok(ts@[k as int]) {
                        let sz = frame_size(thread_frame(ts@[k as int]));
                        assert(sz > cap - total);
                        assert(forest_size(thread_frames(ts@.take(k + 1))) == total + sz);
                        assert(forest_size(thread_frames(ts@.take(k + 1))) <= forest_size(thread_frames(ts@)));
                        assert(forest_size(thread_frames(ts@)) >= 0xffff_ffff);
                    }
                }
                return false;
            },
            Some(c) => {
                total = total + c;
            },
        }
    }
    assert(ts@.take(n as int) =~= ts@);
    true
}

impl<T: Copy> ProfileGraph<T> {
    /// The graph of a sampler upload: every thread and frame becomes a node,
    /// numbered in pre-order from 1, thread by thread; each frame's single
    /// parent is the node it hangs from; each frame is attributed the
    /// plugin or mod its class, method or line names; all named sources are
    /// listed once each, in ascending order.
    pub fn from_sampler(data: SamplerData<T>) -> (g: ProfileGraph<T>)
        requires
            sampler_fits(data),
        ensures
            g.entries() == sampler_entries(data),
            g.thread_seq() == sampler_thread_ids(data).map_values(|id: u32| g.node_seq()[id - 1]),
            g.window_seq() == data.time_windows@,
            forall|i: int|
                0 <= i < g.node_seq().len() ==> #[trigger] g.source_seq()[i] == attributed_source(
                    g.node_seq()[i],
                    data.class_sources@,
                    data.method_sources@,
                    data.line_sources@,
                ),
            g.all_source_seq().to_set() == named_sources(data),
            strictly_sorted_texts(g.all_source_seq()),
            graph_of(g, data),
    {
        let ghost frames = thread_frames(data.threads@);
        let mut nodes: Vec<Node<T>> = Vec::new();
        let mut parents: Vec<Vec<u32>> = Vec::new();
        let mut thread_ids: Vec<u32> = Vec::new();
        let ts = &data.threads;
        let n = ts.len();
        proof {
            lemma_thread_frames(ts@);
        }
        assert(ts@.take(0) =~= Seq::<ThreadNode<T>>::empty());
        assert(graph_entries(nodes@, parents@) =~= forest_entries(thread_frames(ts@.take(0)), 1, 0));
        for k in 0..n
            invariant
                n == ts@.len(),
                *ts == data.threads,
                sampler_fits(data),
                nodes@.len() == parents@.len(),
                nodes@.len() == forest_size(thread_frames(ts@.take(k as int))),
                graph_entries(nodes@, parents@) == forest_entries(thread_frames(ts@.take(k as int)), 1, 0),
                thread_ids@ == forest_roots(thread_frames(ts@.take(k as int)), 1),
        {
            let ghost pre = thread_frames(ts@.take(k as int));
            proof {
                lemma_thread_frames_step(ts@, k as int);
                lemma_thread_frames_prefix(ts@, k + 1);
                lemma_forest_push(pre, thread_frame(ts@[k as int]), 1, 0);
                assert(thread_ok(ts@[k as int]));
            }
            let tid = build_thread(&ts[k], &mut nodes, &mut parents);
            thread_ids.push(tid);
            proof {
                lemma_entries_len(thread_frame(ts@[k as int]), tid as int, 0);
                assert(graph_entries(nodes@, parents@).len() == nodes@.len());
            }
        }
        assert(ts@.take(n as int) =~= ts@);
        // structure facts
        proof {
            lemma_forest_entries_len(frames, 1, 0);
            assert forall|k: int| 0 <= k < frames.len() implies (#[trigger] frames[k]).is_thread by {}
            lemma_forest_shaped(frames, 1, 0, 1);
            lemma_roots_bounds(frames, 1);
        }
        let ghost entries = graph_entries(nodes@, parents@);
        // threads
        let mut threads: Vec<Node<T>> = Vec::new();
        let tn = thread_ids.len();
        for k in 0..tn
            invariant
                tn == thread_ids@.len(),
                thread_ids@ == forest_roots(frames, 1),
                entries == graph_entries(nodes@, parents@),
                entries == forest_entries(frames, 1, 0),
                entries.len() == nodes@.len(),
                threads@.len() == k,
                forall|j: int| 0 <= j < forest_roots(frames, 1).len() ==> 1 <= #[trigger] forest_roots(frames, 1)[j]
                    < 1 + forest_size(frames),
                nodes@.len() == forest_size(frames),
                forall|j: int| 0 <= j < k ==> #[trigger] threads@[j]@ == nodes@[thread_ids@[j] - 1]@,
        {
            let tid = thread_ids[k];
            assert(1 <= tid <= nodes@.len());
            threads.push(copy_node(&nodes[(tid - 1) as usize]));
        }
        // sources
        let mut id_to_source: Vec<Option<String>> = Vec::new();
        let nn = nodes.len();
        for i in 0..nn
            invariant
                nn == nodes@.len(),
                id_to_source@.len() == i,
                forall|j: int| 0 <= j < i ==> #[trigger] opt_string_view(id_to_source@[j]) == attributed_source(
                    nodes@[j]@,
                    data.class_sources@,
                    data.method_sources@,
                    data.line_sources@,
                ),
        {
            let src = source_of_node(&nodes[i], &data.class_sources, &data.method_sources, &data.line_sources);
            id_to_source.push(src);
        }
        let mut values: Vec<String> = Vec::new();
        let ghost want = map_values_of(data.class_sources@) + map_values_of(data.method_sources@)
            + map_values_of(data.line_sources@);
        let ghost m0 = map_values_of(data.class_sources@);
        let ghost m1 = map_values_of(data.method_sources@);
        let ghost m2 = map_values_of(data.line_sources@);
        let c0 = data.class_sources.len();
        for i in 0..c0
            invariant
                c0 == data.class_sources@.len(),
                m0 == map_values_of(data.class_sources@),
                texts(values@) == m0.take(i as int),
        {
            let ghost old_v = values@;
            values.push(data.class_sources[i].1.clone());
            assert(texts(values@) =~= texts(old_v).push(m0[i as int]));
            assert(m0.take(i + 1) =~= m0.take(i as int).push(m0[i as int]));
        }
        assert(m0.take(c0 as int) =~= m0);
        let c1 = data.method_sources.len();
        for i in 0..c1
            invariant
                c1 == data.method_sources@.len(),
                m1 == map_values_of(data.method_sources@),
                texts(values@) == m0 + m1.take(i as int),
        {
            let ghost old_v = values@;
            values.push(data.method_sources[i].1.clone());
            assert(texts(values@) =~= texts(old_v).push(m1[i as int]));
            assert(m1.take(i + 1) =~= m1.take(i as int).push(m1[i as int]));
            assert(m0 + m1.take(i + 1) =~= (m0 + m1.take(i as int)).push(m1[i as int]));
        }
        assert(m1.take(c1 as int) =~= m1);
        let c2 = data.line_sources.len();
        for i in 0..c2
            invariant
                c2 == data.line_sources@.len(),
                m2 == map_values_of(data.line_sources@),
                texts(values@) == m0 + m1 + m2.take(i as int),
        {
            let ghost old_v = values@;
            values.push(data.line_sources[i].1.clone());
            assert(texts(values@) =~= texts(old_v).push(m2[i as int]));
            assert(m2.take(i + 1) =~= m2.take(i as int).push(m2[i as int]));
            assert(m0 + m1 + m2.take(i + 1) =~= (m0 + m1 + m2.take(i as int)).push(m2[i as int]));
        }
        assert(m2.take(c2 as int) =~= m2);
        let all_sources = sorted_distinct_strings(values);
        proof {
            lemma_root_entries(frames, 1, 0);
            lemma_thread_frames(data.threads@);
            let gn = nodes@.map_values(|x: Node<T>| x@);
            let gp = parents@.map_values(|x: Vec<u32>| x@);
            let ge = Seq::new(gn.len(), |i: int| (gn[i], gp[i]));
            assert(ge =~= entries);
            let tv = threads@.map_values(|x: Node<T>| x@);
            assert forall|k: int| 0 <= k < tv.len() implies {
                let t = #[trigger] tv[k];
                &&& 1 <= t.id <= gn.len()
                &&& t == gn[t.id - 1]
                &&& t.is_thread
            } by {
                let r = forest_roots(frames, 1)[k];
                assert(tv[k] == threads@[k]@);
                assert(threads@[k]@ == nodes@[r - 1]@);
                assert(entries[r - 1].0 == frame_node(frames[k], r as int));
                assert(frames[k] == thread_frame(data.threads@[k]));
                assert(entries[r - 1].0 == nodes@[r - 1]@);
            }
        }
        let g = ProfileGraph { threads, nodes, parents, id_to_source, all_sources, time_windows: data.time_windows };
        proof {
            assert(g.entries() =~= entries);
            assert(g.thread_seq() =~= sampler_thread_ids(data).map_values(|id: u32| g.node_seq()[id - 1]));
            assert forall|i: int| 0 <= i < g.node_seq().len() implies #[trigger] g.source_seq()[i] == attributed_source(
                g.node_seq()[i],
                data.class_sources@,
                data.method_sources@,
                data.line_sources@,
            ) by {
                assert(g.source_seq()[i] == opt_string_view(g.id_to_source@[i]));
            }
        }
        g
    }

    /// The graph of a sampler upload, or `None` when it does not fit (a
    /// cycle of frame references, `u32::MAX` nodes or more, or a source map
    /// key given twice).
    pub fn try_from_sampler(data: SamplerData<T>) -> (r: Option<ProfileGraph<T>>)
        ensures
            r is Some <==> sampler_fits(data),
            r matches Some(g) ==> {
                &&& g.entries() == sampler_entries(data)
                &&& g.thread_seq() == sampler_thread_ids(data).map_values(|id: u32| g.node_seq()[id - 1])
                &&& g.window_seq() == data.time_windows@
                &&& forall|i: int|
                    0 <= i < g.node_seq().len() ==> #[trigger] g.source_seq()[i] == attributed_source(
                        g.node_seq()[i],
                        data.class_sources@,
                        data.method_sources@,
                        data.line_sources@,
                    )
                &&& g.all_source_seq().to_set() == named_sources(data)
                &&& strictly_sorted_texts(g.all_source_seq())
                &&& graph_of(g, data)
            },
    {
        if fits_in_graph(&data) {
            Some(Self::from_sampler(data))
        } else {
            None
        }
    }
}

// ---------------------------------------------------------------------------
// labels

/// `:line` for a positive line number, else nothing.
pub open spec fn line_suffix(line: i32) -> Seq<char> {
    if line > 0 {
        seq![':'] + decimal(line as nat)
    } else {
        Seq::empty()
    }
}

/// How a node is shown: a thread by its name; a frame as `class.method`
/// (or whichever of the two it has, `native` frames as `native method`),
/// followed by `:line` when the line is positive, or `(unknown)`.
pub open spec fn node_label<T>(n: NodeView<T>) -> Seq<char> {
    let line = line_suffix(n.line_number);
    if n.is_thread {
        n.name
    } else if n.class_name == "native"@ {
        if n.method_name.len() == 0 {
            "native"@ + line
        } else {
            "native "@ + n.method_name + line
        }
    } else if n.class_name.len() > 0 && n.method_name.len() > 0 {
        n.class_name + seq!['.'] + n.method_name + line
    } else if n.class_name.len() > 0 {
        n.class_name + line
    } else if n.method_name.len() > 0 {
        n.method_name + line
    } else {
        "(unknown)"@
    }
}

/// The key under which frames of the same method are merged: class,
/// method and descriptor separated by NUL characters.
pub open spec fn node_key<T>(n: NodeView<T>) -> Seq<char> {
    n.class_name + seq!['\0'] + n.method_name + seq!['\0'] + n.method_desc
}

fn push_line_suffix(s: &mut String, line: i32)
    ensures
        final(s)@ == old(s)@ + line_suffix(line),
{
    if line > 0 {
        push_char(s, ':');
        push_decimal(s, line as u64);
        assert(s@ =~= old(s)@ + line_suffix(line));
    } else {
        assert(s@ =~= old(s)@ + line_suffix(line));
    }
}

impl<T> Node<T> {
    pub fn label(&self) -> (r: String)
        ensures
            r@ == node_label(self@),
    {
        if self.is_thread {
            return self.name.clone();
        }
        let m_empty = self.method_name.as_str().is_empty();
        let c_empty = self.class_name.as_str().is_empty();
        if str_eq(self.class_name.as_str(), "native") {
            let mut r = if m_empty {
                string_of("native")
            } else {
                let mut t = string_of("native ");
                push_str(&mut t, self.method_name.as_str());
                t
            };
            push_line_suffix(&mut r, self.line_number);
            proof {
                if m_empty {
                    assert(r@ =~= "native"@ + line_suffix(self.line_number));
                } else {
                    assert(r@ =~= "native "@ + self.method_name@ + line_suffix(self.line_number));
                }
            }
            r
        } else if !c_empty && !m_empty {
            let mut r = self.class_name.clone();
            push_char(&mut r, '.');
            push_str(&mut r, self.method_name.as_str());
            push_line_suffix(&mut r, self.line_number);
            assert(r@ =~= self.class_name@ + seq!['.'] + self.method_name@ + line_suffix(self.line_number));
            r
        } else if !c_empty {
            let mut r = self.class_name.clone();
            push_line_suffix(&mut r, self.line_number);
            r
        } else if !m_empty {
            let mut r = self.method_name.clone();
            push_line_suffix(&mut r, self.line_number);
            r
        } else {
            string_of("(unknown)")
        }
    }

    pub fn key(&self) -> (r: String)
        ensures
            r@ == node_key(self@),
    {
        let mut r = self.class_name.clone();
        push_char(&mut r, '\0');
        push_str(&mut r, self.method_name.as_str());
        push_char(&mut r, '\0');
        push_str(&mut r, self.method_desc.as_str());
        assert(r@ =~= node_key(self@));
        r
    }
}

// ---------------------------------------------------------------------------
// reading the graph

impl<T> ProfileGraph<T> {
    /// The node with this id, if any.
    pub open spec fn node(&self, id: u32) -> Option<NodeView<T>> {
        if 1 <= id <= self.node_seq().len() {
            Some(self.node_seq()[id - 1])
        } else {
            None
        }
    }

    /// The plugin or mod of the node with this id, if any.
    pub open spec fn source(&self, id: u32) -> Option<Seq<char>> {
        if 1 <= id <= self.node_seq().len() {
            self.source_seq()[id - 1]
        } else {
            None
        }
    }

    /// The parents of the node with this id (empty for threads and unknown
    /// ids).
    pub open spec fn parents(&self, id: u32) -> Seq<u32> {
        if 1 <= id <= self.node_seq().len() {
            self.parent_seq()[id - 1]
        } else {
            Seq::empty()
        }
    }

    /// The threads, in upload order.
    pub fn threads(&self) -> (r: &Vec<Node<T>>)
        ensures
            r@.map_values(|n: Node<T>| n@) == self.thread_seq(),
    {
        &self.threads
    }

    pub fn node_count(&self) -> (r: usize)
        ensures
            r == self.node_seq().len(),
    {
        self.nodes.len()
    }

    pub fn get(&self, id: u32) -> (r: Option<&Node<T>>)
        ensures
            match r {
                Some(n) => self.node(id) == Some(n@),
                None => self.node(id) is None,
            },
    {
        if id >= 1 && (id as usize) <= self.nodes.len() {
            Some(&self.nodes[(id - 1) as usize])
        } else {
            None
        }
    }

    pub fn source_of(&self, id: u32) -> (r: Option<&str>)
        ensures
            match r {
                Some(s) => self.source(id) == Some(s@),
                None => self.source(id) is None,
            },
    {
        proof {
            use_type_invariant(self);
        }
        if id >= 1 && (id as usize) <= self.nodes.len() {
            match &self.id_to_source[(id - 1) as usize] {
                Some(s) => Some(s.as_str()),
                None => None,
            }
        } else {
            None
        }
    }

    /// The parents of a node: `None` for threads and unknown ids (which
    /// have none).
    pub fn parents_of(&self, id: u32) -> (r: Option<&Vec<u32>>)
        ensures
            match r {
                Some(p) => p@ == self.parents(id) && p@.len() > 0,
                None => self.parents(id).len() == 0,
            },
    {
        proof {
            use_type_invariant(self);
        }
        if id >= 1 && (id as usize) <= self.nodes.len() {
            let p = &self.parents[(id - 1) as usize];
            if p.len() > 0 {
                Some(p)
            } else {
                None
            }
        } else {
            None
        }
    }

    /// Whether any node is attributed to a plugin or mod.
    pub fn has_sources(&self) -> (r: bool)
        ensures
            r == exists|i: int| 0 <= i < self.source_seq().len() && (#[trigger] self.source_seq()[i]) is Some,
    {
        let n = self.id_to_source.len();
        for i in 0..n
            invariant
                n == self.id_to_source@.len(),
                forall|j: int| 0 <= j < i ==> (#[trigger] self.source_seq()[j]) is None,
        {
            if self.id_to_source[i].is_some() {
                assert(self.source_seq()[i as int] is Some);
                return true;
            }
        }
        false
    }

    /// Every plugin or mod the source maps name, once each, ascending.
    pub fn all_sources(&self) -> (r: &Vec<String>)
        ensures
            texts(r@) == self.all_source_seq(),
    {
        &self.all_sources
    }

    /// The ids of the time windows, in `times[]` order.
    pub fn time_windows(&self) -> (r: &Vec<i32>)
        ensures
            r@ == self.window_seq(),
    {
        &self.time_windows
    }

    /// The number of time windows with an id.
    pub fn window_count(&self) -> (r: usize)
        ensures
            r == self.window_seq().len(),
    {
        self.time_windows.len()
    }

    /// The window indices a selection picks in this profile.
    pub fn selected_window_indices(&self, sel: &WindowSelect) -> (r: HashSet<usize>)
        ensures
            r@ == selected_windows(self.window_seq(), sel@),
    {
        select_windows(&self.time_windows, sel)
    }
}

impl<T> ProfileGraph<T> {
    /// In a well-formed graph, the node of id `id` has that id, its children
    /// come after it (and are nodes), and its parents come before it.
    pub proof fn lemma_node_shape(&self, id: u32)
        requires
            self.wf(),
            1 <= id <= self.node_seq().len(),
        ensures
            self.node_seq()[id - 1].id == id,
            forall|j: int|
                0 <= j < self.node_seq()[id - 1].children.len() ==> id < #[trigger] self.node_seq()[id
                    - 1].children[j] <= self.node_seq().len(),
            forall|j: int|
                0 <= j < self.parent_seq()[id - 1].len() ==> 1 <= #[trigger] self.parent_seq()[id
                    - 1][j] < id,
    {
        let e = self.entries();
        assert(entry_shaped(e, 1, 1, id - 1));
        assert(e[id - 1] == (self.node_seq()[id - 1], self.parent_seq()[id - 1]));
        assert forall|j: int| 0 <= j < self.parent_seq()[id - 1].len() implies 1 <= #[trigger] self.parent_seq()[id
            - 1][j] < id by {
            assert(e[id - 1].1[j] == self.parent_seq()[id - 1][j]);
        }
    }
}

} // verus!
