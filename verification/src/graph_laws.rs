//! What the graph of an upload holds of the upload: the plugin or mod of
//! each frame, and the times of each node.
use vstd::prelude::*;
use crate::graph::{
    Frame, NodeView, ProfileGraph, SamplerData, StackTraceNode, ThreadNode, distinct_keys, forest_entries,
    forest_roots, forest_size, frame_entries, frame_node, frame_size, graph_of, lemma_entries_len,
    lemma_forest_entries_len, lookup, owned_frame, owned_frames, ref_frame, ref_frames, ref_ok, refs_ok,
    sampler_fits, thread_frame, thread_frames, thread_ok, valid_ref,
};
use crate::text::{int_text, starts_with};

verus! {

/// The map holds an entry with this key.
pub open spec fn has_key(m: Seq<(String, String)>, key: Seq<char>) -> bool {
    exists|i: int| 0 <= i < m.len() && m[i].0@ == key
}

/// The map holds an entry with this key and value.
pub open spec fn maps_to(m: Seq<(String, String)>, key: Seq<char>, v: Seq<char>) -> bool {
    exists|i: int| 0 <= i < m.len() && m[i].0@ == key && m[i].1@ == v
}

/// A source as the graph keeps it: `minecraft` and `java` are no plugin.
pub open spec fn kept_source(s: Seq<char>) -> Option<Seq<char>> {
    if s == "minecraft"@ || s == "java"@ {
        None
    } else {
        Some(s)
    }
}

/// The method key of a frame: `class;method;descriptor`.
pub open spec fn method_key<T>(n: NodeView<T>) -> Seq<char> {
    n.class_name + seq![';'] + n.method_name + seq![';'] + n.method_desc
}

/// The line key of a frame: `class;line`.
pub open spec fn line_key<T>(n: NodeView<T>) -> Seq<char> {
    n.class_name + seq![';'] + int_text(n.line_number as int)
}

/// The method map names the frame (it has a method and a descriptor).
pub open spec fn named_by_method<T>(data: SamplerData<T>, n: NodeView<T>) -> bool {
    n.method_name.len() > 0 && n.method_desc.len() > 0 && has_key(data.method_sources@, method_key(n))
}

/// The line map names the frame (its line is not 0), and the method map
/// does not.
pub open spec fn named_by_line<T>(data: SamplerData<T>, n: NodeView<T>) -> bool {
    !named_by_method(data, n) && n.line_number != 0 && has_key(data.line_sources@, line_key(n))
}

/// A frame that can belong to a plugin: it has a class, and the class is
/// none that Paper generates for event executors.
pub open spec fn attributable<T>(n: NodeView<T>) -> bool {
    n.class_name.len() > 0 && !starts_with(n.class_name, "com.destroystokyo.paper.event.executor.asm.generated."@)
}

pub proof fn lemma_lookup_entries(m: Seq<(String, String)>, key: Seq<char>)
    requires
        distinct_keys(m),
    ensures
        !has_key(m, key) ==> lookup(m, key) is None,
        forall|v: Seq<char>| maps_to(m, key, v) ==> lookup(m, key) == Some(v),
    decreases m.len(),
{
    if m.len() > 0 {
        let t = m.drop_first();
        assert(distinct_keys(t)) by {
            assert forall|i: int, j: int| 0 <= i < j < t.len() implies t[i].0@ != t[j].0@ by {
                assert(t[i] == m[i + 1] && t[j] == m[j + 1]);
            }
        }
        lemma_lookup_entries(t, key);
        if !has_key(m, key) {
            assert(m[0].0@ != key);
            if has_key(t, key) {
                let i = choose|i: int| 0 <= i < t.len() && t[i].0@ == key;
                assert(m[i + 1] == t[i]);
            }
        }
        assert forall|v: Seq<char>| maps_to(m, key, v) implies lookup(m, key) == Some(v) by {
            let i = choose|i: int| 0 <= i < m.len() && m[i].0@ == key && m[i].1@ == v;
            if i == 0 {
            } else {
                assert(m[0].0@ != key);
                assert(t[i - 1] == m[i]);
                assert(maps_to(t, key, v));
            }
        }
    }
}

/// In the graph of an upload, a frame belongs to the plugin or mod that the
/// upload's maps give it: by its method key when the method map has it,
/// else by its line key when the line map has it, else by its class when
/// the class map has it; `minecraft` and `java` are no plugin, and frames
/// without a class or of generated event executors belong to none.
pub proof fn law_frame_source<T>(data: SamplerData<T>, g: &ProfileGraph<T>, d: u32, v: Seq<char>)
    requires
        sampler_fits(data),
        graph_of(*g, data),
        g.node(d) is Some,
        !g.node(d)->0.is_thread,
    ensures
        !attributable(g.node(d)->0) ==> g.source(d) is None,
        attributable(g.node(d)->0) && named_by_method(data, g.node(d)->0) && maps_to(
            data.method_sources@,
            method_key(g.node(d)->0),
            v,
        ) ==> g.source(d) == kept_source(v),
        attributable(g.node(d)->0) && named_by_line(data, g.node(d)->0) && maps_to(
            data.line_sources@,
            line_key(g.node(d)->0),
            v,
        ) ==> g.source(d) == kept_source(v),
        attributable(g.node(d)->0) && !named_by_method(data, g.node(d)->0) && !named_by_line(data, g.node(d)->0)
            && maps_to(data.class_sources@, g.node(d)->0.class_name, v) ==> g.source(d) == kept_source(v),
        attributable(g.node(d)->0) && !named_by_method(data, g.node(d)->0) && !named_by_line(data, g.node(d)->0)
            && !has_key(data.class_sources@, g.node(d)->0.class_name) ==> g.source(d) is None,
{
    let n = g.node(d)->0;
    assert(g.source_seq()[d - 1] == crate::graph::attributed_source(
        g.node_seq()[d - 1],
        data.class_sources@,
        data.method_sources@,
        data.line_sources@,
    ));
    assert(crate::graph::generated_prefix() == "com.destroystokyo.paper.event.executor.asm.generated."@);
    lemma_lookup_entries(data.method_sources@, method_key(n));
    lemma_lookup_entries(data.line_sources@, line_key(n));
    lemma_lookup_entries(data.class_sources@, n.class_name);
}

// ---------------------------------------------------------------------------
// the nodes a frame of the upload becomes

/// The node keeps the times of its upload frame: the per-window times, or
/// the single time when there are none.
pub open spec fn keeps_times<T>(times: Seq<T>, up_times: Seq<T>, up_time: T) -> bool {
    if up_times.len() > 0 {
        times == up_times
    } else {
        times == seq![up_time]
    }
}

/// Node `id` is a frame with the class, method, descriptor, line and times
/// of the upload frame `u`.
pub open spec fn node_of_frame<T>(g: &ProfileGraph<T>, id: u32, u: StackTraceNode<T>) -> bool {
    &&& g.node(id) is Some
    &&& !g.node(id)->0.is_thread
    &&& g.node(id)->0.class_name == u.class_name@
    &&& g.node(id)->0.method_name == u.method_name@
    &&& g.node(id)->0.method_desc == u.method_desc@
    &&& g.node(id)->0.line_number == u.line_number
    &&& keeps_times(g.node(id)->0.times, u.times@, u.time)
}

/// Node `id` is made of the upload frame `u` and of its sub-frames, below
/// it in order.
pub open spec fn node_of_owned<T>(g: &ProfileGraph<T>, id: u32, u: StackTraceNode<T>) -> bool
    decreases u,
{
    node_of_frame(g, id, u) && owned_children_of(g, g.node(id)->0.children, u.children@)
}

/// Nodes `ids` are made of the upload frames `us`, one for one.
pub open spec fn owned_children_of<T>(g: &ProfileGraph<T>, ids: Seq<u32>, us: Seq<StackTraceNode<T>>) -> bool
    decreases us,
{
    ids.len() == us.len() && (us.len() == 0 || (owned_children_of(g, ids.drop_last(), us.drop_last())
        && node_of_owned(g, ids.last(), us.last())))
}

/// Node `id` is made of entry `idx` of the frame table `flat`, its
/// children of the entries its references name (or of its own sub-frames
/// when it has no references).
pub open spec fn node_of_ref<T>(g: &ProfileGraph<T>, id: u32, flat: Seq<StackTraceNode<T>>, idx: int, fuel: nat) -> bool
    decreases fuel, 0int,
{
    &&& node_of_frame(g, id, flat[idx])
    &&& if flat[idx].children_refs@.len() > 0 {
        fuel > 0 && ref_children_of(g, g.node(id)->0.children, flat, flat[idx].children_refs@, (fuel - 1) as nat)
    } else {
        owned_children_of(g, g.node(id)->0.children, flat[idx].children@)
    }
}

/// Nodes `ids` are made of the table entries that `refs` name, in order;
/// a reference outside the table makes no node.
pub open spec fn ref_children_of<T>(
    g: &ProfileGraph<T>,
    ids: Seq<u32>,
    flat: Seq<StackTraceNode<T>>,
    refs: Seq<i32>,
    fuel: nat,
) -> bool
    decreases fuel, refs.len() + 1,
{
    if refs.len() == 0 {
        ids.len() == 0
    } else if 0 <= refs.last() < flat.len() {
        &&& ids.len() > 0
        &&& ref_children_of(g, ids.drop_last(), flat, refs.drop_last(), fuel)
        &&& node_of_ref(g, ids.last(), flat, refs.last() as int, fuel)
    } else {
        ref_children_of(g, ids, flat, refs.drop_last(), fuel)
    }
}

/// Node `id` is the thread `t` of the upload: its name and times, and its
/// frames (by reference into its frame table, or its own).
pub open spec fn node_of_thread<T>(g: &ProfileGraph<T>, id: u32, t: ThreadNode<T>) -> bool {
    &&& g.node(id) is Some
    &&& g.node(id)->0.is_thread
    &&& g.node(id)->0.name == t.name@
    &&& keeps_times(g.node(id)->0.times, t.times@, t.time)
    &&& if t.children_refs@.len() > 0 {
        ref_children_of(g, g.node(id)->0.children, t.children@, t.children_refs@, t.children@.len())
    } else {
        owned_children_of(g, g.node(id)->0.children, t.children@)
    }
}

/// The entries of frame `f` numbered from `id` stand in `e` at `id - 1`.
pub open spec fn slice_at<T>(e: Seq<(NodeView<T>, Seq<u32>)>, f: Frame<T>, id: int, p: u32) -> bool {
    1 <= id && id - 1 + frame_size(f) <= e.len() && e.subrange(id - 1, id - 1 + frame_size(f)) == frame_entries(
        f,
        id,
        p,
    )
}

/// The entries of frames `fs` numbered from `first` stand in `e` at
/// `first - 1`.
pub open spec fn forest_at<T>(e: Seq<(NodeView<T>, Seq<u32>)>, fs: Seq<Frame<T>>, first: int, p: u32) -> bool {
    1 <= first && first - 1 + forest_size(fs) <= e.len() && e.subrange(first - 1, first - 1 + forest_size(fs))
        == forest_entries(fs, first, p)
}

proof fn lemma_slice_head<T>(e: Seq<(NodeView<T>, Seq<u32>)>, f: Frame<T>, id: int, p: u32)
    requires
        slice_at(e, f, id, p),
    ensures
        e[id - 1].0 == frame_node(f, id),
        forest_at(e, f.children, id + 1, id as u32),
{
    lemma_entries_len(f, id, p);
    lemma_forest_entries_len(f.children, id + 1, id as u32);
    let fe = frame_entries(f, id, p);
    assert(e[id - 1] == fe[0]);
    assert(e.subrange(id, id + forest_size(f.children)) =~= fe.subrange(1, fe.len() as int));
    assert(fe.subrange(1, fe.len() as int) =~= forest_entries(f.children, id + 1, id as u32));
}

proof fn lemma_forest_split<T>(e: Seq<(NodeView<T>, Seq<u32>)>, fs: Seq<Frame<T>>, first: int, p: u32)
    requires
        forest_at(e, fs, first, p),
        fs.len() > 0,
    ensures
        forest_at(e, fs.drop_last(), first, p),
        slice_at(e, fs.last(), first + forest_size(fs.drop_last()), p),
        forest_roots(fs, first) == forest_roots(fs.drop_last(), first).push(
            (first + forest_size(fs.drop_last())) as u32,
        ),
{
    let init = fs.drop_last();
    lemma_forest_entries_len(init, first, p);
    lemma_entries_len(fs.last(), first + forest_size(init), p);
    let a = forest_entries(init, first, p);
    let b = frame_entries(fs.last(), first + forest_size(init), p);
    let whole = e.subrange(first - 1, first - 1 + forest_size(fs));
    assert(whole == a + b);
    assert(e.subrange(first - 1, first - 1 + forest_size(init)) =~= whole.subrange(0, a.len() as int));
    assert(whole.subrange(0, a.len() as int) =~= a);
    let fb = first + forest_size(init);
    assert(e.subrange(fb - 1, fb - 1 + frame_size(fs.last())) =~= whole.subrange(a.len() as int, whole.len() as int));
    assert(whole.subrange(a.len() as int, whole.len() as int) =~= b);
}

/// In the graph, node `id` is entry `id - 1`.
proof fn lemma_node_entry<T>(g: &ProfileGraph<T>, id: int)
    requires
        1 <= id <= g.entries().len(),
        g.entries().len() < u32::MAX,
    ensures
        g.node(id as u32) == Some(g.entries()[id - 1].0),
{
    assert(g.node_seq().len() == g.entries().len());
    assert(id as u32 == id);
    assert(g.entries()[id - 1].0 == g.node_seq()[id - 1]);
}

proof fn lemma_owned_node<T>(g: &ProfileGraph<T>, u: StackTraceNode<T>, id: int, p: u32)
    requires
        slice_at(g.entries(), owned_frame(u), id, p),
        g.entries().len() < u32::MAX,
    ensures
        node_of_owned(g, id as u32, u),
    decreases u,
{
    let e = g.entries();
    let f = owned_frame(u);
    lemma_slice_head(e, f, id, p);
    lemma_node_entry(g, id);
    assert(f.children == owned_frames(u.children@));
    lemma_owned_list(g, u.children@, id + 1, id as u32);
}

proof fn lemma_owned_list<T>(g: &ProfileGraph<T>, s: Seq<StackTraceNode<T>>, first: int, p: u32)
    requires
        forest_at(g.entries(), owned_frames(s), first, p),
        g.entries().len() < u32::MAX,
    ensures
        owned_children_of(g, forest_roots(owned_frames(s), first), s),
    decreases s,
{
    let fs = owned_frames(s);
    lemma_forest_entries_len(fs, first, p);
    if s.len() > 0 {
        let init = s.drop_last();
        assert(fs.drop_last() =~= owned_frames(init));
        assert(fs.last() == owned_frame(s.last()));
        lemma_forest_split(g.entries(), fs, first, p);
        crate::graph::lemma_forest_push(owned_frames(init), owned_frame(s.last()), first, p);
        lemma_owned_list(g, init, first, p);
        lemma_owned_node(g, s.last(), first + forest_size(owned_frames(init)), p);
        let r = forest_roots(fs, first);
        assert(r.drop_last() =~= forest_roots(owned_frames(init), first));
        lemma_forest_entries_len(owned_frames(init), first, p);
    } else {
        assert(forest_roots(fs, first) =~= Seq::<u32>::empty());
    }
}

proof fn lemma_ref_node<T>(g: &ProfileGraph<T>, flat: Seq<StackTraceNode<T>>, idx: int, fuel: nat, id: int, p: u32)
    requires
        slice_at(g.entries(), ref_frame(flat, idx, fuel), id, p),
        ref_ok(flat, idx, fuel),
        g.entries().len() < u32::MAX,
    ensures
        node_of_ref(g, id as u32, flat, idx, fuel),
    decreases fuel, 0int,
{
    let e = g.entries();
    let f = ref_frame(flat, idx, fuel);
    lemma_slice_head(e, f, id, p);
    lemma_node_entry(g, id);
    lemma_entries_len(f, id, p);
    if flat[idx].children_refs@.len() > 0 {
        lemma_ref_list(g, flat, flat[idx].children_refs@, (fuel - 1) as nat, id + 1, id as u32);
    } else {
        lemma_owned_list(g, flat[idx].children@, id + 1, id as u32);
    }
}

proof fn lemma_ref_list<T>(
    g: &ProfileGraph<T>,
    flat: Seq<StackTraceNode<T>>,
    refs: Seq<i32>,
    fuel: nat,
    first: int,
    p: u32,
)
    requires
        forest_at(g.entries(), ref_frames(flat, refs, fuel), first, p),
        refs_ok(flat, refs, fuel),
        g.entries().len() < u32::MAX,
    ensures
        ref_children_of(g, forest_roots(ref_frames(flat, refs, fuel), first), flat, refs, fuel),
    decreases fuel, refs.len() + 1,
{
    let fs = ref_frames(flat, refs, fuel);
    lemma_forest_entries_len(fs, first, p);
    if refs.len() > 0 {
        let rest = ref_frames(flat, refs.drop_last(), fuel);
        if valid_ref(flat, refs.last()) {
            assert(fs == rest.push(ref_frame(flat, refs.last() as int, fuel)));
            assert(fs.drop_last() =~= rest);
            lemma_forest_split(g.entries(), fs, first, p);
            crate::graph::lemma_forest_push(rest, ref_frame(flat, refs.last() as int, fuel), first, p);
            lemma_ref_list(g, flat, refs.drop_last(), fuel, first, p);
            lemma_ref_node(g, flat, refs.last() as int, fuel, first + forest_size(rest), p);
            let r = forest_roots(fs, first);
            assert(r.drop_last() =~= forest_roots(rest, first));
            lemma_forest_entries_len(rest, first, p);
        } else {
            assert(fs == rest);
            lemma_ref_list(g, flat, refs.drop_last(), fuel, first, p);
        }
    } else {
        assert(forest_roots(fs, first) =~= Seq::<u32>::empty());
    }
}

proof fn lemma_thread_node<T>(g: &ProfileGraph<T>, t: ThreadNode<T>, id: int)
    requires
        slice_at(g.entries(), thread_frame(t), id, 0),
        thread_ok(t),
        g.entries().len() < u32::MAX,
    ensures
        node_of_thread(g, id as u32, t),
{
    let e = g.entries();
    let f = thread_frame(t);
    lemma_slice_head(e, f, id, 0);
    lemma_node_entry(g, id);
    lemma_entries_len(f, id, 0);
    if t.children_refs@.len() > 0 {
        lemma_ref_list(g, t.children@, t.children_refs@, t.children@.len(), id + 1, id as u32);
    } else {
        lemma_owned_list(g, t.children@, id + 1, id as u32);
    }
}

proof fn lemma_forest_slices<T>(e: Seq<(NodeView<T>, Seq<u32>)>, fs: Seq<Frame<T>>, first: int, p: u32)
    requires
        forest_at(e, fs, first, p),
        e.len() < u32::MAX,
    ensures
        forall|j: int| 0 <= j < fs.len() ==> slice_at(e, #[trigger] fs[j], forest_roots(fs, first)[j] as int, p),
    decreases fs.len(),
{
    if fs.len() > 0 {
        let init = fs.drop_last();
        lemma_forest_split(e, fs, first, p);
        lemma_forest_slices(e, init, first, p);
        lemma_forest_entries_len(init, first, p);
        lemma_forest_entries_len(fs, first, p);
        let r = forest_roots(fs, first);
        let ri = forest_roots(init, first);
        assert(r == ri.push((first + forest_size(init)) as u32));
        assert(first + forest_size(init) <= e.len());
        assert forall|j: int| 0 <= j < fs.len() implies slice_at(e, #[trigger] fs[j], r[j] as int, p) by {
            if j < init.len() {
                assert(fs[j] == init[j]);
                assert(r[j] == ri[j]);
            } else {
                assert(fs[j] == fs.last());
                assert(r[j] == (first + forest_size(init)) as u32);
                assert(r[j] as int == first + forest_size(init));
            }
        }
    }
}

/// The graph of an upload keeps, for every thread, its name and times, and
/// for every frame below it (its own frames, or the entries of its frame
/// table that its references name, references outside the table skipped)
/// a node with the frame's class, method, descriptor, line and times: the
/// per-window times, or the single time when there are none. It keeps the
/// upload's window ids, in order.
pub proof fn law_nodes_keep_the_upload<T>(data: SamplerData<T>, g: &ProfileGraph<T>)
    requires
        sampler_fits(data),
        graph_of(*g, data),
    ensures
        g.window_seq() == data.time_windows@,
        g.thread_seq().len() == data.threads@.len(),
        forall|k: int| 0 <= k < data.threads@.len() ==> node_of_thread(g, #[trigger] g.thread_seq()[k].id, data.threads@[k]),
{
    let ts = data.threads@;
    let fs = thread_frames(ts);
    let roots = forest_roots(fs, 1);
    let e = g.entries();
    crate::links::lemma_thread_frames_each(ts);
    lemma_forest_entries_len(fs, 1, 0);
    assert(e.subrange(0, forest_size(fs) as int) =~= e);
    assert(forest_at(e, fs, 1, 0));
    assert(e.len() < u32::MAX);
    lemma_forest_slices(e, fs, 1, 0);
    crate::graph::lemma_roots_bounds(fs, 1);
    assert(e.len() < u32::MAX);
    assert forall|k: int| 0 <= k < ts.len() implies node_of_thread(g, #[trigger] g.thread_seq()[k].id, ts[k]) by {
        assert(fs[k] == thread_frame(ts[k]));
        assert(crate::graph::thread_ok(ts[k]));
        let r = roots[k];
        lemma_thread_node(g, ts[k], r as int);
        lemma_slice_head(e, fs[k], r as int, 0);
        assert(g.thread_seq()[k] == g.node_seq()[r - 1]);
        assert(e[r - 1].0 == g.node_seq()[r - 1]);
    }
}

} // verus!
