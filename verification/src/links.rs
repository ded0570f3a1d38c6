//! How the parent lists and the child lists of a numbered upload agree.
use vstd::prelude::*;
use crate::graph::{
    Frame, NodeView, StackTraceNode, ThreadNode, forest_entries, forest_roots, forest_size, frame_entries,
    frame_node, frame_size, lemma_entries_len, lemma_forest_entries_len, lemma_root_entries,
    lemma_roots_bounds, owned_frame, owned_frames, ref_frame, ref_frames, thread_frame, thread_frames,
};

verus! {

/// A frame with times that is no thread, nor is anything below it.
pub open spec fn plain_frame<T>(f: Frame<T>) -> bool
    decreases f,
{
    !f.is_thread && f.times.len() > 0 && plain_forest(f.children)
}

pub open spec fn plain_forest<T>(fs: Seq<Frame<T>>) -> bool
    decreases fs,
{
    fs.len() == 0 || (plain_forest(fs.drop_last()) && plain_frame(fs.last()))
}

/// Entry `k` has the parents the tree gives it: a thread none; a frame a
/// single parent, which is `outer` when the frame is one of `roots`, or
/// else an earlier entry that lists the frame as a child.
pub open spec fn parent_ok<T>(
    e: Seq<(NodeView<T>, Seq<u32>)>,
    first: int,
    outer: u32,
    roots: Seq<u32>,
    k: int,
) -> bool {
    if e[k].0.is_thread {
        e[k].1.len() == 0
    } else {
        &&& e[k].1.len() == 1
        &&& ((e[k].1[0] == outer && roots.contains((first + k) as u32)) || (first <= e[k].1[0] < first + k
            && e[e[k].1[0] - first].0.children.contains((first + k) as u32)))
    }
}

/// Every child of entry `k` is a later entry whose only parent is entry
/// `k`.
pub open spec fn children_ok<T>(e: Seq<(NodeView<T>, Seq<u32>)>, first: int, k: int) -> bool {
    forall|j: int|
        0 <= j < e[k].0.children.len() ==> first + k < #[trigger] e[k].0.children[j] < first + e.len()
            && e[e[k].0.children[j] - first].1 == seq![(first + k) as u32]
}

/// Every root is an entry that is a thread or has the single parent
/// `outer`.
pub open spec fn roots_ok<T>(e: Seq<(NodeView<T>, Seq<u32>)>, first: int, outer: u32, roots: Seq<u32>) -> bool {
    forall|j: int|
        0 <= j < roots.len() ==> first <= #[trigger] roots[j] < first + e.len() && (e[roots[j]
            - first].0.is_thread || e[roots[j] - first].1 == seq![outer])
}

/// Entry `k` has times, and is a thread only if it is one of the roots.
pub open spec fn node_ok<T>(e: Seq<(NodeView<T>, Seq<u32>)>, first: int, roots: Seq<u32>, k: int) -> bool {
    e[k].0.times.len() > 0 && (e[k].0.is_thread ==> roots.contains((first + k) as u32))
}

/// The parent lists and the child lists of entries numbered from `first`
/// agree, `outer` being the parent of the roots; every entry has times and
/// only roots are threads.
pub open spec fn links_agree<T>(e: Seq<(NodeView<T>, Seq<u32>)>, first: int, outer: u32, roots: Seq<u32>) -> bool {
    &&& forall|k: int| 0 <= k < e.len() ==> #[trigger] node_ok(e, first, roots, k)
    &&& forall|k: int| 0 <= k < e.len() ==> #[trigger] parent_ok(e, first, outer, roots, k)
    &&& forall|k: int| 0 <= k < e.len() ==> #[trigger] children_ok(e, first, k)
    &&& roots_ok(e, first, outer, roots)
}

pub proof fn lemma_plain_forest_index<T>(fs: Seq<Frame<T>>)
    ensures
        plain_forest(fs) <==> forall|k: int| 0 <= k < fs.len() ==> plain_frame(#[trigger] fs[k]),
    decreases fs.len(),
{
    if fs.len() > 0 {
        lemma_plain_forest_index(fs.drop_last());
        if forall|k: int| 0 <= k < fs.len() ==> plain_frame(#[trigger] fs[k]) {
            assert forall|k: int| 0 <= k < fs.drop_last().len() implies plain_frame(#[trigger] fs.drop_last()[k]) by {
                assert(fs.drop_last()[k] == fs[k]);
            }
            assert(plain_frame(fs[fs.len() - 1]));
        }
        if plain_forest(fs) {
            assert forall|k: int| 0 <= k < fs.len() implies plain_frame(#[trigger] fs[k]) by {
                if k < fs.len() - 1 {
                    assert(fs.drop_last()[k] == fs[k]);
                }
            }
        }
    }
}

proof fn lemma_plain_push<T>(fs: Seq<Frame<T>>, f: Frame<T>)
    requires
        plain_forest(fs),
        plain_frame(f),
    ensures
        plain_forest(fs.push(f)),
{
    assert(fs.push(f).drop_last() =~= fs);
}

pub proof fn lemma_owned_plain<T>(n: StackTraceNode<T>)
    ensures
        plain_frame(owned_frame(n)),
    decreases n,
{
    lemma_owned_frames_plain(n.children@);
}

pub proof fn lemma_owned_frames_plain<T>(s: Seq<StackTraceNode<T>>)
    ensures
        plain_forest(owned_frames(s)),
    decreases s,
{
    if s.len() > 0 {
        lemma_owned_frames_plain(s.drop_last());
        lemma_owned_plain(s.last());
        lemma_plain_push(owned_frames(s.drop_last()), owned_frame(s.last()));
    }
}

pub proof fn lemma_ref_plain<T>(flat: Seq<StackTraceNode<T>>, idx: int, fuel: nat)
    ensures
        plain_frame(ref_frame(flat, idx, fuel)),
    decreases fuel, 0int,
{
    let n = flat[idx];
    if n.children_refs@.len() > 0 {
        if fuel > 0 {
            lemma_ref_frames_plain(flat, n.children_refs@, (fuel - 1) as nat);
        }
    } else {
        lemma_owned_frames_plain(n.children@);
    }
}

pub proof fn lemma_ref_frames_plain<T>(flat: Seq<StackTraceNode<T>>, refs: Seq<i32>, fuel: nat)
    ensures
        plain_forest(ref_frames(flat, refs, fuel)),
    decreases fuel, refs.len() + 1,
{
    if refs.len() > 0 {
        lemma_ref_frames_plain(flat, refs.drop_last(), fuel);
        if crate::graph::valid_ref(flat, refs.last()) {
            lemma_ref_plain(flat, refs.last() as int, fuel);
            lemma_plain_push(ref_frames(flat, refs.drop_last(), fuel), ref_frame(flat, refs.last() as int, fuel));
        }
    }
}

/// Below a thread there are only frames.
pub proof fn lemma_thread_children_plain<T>(t: ThreadNode<T>)
    ensures
        plain_forest(thread_frame(t).children),
        thread_frame(t).is_thread,
        thread_frame(t).times.len() > 0,
{
    if t.children_refs@.len() > 0 {
        lemma_ref_frames_plain(t.children@, t.children_refs@, t.children@.len());
    } else {
        lemma_owned_frames_plain(t.children@);
    }
}

/// The entries of one frame: its node (id `id`, parent `parent`) and the
/// entries of its sub-frames.
pub proof fn lemma_frame_links<T>(f: Frame<T>, id: int, parent: u32)
    requires
        0 <= parent < id,
        id + frame_size(f) <= u32::MAX + 1,
        f.times.len() > 0,
        plain_forest(f.children),
    ensures
        links_agree(frame_entries(f, id, parent), id, parent, seq![id as u32]),
    decreases f,
{
    let tail = forest_entries(f.children, id + 1, id as u32);
    let r = forest_roots(f.children, id + 1);
    lemma_plain_forest_index(f.children);
    assert forall|k: int| 0 <= k < f.children.len() implies plain_forest(#[trigger] f.children[k].children)
        && f.children[k].times.len() > 0 by {
        assert(plain_frame(f.children[k]));
    }
    lemma_forest_links(f.children, id + 1, id as u32);
    lemma_forest_entries_len(f.children, id + 1, id as u32);
    lemma_roots_bounds(f.children, id + 1);
    lemma_root_entries(f.children, id + 1, id as u32);
    let e = frame_entries(f, id, parent);
    assert(e.len() == 1 + tail.len());
    assert(e[0].0 == frame_node(f, id));
    assert(e[0].0.children == r);
    assert forall|k: int| 1 <= k < e.len() implies e[k] == tail[k - 1] by {}
    assert forall|k: int| 0 <= k < e.len() implies #[trigger] node_ok(e, id, seq![id as u32], k) by {
        if k == 0 {
            assert(seq![id as u32][0] == id as u32);
        } else {
            assert(node_ok(tail, id + 1, r, k - 1));
            if e[k].0.is_thread {
                let j = choose|j: int| 0 <= j < r.len() && r[j] == (id + 1 + (k - 1)) as u32;
                assert(tail[r[j] - (id + 1)].0 == frame_node(f.children[j], r[j] as int));
                assert(plain_frame(f.children[j]));
            }
        }
    }
    assert forall|k: int| 0 <= k < e.len() implies #[trigger] parent_ok(e, id, parent, seq![id as u32], k) by {
        if k == 0 {
            if !f.is_thread {
                assert(seq![id as u32][0] == id as u32);
            }
        } else {
            assert(parent_ok(tail, id + 1, id as u32, r, k - 1));
            assert(e[k] == tail[k - 1]);
            if !e[k].0.is_thread {
                let p = e[k].1[0];
                if p == id as u32 && r.contains((id + 1 + (k - 1)) as u32) {
                    assert(e[p - id] == e[0]);
                } else {
                    assert(e[p - id] == tail[p - (id + 1)]);
                }
            }
        }
    }
    assert forall|k: int| 0 <= k < e.len() implies #[trigger] children_ok(e, id, k) by {
        if k == 0 {
            assert forall|j: int| 0 <= j < e[0].0.children.len() implies id < #[trigger] e[0].0.children[j] < id
                + e.len() && e[e[0].0.children[j] - id].1 == seq![id as u32] by {
                let c = r[j];
                assert(e[0].0.children[j] == c);
                assert(e[c - id] == tail[c - (id + 1)]);
                assert(tail[c - (id + 1)].0 == frame_node(f.children[j], c as int));
                assert(plain_frame(f.children[j]));
            }
        } else {
            assert(children_ok(tail, id + 1, k - 1));
            assert(e[k] == tail[k - 1]);
            assert forall|j: int| 0 <= j < e[k].0.children.len() implies id + k < #[trigger] e[k].0.children[j]
                < id + e.len() && e[e[k].0.children[j] - id].1 == seq![(id + k) as u32] by {
                let c = e[k].0.children[j];
                assert(tail[k - 1].0.children[j] == c);
                assert(e[c - id] == tail[c - (id + 1)]);
            }
        }
    }
}

/// The entries of a list of frames numbered from `first`, each root with
/// the parent `parent`.
pub proof fn lemma_forest_links<T>(fs: Seq<Frame<T>>, first: int, parent: u32)
    requires
        0 <= parent < first,
        first + forest_size(fs) <= u32::MAX + 1,
        forall|k: int| 0 <= k < fs.len() ==> plain_forest(#[trigger] fs[k].children) && fs[k].times.len() > 0,
    ensures
        links_agree(forest_entries(fs, first, parent), first, parent, forest_roots(fs, first)),
    decreases fs,
{
    if fs.len() > 0 {
        let init = fs.drop_last();
        let last = fs.last();
        let s0 = forest_size(init);
        let fb = first + s0;
        assert forall|k: int| 0 <= k < init.len() implies plain_forest(#[trigger] init[k].children)
            && init[k].times.len() > 0 by {
            assert(init[k] == fs[k]);
        }
        assert(plain_forest(fs[fs.len() - 1].children) && fs[fs.len() - 1].times.len() > 0);
        lemma_forest_links(init, first, parent);
        lemma_frame_links(last, fb, parent);
        lemma_forest_entries_len(init, first, parent);
        lemma_entries_len(last, fb, parent);
        lemma_roots_bounds(init, first);
        let a = forest_entries(init, first, parent);
        let b = frame_entries(last, fb, parent);
        let e = forest_entries(fs, first, parent);
        let ri = forest_roots(init, first);
        let r = forest_roots(fs, first);
        assert(e == a + b);
        assert(r == ri.push(fb as u32));
        assert forall|k: int| 0 <= k < e.len() implies #[trigger] node_ok(e, first, r, k) by {
            if k < a.len() {
                assert(e[k] == a[k]);
                assert(node_ok(a, first, ri, k));
                if e[k].0.is_thread {
                    let j = choose|j: int| 0 <= j < ri.len() && ri[j] == (first + k) as u32;
                    assert(r[j] == ri[j]);
                }
            } else {
                let kb = k - a.len();
                assert(e[k] == b[kb]);
                assert(node_ok(b, fb, seq![fb as u32], kb));
                if e[k].0.is_thread {
                    assert(seq![fb as u32][0] == (fb + kb) as u32);
                    assert(r[r.len() - 1] == fb as u32);
                }
            }
        }
        assert forall|k: int| 0 <= k < e.len() implies #[trigger] parent_ok(e, first, parent, r, k) by {
            if k < a.len() {
                assert(e[k] == a[k]);
                assert(parent_ok(a, first, parent, ri, k));
                if !e[k].0.is_thread {
                    let p = e[k].1[0];
                    if p == parent && ri.contains((first + k) as u32) {
                        let j = choose|j: int| 0 <= j < ri.len() && ri[j] == (first + k) as u32;
                        assert(r[j] == ri[j]);
                    } else {
                        assert(e[p - first] == a[p - first]);
                    }
                }
            } else {
                let kb = k - a.len();
                assert(e[k] == b[kb]);
                assert(parent_ok(b, fb, parent, seq![fb as u32], kb));
                if !e[k].0.is_thread {
                    let p = e[k].1[0];
                    if p == parent && seq![fb as u32].contains((fb + kb) as u32) {
                        assert(seq![fb as u32][0] == (fb + kb) as u32);
                        assert(r[r.len() - 1] == fb as u32);
                        assert(fb + kb == first + k);
                    } else {
                        assert(e[p - first] == b[p - fb]);
                    }
                }
            }
        }
        assert forall|k: int| 0 <= k < e.len() implies #[trigger] children_ok(e, first, k) by {
            if k < a.len() {
                assert(e[k] == a[k]);
                assert(children_ok(a, first, k));
                assert forall|j: int| 0 <= j < e[k].0.children.len() implies first + k < #[trigger] e[k].0.children[j]
                    < first + e.len() && e[e[k].0.children[j] - first].1 == seq![(first + k) as u32] by {
                    let c = e[k].0.children[j];
                    assert(a[k].0.children[j] == c);
                    assert(e[c - first] == a[c - first]);
                }
            } else {
                let kb = k - a.len();
                assert(e[k] == b[kb]);
                assert(children_ok(b, fb, kb));
                assert forall|j: int| 0 <= j < e[k].0.children.len() implies first + k < #[trigger] e[k].0.children[j]
                    < first + e.len() && e[e[k].0.children[j] - first].1 == seq![(first + k) as u32] by {
                    let c = e[k].0.children[j];
                    assert(b[kb].0.children[j] == c);
                    assert(e[c - first] == b[c - fb]);
                }
            }
        }
        assert forall|j: int| 0 <= j < r.len() implies first <= #[trigger] r[j] < first + e.len() && (e[r[j]
            - first].0.is_thread || e[r[j] - first].1 == seq![parent]) by {
            if j < ri.len() {
                assert(r[j] == ri[j]);
                assert(e[ri[j] - first] == a[ri[j] - first]);
            } else {
                assert(r[j] == fb as u32);
                assert(seq![fb as u32][0] == fb as u32);
                assert(e[fb - first] == b[0]);
            }
        }
    } else {
        assert(forest_entries(fs, first, parent).len() == 0);
        assert(forest_roots(fs, first).len() == 0);
    }
}

/// The threads of an upload become entries whose parent and child lists
/// agree (threads being the roots, with no parent).
pub proof fn lemma_thread_links<T>(ts: Seq<ThreadNode<T>>)
    requires
        1 + forest_size(thread_frames(ts)) <= u32::MAX + 1,
    ensures
        links_agree(forest_entries(thread_frames(ts), 1, 0), 1, 0, forest_roots(thread_frames(ts), 1)),
        forall|j: int|
            0 <= j < forest_roots(thread_frames(ts), 1).len() ==> (#[trigger] forest_entries(
                thread_frames(ts),
                1,
                0,
            )[forest_roots(thread_frames(ts), 1)[j] - 1]).0.is_thread,
{
    let fs = thread_frames(ts);
    lemma_thread_frames_each(ts);
    assert forall|k: int| 0 <= k < fs.len() implies plain_forest(#[trigger] fs[k].children) && fs[k].times.len() > 0 by {
        lemma_thread_children_plain(ts[k]);
    }
    lemma_forest_links(fs, 1, 0);
    lemma_root_entries(fs, 1, 0);
    assert forall|j: int| 0 <= j < forest_roots(fs, 1).len() implies (#[trigger] forest_entries(fs, 1, 0)[forest_roots(
        fs,
        1,
    )[j] - 1]).0.is_thread by {
        lemma_forest_entries_len(fs, 1, 0);
        lemma_thread_children_plain(ts[j]);
        assert(fs[j] == thread_frame(ts[j]));
        let r = forest_roots(fs, 1);
        assert(forest_entries(fs, 1, 0)[r[j] - 1].0 == frame_node(fs[j], r[j] as int));
    }
}

pub proof fn lemma_thread_frames_each<T>(ts: Seq<ThreadNode<T>>)
    ensures
        thread_frames(ts).len() == ts.len(),
        forall|k: int| 0 <= k < ts.len() ==> #[trigger] thread_frames(ts)[k] == thread_frame(ts[k]),
    decreases ts.len(),
{
    if ts.len() > 0 {
        lemma_thread_frames_each(ts.drop_last());
        assert forall|k: int| 0 <= k < ts.len() implies #[trigger] thread_frames(ts)[k] == thread_frame(ts[k]) by {
            if k < ts.len() - 1 {
                assert(ts.drop_last()[k] == ts[k]);
            }
        }
    }
}

} // verus!
