//! Output settings, and the parts of the reports that are decided without
//! looking at sample times.
use vstd::prelude::*;
use crate::sort::{sorted_texts, texts};
use crate::text::{contains, lower, str_contains, string_of, to_ascii_lowercase};
use crate::views::{FlatMode, ProfileView, SourcesMode};

verus! {

/// Text or JSON output.
#[derive(Debug, Clone, Copy, PartialEq, Eq, Structural)]
pub enum Format {
    Text,
    Json,
}

/// Node times as a share of the root or as absolute values.
#[derive(Debug, Clone, Copy, PartialEq, Eq, Structural)]
pub enum LabelMode {
    Percent,
    Absolute,
}

/// How a profile is rendered.
pub struct RenderOpts {
    pub format: Format,
    pub label: LabelMode,
    pub show_meta: bool,
    pub view: ProfileView,
    pub flat_mode: FlatMode,
    pub sources_mode: SourcesMode,
    pub bottom_up: bool,
    pub flame_thread: Option<String>,
}

// ---------------------------------------------------------------------------
// metadata

/// The name of a platform type code.
pub open spec fn platform_type_text(code: i32) -> Seq<char> {
    if code == 0 {
        "SERVER"@
    } else if code == 1 {
        "CLIENT"@
    } else if code == 2 {
        "PROXY"@
    } else if code == 3 {
        "APPLICATION"@
    } else {
        "UNKNOWN"@
    }
}

pub fn platform_class_name(code: i32) -> (r: String)
    ensures
        r@ == platform_type_text(code),
{
    if code == 0 {
        string_of("SERVER")
    } else if code == 1 {
        string_of("CLIENT")
    } else if code == 2 {
        string_of("PROXY")
    } else if code == 3 {
        string_of("APPLICATION")
    } else {
        string_of("UNKNOWN")
    }
}

/// The name of a sampler mode code.
pub open spec fn sampler_mode_text(code: i32) -> Seq<char> {
    if code == 0 {
        "EXECUTION"@
    } else if code == 1 {
        "ALLOCATION"@
    } else {
        "UNKNOWN"@
    }
}

pub fn sampler_mode_name(code: i32) -> (r: String)
    ensures
        r@ == sampler_mode_text(code),
{
    if code == 0 {
        string_of("EXECUTION")
    } else if code == 1 {
        string_of("ALLOCATION")
    } else {
        string_of("UNKNOWN")
    }
}

/// The name of a sampler engine code.
pub open spec fn sampler_engine_text(code: i32) -> Seq<char> {
    if code == 0 {
        "JAVA"@
    } else if code == 1 {
        "ASYNC"@
    } else {
        "UNKNOWN"@
    }
}

pub fn sampler_engine_name(code: i32) -> (r: String)
    ensures
        r@ == sampler_engine_text(code),
{
    if code == 0 {
        string_of("JAVA")
    } else if code == 1 {
        string_of("ASYNC")
    } else {
        string_of("UNKNOWN")
    }
}

/// The length of a profile: end minus start, saturating at the bounds of
/// `i64`.
pub fn duration_ms(start: i64, end: i64) -> (r: i64)
    ensures
        r == (if end - start > i64::MAX {
            i64::MAX as int
        } else if end - start < i64::MIN {
            i64::MIN as int
        } else {
            end - start
        }),
{
    let d: i128 = end as i128 - start as i128;
    if d > i64::MAX as i128 {
        i64::MAX
    } else if d < i64::MIN as i128 {
        i64::MIN
    } else {
        d as i64
    }
}

/// The installed plugins and mods (the keys of the upload's source map),
/// in ascending order.
pub fn plugin_list(names: Vec<String>) -> (r: Vec<String>)
    ensures
        texts(r@).to_multiset() == texts(names@).to_multiset(),
        sorted_texts(texts(r@)),
{
    crate::sort::sort_strings(names)
}

// ---------------------------------------------------------------------------
// heap

/// A heap histogram line.
pub struct HeapEntry {
    pub order: i32,
    pub instances: i64,
    pub size: i64,
    /// The class (`type` in the upload)
    pub class_name: String,
}

pub struct HeapEntryView {
    pub order: i32,
    pub instances: i64,
    pub size: i64,
    pub class_name: Seq<char>,
}

impl View for HeapEntry {
    type V = HeapEntryView;

    open spec fn view(&self) -> HeapEntryView {
        HeapEntryView {
            order: self.order,
            instances: self.instances,
            size: self.size,
            class_name: self.class_name@,
        }
    }
}

pub open spec fn entry_views(v: Seq<HeapEntry>) -> Seq<HeapEntryView> {
    v.map_values(|e: HeapEntry| e@)
}

/// The entries of a given size, in order.
pub open spec fn of_size(s: Seq<HeapEntryView>, size: i64) -> Seq<HeapEntryView>
    decreases s.len(),
{
    if s.len() == 0 {
        Seq::empty()
    } else if s.last().size == size {
        of_size(s.drop_last(), size).push(s.last())
    } else {
        of_size(s.drop_last(), size)
    }
}

/// Largest first.
pub open spec fn size_descending(s: Seq<HeapEntryView>) -> bool {
    forall|i: int, j: int| 0 <= i < j < s.len() ==> s[i].size >= s[j].size
}

/// The entries whose class contains the search text (ASCII
/// case-insensitively), in order.
pub open spec fn matching_entries(s: Seq<HeapEntryView>, q: Seq<char>) -> Seq<HeapEntryView>
    decreases s.len(),
{
    if s.len() == 0 {
        Seq::empty()
    } else if contains(lower(s.last().class_name), lower(q)) {
        matching_entries(s.drop_last(), q).push(s.last())
    } else {
        matching_entries(s.drop_last(), q)
    }
}

proof fn lemma_of_size_push(s: Seq<HeapEntryView>, x: HeapEntryView, size: i64)
    ensures
        of_size(s.push(x), size) == if x.size == size {
            of_size(s, size).push(x)
        } else {
            of_size(s, size)
        },
{
    assert(s.push(x).drop_last() =~= s);
}

proof fn lemma_of_size_split(s: Seq<HeapEntryView>, p: int, size: i64)
    requires
        0 <= p <= s.len(),
    ensures
        of_size(s, size) == of_size(s.take(p), size) + of_size(s.skip(p), size),
    decreases s.len() - p,
{
    if p == s.len() {
        assert(s.take(p) =~= s);
        assert(s.skip(p) =~= Seq::<HeapEntryView>::empty());
        assert(of_size(s, size) + Seq::<HeapEntryView>::empty() =~= of_size(s, size));
    } else {
        lemma_of_size_split(s, p + 1, size);
        // take(p + 1) = take(p).push(s[p]); skip(p) = [s[p]] + skip(p + 1)
        assert(s.take(p + 1) =~= s.take(p).push(s[p]));
        lemma_of_size_push(s.take(p), s[p], size);
        lemma_of_size_prepend(s.skip(p + 1), s[p], size);
        assert(seq![s[p]] + s.skip(p + 1) =~= s.skip(p));
        if s[p].size == size {
            assert(of_size(s.take(p), size).push(s[p]) + of_size(s.skip(p + 1), size) =~= of_size(
                s.take(p),
                size,
            ) + (seq![s[p]] + of_size(s.skip(p + 1), size)));
        }
    }
}

proof fn lemma_of_size_prepend(s: Seq<HeapEntryView>, x: HeapEntryView, size: i64)
    ensures
        of_size(seq![x] + s, size) == if x.size == size {
            seq![x] + of_size(s, size)
        } else {
            of_size(s, size)
        },
    decreases s.len(),
{
    if s.len() == 0 {
        assert(seq![x] + s =~= Seq::<HeapEntryView>::empty().push(x));
        lemma_of_size_push(Seq::<HeapEntryView>::empty(), x, size);
        assert(seq![x] + Seq::<HeapEntryView>::empty() =~= seq![x]);
        assert(Seq::<HeapEntryView>::empty().push(x) =~= seq![x]);
    } else {
        lemma_of_size_prepend(s.drop_last(), x, size);
        assert(seq![x] + s =~= (seq![x] + s.drop_last()).push(s.last()));
        lemma_of_size_push(seq![x] + s.drop_last(), s.last(), size);
        if x.size == size {
            if s.last().size == size {
                assert((seq![x] + of_size(s.drop_last(), size)).push(s.last()) =~= seq![x] + of_size(
                    s.drop_last(),
                    size,
                ).push(s.last()));
            }
        }
    }
}

/// The heap entries largest first, keeping the upload's order among equal
/// sizes (as the stable `sort_by` on size does).
pub fn sort_heap_entries(v: Vec<HeapEntry>) -> (r: Vec<HeapEntry>)
    ensures
        size_descending(entry_views(r@)),
        forall|size: i64| #[trigger] of_size(entry_views(r@), size) == of_size(entry_views(v@), size),
{
    let mut v = v;
    let mut r: Vec<HeapEntry> = Vec::new();
    let ghost orig = entry_views(v@);
    let n = v.len();
    let mut done: usize = 0;
    assert(orig.take(0) =~= Seq::<HeapEntryView>::empty());
    while v.len() > 0
        invariant
            done + v@.len() == n,
            n == orig.len(),
            entry_views(v@) == orig.skip(done as int),
            size_descending(entry_views(r@)),
            forall|size: i64| #[trigger] of_size(entry_views(r@), size) == of_size(orig.take(done as int), size),
        decreases v@.len(),
    {
        let ghost old_v = v@;
        let x = v.remove(0);
        let ghost xv = x@;
        proof {
            assert(orig.skip(done as int)[0] == xv);
            assert(v@ =~= old_v.subrange(1, old_v.len() as int));
            assert forall|k: int| 0 <= k < v@.len() implies #[trigger] entry_views(v@)[k] == orig.skip(done + 1)[k] by {
                assert(entry_views(old_v)[k + 1] == old_v[k + 1]@);
                assert(entry_views(old_v)[k + 1] == orig.skip(done as int)[k + 1]);
            }
            assert(entry_views(v@) =~= orig.skip(done + 1));
            assert(orig.take(done + 1) =~= orig.take(done as int).push(xv));
        }
        let mut p: usize = 0;
        while p < r.len() && r[p].size >= x.size
            invariant
                p <= r@.len(),
                xv == x@,
                forall|k: int| 0 <= k < p ==> r@[k].size >= xv.size,
            decreases r@.len() - p,
        {
            p = p + 1;
        }
        let ghost old_r = entry_views(r@);
        proof {
            assert forall|k: int| p <= k < old_r.len() implies old_r[k].size < xv.size by {
                if p < old_r.len() {
                    assert(old_r[p as int].size < xv.size);
                    if k > p {
                        assert(old_r[p as int].size >= old_r[k].size);
                    }
                }
            }
        }
        r.insert(p, x);
        proof {
            let nr = entry_views(r@);
            assert(nr =~= old_r.insert(p as int, xv));
            assert forall|i: int, j: int| 0 <= i < j < nr.len() implies nr[i].size >= nr[j].size by {
                if i < p && j < p {
                    assert(nr[i] == old_r[i] && nr[j] == old_r[j]);
                } else if i < p && j == p {
                    assert(nr[i] == old_r[i]);
                } else if i < p {
                    assert(nr[i] == old_r[i] && nr[j] == old_r[j - 1]);
                } else if i == p {
                    assert(nr[j] == old_r[j - 1]);
                } else {
                    assert(nr[i] == old_r[i - 1] && nr[j] == old_r[j - 1]);
                }
            }
            assert forall|size: i64| #[trigger] of_size(nr, size) == of_size(orig.take(done + 1), size) by {
                lemma_of_size_push(orig.take(done as int), xv, size);
                lemma_of_size_split(old_r, p as int, size);
                lemma_of_size_split(nr, p as int, size);
                assert(nr.take(p as int) =~= old_r.take(p as int));
                assert(nr.skip(p as int) =~= seq![xv] + old_r.skip(p as int));
                lemma_of_size_prepend(old_r.skip(p as int), xv, size);
                if xv.size == size {
                    // every later old entry is smaller, so none has this size
                    assert(of_size(old_r.skip(p as int), size) =~= Seq::<HeapEntryView>::empty()) by {
                        lemma_of_size_none(old_r.skip(p as int), size);
                    }
                    assert(of_size(old_r.take(p as int), size) + Seq::<HeapEntryView>::empty() =~= of_size(
                        old_r.take(p as int),
                        size,
                    ));
                    assert(of_size(old_r, size) == of_size(old_r.take(p as int), size) + Seq::<HeapEntryView>::empty());
                    assert(of_size(old_r.take(p as int), size) + (seq![xv] + Seq::<HeapEntryView>::empty())
                        =~= of_size(old_r.take(p as int), size).push(xv));
                }
            }
        }
        done = done + 1;
    }
    proof {
        assert(orig.take(n as int) =~= orig);
    }
    r
}

proof fn lemma_of_size_none(s: Seq<HeapEntryView>, size: i64)
    requires
        forall|k: int| 0 <= k < s.len() ==> s[k].size < size,
    ensures
        of_size(s, size) == Seq::<HeapEntryView>::empty(),
    decreases s.len(),
{
    if s.len() > 0 {
        lemma_of_size_none(s.drop_last(), size);
    }
}

/// The heap histogram lines shown: largest first (stable among equal
/// sizes), those whose class contains the search text (ASCII
/// case-insensitively) when one is given, at most `top` of them.
pub fn heap_entries_shown(entries: Vec<HeapEntry>, search: Option<&str>, top: usize) -> (r: Vec<HeapEntry>)
    ensures
        exists|sorted: Seq<HeapEntryView>|
            {
                &&& size_descending(sorted)
                &&& (forall|size: i64| #[trigger] of_size(sorted, size) == of_size(entry_views(entries@), size))
                &&& entry_views(r@) == match search {
                    Some(q) => matching_entries(sorted, q@),
                    None => sorted,
                }.take(
                    if top < match search {
                        Some(q) => matching_entries(sorted, q@),
                        None => sorted,
                    }.len() {
                        top as int
                    } else {
                        match search {
                            Some(q) => matching_entries(sorted, q@),
                            None => sorted,
                        }.len() as int
                    },
                )
            },
{
    let sorted = sort_heap_entries(entries);
    let ghost sv = entry_views(sorted@);
    let total = sorted.len();
    let kept = match search {
        None => sorted,
        Some(q) => {
            let lq = to_ascii_lowercase(q);
            let mut kept: Vec<HeapEntry> = Vec::new();
            let mut rest = sorted;
            let mut i: usize = 0;
            assert(sv.take(0) =~= Seq::<HeapEntryView>::empty());
            while rest.len() > 0
                invariant
                    i + rest@.len() == sv.len(),
                    sv.len() == total,
                    entry_views(rest@) == sv.skip(i as int),
                    lq@ == lower(q@),
                    entry_views(kept@) == matching_entries(sv.take(i as int), q@),
                decreases rest@.len(),
            {
                let ghost old_rest = rest@;
                let e = rest.remove(0);
                proof {
                    assert(sv.skip(i as int)[0] == e@);
                    assert(rest@ =~= old_rest.subrange(1, old_rest.len() as int));
                    assert forall|k: int| 0 <= k < rest@.len() implies #[trigger] entry_views(rest@)[k] == sv.skip(i + 1)[k] by {
                        assert(entry_views(old_rest)[k + 1] == old_rest[k + 1]@);
                        assert(entry_views(old_rest)[k + 1] == sv.skip(i as int)[k + 1]);
                    }
                    assert(entry_views(rest@) =~= sv.skip(i + 1));
                    assert(sv.take(i + 1) =~= sv.take(i as int).push(e@));
                    assert(sv.take(i + 1).drop_last() =~= sv.take(i as int));
                }
                let lt = to_ascii_lowercase(e.class_name.as_str());
                if str_contains(lt.as_str(), lq.as_str()) {
                    let ghost o = entry_views(kept@);
                    kept.push(e);
                    assert(entry_views(kept@) =~= o.push(sv[i as int]));
                }
                i = i + 1;
            }
            assert(sv.take(i as int) =~= sv);
            kept
        },
    };
    let mut kept = kept;
    let ghost kv = entry_views(kept@);
    if top < kept.len() {
        kept.truncate(top);
    }
    assert(entry_views(kept@) =~= kv.take(if top < kv.len() { top as int } else { kv.len() as int }));
    kept
}

// ---------------------------------------------------------------------------
// health

/// Ascending.
pub open spec fn ints_ascending(s: Seq<i32>) -> bool {
    forall|i: int, j: int| 0 <= i < j < s.len() ==> s[i] <= s[j]
}

/// The health report's windows: the first twenty by window id, ascending.
pub fn first_health_windows(ids: Vec<i32>) -> (r: Vec<i32>)
    ensures
        exists|sorted: Seq<i32>|
            {
                &&& sorted.to_multiset() == ids@.to_multiset()
                &&& ints_ascending(sorted)
                &&& r@ == sorted.take(if sorted.len() < 20 { sorted.len() as int } else { 20 })
            },
{
    broadcast use vstd::seq_lib::group_to_multiset_ensures;
    let mut r: Vec<i32> = Vec::new();
    let n = ids.len();
    for i in 0..n
        invariant
            n == ids@.len(),
            r@.to_multiset() == ids@.take(i as int).to_multiset(),
            ints_ascending(r@),
    {
        let x = ids[i];
        let mut p: usize = 0;
        while p < r.len() && r[p] <= x
            invariant
                p <= r@.len(),
                forall|k: int| 0 <= k < p ==> r@[k] <= x,
            decreases r@.len() - p,
        {
            p = p + 1;
        }
        let ghost old_r = r@;
        proof {
            assert forall|k: int| p <= k < old_r.len() implies old_r[k] > x by {
                if p < old_r.len() && k > p {
                    assert(old_r[p as int] <= old_r[k]);
                }
            }
            vstd::seq_lib::to_multiset_insert(old_r, p as int, x);
            assert(ids@.take(i + 1) =~= ids@.take(i as int).push(x));
            vstd::seq_lib::to_multiset_build(ids@.take(i as int), x);
        }
        r.insert(p, x);
        proof {
            assert(r@ =~= old_r.insert(p as int, x));
            assert forall|a: int, b: int| 0 <= a < b < r@.len() implies r@[a] <= r@[b] by {
                if a < p && b < p {
                } else if a < p && b == p {
                } else if a < p {
                    assert(r@[b] == old_r[b - 1]);
                } else if a == p {
                    assert(r@[b] == old_r[b - 1]);
                } else {
                    assert(r@[a] == old_r[a - 1] && r@[b] == old_r[b - 1]);
                }
            }
        }
    }
    assert(ids@.take(n as int) =~= ids@);
    let ghost sorted = r@;
    if r.len() > 20 {
        r.truncate(20);
    }
    assert(r@ =~= sorted.take(if sorted.len() < 20 { sorted.len() as int } else { 20 }));
    r
}

} // verus!
