//! Ordering of string lists, as `Vec<String>::sort` and a sorted set of
//! strings order them.
use vstd::prelude::*;
use crate::text::{lemma_text_lt_total, lemma_text_lt_transitive, str_eq, str_lt, text_le, text_lt};

verus! {

/// The texts of a list of strings.
pub open spec fn texts(v: Seq<String>) -> Seq<Seq<char>> {
    v.map_values(|s: String| s@)
}

/// Every text is at most every later one.
pub open spec fn sorted_texts(s: Seq<Seq<char>>) -> bool {
    forall|i: int, j: int| 0 <= i < j < s.len() ==> text_le(s[i], s[j])
}

/// Every text is below every later one (sorted, no text twice).
pub open spec fn strictly_sorted_texts(s: Seq<Seq<char>>) -> bool {
    forall|i: int, j: int| 0 <= i < j < s.len() ==> text_lt(s[i], s[j])
}

proof fn lemma_texts_insert(v: Seq<String>, p: int, x: String)
    requires
        0 <= p <= v.len(),
    ensures
        texts(v.insert(p, x)) == texts(v).insert(p, x@),
{
    assert(texts(v.insert(p, x)) =~= texts(v).insert(p, x@));
}

/// The strings in ascending order, duplicates kept (as `Vec<String>::sort`).
pub fn sort_strings(v: Vec<String>) -> (r: Vec<String>)
    ensures
        texts(r@).to_multiset() == texts(v@).to_multiset(),
        sorted_texts(texts(r@)),
{
    broadcast use vstd::seq_lib::group_to_multiset_ensures;
    let mut r: Vec<String> = Vec::new();
    let n = v.len();
    let mut i: usize = 0;
    while i < n
        invariant
            n == v@.len(),
            i <= n,
            texts(r@).to_multiset() == texts(v@.take(i as int)).to_multiset(),
            sorted_texts(texts(r@)),
        decreases n - i,
    {
        let x = v[i].clone();
        // first position whose string is above x
        let mut p: usize = 0;
        while p < r.len() && !str_lt(x.as_str(), r[p].as_str())
            invariant
                p <= r@.len(),
                forall|k: int| 0 <= k < p ==> !text_lt(x@, #[trigger] r@[k]@),
            decreases r@.len() - p,
        {
            p = p + 1;
        }
        let ghost old_r = r@;
        let ghost t = texts(old_r);
        proof {
            lemma_texts_insert(old_r, p as int, x);
            assert forall|k: int| 0 <= k < p implies text_le(#[trigger] t[k], x@) by {
                assert(t[k] == old_r[k]@);
                lemma_text_lt_total(old_r[k]@, x@);
            }
            assert forall|k: int| p <= k < t.len() implies text_lt(x@, #[trigger] t[k]) by {
                assert(t[k] == old_r[k]@);
                if p < old_r.len() {
                    assert(t[p as int] == old_r[p as int]@);
                    assert(text_lt(x@, t[p as int]));
                    if k > p {
                        assert(text_le(t[p as int], t[k]));
                        if text_lt(t[p as int], t[k]) {
                            lemma_text_lt_transitive(x@, t[p as int], t[k]);
                        }
                    }
                }
            }
        }
        r.insert(p, x);
        proof {
            let nt = texts(r@);
            assert(nt == t.insert(p as int, v@[i as int]@));
            vstd::seq_lib::to_multiset_insert(t, p as int, x@);
            assert forall|a: int, b: int| 0 <= a < b < nt.len() implies text_le(nt[a], nt[b]) by {
                if a < p && b < p {
                    assert(nt[a] == t[a] && nt[b] == t[b]);
                } else if a < p && b == p {
                    assert(nt[a] == t[a]);
                } else if a < p && b > p {
                    assert(nt[a] == t[a] && nt[b] == t[b - 1]);
                    assert(text_le(t[a], x@));
                    assert(text_lt(x@, t[b - 1]));
                    if text_lt(t[a], x@) {
                        lemma_text_lt_transitive(t[a], x@, t[b - 1]);
                    }
                } else if a == p {
                    assert(nt[b] == t[b - 1]);
                    assert(text_lt(x@, t[b - 1]));
                } else {
                    assert(nt[a] == t[a - 1] && nt[b] == t[b - 1]);
                    assert(text_le(t[a - 1], t[b - 1]));
                }
            }
            assert(v@.take(i + 1) =~= v@.take(i as int).push(v@[i as int]));
            assert(texts(v@.take(i + 1)) =~= texts(v@.take(i as int)).push(v@[i as int]@));
            vstd::seq_lib::to_multiset_build(texts(v@.take(i as int)), v@[i as int]@);
        }
        i = i + 1;
    }
    assert(v@.take(n as int) =~= v@);
    r
}

/// The distinct strings in ascending order (as collecting into a set and
/// sorting).
pub fn sorted_distinct_strings(v: Vec<String>) -> (r: Vec<String>)
    ensures
        texts(r@).to_set() == texts(v@).to_set(),
        strictly_sorted_texts(texts(r@)),
{
    broadcast use vstd::seq_lib::group_to_multiset_ensures;
    let s = sort_strings(v);
    let ghost st = texts(s@);
    let mut r: Vec<String> = Vec::new();
    let n = s.len();
    for i in 0..n
        invariant
            n == s@.len(),
            st == texts(s@),
            sorted_texts(st),
            texts(r@).to_set() == st.take(i as int).to_set(),
            strictly_sorted_texts(texts(r@)),
            r@.len() <= i,
            i > 0 ==> r@.len() > 0 && r@.last()@ == st[i - 1],
    {
        let keep = if r.len() == 0 {
            true
        } else {
            let last = r.len() - 1;
            !str_eq(r[last].as_str(), s[i].as_str())
        };
        let ghost old_r = r@;
        proof {
            assert(st.take(i + 1) =~= st.take(i as int).push(st[i as int]));
        }
        if keep {
            r.push(s[i].clone());
            proof {
                assert(texts(r@) =~= texts(old_r).push(st[i as int]));
                texts(old_r).lemma_push_to_set_commute(st[i as int]);
                st.take(i as int).lemma_push_to_set_commute(st[i as int]);
                assert forall|a: int, b: int| 0 <= a < b < texts(r@).len() implies text_lt(
                    texts(r@)[a],
                    texts(r@)[b],
                ) by {
                    if b == old_r.len() && old_r.len() > 0 {
                        // old_r.last() == st[i - 1] <= st[i], and differs from it
                        assert(st[i as int] == s@[i as int]@);
                        assert(text_le(st[i - 1], st[i as int]));
                        let l = old_r.len() - 1;
                        if a < l {
                            assert(texts(old_r)[a] == old_r[a]@);
                            assert(texts(old_r)[l] == old_r[l]@);
                            assert(text_lt(old_r[a]@, old_r[l]@));
                            lemma_text_lt_transitive(old_r[a]@, old_r[l]@, st[i as int]);
                        }
                    }
                }
            }
        } else {
            proof {
                assert(st[i as int] == s@[i as int]@);
                assert(st.take(i as int)[i - 1] == st[i as int]);
                assert(st.take(i + 1).to_set() =~= st.take(i as int).to_set());
            }
        }
    }
    proof {
        assert(st.take(n as int) =~= st);
        assert(texts(s@).to_multiset() == texts(v@).to_multiset());
        assert forall|x: Seq<char>| st.to_set().contains(x) <==> texts(v@).to_set().contains(x) by {
            assert(st.to_multiset().count(x) == texts(v@).to_multiset().count(x));
        }
        assert(st.to_set() =~= texts(v@).to_set());
    }
    r
}

} // verus!
