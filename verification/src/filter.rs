//! The filters of a profile view.
use vstd::prelude::*;
use crate::pattern::{FilterPat, FilterPatModel, pat_matches};
pub use crate::window::WindowSelect;

verus! {

/// The filters of a profile view. The two percentage thresholds of the
/// command line (`--min-percent`, `--min-thread-percent`) compare times,
/// which are floating point, and are kept beside this by the caller.
pub struct FilterOpts {
    /// ASCII lower-cased search text
    pub search: Option<String>,
    pub thread: Option<FilterPat>,
    pub includes: Vec<FilterPat>,
    pub excludes: Vec<FilterPat>,
    pub depth: usize,
    pub top: usize,
    pub windows: WindowSelect,
    pub top_threads: usize,
}

/// The patterns of a list.
pub open spec fn pat_models(v: Seq<FilterPat>) -> Seq<FilterPatModel> {
    v.map_values(|p: FilterPat| p@)
}

/// Some pattern matches some text.
pub open spec fn any_matches(ps: Seq<FilterPatModel>, hays: Seq<Seq<char>>) -> bool {
    exists|i: int, j: int|
        0 <= i < ps.len() && 0 <= j < hays.len() && #[trigger] pat_matches(ps[i], hays[j])
}

/// A node's texts pass the include and exclude filters: with includes,
/// some include matches one of them, and no exclude matches any of them.
pub open spec fn text_allowed(
    includes: Seq<FilterPatModel>,
    excludes: Seq<FilterPatModel>,
    hays: Seq<Seq<char>>,
) -> bool {
    (includes.len() == 0 || any_matches(includes, hays)) && !any_matches(excludes, hays)
}

/// The texts of a node that filters look at: class, method and source
/// (the empty text when it has none).
pub open spec fn node_texts(class: Seq<char>, method: Seq<char>, source: Option<Seq<char>>) -> Seq<
    Seq<char>,
> {
    seq![
        class,
        method,
        match source {
            Some(s) => s,
            None => Seq::empty(),
        },
    ]
}

pub open spec fn opt_view(s: Option<&str>) -> Option<Seq<char>> {
    match s {
        Some(t) => Some(t@),
        None => None,
    }
}

/// Whether some pattern of the list matches one of the three texts.
fn list_matches(ps: &Vec<FilterPat>, a: &str, b: &str, c: &str) -> (r: bool)
    ensures
        r == any_matches(pat_models(ps@), seq![a@, b@, c@]),
{
    let ghost hays = seq![a@, b@, c@];
    let ghost pm = pat_models(ps@);
    let n = ps.len();
    for i in 0..n
        invariant
            n == ps@.len(),
            pm == pat_models(ps@),
            hays == seq![a@, b@, c@],
            forall|k: int, j: int| 0 <= k < i && 0 <= j < 3 ==> !#[trigger] pat_matches(pm[k], hays[j]),
    {
        let p = &ps[i];
        assert(pm[i as int] == p@);
        if p.is_match(a) {
            assert(pat_matches(pm[i as int], hays[0]));
            return true;
        }
        if p.is_match(b) {
            assert(pat_matches(pm[i as int], hays[1]));
            return true;
        }
        if p.is_match(c) {
            assert(pat_matches(pm[i as int], hays[2]));
            return true;
        }
        assert forall|j: int| 0 <= j < 3 implies !#[trigger] pat_matches(pm[i as int], hays[j]) by {
            if j == 0 {
            } else if j == 1 {
            } else {
            }
        }
    }
    false
}

impl FilterOpts {
    /// Whether a node with these texts passes `--include` and `--exclude`.
    pub fn node_text_allowed(&self, class: &str, method: &str, source: Option<&str>) -> (r: bool)
        ensures
            r == text_allowed(
                pat_models(self.includes@),
                pat_models(self.excludes@),
                node_texts(class@, method@, opt_view(source)),
            ),
    {
        let src = match source {
            Some(s) => s,
            None => "",
        };
        proof {
            if source is None {
                assert(src@ =~= Seq::<char>::empty()) by {
                    reveal_strlit("");
                }
            }
            assert(node_texts(class@, method@, opt_view(source)) =~= seq![class@, method@, src@]);
        }
        if self.includes.len() > 0 {
            if !list_matches(&self.includes, class, method, src) {
                return false;
            }
        }
        !list_matches(&self.excludes, class, method, src)
    }
}

} // verus!
