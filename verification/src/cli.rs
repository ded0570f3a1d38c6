//! The command line: its options, how they become filters and render
//! settings, and the decisions each command makes between reading its
//! input and writing its output.
use std::collections::HashSet;
use std::path::PathBuf;
use vstd::prelude::*;
use crate::filter::FilterOpts;
use crate::graph::ProfileGraph;
use crate::load::{ContentKind, LoadError, detect_kind, kind_read_from};
use crate::pattern::{FilterPat, FilterPatModel, compile_pat, compiled_pat, regex_accepts, regex_error_text};
use crate::render::{
    Format, HeapEntry, HeapEntryView, LabelMode, entry_views, first_health_windows, heap_entries_shown, ints_ascending,
    matching_entries, of_size, size_descending,
};
use crate::text::{decimal, lower, push_decimal, push_str, string_of, to_ascii_lowercase};
use crate::views::{FlatMode, ProfileView, SourcesMode};
use crate::window::{
    WindowSelect, WindowSelectModel, WindowSpecError, WindowSpecErrorModel, parse_window_select,
    selected_windows, window_select_of,
};

verus! {

#[verifier::external_type_specification]
#[verifier::external_body]
pub struct ExPathBuf(std::path::PathBuf);

#[derive(Debug, Clone, Copy, PartialEq, Eq, Structural)]
pub enum FormatArg {
    Text,
    Json,
}

#[derive(Debug, Clone, Copy, PartialEq, Eq, Structural)]
pub enum ViewArg {
    All,
    Flat,
    Sources,
    Flame,
    Summary,
}

#[derive(Debug, Clone, Copy, PartialEq, Eq, Structural)]
pub enum FlatModeArg {
    SelfTime,
    TotalTime,
}

#[derive(Debug, Clone, Copy, PartialEq, Eq, Structural)]
pub enum SourcesModeArg {
    Merge,
    Separate,
}

#[derive(Debug, Clone, Copy, PartialEq, Eq, Structural)]
pub enum LabelArg {
    Percent,
    Absolute,
}

#[derive(Debug, Clone, Copy, PartialEq, Eq, Structural)]
pub enum TypeArg {
    Sampler,
    Heap,
    Health,
}

/// Where and how to write the output.
#[derive(Debug)]
pub struct CommonOut {
    /// Output file (default stdout)
    pub out: Option<PathBuf>,
    /// Output format
    pub format: FormatArg,
}

/// The filter options of the profile commands, but for the two
/// percentage thresholds (`--min-percent`, `--min-thread-percent`), which
/// compare floating-point times and stay with the caller.
#[derive(Debug)]
pub struct FilterArgs {
    /// Search text: matched as a substring of class, method, source and
    /// thread names
    pub search: Option<String>,
    /// Only threads whose name matches (substring or regex if --regex)
    pub thread: Option<String>,
    /// Include only nodes matching (repeatable). Matches class/method/source.
    pub includes: Vec<String>,
    /// Exclude nodes matching (repeatable)
    pub excludes: Vec<String>,
    /// Treat --thread/--include/--exclude as regex
    pub regex: bool,
    /// Max tree depth
    pub depth: usize,
    /// Flat/sources top N
    pub top: usize,
    /// Time window ids (comma-separated), indices (`@0,@3` / `i0,i3`) or "all"
    pub windows: Option<String>,
    /// Time window index range: start,end (inclusive indices into timeWindows)
    pub window_range: Option<String>,
    /// Only dump the top N threads by time (0 = all)
    pub top_threads: usize,
}

#[derive(Debug)]
pub struct WindowFilterArgs {
    /// Time window ids (`29815743`), indices (`@0,@3` / `i0,i3`), or `all`
    pub windows: Option<String>,
    /// Inclusive index range: start,end
    pub window_range: Option<String>,
}

#[derive(Debug)]
pub struct ThreadsArgs {
    pub input: String,
    pub out: CommonOut,
    pub window: WindowFilterArgs,
    /// Substring / regex filter on thread name
    pub search: Option<String>,
    pub regex: bool,
    /// Show top N (0 = all)
    pub top: usize,
}

#[derive(Debug)]
pub struct HeapArgs {
    pub input: String,
    pub out: CommonOut,
    pub search: Option<String>,
    pub top: usize,
}

#[derive(Debug)]
pub struct HealthArgs {
    pub input: String,
    pub out: CommonOut,
}

#[derive(Debug)]
pub struct RawArgs {
    pub input: String,
    pub out: CommonOut,
    /// Force type (`--type`)
    pub content_type: Option<TypeArg>,
}

#[derive(Debug)]
pub struct MetaArgs {
    pub input: String,
    pub out: CommonOut,
}

// ---------------------------------------------------------------------------
// option values

pub fn format_of(f: &FormatArg) -> (r: Format)
    ensures
        r == match *f {
            FormatArg::Text => Format::Text,
            FormatArg::Json => Format::Json,
        },
{
    match f {
        FormatArg::Text => Format::Text,
        FormatArg::Json => Format::Json,
    }
}

pub fn view_of(v: &ViewArg) -> (r: ProfileView)
    ensures
        r == match *v {
            ViewArg::All => ProfileView::All,
            ViewArg::Flat => ProfileView::Flat,
            ViewArg::Sources => ProfileView::Sources,
            ViewArg::Flame => ProfileView::Flame,
            ViewArg::Summary => ProfileView::Summary,
        },
{
    match v {
        ViewArg::All => ProfileView::All,
        ViewArg::Flat => ProfileView::Flat,
        ViewArg::Sources => ProfileView::Sources,
        ViewArg::Flame => ProfileView::Flame,
        ViewArg::Summary => ProfileView::Summary,
    }
}

pub fn flat_mode_of(m: &FlatModeArg) -> (r: FlatMode)
    ensures
        r == match *m {
            FlatModeArg::SelfTime => FlatMode::SelfTime,
            FlatModeArg::TotalTime => FlatMode::TotalTime,
        },
{
    match m {
        FlatModeArg::SelfTime => FlatMode::SelfTime,
        FlatModeArg::TotalTime => FlatMode::TotalTime,
    }
}

pub fn sources_mode_of(m: &SourcesModeArg) -> (r: SourcesMode)
    ensures
        r == match *m {
            SourcesModeArg::Merge => SourcesMode::Merge,
            SourcesModeArg::Separate => SourcesMode::Separate,
        },
{
    match m {
        SourcesModeArg::Merge => SourcesMode::Merge,
        SourcesModeArg::Separate => SourcesMode::Separate,
    }
}

pub fn label_of(l: &LabelArg) -> (r: LabelMode)
    ensures
        r == match *l {
            LabelArg::Percent => LabelMode::Percent,
            LabelArg::Absolute => LabelMode::Absolute,
        },
{
    match l {
        LabelArg::Percent => LabelMode::Percent,
        LabelArg::Absolute => LabelMode::Absolute,
    }
}

pub fn content_kind_of(t: &TypeArg) -> (r: ContentKind)
    ensures
        r == match *t {
            TypeArg::Sampler => ContentKind::Sampler,
            TypeArg::Heap => ContentKind::Heap,
            TypeArg::Health => ContentKind::Health,
        },
{
    match t {
        TypeArg::Sampler => ContentKind::Sampler,
        TypeArg::Heap => ContentKind::Heap,
        TypeArg::Health => ContentKind::Health,
    }
}

// ---------------------------------------------------------------------------
// errors

/// Why a command could not run.
#[derive(Debug)]
pub enum CliError {
    /// A `--regex` pattern is not accepted by the regex crate.
    Regex(regex::Error),
    /// `--windows` / `--window-range` could not be read.
    Window(WindowSpecError),
    /// The window selection picks no window of the profile; its window count.
    NoWindows(usize),
}

/// The message for a selection that picks no window.
pub open spec fn no_windows_text(count: nat) -> Seq<char> {
    "no time windows matched selection (profile has "@ + decimal(count)
        + " window(s); try `spark-dump windows <file>`)"@
}

impl CliError {
    /// The message the command line shows.
    pub fn message(&self) -> (r: String)
        ensures
            match self {
                CliError::Regex(_) => true,
                CliError::Window(e) => r@ == crate::window::window_error_text(e@),
                CliError::NoWindows(n) => r@ == no_windows_text(*n as nat),
            },
    {
        match self {
            CliError::Regex(e) => regex_error_text(e),
            CliError::Window(e) => e.message(),
            CliError::NoWindows(n) => {
                let mut s = string_of("no time windows matched selection (profile has ");
                push_decimal(&mut s, *n as u64);
                push_str(&mut s, " window(s); try `spark-dump windows <file>`)");
                assert(s@ =~= no_windows_text(*n as nat));
                s
            },
        }
    }
}

// ---------------------------------------------------------------------------
// filters

pub open spec fn str_views(v: Seq<String>) -> Seq<Seq<char>> {
    v.map_values(|s: String| s@)
}

/// Every text is a pattern the regex crate accepts.
pub open spec fn all_accepted(v: Seq<Seq<char>>) -> bool {
    forall|k: int| 0 <= k < v.len() ==> regex_accepts(#[trigger] v[k])
}

/// The patterns of the options compile: always without `--regex`; with it,
/// when the regex crate accepts every include, exclude and thread pattern.
pub open spec fn patterns_compile(f: &FilterArgs) -> bool {
    !f.regex || (all_accepted(str_views(f.includes@)) && all_accepted(str_views(f.excludes@)) && (
    f.thread matches Some(t) ==> regex_accepts(t@)))
}

pub open spec fn opt_str(s: Option<String>) -> Option<Seq<char>> {
    match s {
        Some(v) => Some(v@),
        None => None,
    }
}

pub open spec fn filter_windows_of(f: &FilterArgs) -> Result<WindowSelectModel, WindowSpecErrorModel> {
    window_select_of(opt_str(f.windows), opt_str(f.window_range))
}

/// The filters the options give: patterns compiled, the search text ASCII
/// lower-cased, the window selection read.
pub open spec fn filter_of(f: &FilterArgs, o: &FilterOpts) -> bool {
    &&& crate::filter::pat_models(o.includes@) == str_views(f.includes@).map_values(
        |s: Seq<char>| compiled_pat(s, f.regex),
    )
    &&& crate::filter::pat_models(o.excludes@) == str_views(f.excludes@).map_values(
        |s: Seq<char>| compiled_pat(s, f.regex),
    )
    &&& match (o.thread, f.thread) {
        (Some(p), Some(t)) => p@ == compiled_pat(t@, f.regex),
        (None, None) => true,
        _ => false,
    }
    &&& opt_str(o.search) == match f.search {
        Some(s) => Some(lower(s@)),
        None => None,
    }
    &&& filter_windows_of(f) == Ok::<WindowSelectModel, WindowSpecErrorModel>(o.windows@)
    &&& o.depth == f.depth
    &&& o.top == f.top
    &&& o.top_threads == f.top_threads
}

fn compile_all(pats: &Vec<String>, regex: bool) -> (r: Result<Vec<FilterPat>, regex::Error>)
    ensures
        match r {
            Ok(v) => (!regex || all_accepted(str_views(pats@))) && crate::filter::pat_models(v@)
                == str_views(pats@).map_values(|s: Seq<char>| compiled_pat(s, regex)),
            Err(_) => regex && !all_accepted(str_views(pats@)),
        },
{
    let ghost sv = str_views(pats@);
    let mut out: Vec<FilterPat> = Vec::new();
    let n = pats.len();
    for i in 0..n
        invariant
            n == pats@.len(),
            sv == str_views(pats@),
            !regex || all_accepted(sv.take(i as int)),
            crate::filter::pat_models(out@) == sv.take(i as int).map_values(
                |s: Seq<char>| compiled_pat(s, regex),
            ),
    {
        assert(sv[i as int] == pats@[i as int]@);
        match compile_pat(pats[i].as_str(), regex) {
            Ok(p) => {
                let ghost o = out@;
                out.push(p);
                proof {
                    assert(sv.take(i + 1) =~= sv.take(i as int).push(sv[i as int]));
                    assert(crate::filter::pat_models(out@) =~= crate::filter::pat_models(o).push(p@));
                    assert(sv.take(i + 1).map_values(|s: Seq<char>| compiled_pat(s, regex)) =~= sv.take(
                        i as int,
                    ).map_values(|s: Seq<char>| compiled_pat(s, regex)).push(compiled_pat(sv[i as int], regex)));
                    if regex {
                        assert forall|k: int| 0 <= k < i + 1 implies regex_accepts(#[trigger] sv.take(i + 1)[k]) by {
                            if k < i {
                                assert(sv.take(i + 1)[k] == sv.take(i as int)[k]);
                            }
                        }
                    }
                }
            },
            Err(e) => {
                proof {
                    assert(!regex_accepts(sv[i as int]));
                }
                return Err(e);
            },
        }
    }
    assert(sv.take(n as int) =~= sv);
    Ok(out)
}

/// Builds the filters of a profile command from its options; fails on the
/// first `--regex` pattern the regex crate rejects (includes, then
/// excludes, then the thread pattern), and otherwise when the window
/// selection cannot be read.
pub fn build_filter(f: &FilterArgs) -> (r: Result<FilterOpts, CliError>)
    ensures
        match r {
            Ok(o) => patterns_compile(f) && filter_of(f, &o),
            Err(CliError::Regex(_)) => !patterns_compile(f),
            Err(CliError::Window(e)) => patterns_compile(f) && filter_windows_of(f) == Err::<
                WindowSelectModel,
                WindowSpecErrorModel,
            >(e@),
            Err(CliError::NoWindows(_)) => false,
        },
{
    let includes = match compile_all(&f.includes, f.regex) {
        Ok(v) => v,
        Err(e) => {
            return Err(CliError::Regex(e));
        },
    };
    let excludes = match compile_all(&f.excludes, f.regex) {
        Ok(v) => v,
        Err(e) => {
            return Err(CliError::Regex(e));
        },
    };
    let thread = match &f.thread {
        None => None,
        Some(t) => match compile_pat(t.as_str(), f.regex) {
            Ok(p) => Some(p),
            Err(e) => {
                return Err(CliError::Regex(e));
            },
        },
    };
    let windows = match parse_window_select(
        match &f.windows {
            Some(w) => Some(w.as_str()),
            None => None,
        },
        match &f.window_range {
            Some(w) => Some(w.as_str()),
            None => None,
        },
    ) {
        Ok(w) => w,
        Err(e) => {
            return Err(CliError::Window(e));
        },
    };
    let search = match &f.search {
        Some(s) => Some(to_ascii_lowercase(s.as_str())),
        None => None,
    };
    Ok(FilterOpts {
        search,
        thread,
        includes,
        excludes,
        depth: f.depth,
        top: f.top,
        windows,
        top_threads: f.top_threads,
    })
}

/// The window indices a selection picks, or an error when it picks none.
pub fn resolve_windows<T>(graph: &ProfileGraph<T>, sel: &WindowSelect) -> (r: Result<HashSet<usize>, CliError>)
    ensures
        match r {
            Ok(s) => s@ == selected_windows(graph.window_seq(), sel@) && !s@.is_empty(),
            Err(CliError::NoWindows(n)) => selected_windows(graph.window_seq(), sel@).is_empty() && n
                == graph.window_seq().len(),
            Err(_) => false,
        },
{
    let set = graph.selected_window_indices(sel);
    if set.is_empty() {
        return Err(CliError::NoWindows(graph.window_count()));
    }
    Ok(set)
}

// ---------------------------------------------------------------------------
// commands

pub open spec fn shown_entries(entries: Seq<HeapEntryView>, search: Option<Seq<char>>, top: usize, r: Seq<HeapEntryView>) -> bool {
    exists|sorted: Seq<HeapEntryView>|
        {
            &&& size_descending(sorted)
            &&& (forall|size: i64| #[trigger] of_size(sorted, size) == of_size(entries, size))
            &&& r == match search {
                Some(q) => matching_entries(sorted, q),
                None => sorted,
            }.take(
                if top < match search {
                    Some(q) => matching_entries(sorted, q),
                    None => sorted,
                }.len() {
                    top as int
                } else {
                    match search {
                        Some(q) => matching_entries(sorted, q),
                        None => sorted,
                    }.len() as int
                },
            )
        }
}

/// What `heap` shows of the decoded histogram: the largest entries first
/// (stable among equal sizes), those whose class contains `--search`
/// (ASCII case-insensitively), at most `--top`.
pub fn run_heap(args: &HeapArgs, entries: Vec<HeapEntry>) -> (r: Vec<HeapEntry>)
    ensures
        shown_entries(entry_views(entries@), opt_str(args.search), args.top, entry_views(r@)),
{
    let search = match &args.search {
        Some(s) => Some(s.as_str()),
        None => None,
    };
    heap_entries_shown(entries, search, args.top)
}

/// The windows `health` lists of the decoded report: the first twenty by
/// window id, ascending.
pub fn run_health(args: &HealthArgs, window_ids: Vec<i32>) -> (r: Vec<i32>)
    ensures
        exists|sorted: Seq<i32>|
            {
                &&& sorted.to_multiset() == window_ids@.to_multiset()
                &&& ints_ascending(sorted)
                &&& r@ == sorted.take(if sorted.len() < 20 { sorted.len() as int } else { 20 })
            },
{
    first_health_windows(window_ids)
}

/// The kind `raw` dumps the input as: the forced `--type`, else the kind
/// the input's extension names (as `detect_kind` reads it).
pub fn run_raw(args: &RawArgs, bytes: &[u8]) -> (r: Result<ContentKind, LoadError>)
    ensures
        r matches Ok(k) && match args.content_type {
            Some(t) => k == match t {
                TypeArg::Sampler => ContentKind::Sampler,
                TypeArg::Heap => ContentKind::Heap,
                TypeArg::Health => ContentKind::Health,
            },
            None => kind_read_from(args.input@, k),
        },
{
    let forced = match &args.content_type {
        Some(t) => Some(content_kind_of(t)),
        None => None,
    };
    detect_kind(args.input.as_str(), forced, bytes)
}

/// The kind `meta` reads the input as: the kind its extension names.
pub fn run_meta(args: &MetaArgs, bytes: &[u8]) -> (r: Result<ContentKind, LoadError>)
    ensures
        r matches Ok(k) && kind_read_from(args.input@, k),
{
    detect_kind(args.input.as_str(), None, bytes)
}

} // verus!
