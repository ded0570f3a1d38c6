//! Time windows: reading a window selection from the command line and
//! resolving it against the windows of a profile.
use std::collections::HashSet;
use vstd::prelude::*;
use crate::text::{
    char_views, chars_of, lower, lower_chars, push_char, push_chars, push_decimal, push_str,
    split_chars, split_on, string_of, decimal, digit_char,
};

verus! {

/// Which time windows (`timeWindows` / `times[]` buckets) to look at.
#[derive(Debug, Clone)]
pub enum WindowSelect {
    All,
    /// The windows whose ids (`timeWindows`) are listed
    Ids(Vec<i32>),
    /// Explicit indices into `times[]` / `timeWindows`
    Indices(Vec<usize>),
    /// Inclusive index range into `timeWindows`
    Range(usize, usize),
}

/// The mathematical value of a window selection.
pub enum WindowSelectModel {
    All,
    Ids(Seq<i32>),
    Indices(Seq<usize>),
    Range(usize, usize),
}

impl View for WindowSelect {
    type V = WindowSelectModel;

    open spec fn view(&self) -> WindowSelectModel {
        match self {
            WindowSelect::All => WindowSelectModel::All,
            WindowSelect::Ids(v) => WindowSelectModel::Ids(v@),
            WindowSelect::Indices(v) => WindowSelectModel::Indices(v@),
            WindowSelect::Range(a, b) => WindowSelectModel::Range(*a, *b),
        }
    }
}

/// Why a decimal integer could not be read (as `std::num::IntErrorKind`).
#[derive(Debug, Clone, Copy, PartialEq, Eq, Structural)]
pub enum IntErrorKind {
    Empty,
    InvalidDigit,
    PosOverflow,
    NegOverflow,
}

/// The text that `std::num::ParseIntError` shows for each kind.
pub open spec fn int_error_text(k: IntErrorKind) -> Seq<char> {
    match k {
        IntErrorKind::Empty => "cannot parse integer from empty string"@,
        IntErrorKind::InvalidDigit => "invalid digit found in string"@,
        IntErrorKind::PosOverflow => "number too large to fit in target type"@,
        IntErrorKind::NegOverflow => "number too small to fit in target type"@,
    }
}

/// Why a window selection could not be read.
#[derive(Debug, Clone)]
pub enum WindowSpecError {
    /// `--window-range` is not two comma-separated parts.
    RangeShape,
    /// A bound of `--window-range` is not an index.
    RangeBound(IntErrorKind),
    /// `--windows` holds no token.
    Empty,
    /// An index token (`@N` / `iN`) does not hold an index; the token.
    IndexToken(String),
    /// A window id is not an `i32`.
    Id(IntErrorKind),
}

pub enum WindowSpecErrorModel {
    RangeShape,
    RangeBound(IntErrorKind),
    Empty,
    IndexToken(Seq<char>),
    Id(IntErrorKind),
}

impl View for WindowSpecError {
    type V = WindowSpecErrorModel;

    open spec fn view(&self) -> WindowSpecErrorModel {
        match self {
            WindowSpecError::RangeShape => WindowSpecErrorModel::RangeShape,
            WindowSpecError::RangeBound(k) => WindowSpecErrorModel::RangeBound(*k),
            WindowSpecError::Empty => WindowSpecErrorModel::Empty,
            WindowSpecError::IndexToken(t) => WindowSpecErrorModel::IndexToken(t@),
            WindowSpecError::Id(k) => WindowSpecErrorModel::Id(*k),
        }
    }
}

/// The message shown for a window selection error.
pub open spec fn window_error_text(e: WindowSpecErrorModel) -> Seq<char> {
    match e {
        WindowSpecErrorModel::RangeShape => "--window-range expects start,end"@,
        WindowSpecErrorModel::RangeBound(k) => int_error_text(k),
        WindowSpecErrorModel::Empty => "--windows is empty"@,
        WindowSpecErrorModel::IndexToken(t) => "invalid window index token '"@ + t
            + "' (use @0 or i0)"@,
        WindowSpecErrorModel::Id(k) => "invalid --windows value (use ids or @index): "@
            + int_error_text(k),
    }
}

pub fn int_error_message(k: IntErrorKind) -> (r: String)
    ensures
        r@ == int_error_text(k),
{
    match k {
        IntErrorKind::Empty => string_of("cannot parse integer from empty string"),
        IntErrorKind::InvalidDigit => string_of("invalid digit found in string"),
        IntErrorKind::PosOverflow => string_of("number too large to fit in target type"),
        IntErrorKind::NegOverflow => string_of("number too small to fit in target type"),
    }
}

impl WindowSpecError {
    /// The message the command line shows for this error.
    pub fn message(&self) -> (r: String)
        ensures
            r@ == window_error_text(self@),
    {
        match self {
            WindowSpecError::RangeShape => string_of("--window-range expects start,end"),
            WindowSpecError::RangeBound(k) => int_error_message(*k),
            WindowSpecError::Empty => string_of("--windows is empty"),
            WindowSpecError::IndexToken(t) => {
                let mut s = string_of("invalid window index token '");
                push_str(&mut s, t.as_str());
                push_str(&mut s, "' (use @0 or i0)");
                assert(s@ =~= window_error_text(self@));
                s
            },
            WindowSpecError::Id(k) => {
                let mut s = string_of("invalid --windows value (use ids or @index): ");
                let m = int_error_message(*k);
                push_str(&mut s, m.as_str());
                s
            },
        }
    }
}

// ---------------------------------------------------------------------------
// whitespace and integers

/// `char::is_whitespace`: the Unicode `White_Space` characters.
pub open spec fn is_white(c: char) -> bool {
    ||| c == ' '
    ||| ('\u{9}' <= c && c <= '\u{d}')
    ||| c == '\u{85}'
    ||| c == '\u{a0}'
    ||| c == '\u{1680}'
    ||| ('\u{2000}' <= c && c <= '\u{200a}')
    ||| c == '\u{2028}'
    ||| c == '\u{2029}'
    ||| c == '\u{202f}'
    ||| c == '\u{205f}'
    ||| c == '\u{3000}'
}

pub open spec fn trim_start(s: Seq<char>) -> Seq<char>
    decreases s.len(),
{
    if s.len() > 0 && is_white(s[0]) {
        trim_start(s.drop_first())
    } else {
        s
    }
}

pub open spec fn trim_end(s: Seq<char>) -> Seq<char>
    decreases s.len(),
{
    if s.len() > 0 && is_white(s.last()) {
        trim_end(s.drop_last())
    } else {
        s
    }
}

/// `str::trim`.
pub open spec fn trim(s: Seq<char>) -> Seq<char> {
    trim_end(trim_start(s))
}

/// Leading `@`, `i` and `I` removed (`trim_start_matches(['@', 'i', 'I'])`).
pub open spec fn strip_index_marks(s: Seq<char>) -> Seq<char>
    decreases s.len(),
{
    if s.len() > 0 && is_index_mark(s[0]) {
        strip_index_marks(s.drop_first())
    } else {
        s
    }
}

pub open spec fn is_index_mark(c: char) -> bool {
    c == '@' || c == 'i' || c == 'I'
}

/// A token that starts with `@`, `i` or `I`.
pub open spec fn index_token(t: Seq<char>) -> bool {
    t.len() > 0 && is_index_mark(t[0])
}

pub open spec fn is_digit(c: char) -> bool {
    '0' <= c && c <= '9'
}

pub open spec fn digit_value(c: char) -> int {
    (c as u32) - 48
}

/// Reads decimal digits left to right onto `acc`, as `from_str_radix`
/// does: the first character that is no digit is an invalid digit, and
/// the first digit that takes the value above `max` is an overflow.
pub open spec fn scan_digits(s: Seq<char>, acc: int, max: int, overflow: IntErrorKind) -> Result<
    int,
    IntErrorKind,
>
    decreases s.len(),
{
    if s.len() == 0 {
        Ok(acc)
    } else if !is_digit(s[0]) {
        Err(IntErrorKind::InvalidDigit)
    } else if acc * 10 + digit_value(s[0]) > max {
        Err(overflow)
    } else {
        scan_digits(s.drop_first(), acc * 10 + digit_value(s[0]), max, overflow)
    }
}

/// `str::parse::<usize>`.
pub open spec fn parse_usize_text(s: Seq<char>) -> Result<int, IntErrorKind> {
    if s.len() == 0 {
        Err(IntErrorKind::Empty)
    } else if s == seq!['+'] || s == seq!['-'] {
        Err(IntErrorKind::InvalidDigit)
    } else if s[0] == '+' {
        scan_digits(s.drop_first(), 0, usize::MAX as int, IntErrorKind::PosOverflow)
    } else {
        scan_digits(s, 0, usize::MAX as int, IntErrorKind::PosOverflow)
    }
}

/// `str::parse::<i32>`.
pub open spec fn parse_i32_text(s: Seq<char>) -> Result<int, IntErrorKind> {
    if s.len() == 0 {
        Err(IntErrorKind::Empty)
    } else if s == seq!['+'] || s == seq!['-'] {
        Err(IntErrorKind::InvalidDigit)
    } else if s[0] == '+' {
        scan_digits(s.drop_first(), 0, i32::MAX as int, IntErrorKind::PosOverflow)
    } else if s[0] == '-' {
        match scan_digits(s.drop_first(), 0, 0x8000_0000, IntErrorKind::NegOverflow) {
            Ok(v) => Ok(-v),
            Err(e) => Err(e),
        }
    } else {
        scan_digits(s, 0, i32::MAX as int, IntErrorKind::PosOverflow)
    }
}

proof fn lemma_scan_bounds(s: Seq<char>, acc: int, max: int, overflow: IntErrorKind)
    requires
        0 <= acc <= max,
    ensures
        scan_digits(s, acc, max, overflow) matches Ok(v) ==> 0 <= v <= max,
    decreases s.len(),
{
    if s.len() > 0 && is_digit(s[0]) && acc * 10 + digit_value(s[0]) <= max {
        lemma_scan_bounds(s.drop_first(), acc * 10 + digit_value(s[0]), max, overflow);
    }
}

/// Reads digits from position `start` of `s` onto zero.
fn scan_digits_exec(s: &Vec<char>, start: usize, max: u64, overflow: IntErrorKind) -> (r: Result<
    u64,
    IntErrorKind,
>)
    requires
        start <= s@.len(),
    ensures
        match r {
            Ok(v) => scan_digits(s@.skip(start as int), 0, max as int, overflow) == Ok::<
                int,
                IntErrorKind,
            >(v as int),
            Err(e) => scan_digits(s@.skip(start as int), 0, max as int, overflow) == Err::<
                int,
                IntErrorKind,
            >(e),
        },
{
    let n = s.len();
    let mut acc: u64 = 0;
    let mut i = start;
    while i < n
        invariant
            n == s@.len(),
            start <= i <= n,
            acc <= max,
            scan_digits(s@.skip(start as int), 0, max as int, overflow) == scan_digits(
                s@.skip(i as int),
                acc as int,
                max as int,
                overflow,
            ),
        decreases n - i,
    {
        let c = s[i];
        let ghost rest = s@.skip(i as int);
        assert(rest[0] == c);
        assert(rest.drop_first() =~= s@.skip(i + 1));
        if !('0' <= c && c <= '9') {
            return Err(IntErrorKind::InvalidDigit);
        }
        let d: u64 = (c as u32 - 48) as u64;
        if d > max {
            return Err(overflow);
        }
        // acc * 10 + d > max, computed without overflow
        if acc > (max - d) / 10 {
            assert(acc * 10 + d > max) by (nonlinear_arith)
                requires
                    acc > (max - d) / 10,
                    d <= max,
            ;
            return Err(overflow);
        }
        assert(acc * 10 + d <= max) by (nonlinear_arith)
            requires
                acc <= (max - d) / 10,
                d <= max,
        ;
        acc = acc * 10 + d;
        i = i + 1;
    }
    assert(s@.skip(i as int).len() == 0);
    Ok(acc)
}

/// `str::parse::<usize>` on characters.
pub fn parse_usize(s: &Vec<char>) -> (r: Result<usize, IntErrorKind>)
    ensures
        match r {
            Ok(v) => parse_usize_text(s@) == Ok::<int, IntErrorKind>(v as int),
            Err(e) => parse_usize_text(s@) == Err::<int, IntErrorKind>(e),
        },
{
    let n = s.len();
    if n == 0 {
        return Err(IntErrorKind::Empty);
    }
    if n == 1 && (s[0] == '+' || s[0] == '-') {
        assert(s@ =~= seq![s@[0]]);
        return Err(IntErrorKind::InvalidDigit);
    }
    proof {
        if s@ == seq!['+'] || s@ == seq!['-'] {
            assert(s@.len() == 1);
        }
    }
    let start: usize = if s[0] == '+' {
        1
    } else {
        0
    };
    assert(s@.skip(0) =~= s@);
    assert(s@.skip(1) =~= s@.drop_first());
    let max = usize::MAX as u64;
    match scan_digits_exec(s, start, max, IntErrorKind::PosOverflow) {
        Ok(v) => {
            proof {
                lemma_scan_bounds(s@.skip(start as int), 0, max as int, IntErrorKind::PosOverflow);
            }
            Ok(v as usize)
        },
        Err(e) => Err(e),
    }
}

/// `str::parse::<i32>` on characters.
pub fn parse_i32(s: &Vec<char>) -> (r: Result<i32, IntErrorKind>)
    ensures
        match r {
            Ok(v) => parse_i32_text(s@) == Ok::<int, IntErrorKind>(v as int),
            Err(e) => parse_i32_text(s@) == Err::<int, IntErrorKind>(e),
        },
{
    let n = s.len();
    if n == 0 {
        return Err(IntErrorKind::Empty);
    }
    if n == 1 && (s[0] == '+' || s[0] == '-') {
        assert(s@ =~= seq![s@[0]]);
        return Err(IntErrorKind::InvalidDigit);
    }
    proof {
        if s@ == seq!['+'] || s@ == seq!['-'] {
            assert(s@.len() == 1);
        }
    }
    assert(s@.skip(0) =~= s@);
    assert(s@.skip(1) =~= s@.drop_first());
    if s[0] == '-' {
        match scan_digits_exec(s, 1, 0x8000_0000, IntErrorKind::NegOverflow) {
            Ok(v) => {
                proof {
                    lemma_scan_bounds(s@.skip(1), 0, 0x8000_0000, IntErrorKind::NegOverflow);
                }
                let r: i64 = -(v as i64);
                Ok(r as i32)
            },
            Err(e) => Err(e),
        }
    } else {
        let start: usize = if s[0] == '+' {
            1
        } else {
            0
        };
        match scan_digits_exec(s, start, 0x7fff_ffff, IntErrorKind::PosOverflow) {
            Ok(v) => {
                proof {
                    lemma_scan_bounds(s@.skip(start as int), 0, 0x7fff_ffff, IntErrorKind::PosOverflow);
                }
                Ok(v as i32)
            },
            Err(e) => Err(e),
        }
    }
}

fn is_white_char(c: char) -> (r: bool)
    ensures
        r == is_white(c),
{
    c == ' ' || ('\u{9}' <= c && c <= '\u{d}') || c == '\u{85}' || c == '\u{a0}' || c == '\u{1680}'
        || ('\u{2000}' <= c && c <= '\u{200a}') || c == '\u{2028}' || c == '\u{2029}' || c
        == '\u{202f}' || c == '\u{205f}' || c == '\u{3000}'
}

proof fn lemma_trim_start_skip(s: Seq<char>, i: int)
    requires
        0 <= i <= s.len(),
        forall|k: int| 0 <= k < i ==> is_white(s[k]),
    ensures
        trim_start(s) == trim_start(s.skip(i)),
    decreases i,
{
    if i > 0 {
        assert(s.drop_first().skip(i - 1) =~= s.skip(i));
        lemma_trim_start_skip(s.drop_first(), i - 1);
    } else {
        assert(s.skip(0) =~= s);
    }
}

proof fn lemma_trim_end_take(s: Seq<char>, j: int)
    requires
        0 <= j <= s.len(),
        forall|k: int| j <= k < s.len() ==> is_white(s[k]),
    ensures
        trim_end(s) == trim_end(s.take(j)),
    decreases s.len() - j,
{
    if j < s.len() {
        assert(s.drop_last().take(j) =~= s.take(j));
        lemma_trim_end_take(s.drop_last(), j);
    } else {
        assert(s.take(j) =~= s);
    }
}

/// `str::trim` on characters.
pub fn trim_chars(s: &Vec<char>) -> (r: Vec<char>)
    ensures
        r@ == trim(s@),
{
    let n = s.len();
    let mut a: usize = 0;
    while a < n && is_white_char(s[a])
        invariant
            a <= n,
            n == s@.len(),
            forall|k: int| 0 <= k < a ==> is_white(s@[k]),
        decreases n - a,
    {
        a = a + 1;
    }
    proof {
        lemma_trim_start_skip(s@, a as int);
    }
    let ghost t = s@.skip(a as int);
    let mut b: usize = n;
    while b > a && is_white_char(s[b - 1])
        invariant
            a <= b <= n,
            n == s@.len(),
            forall|k: int| b <= k < n ==> is_white(s@[k]),
        decreases b,
    {
        b = b - 1;
    }
    let mut r: Vec<char> = Vec::new();
    let mut k = a;
    while k < b
        invariant
            a <= k <= b <= n,
            n == s@.len(),
            r@ == s@.subrange(a as int, k as int),
        decreases b - k,
    {
        r.push(s[k]);
        assert(s@.subrange(a as int, k + 1) =~= s@.subrange(a as int, k as int).push(s@[k as int]));
        k = k + 1;
    }
    proof {
        // trim_start(s) == t, which starts with a non-white character (or is empty)
        if t.len() > 0 {
            assert(t[0] == s@[a as int]);
        }
        assert(trim_start(t) == t);
        lemma_trim_end_take(t, (b - a) as int);
        assert(t.take((b - a) as int) =~= s@.subrange(a as int, b as int));
        let u = t.take((b - a) as int);
        if u.len() > 0 {
            assert(u.last() == s@[b - 1]);
        }
        assert(trim_end(u) == u);
    }
    r
}

/// Leading `@`, `i` and `I` removed.
fn strip_index_marks_exec(s: &Vec<char>) -> (r: Vec<char>)
    ensures
        r@ == strip_index_marks(s@),
{
    let n = s.len();
    let mut a: usize = 0;
    assert(s@.skip(0) =~= s@);
    while a < n && (s[a] == '@' || s[a] == 'i' || s[a] == 'I')
        invariant
            a <= n,
            n == s@.len(),
            strip_index_marks(s@) == strip_index_marks(s@.skip(a as int)),
        decreases n - a,
    {
        assert(s@.skip(a as int).drop_first() =~= s@.skip(a + 1));
        a = a + 1;
    }
    let mut r: Vec<char> = Vec::new();
    let mut k = a;
    while k < n
        invariant
            a <= k <= n,
            n == s@.len(),
            r@ == s@.subrange(a as int, k as int),
        decreases n - k,
    {
        r.push(s[k]);
        assert(s@.subrange(a as int, k + 1) =~= s@.subrange(a as int, k as int).push(s@[k as int]));
        k = k + 1;
    }
    assert(s@.subrange(a as int, n as int) =~= s@.skip(a as int));
    r
}

// ---------------------------------------------------------------------------
// reading a selection

/// The pieces of a comma-separated list, trimmed, empty ones left out.
pub open spec fn window_tokens(parts: Seq<Seq<char>>) -> Seq<Seq<char>>
    decreases parts.len(),
{
    if parts.len() == 0 {
        Seq::empty()
    } else if trim(parts.last()).len() == 0 {
        window_tokens(parts.drop_last())
    } else {
        window_tokens(parts.drop_last()).push(trim(parts.last()))
    }
}

/// Index tokens read in order; the first token that holds no index is the
/// error.
pub open spec fn read_indices(tokens: Seq<Seq<char>>) -> Result<Seq<usize>, Seq<char>>
    decreases tokens.len(),
{
    if tokens.len() == 0 {
        Ok(Seq::empty())
    } else {
        match parse_usize_text(strip_index_marks(tokens[0])) {
            Err(_) => Err(tokens[0]),
            Ok(v) => match read_indices(tokens.drop_first()) {
                Ok(rest) => Ok(seq![v as usize] + rest),
                Err(t) => Err(t),
            },
        }
    }
}

/// Window ids read in order; the error of the first token that holds no
/// `i32`.
pub open spec fn read_ids(tokens: Seq<Seq<char>>) -> Result<Seq<i32>, IntErrorKind>
    decreases tokens.len(),
{
    if tokens.len() == 0 {
        Ok(Seq::empty())
    } else {
        match parse_i32_text(tokens[0]) {
            Err(e) => Err(e),
            Ok(v) => match read_ids(tokens.drop_first()) {
                Ok(rest) => Ok(seq![v as i32] + rest),
                Err(e) => Err(e),
            },
        }
    }
}

/// What `--windows` and `--window-range` select. A range wins over a list;
/// `all` (any case) or no option selects every window; a list of tokens
/// that all start with `@`, `i` or `I` selects indices, any other list ids.
pub open spec fn window_select_of(windows: Option<Seq<char>>, window_range: Option<Seq<char>>) -> Result<
    WindowSelectModel,
    WindowSpecErrorModel,
> {
    match window_range {
        Some(range) => {
            let parts = split_on(range, ',');
            if parts.len() != 2 {
                Err(WindowSpecErrorModel::RangeShape)
            } else {
                match parse_usize_text(trim(parts[0])) {
                    Err(e) => Err(WindowSpecErrorModel::RangeBound(e)),
                    Ok(a) => match parse_usize_text(trim(parts[1])) {
                        Err(e) => Err(WindowSpecErrorModel::RangeBound(e)),
                        Ok(b) => Ok(WindowSelectModel::Range(a as usize, b as usize)),
                    },
                }
            }
        },
        None => match windows {
            None => Ok(WindowSelectModel::All),
            Some(w) => {
                if lower(w) == "all"@ {
                    Ok(WindowSelectModel::All)
                } else {
                    let tokens = window_tokens(split_on(w, ','));
                    if tokens.len() == 0 {
                        Err(WindowSpecErrorModel::Empty)
                    } else if forall|k: int| 0 <= k < tokens.len() ==> index_token(#[trigger] tokens[k]) {
                        match read_indices(tokens) {
                            Ok(v) => Ok(WindowSelectModel::Indices(v)),
                            Err(t) => Err(WindowSpecErrorModel::IndexToken(t)),
                        }
                    } else {
                        match read_ids(tokens) {
                            Ok(v) => Ok(WindowSelectModel::Ids(v)),
                            Err(e) => Err(WindowSpecErrorModel::Id(e)),
                        }
                    }
                }
            },
        },
    }
}

fn tokens_of(w: &Vec<char>) -> (r: Vec<Vec<char>>)
    ensures
        char_views(r@) == window_tokens(split_on(w@, ',')),
{
    let parts = split_chars(w, ',');
    let ghost pv = char_views(parts@);
    let mut r: Vec<Vec<char>> = Vec::new();
    let n = parts.len();
    for i in 0..n
        invariant
            n == parts@.len(),
            pv == char_views(parts@),
            pv.len() == n,
            char_views(r@) == window_tokens(pv.take(i as int)),
    {
        let t = trim_chars(&parts[i]);
        proof {
            assert(pv[i as int] == parts@[i as int]@);
            assert(pv.take(i + 1).drop_last() =~= pv.take(i as int));
            assert(pv.take(i + 1).last() == pv[i as int]);
        }
        if t.len() > 0 {
            let ghost old_r = r@;
            r.push(t);
            assert(char_views(r@) =~= char_views(old_r).push(trim(pv[i as int])));
        }
    }
    assert(pv.take(n as int) =~= pv);
    r
}

fn read_indices_exec(tokens: &Vec<Vec<char>>) -> (r: Result<Vec<usize>, Vec<char>>)
    ensures
        match r {
            Ok(v) => read_indices(char_views(tokens@)) == Ok::<Seq<usize>, Seq<char>>(v@),
            Err(t) => read_indices(char_views(tokens@)) == Err::<Seq<usize>, Seq<char>>(t@),
        },
{
    let ghost tv = char_views(tokens@);
    let mut out: Vec<usize> = Vec::new();
    let n = tokens.len();
    proof {
        assert(tv.skip(0) =~= tv);
        match read_indices(tv) {
            Ok(rr) => {
                assert(out@ + rr =~= rr);
            },
            Err(_) => {},
        }
    }
    for i in 0..n
        invariant
            n == tokens@.len(),
            tv == char_views(tokens@),
            read_indices(tv) == match read_indices(tv.skip(i as int)) {
                Ok(rest) => Ok::<Seq<usize>, Seq<char>>(out@ + rest),
                Err(t) => Err(t),
            },
    {
        let ghost rest = tv.skip(i as int);
        proof {
            assert(rest[0] == tokens@[i as int]@);
            assert(rest.drop_first() =~= tv.skip(i + 1));
        }
        let digits = strip_index_marks_exec(&tokens[i]);
        match parse_usize(&digits) {
            Err(_) => {
                let t = tokens[i].clone();
                return Err(t);
            },
            Ok(v) => {
                let ghost old_out = out@;
                out.push(v);
                proof {
                    match read_indices(tv.skip(i + 1)) {
                        Ok(rr) => {
                            assert(old_out + (seq![v] + rr) =~= out@ + rr);
                        },
                        Err(_) => {},
                    }
                }
            },
        }
    }
    proof {
        assert(tv.skip(n as int) =~= Seq::<Seq<char>>::empty());
        assert(out@ + Seq::<usize>::empty() =~= out@);
    }
    Ok(out)
}

fn read_ids_exec(tokens: &Vec<Vec<char>>) -> (r: Result<Vec<i32>, IntErrorKind>)
    ensures
        match r {
            Ok(v) => read_ids(char_views(tokens@)) == Ok::<Seq<i32>, IntErrorKind>(v@),
            Err(e) => read_ids(char_views(tokens@)) == Err::<Seq<i32>, IntErrorKind>(e),
        },
{
    let ghost tv = char_views(tokens@);
    let mut out: Vec<i32> = Vec::new();
    let n = tokens.len();
    proof {
        assert(tv.skip(0) =~= tv);
        match read_ids(tv) {
            Ok(rr) => {
                assert(out@ + rr =~= rr);
            },
            Err(_) => {},
        }
    }
    for i in 0..n
        invariant
            n == tokens@.len(),
            tv == char_views(tokens@),
            read_ids(tv) == match read_ids(tv.skip(i as int)) {
                Ok(rest) => Ok::<Seq<i32>, IntErrorKind>(out@ + rest),
                Err(e) => Err(e),
            },
    {
        let ghost rest = tv.skip(i as int);
        proof {
            assert(rest[0] == tokens@[i as int]@);
            assert(rest.drop_first() =~= tv.skip(i + 1));
        }
        match parse_i32(&tokens[i]) {
            Err(e) => {
                return Err(e);
            },
            Ok(v) => {
                let ghost old_out = out@;
                out.push(v);
                proof {
                    match read_ids(tv.skip(i + 1)) {
                        Ok(rr) => {
                            assert(old_out + (seq![v] + rr) =~= out@ + rr);
                        },
                        Err(_) => {},
                    }
                }
            },
        }
    }
    proof {
        assert(tv.skip(n as int) =~= Seq::<Seq<char>>::empty());
        assert(out@ + Seq::<i32>::empty() =~= out@);
    }
    Ok(out)
}

/// Reads `--windows` / `--window-range` into a window selection.
pub fn parse_window_select(windows: Option<&str>, window_range: Option<&str>) -> (r: Result<
    WindowSelect,
    WindowSpecError,
>)
    ensures
        match r {
            Ok(sel) => window_select_of(
                match windows {
                    Some(w) => Some(w@),
                    None => None,
                },
                match window_range {
                    Some(w) => Some(w@),
                    None => None,
                },
            ) == Ok::<WindowSelectModel, WindowSpecErrorModel>(sel@),
            Err(e) => window_select_of(
                match windows {
                    Some(w) => Some(w@),
                    None => None,
                },
                match window_range {
                    Some(w) => Some(w@),
                    None => None,
                },
            ) == Err::<WindowSelectModel, WindowSpecErrorModel>(e@),
        },
{
    if let Some(range) = window_range {
        let rc = chars_of(range);
        let parts = split_chars(&rc, ',');
        let ghost pv = char_views(parts@);
        if parts.len() != 2 {
            return Err(WindowSpecError::RangeShape);
        }
        assert(pv[0] == parts@[0]@ && pv[1] == parts@[1]@);
        let a = match parse_usize(&trim_chars(&parts[0])) {
            Ok(a) => a,
            Err(e) => {
                return Err(WindowSpecError::RangeBound(e));
            },
        };
        let b = match parse_usize(&trim_chars(&parts[1])) {
            Ok(b) => b,
            Err(e) => {
                return Err(WindowSpecError::RangeBound(e));
            },
        };
        return Ok(WindowSelect::Range(a, b));
    }
    if let Some(w) = windows {
        let wc = chars_of(w);
        let lw = lower_chars(&wc);
        let all_word = chars_of("all");
        if crate::text::chars_eq(&lw, &all_word) {
            return Ok(WindowSelect::All);
        }
        let tokens = tokens_of(&wc);
        let ghost tv = char_views(tokens@);
        if tokens.len() == 0 {
            return Err(WindowSpecError::Empty);
        }
        let mut index_like = true;
        let n = tokens.len();
        for k in 0..n
            invariant
                n == tokens@.len(),
                tv == char_views(tokens@),
                index_like == forall|j: int| 0 <= j < k ==> index_token(#[trigger] tv[j]),
        {
            let t = &tokens[k];
            assert(tv[k as int] == t@);
            let ok = t.len() > 0 && (t[0] == '@' || t[0] == 'i' || t[0] == 'I');
            proof {
                assert(ok == index_token(tv[k as int]));
                if index_like && ok {
                    assert forall|j: int| 0 <= j < k + 1 implies index_token(#[trigger] tv[j]) by {
                        if j < k {
                        }
                    }
                }
                if !ok {
                    assert(!index_token(tv[k as int]));
                }
            }
            index_like = index_like && ok;
        }
        if index_like {
            return match read_indices_exec(&tokens) {
                Ok(v) => Ok(WindowSelect::Indices(v)),
                Err(t) => Err(WindowSpecError::IndexToken(crate::text::string_from_chars(&t))),
            };
        }
        return match read_ids_exec(&tokens) {
            Ok(v) => Ok(WindowSelect::Ids(v)),
            Err(e) => Err(WindowSpecError::Id(e)),
        };
    }
    Ok(WindowSelect::All)
}

// ---------------------------------------------------------------------------
// resolving a selection

/// The window indices a selection picks from a profile whose `timeWindows`
/// are `ids`. A profile without window ids still has one bucket, index 0.
/// No id matching picks index 0; a range is clamped to the last window and
/// may be given in either order; indices past the buckets are left out.
pub open spec fn selected_windows(ids: Seq<i32>, sel: WindowSelectModel) -> Set<usize> {
    let n = ids.len();
    match sel {
        WindowSelectModel::All => if n == 0 {
            set![0usize]
        } else {
            Set::new(|i: usize| i < n)
        },
        WindowSelectModel::Ids(q) => {
            let s = Set::new(|i: usize| i < n && q.contains(ids[i as int]));
            if s.is_empty() {
                set![0usize]
            } else {
                s
            }
        },
        WindowSelectModel::Indices(q) => Set::new(
            |i: usize| q.contains(i) && (i < n || (n == 0 && i == 0)),
        ),
        WindowSelectModel::Range(a, b) => if n == 0 {
            set![0usize]
        } else {
            let lo = if a < n - 1 {
                a as int
            } else {
                n - 1
            };
            let hi = if b < n - 1 {
                b as int
            } else {
                n - 1
            };
            Set::new(
                |i: usize|
                    (lo <= i <= hi) || (hi <= i <= lo),
            )
        },
    }
}

fn vec_contains_i32(v: &Vec<i32>, x: i32) -> (r: bool)
    ensures
        r == v@.contains(x),
{
    let n = v.len();
    for k in 0..n
        invariant
            n == v@.len(),
            forall|j: int| 0 <= j < k ==> v@[j] != x,
    {
        if v[k] == x {
            return true;
        }
    }
    false
}

/// The window indices that `sel` picks from a profile with the given
/// `timeWindows` ids.
pub fn select_windows(ids: &Vec<i32>, sel: &WindowSelect) -> (r: HashSet<usize>)
    ensures
        r@ == selected_windows(ids@, sel@),
{
    broadcast use vstd::std_specs::hash::group_hash_axioms;
    let n = ids.len();
    let mut s: HashSet<usize> = HashSet::new();
    match sel {
        WindowSelect::All => {
            if n == 0 {
                s.insert(0);
                assert(s@ =~= set![0usize]);
            } else {
                for i in 0..n
                    invariant
                        s@ == Set::new(|j: usize| j < i),
                {
                    s.insert(i);
                    assert(s@ =~= Set::new(|j: usize| j < i + 1));
                }
                assert(s@ =~= Set::new(|j: usize| j < n));
            }
        },
        WindowSelect::Ids(q) => {
            for i in 0..n
                invariant
                    n == ids@.len(),
                    s@ == Set::new(|j: usize| j < i && q@.contains(ids@[j as int])),
            {
                if vec_contains_i32(q, ids[i]) {
                    s.insert(i);
                }
                assert(s@ =~= Set::new(|j: usize| j < i + 1 && q@.contains(ids@[j as int])));
            }
            assert(s@ =~= Set::new(|j: usize| j < n && q@.contains(ids@[j as int])));
            if s.is_empty() {
                s.insert(0);
                assert(s@ =~= set![0usize]);
            }
        },
        WindowSelect::Indices(q) => {
            let m = q.len();
            for k in 0..m
                invariant
                    m == q@.len(),
                    n == ids@.len(),
                    s@ == Set::new(
                        |i: usize| q@.take(k as int).contains(i) && (i < n || (n == 0 && i == 0)),
                    ),
            {
                let i = q[k];
                if i < n || (n == 0 && i == 0) {
                    s.insert(i);
                }
                assert(q@.take(k + 1) =~= q@.take(k as int).push(i));
                assert forall|x: usize| q@.take(k + 1).contains(x) <==> (q@.take(k as int).contains(x) || x == i) by {
                    vstd::seq_lib::lemma_seq_contains_after_push(q@.take(k as int), i, x);
                }
                assert(s@ =~= Set::new(
                    |x: usize| q@.take(k + 1).contains(x) && (x < n || (n == 0 && x == 0)),
                ));
            }
            assert(q@.take(m as int) =~= q@);
        },
        WindowSelect::Range(a, b) => {
            if n == 0 {
                s.insert(0);
                assert(s@ =~= set![0usize]);
            } else {
                let lo0 = if *a < n - 1 {
                    *a
                } else {
                    n - 1
                };
                let hi0 = if *b < n - 1 {
                    *b
                } else {
                    n - 1
                };
                let (lo, hi) = if lo0 <= hi0 {
                    (lo0, hi0)
                } else {
                    (hi0, lo0)
                };
                let mut i = lo;
                while i <= hi
                    invariant
                        lo <= i <= hi + 1,
                        hi < n,
                        s@ == Set::new(|j: usize| lo <= j < i),
                    decreases hi + 1 - i,
                {
                    s.insert(i);
                    assert(s@ =~= Set::new(|j: usize| lo <= j < i + 1));
                    i = i + 1;
                }
                assert(s@ =~= Set::new(|j: usize| (lo0 <= j <= hi0) || (hi0 <= j <= lo0)));
            }
        },
    }
    s
}

// ---------------------------------------------------------------------------
// reading back a written index

proof fn lemma_digit_char(d: nat)
    requires
        d < 10,
    ensures
        is_digit(digit_char(d)),
        digit_value(digit_char(d)) == d,
        !is_white(digit_char(d)),
        !is_index_mark(digit_char(d)),
        digit_char(d) != ',',
        digit_char(d) != '+',
        digit_char(d) != '-',
{
}

/// The decimal text of a number is made of digits only.
pub proof fn lemma_decimal_digits(n: nat)
    ensures
        decimal(n).len() >= 1,
        forall|k: int| 0 <= k < decimal(n).len() ==> is_digit(#[trigger] decimal(n)[k]) && !is_white(
            decimal(n)[k],
        ) && !is_index_mark(decimal(n)[k]) && decimal(n)[k] != ',' && decimal(n)[k] != '+' && decimal(n)[k]
            != '-',
    decreases n,
{
    if n < 10 {
        lemma_digit_char(n);
    } else {
        lemma_decimal_digits(n / 10);
        lemma_digit_char(n % 10);
        let d = decimal(n);
        assert(d == decimal(n / 10).push(digit_char(n % 10)));
        assert forall|k: int| 0 <= k < d.len() implies is_digit(#[trigger] d[k]) && !is_white(d[k]) && !is_index_mark(
            d[k],
        ) && d[k] != ',' && d[k] != '+' && d[k] != '-' by {
            if k < d.len() - 1 {
                assert(d[k] == decimal(n / 10)[k]);
            }
        }
    }
}

proof fn lemma_scan_push(s: Seq<char>, c: char, acc: int, max: int, ov: IntErrorKind, v: int)
    requires
        scan_digits(s, acc, max, ov) == Ok::<int, IntErrorKind>(v),
        is_digit(c),
        v * 10 + digit_value(c) <= max,
    ensures
        scan_digits(s.push(c), acc, max, ov) == Ok::<int, IntErrorKind>(v * 10 + digit_value(c)),
    decreases s.len(),
{
    if s.len() == 0 {
        assert(v == acc);
        assert(s.push(c) =~= seq![c]);
        assert(seq![c].drop_first() =~= Seq::<char>::empty());
        assert(scan_digits(Seq::<char>::empty(), acc * 10 + digit_value(c), max, ov) == Ok::<int, IntErrorKind>(
            acc * 10 + digit_value(c),
        ));
        assert(seq![c][0] == c);
    } else {
        let a2 = acc * 10 + digit_value(s[0]);
        assert(is_digit(s[0]) && a2 <= max);
        assert(scan_digits(s.drop_first(), a2, max, ov) == Ok::<int, IntErrorKind>(v));
        assert(s.push(c).drop_first() =~= s.drop_first().push(c));
        assert(s.push(c)[0] == s[0]);
        lemma_scan_push(s.drop_first(), c, a2, max, ov, v);
        assert(s.push(c).len() > 0);
    }
}

/// Reading the decimal text of a number gives the number back.
pub proof fn lemma_scan_decimal(n: nat, max: int, ov: IntErrorKind)
    requires
        n <= max,
    ensures
        scan_digits(decimal(n), 0, max, ov) == Ok::<int, IntErrorKind>(n as int),
    decreases n,
{
    if n < 10 {
        lemma_digit_char(n);
        assert(decimal(n) =~= Seq::<char>::empty().push(digit_char(n)));
        lemma_scan_push(Seq::<char>::empty(), digit_char(n), 0, max, ov, 0);
    } else {
        lemma_scan_decimal(n / 10, max, ov);
        lemma_digit_char(n % 10);
        lemma_scan_push(decimal(n / 10), digit_char(n % 10), 0, max, ov, (n / 10) as int);
    }
}

/// `usize` parsing reads the decimal text of an index back.
pub proof fn lemma_parse_usize_decimal(i: usize)
    ensures
        parse_usize_text(decimal(i as nat)) == Ok::<int, IntErrorKind>(i as int),
        trim(decimal(i as nat)) == decimal(i as nat),
        strip_index_marks(decimal(i as nat)) == decimal(i as nat),
{
    let d = decimal(i as nat);
    lemma_decimal_digits(i as nat);
    lemma_scan_decimal(i as nat, usize::MAX as int, IntErrorKind::PosOverflow);
    assert(d[0] != '+');
    if d.len() == 1 {
        assert(d != seq!['+'] && d != seq!['-']) by {
            if d == seq!['+'] {
                assert(d[0] == '+');
            }
            if d == seq!['-'] {
                assert(d[0] == '-');
            }
        }
    }
    assert(!is_white(d[0]));
    assert(!is_white(d.last())) by {
        assert(d.last() == d[d.len() - 1]);
    }
    assert(trim_start(d) == d);
    assert(trim_end(d) == d);
}

/// A text with no `sep` is split into itself.
pub proof fn lemma_split_none(s: Seq<char>, sep: char)
    requires
        forall|k: int| 0 <= k < s.len() ==> s[k] != sep,
    ensures
        split_on(s, sep) == seq![s],
    decreases s.len(),
{
    if s.len() == 0 {
        assert(s =~= Seq::<char>::empty());
    } else {
        lemma_split_none(s.drop_last(), sep);
        assert(s.last() == s[s.len() - 1]);
        let rest = split_on(s.drop_last(), sep);
        assert(rest.len() == 1 && rest.last() == s.drop_last());
        assert(s.drop_last().push(s.last()) =~= s);
        assert(seq![s.drop_last()].update(0, s.drop_last().push(s.last())) =~= seq![s]);
    }
}

proof fn lemma_split_append(x: Seq<char>, b: Seq<char>, sep: char)
    requires
        forall|k: int| 0 <= k < b.len() ==> b[k] != sep,
    ensures
        split_on(x + b, sep) == split_on(x, sep).update(
            split_on(x, sep).len() - 1,
            split_on(x, sep).last() + b,
        ),
    decreases b.len(),
{
    crate::text::lemma_split_on_nonempty(x, sep);
    let sx = split_on(x, sep);
    if b.len() == 0 {
        assert(x + b =~= x);
        assert(sx.last() + b =~= sx.last());
        assert(sx.update(sx.len() - 1, sx.last()) =~= sx);
    } else {
        let b0 = b.drop_last();
        lemma_split_append(x, b0, sep);
        assert((x + b).drop_last() =~= x + b0);
        assert((x + b).last() == b[b.len() - 1]);
        let r = sx.update(sx.len() - 1, sx.last() + b0);
        assert(r.last() == sx.last() + b0);
        assert((sx.last() + b0).push(b.last()) =~= sx.last() + b);
        assert(r.update(r.len() - 1, r.last().push((x + b).last())) =~= sx.update(sx.len() - 1, sx.last() + b));
    }
}

/// Two texts with no `sep`, joined by `sep`, are split back into the two.
pub proof fn lemma_split_pair(a: Seq<char>, b: Seq<char>, sep: char)
    requires
        forall|k: int| 0 <= k < a.len() ==> a[k] != sep,
        forall|k: int| 0 <= k < b.len() ==> b[k] != sep,
    ensures
        split_on(a + seq![sep] + b, sep) == seq![a, b],
{
    lemma_split_none(a, sep);
    let x = a + seq![sep];
    assert(x.drop_last() =~= a);
    assert(x.last() == sep);
    assert(split_on(x, sep) == seq![a].push(Seq::<char>::empty()));
    lemma_split_append(x, b, sep);
    assert(Seq::<char>::empty() + b =~= b);
    assert(seq![a].push(Seq::<char>::empty()).update(1, b) =~= seq![a, b]);
}

/// The `--windows` text that selects window `i` by its index: `@i`.
pub fn index_selector(i: usize) -> (r: String)
    ensures
        r@ == seq!['@'] + decimal(i as nat),
{
    let mut s = String::new();
    push_char(&mut s, '@');
    push_decimal(&mut s, i as u64);
    assert(s@ =~= seq!['@'] + decimal(i as nat));
    s
}

/// The `--window-range` text that selects window `i` alone: `i,i`.
pub fn single_range(i: usize) -> (r: String)
    ensures
        r@ == decimal(i as nat) + seq![','] + decimal(i as nat),
{
    let mut s = String::new();
    push_decimal(&mut s, i as u64);
    push_char(&mut s, ',');
    push_decimal(&mut s, i as u64);
    assert(s@ =~= decimal(i as nat) + seq![','] + decimal(i as nat));
    s
}

// ---------------------------------------------------------------------------
// offsets

/// Two decimal digits, with a leading zero below ten.
pub open spec fn two_digits(n: nat) -> Seq<char> {
    if n < 10 {
        seq!['0', digit_char(n)]
    } else {
        decimal(n)
    }
}

/// A time offset in milliseconds as hours, minutes and seconds
/// (`1h02m03s`, `2m03s`, `3s`); `-` for a negative offset.
pub open spec fn offset_text(ms: int) -> Seq<char> {
    if ms < 0 {
        seq!['-']
    } else {
        let s = ms / 1000;
        let h = s / 3600;
        let m = (s % 3600) / 60;
        let sec = s % 60;
        if h > 0 {
            decimal(h as nat) + seq!['h'] + two_digits(m as nat) + seq!['m'] + two_digits(
                sec as nat,
            ) + seq!['s']
        } else if m > 0 {
            decimal(m as nat) + seq!['m'] + two_digits(sec as nat) + seq!['s']
        } else {
            decimal(sec as nat) + seq!['s']
        }
    }
}

fn push_two_digits(s: &mut String, n: u64)
    requires
        n < 100,
    ensures
        final(s)@ == old(s)@ + two_digits(n as nat),
{
    if n < 10 {
        push_char(s, '0');
        push_decimal(s, n);
        assert(decimal(n as nat) == seq![digit_char(n as nat)]);
        assert(final(s)@ =~= old(s)@ + two_digits(n as nat)) by {
            assert(s@ == old(s)@.push('0') + seq![digit_char(n as nat)]);
        }
    } else {
        push_decimal(s, n);
    }
}

proof fn lemma_offset_parts(ms: int)
    requires
        0 <= ms <= i64::MAX,
    ensures
        0 <= (ms / 1000) / 3600 <= i64::MAX,
        0 <= ((ms / 1000) % 3600) / 60 < 60,
        0 <= (ms / 1000) % 60 < 60,
{
    assert(0 <= ms / 1000 <= ms) by (nonlinear_arith)
        requires
            0 <= ms,
    ;
    assert(0 <= (ms / 1000) / 3600 <= ms / 1000) by (nonlinear_arith)
        requires
            0 <= ms / 1000,
    ;
    assert(0 <= (ms / 1000) % 3600 < 3600) by (nonlinear_arith)
        requires
            0 <= ms / 1000,
    ;
    assert(0 <= ((ms / 1000) % 3600) / 60 < 60) by (nonlinear_arith)
        requires
            0 <= (ms / 1000) % 3600 < 3600,
    ;
    assert(0 <= (ms / 1000) % 60 < 60) by (nonlinear_arith)
        requires
            0 <= ms / 1000,
    ;
}

/// Formats an offset in milliseconds (`1h02m03s`, `2m03s`, `3s`, `-`).
pub fn fmt_offset_ms(ms: i64) -> (r: String)
    ensures
        r@ == offset_text(ms as int),
{
    if ms < 0 {
        let r = string_of("-");
        proof {
            reveal_strlit("-");
        }
        assert(r@ =~= seq!['-']);
        return r;
    }
    proof {
        lemma_offset_parts(ms as int);
    }
    let s: i64 = ms / 1000;
    let h: i64 = s / 3600;
    let m: i64 = (s % 3600) / 60;
    let sec: i64 = s % 60;
    let ghost hs = decimal(h as nat);
    let ghost ms2 = two_digits(m as nat);
    let ghost ss2 = two_digits(sec as nat);
    let mut out = String::new();
    if h > 0 {
        push_decimal(&mut out, h as u64);
        push_char(&mut out, 'h');
        push_two_digits(&mut out, m as u64);
        push_char(&mut out, 'm');
        push_two_digits(&mut out, sec as u64);
        push_char(&mut out, 's');
        assert(out@ =~= hs + seq!['h'] + ms2 + seq!['m'] + ss2 + seq!['s']);
    } else if m > 0 {
        push_decimal(&mut out, m as u64);
        push_char(&mut out, 'm');
        push_two_digits(&mut out, sec as u64);
        push_char(&mut out, 's');
        assert(out@ =~= decimal(m as nat) + seq!['m'] + ss2 + seq!['s']);
    } else {
        push_decimal(&mut out, sec as u64);
        push_char(&mut out, 's');
        assert(out@ =~= decimal(sec as nat) + seq!['s']);
    }
    out
}

} // verus!
