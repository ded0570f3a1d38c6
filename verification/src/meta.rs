//! The metadata of a sampler upload and its text header.
use vstd::prelude::*;
use crate::sort::texts;
use crate::text::{contains, decimal, digit_char, int_text, push_char, push_decimal, push_int, push_str, str_contains, string_of};

verus! {

/// The metadata of a sampler upload. `F` is the type of the statistics
/// that the upload records as floating point (TPS, MSPT, CPU usage).
pub struct MetaSnapshot<F> {
    pub platform_brand: String,
    pub platform_name: String,
    pub platform_version: String,
    pub minecraft_version: String,
    pub spark_version: i32,
    pub platform_type: String,
    pub user: String,
    pub comment: String,
    pub start_time_ms: i64,
    pub end_time_ms: i64,
    pub duration_ms: i64,
    pub interval_us: i32,
    pub sampler_mode: String,
    pub sampler_engine: String,
    pub sampler_engine_version: String,
    pub tps_1m: Option<F>,
    pub tps_5m: Option<F>,
    pub tps_15m: Option<F>,
    pub tps_target: Option<i32>,
    pub mspt_mean: Option<F>,
    pub mspt_median: Option<F>,
    pub mspt_p95: Option<F>,
    pub mspt_max: Option<F>,
    pub players: Option<i64>,
    pub heap_used: Option<i64>,
    pub heap_committed: Option<i64>,
    pub os: String,
    pub arch: String,
    pub cpu_threads: Option<i32>,
    pub cpu_model: String,
    pub cpu_process_1m: Option<F>,
    pub cpu_system_1m: Option<F>,
    pub java: String,
    pub plugins_mods: Vec<String>,
    pub time_window_ids: Vec<i32>,
}

/// The parts of the header that show floating-point values, already
/// rendered: the duration (`1m 5.0s`), the three TPS averages
/// (`1m=19.98  5m=…  15m=…`), the MSPT statistics
/// (`mean=… median=… p95=… max=…`), the heap (`used / committed`) and the
/// CPU usage (`process 1m=…%  system 1m=…%`).
pub struct MetaFloatText {
    pub duration: String,
    pub tps: String,
    pub mspt: String,
    pub heap: String,
    pub cpu_usage: String,
}

/// Three decimal digits, with leading zeros.
pub open spec fn three_digits(n: nat) -> Seq<char> {
    if n < 10 {
        seq!['0', '0', digit_char(n)]
    } else if n < 100 {
        seq!['0'] + decimal(n)
    } else {
        decimal(n)
    }
}

/// A sampling interval in microseconds, in milliseconds with three
/// decimals (`4.000`, `0.500`, `-0.001`).
pub open spec fn interval_text(us: i32) -> Seq<char> {
    let a: int = if us < 0 {
        -us
    } else {
        us as int
    };
    (if us < 0 {
        seq!['-']
    } else {
        Seq::empty()
    }) + decimal((a / 1000) as nat) + seq!['.'] + three_digits((a % 1000) as nat)
}

/// The texts joined by a separator.
pub open spec fn joined(parts: Seq<Seq<char>>, sep: Seq<char>) -> Seq<char>
    decreases parts.len(),
{
    if parts.len() == 0 {
        Seq::empty()
    } else if parts.len() == 1 {
        parts[0]
    } else {
        joined(parts.drop_last(), sep) + sep + parts.last()
    }
}

/// A list of integers as Rust's `Debug` shows it: `[1, 2, 3]`.
pub open spec fn ints_debug(ids: Seq<i32>) -> Seq<char> {
    seq!['['] + joined(ids.map_values(|i: i32| int_text(i as int)), ", "@) + seq![']']
}

/// Each line followed by a line break.
pub open spec fn lines_text(lines: Seq<Seq<char>>) -> Seq<char>
    decreases lines.len(),
{
    if lines.len() == 0 {
        Seq::empty()
    } else {
        lines_text(lines.drop_last()) + lines.last() + seq!['\n']
    }
}

/// The brand shown for the platform: its brand, else its name.
pub open spec fn brand_of<F>(m: &MetaSnapshot<F>) -> Seq<char> {
    if m.platform_brand@.len() == 0 {
        m.platform_name@
    } else {
        m.platform_brand@
    }
}

/// The version line: the Minecraft version is added when it is known and
/// the platform version does not already contain it.
pub open spec fn version_line<F>(m: &MetaSnapshot<F>) -> Seq<char> {
    if m.minecraft_version@.len() == 0 || contains(m.platform_version@, m.minecraft_version@) {
        "Version      : "@ + m.platform_version@
    } else {
        "Version      : "@ + m.platform_version@ + "  MC "@ + m.minecraft_version@
    }
}

/// The lines always shown.
pub open spec fn meta_head<F>(m: &MetaSnapshot<F>, t: &MetaFloatText) -> Seq<Seq<char>> {
    seq![
        "=== Spark Sampler Profile ==="@,
        "Platform     : "@ + brand_of(m) + " ("@ + m.platform_type@ + ")"@,
        version_line(m),
        "Spark        : v"@ + int_text(m.spark_version as int),
        "Engine       : "@ + m.sampler_engine@ + " "@ + m.sampler_engine_version@,
        "Mode         : "@ + m.sampler_mode@,
        "Interval     : "@ + interval_text(m.interval_us) + " ms"@,
        "Duration     : "@ + t.duration@,
    ]
}

pub open spec fn push_if(l: Seq<Seq<char>>, cond: bool, line: Seq<char>) -> Seq<Seq<char>> {
    if cond {
        l.push(line)
    } else {
        l
    }
}

/// The first twelve plugins and mods.
pub open spec fn first_plugins(ps: Seq<Seq<char>>) -> Seq<Seq<char>> {
    ps.take(
        if ps.len() < 12 {
            ps.len() as int
        } else {
            12
        },
    )
}

/// The optional lines on the upload: uploader, comment, TPS and MSPT.
pub open spec fn meta_lines_upload<F>(m: &MetaSnapshot<F>, t: &MetaFloatText, l: Seq<Seq<char>>) -> Seq<Seq<char>> {
    let l = push_if(l, m.user@.len() > 0, "Uploaded by  : "@ + m.user@);
    let l = push_if(l, m.comment@.len() > 0, "Comment      : "@ + m.comment@);
    let l = push_if(
        l,
        m.tps_1m is Some && m.tps_5m is Some && m.tps_15m is Some,
        "TPS          : "@ + t.tps@ + "  target="@ + int_text(
            match m.tps_target {
                Some(v) => v as int,
                None => 20,
            },
        ),
    );
    push_if(
        l,
        m.mspt_mean is Some && m.mspt_median is Some && m.mspt_p95 is Some && m.mspt_max is Some,
        "MSPT (1m)    : "@ + t.mspt@,
    )
}

/// The optional lines on the server: players, heap, OS and CPU.
pub open spec fn meta_lines_server<F>(m: &MetaSnapshot<F>, t: &MetaFloatText, l: Seq<Seq<char>>) -> Seq<Seq<char>> {
    let l = push_if(l, m.players is Some, "Players      : "@ + int_text(m.players->0 as int));
    let l = push_if(l, m.heap_used is Some && m.heap_committed is Some, "Heap         : "@ + t.heap@);
    let l = push_if(l, m.os@.len() > 0, "OS           : "@ + m.os@ + " ("@ + m.arch@ + ")"@);
    push_if(
        l,
        m.cpu_threads is Some,
        "CPU          : "@ + int_text(m.cpu_threads->0 as int) + " threads | "@ + t.cpu_usage@,
    )
}

/// The line listing the plugins and mods: their number and the first twelve.
pub open spec fn plugins_line(ps: Seq<Seq<char>>) -> Seq<char> {
    "Plugins/Mods : "@ + decimal(ps.len()) + " ("@ + joined(first_plugins(ps), ", "@) + ")"@
}

/// The optional lines on the runtime: CPU model, Java, plugins and mods,
/// time windows.
pub open spec fn meta_lines_runtime<F>(m: &MetaSnapshot<F>, l: Seq<Seq<char>>) -> Seq<Seq<char>> {
    let l = push_if(l, m.cpu_model@.len() > 0, "CPU model    : "@ + m.cpu_model@);
    let l = push_if(l, m.java@.len() > 0, "Java         : "@ + m.java@);
    let l = push_if(l, m.plugins_mods@.len() > 0, plugins_line(texts(m.plugins_mods@)));
    push_if(
        l,
        m.time_window_ids@.len() > 1,
        "Windows      : "@ + decimal(m.time_window_ids@.len()) + " "@ + ints_debug(m.time_window_ids@),
    )
}

/// The lines of the metadata header: the fixed ones, then each optional
/// line whose data the upload has.
pub open spec fn meta_lines<F>(m: &MetaSnapshot<F>, t: &MetaFloatText) -> Seq<Seq<char>> {
    meta_lines_runtime(m, meta_lines_server(m, t, meta_lines_upload(m, t, meta_head(m, t))))
}

/// Two names joined by a space, as the header shows the OS (name and
/// version) and Java (vendor and version).
pub fn space_joined(a: &str, b: &str) -> (r: String)
    ensures
        r@ == a@ + seq![' '] + b@,
{
    let mut s = string_of(a);
    push_char(&mut s, ' ');
    push_str(&mut s, b);
    assert(s@ =~= a@ + seq![' '] + b@);
    s
}

fn push_three_digits(s: &mut String, n: u64)
    requires
        n < 1000,
    ensures
        final(s)@ == old(s)@ + three_digits(n as nat),
{
    if n < 10 {
        push_char(s, '0');
        push_char(s, '0');
        push_decimal(s, n);
        assert(decimal(n as nat) == seq![digit_char(n as nat)]);
        assert(s@ =~= old(s)@ + three_digits(n as nat));
    } else if n < 100 {
        push_char(s, '0');
        push_decimal(s, n);
        assert(s@ =~= old(s)@ + three_digits(n as nat));
    } else {
        push_decimal(s, n);
    }
}

/// Appends a sampling interval in milliseconds with three decimals.
pub fn push_interval(s: &mut String, us: i32)
    ensures
        final(s)@ == old(s)@ + interval_text(us),
{
    let a: u64 = if us < 0 {
        (-(us as i64)) as u64
    } else {
        us as u64
    };
    let ghost pre = s@;
    if us < 0 {
        push_char(s, '-');
    }
    let ghost mid = s@;
    push_decimal(s, a / 1000);
    push_char(s, '.');
    push_three_digits(s, a % 1000);
    proof {
        if us < 0 {
            assert(mid == pre + seq!['-']);
        } else {
            assert(mid =~= pre + Seq::<char>::empty());
        }
    }
    assert(s@ =~= old(s)@ + interval_text(us));
}

proof fn lemma_joined_push(parts: Seq<Seq<char>>, sep: Seq<char>, x: Seq<char>)
    ensures
        joined(parts.push(x), sep) == if parts.len() == 0 {
            x
        } else {
            joined(parts, sep) + sep + x
        },
{
    assert(parts.push(x).drop_last() =~= parts);
}

/// The texts joined by a separator.
pub fn join_strings(parts: &Vec<String>, sep: &str) -> (r: String)
    ensures
        r@ == joined(texts(parts@), sep@),
{
    let ghost ps = texts(parts@);
    let mut s = String::new();
    let n = parts.len();
    assert(ps.take(0) =~= Seq::<Seq<char>>::empty());
    for i in 0..n
        invariant
            n == parts@.len(),
            ps == texts(parts@),
            s@ == joined(ps.take(i as int), sep@),
    {
        proof {
            assert(ps.take(i + 1) =~= ps.take(i as int).push(ps[i as int]));
            lemma_joined_push(ps.take(i as int), sep@, ps[i as int]);
        }
        if i > 0 {
            push_str(&mut s, sep);
        } else {
            assert(s@ =~= Seq::<char>::empty());
        }
        push_str(&mut s, parts[i].as_str());
        assert(s@ =~= joined(ps.take(i + 1), sep@));
    }
    assert(ps.take(n as int) =~= ps);
    s
}

/// A list of integers as Rust's `Debug` shows it: `[1, 2, 3]`.
pub fn debug_ints(ids: &Vec<i32>) -> (r: String)
    ensures
        r@ == ints_debug(ids@),
{
    let ghost ps = ids@.map_values(|i: i32| int_text(i as int));
    let mut s = string_of("[");
    proof {
        reveal_strlit("[");
    }
    let ghost start = s@;
    assert(start =~= seq!['[']);
    let n = ids.len();
    assert(ps.take(0) =~= Seq::<Seq<char>>::empty());
    for i in 0..n
        invariant
            n == ids@.len(),
            ps == ids@.map_values(|i: i32| int_text(i as int)),
            start == seq!['['],
            s@ == start + joined(ps.take(i as int), ", "@),
    {
        proof {
            assert(ps.take(i + 1) =~= ps.take(i as int).push(ps[i as int]));
            lemma_joined_push(ps.take(i as int), ", "@, ps[i as int]);
        }
        let ghost before = s@;
        if i > 0 {
            push_str(&mut s, ", ");
        }
        push_int(&mut s, ids[i] as i64);
        proof {
            assert(ps[i as int] == int_text(ids@[i as int] as int));
            if i > 0 {
                assert(s@ =~= start + (joined(ps.take(i as int), ", "@) + ", "@ + ps[i as int]));
            } else {
                assert(joined(ps.take(i as int), ", "@) =~= Seq::<char>::empty());
                assert(s@ =~= start + ps[i as int]);
            }
        }
    }
    push_char(&mut s, ']');
    assert(ps.take(n as int) =~= ps);
    assert(s@ =~= ints_debug(ids@));
    s
}

proof fn lemma_lines_text_push(lines: Seq<Seq<char>>, x: Seq<char>)
    ensures
        lines_text(lines.push(x)) == lines_text(lines) + x + seq!['\n'],
{
    assert(lines.push(x).drop_last() =~= lines);
}

/// Each line followed by a line break.
pub fn join_lines(lines: &Vec<String>) -> (r: String)
    ensures
        r@ == lines_text(texts(lines@)),
{
    let ghost ls = texts(lines@);
    let mut s = String::new();
    let n = lines.len();
    assert(ls.take(0) =~= Seq::<Seq<char>>::empty());
    for i in 0..n
        invariant
            n == lines@.len(),
            ls == texts(lines@),
            s@ == lines_text(ls.take(i as int)),
    {
        proof {
            assert(ls.take(i + 1) =~= ls.take(i as int).push(ls[i as int]));
            lemma_lines_text_push(ls.take(i as int), ls[i as int]);
        }
        push_str(&mut s, lines[i].as_str());
        push_char(&mut s, '\n');
        assert(s@ =~= lines_text(ls.take(i + 1)));
    }
    assert(ls.take(n as int) =~= ls);
    s
}

pub(crate) fn label_line(label: &str, value: &str) -> (r: String)
    ensures
        r@ == label@ + value@,
{
    let mut s = string_of(label);
    push_str(&mut s, value);
    s
}

pub(crate) fn add_line(lines: &mut Vec<String>, line: String)
    ensures
        texts(final(lines)@) == texts(old(lines)@).push(line@),
{
    lines.push(line);
    assert(texts(lines@) =~= texts(old(lines)@).push(line@));
}

fn head_lines<F>(m: &MetaSnapshot<F>, t: &MetaFloatText) -> (r: Vec<String>)
    ensures
        texts(r@) == meta_head(m, t),
{
    let mut lines: Vec<String> = Vec::new();
    add_line(&mut lines, string_of("=== Spark Sampler Profile ==="));
    let mut l = string_of("Platform     : ");
    if m.platform_brand.as_str().is_empty() {
        push_str(&mut l, m.platform_name.as_str());
    } else {
        push_str(&mut l, m.platform_brand.as_str());
    }
    push_str(&mut l, " (");
    push_str(&mut l, m.platform_type.as_str());
    push_str(&mut l, ")");
    assert(l@ =~= "Platform     : "@ + brand_of(m) + " ("@ + m.platform_type@ + ")"@);
    add_line(&mut lines, l);
    let mut l = string_of("Version      : ");
    push_str(&mut l, m.platform_version.as_str());
    if !m.minecraft_version.as_str().is_empty() && !str_contains(
        m.platform_version.as_str(),
        m.minecraft_version.as_str(),
    ) {
        push_str(&mut l, "  MC ");
        push_str(&mut l, m.minecraft_version.as_str());
    }
    assert(l@ =~= version_line(m));
    add_line(&mut lines, l);
    let mut l = string_of("Spark        : v");
    push_int(&mut l, m.spark_version as i64);
    add_line(&mut lines, l);
    let mut l = string_of("Engine       : ");
    push_str(&mut l, m.sampler_engine.as_str());
    push_str(&mut l, " ");
    push_str(&mut l, m.sampler_engine_version.as_str());
    assert(l@ =~= "Engine       : "@ + m.sampler_engine@ + " "@ + m.sampler_engine_version@);
    add_line(&mut lines, l);
    add_line(&mut lines, label_line("Mode         : ", m.sampler_mode.as_str()));
    let mut l = string_of("Interval     : ");
    push_interval(&mut l, m.interval_us);
    push_str(&mut l, " ms");
    assert(l@ =~= "Interval     : "@ + interval_text(m.interval_us) + " ms"@);
    add_line(&mut lines, l);
    add_line(&mut lines, label_line("Duration     : ", t.duration.as_str()));
    assert(texts(lines@) =~= meta_head(m, t));
    lines
}

fn add_upload_lines<F>(m: &MetaSnapshot<F>, t: &MetaFloatText, lines: &mut Vec<String>)
    ensures
        texts(final(lines)@) == meta_lines_upload(m, t, texts(old(lines)@)),
{
    let ghost l0 = texts(lines@);
    let ghost l1 = push_if(l0, m.user@.len() > 0, "Uploaded by  : "@ + m.user@);
    if !m.user.as_str().is_empty() {
        add_line(lines, label_line("Uploaded by  : ", m.user.as_str()));
    }
    assert(texts(lines@) == l1);
    let ghost l2 = push_if(l1, m.comment@.len() > 0, "Comment      : "@ + m.comment@);
    if !m.comment.as_str().is_empty() {
        add_line(lines, label_line("Comment      : ", m.comment.as_str()));
    }
    assert(texts(lines@) == l2);
    let ghost target: int = match m.tps_target {
        Some(v) => v as int,
        None => 20,
    };
    let ghost l3 = push_if(
        l2,
        m.tps_1m is Some && m.tps_5m is Some && m.tps_15m is Some,
        "TPS          : "@ + t.tps@ + "  target="@ + int_text(target),
    );
    if m.tps_1m.is_some() && m.tps_5m.is_some() && m.tps_15m.is_some() {
        let mut l = label_line("TPS          : ", t.tps.as_str());
        push_str(&mut l, "  target=");
        let tt: i32 = match m.tps_target {
            Some(v) => v,
            None => 20,
        };
        push_int(&mut l, tt as i64);
        assert(l@ =~= "TPS          : "@ + t.tps@ + "  target="@ + int_text(target));
        add_line(lines, l);
    }
    assert(texts(lines@) == l3);
    if m.mspt_mean.is_some() && m.mspt_median.is_some() && m.mspt_p95.is_some() && m.mspt_max.is_some() {
        add_line(lines, label_line("MSPT (1m)    : ", t.mspt.as_str()));
    }
}

fn add_server_lines<F>(m: &MetaSnapshot<F>, t: &MetaFloatText, lines: &mut Vec<String>)
    ensures
        texts(final(lines)@) == meta_lines_server(m, t, texts(old(lines)@)),
{
    let ghost l4 = texts(lines@);
    let ghost l5 = push_if(l4, m.players is Some, "Players      : "@ + int_text(m.players->0 as int));
    if let Some(p) = m.players {
        let mut l = string_of("Players      : ");
        push_int(&mut l, p);
        add_line(lines, l);
    }
    assert(texts(lines@) == l5);
    let ghost l6 = push_if(l5, m.heap_used is Some && m.heap_committed is Some, "Heap         : "@ + t.heap@);
    if m.heap_used.is_some() && m.heap_committed.is_some() {
        add_line(lines, label_line("Heap         : ", t.heap.as_str()));
    }
    assert(texts(lines@) == l6);
    let ghost l7 = push_if(l6, m.os@.len() > 0, "OS           : "@ + m.os@ + " ("@ + m.arch@ + ")"@);
    if !m.os.as_str().is_empty() {
        let mut l = label_line("OS           : ", m.os.as_str());
        push_str(&mut l, " (");
        push_str(&mut l, m.arch.as_str());
        push_str(&mut l, ")");
        assert(l@ =~= "OS           : "@ + m.os@ + " ("@ + m.arch@ + ")"@);
        add_line(lines, l);
    }
    assert(texts(lines@) == l7);
    if let Some(c) = m.cpu_threads {
        let mut l = string_of("CPU          : ");
        push_int(&mut l, c as i64);
        push_str(&mut l, " threads | ");
        push_str(&mut l, t.cpu_usage.as_str());
        assert(l@ =~= "CPU          : "@ + int_text(c as int) + " threads | "@ + t.cpu_usage@);
        add_line(lines, l);
    }
}

fn plugins_line_exec(ps: &Vec<String>) -> (r: String)
    ensures
        r@ == plugins_line(texts(ps@)),
{
    let ghost pv = texts(ps@);
    let mut first: Vec<String> = Vec::new();
    let k: usize = if ps.len() < 12 {
        ps.len()
    } else {
        12
    };
    assert(pv.take(0) =~= Seq::<Seq<char>>::empty());
    for i in 0..k
        invariant
            k <= ps@.len(),
            pv == texts(ps@),
            texts(first@) == pv.take(i as int),
    {
        let ghost o = texts(first@);
        let p = ps[i].clone();
        assert(p@ == pv[i as int]);
        first.push(p);
        assert(texts(first@) =~= o.push(pv[i as int]));
        assert(pv.take(i + 1) =~= pv.take(i as int).push(pv[i as int]));
    }
    assert(texts(first@) == first_plugins(pv));
    let mut l = string_of("Plugins/Mods : ");
    push_decimal(&mut l, ps.len() as u64);
    push_str(&mut l, " (");
    let j = join_strings(&first, ", ");
    push_str(&mut l, j.as_str());
    push_str(&mut l, ")");
    assert(l@ =~= plugins_line(pv));
    l
}

fn add_runtime_lines<F>(m: &MetaSnapshot<F>, lines: &mut Vec<String>)
    ensures
        texts(final(lines)@) == meta_lines_runtime(m, texts(old(lines)@)),
{
    let ghost l8 = texts(lines@);
    let ghost l9 = push_if(l8, m.cpu_model@.len() > 0, "CPU model    : "@ + m.cpu_model@);
    if !m.cpu_model.as_str().is_empty() {
        add_line(lines, label_line("CPU model    : ", m.cpu_model.as_str()));
    }
    assert(texts(lines@) == l9);
    let ghost l10 = push_if(l9, m.java@.len() > 0, "Java         : "@ + m.java@);
    if !m.java.as_str().is_empty() {
        add_line(lines, label_line("Java         : ", m.java.as_str()));
    }
    assert(texts(lines@) == l10);
    let ghost l11 = push_if(l10, m.plugins_mods@.len() > 0, plugins_line(texts(m.plugins_mods@)));
    if m.plugins_mods.len() > 0 {
        add_line(lines, plugins_line_exec(&m.plugins_mods));
    }
    assert(texts(lines@) == l11);
    if m.time_window_ids.len() > 1 {
        let mut l = string_of("Windows      : ");
        push_decimal(&mut l, m.time_window_ids.len() as u64);
        push_str(&mut l, " ");
        let d = debug_ints(&m.time_window_ids);
        push_str(&mut l, d.as_str());
        assert(l@ =~= "Windows      : "@ + decimal(m.time_window_ids@.len()) + " "@ + ints_debug(
            m.time_window_ids@,
        ));
        add_line(lines, l);
    }
}

/// The metadata header of a sampler profile, one line per item, each line
/// followed by a line break.
pub fn format_meta_text<F>(m: &MetaSnapshot<F>, t: &MetaFloatText) -> (r: String)
    ensures
        r@ == lines_text(meta_lines(m, t)),
{
    let mut lines = head_lines(m, t);
    add_upload_lines(m, t, &mut lines);
    add_server_lines(m, t, &mut lines);
    add_runtime_lines(m, &mut lines);
    join_lines(&lines)
}

} // verus!
