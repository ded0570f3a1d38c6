//! The text lines of the heap and health reports and of the plugin report
//! that show no floating-point value.
use vstd::prelude::*;
use crate::meta::{add_line, join_lines, join_strings, joined, label_line, lines_text};
use crate::sort::texts;
use crate::text::{decimal, int_text, push_decimal, push_int, push_str, string_of};

verus! {

/// The names of a platform, as an upload records them.
pub struct PlatformNames {
    pub brand: String,
    pub name: String,
    pub version: String,
    pub minecraft_version: String,
}

/// The brand shown for a platform: its brand, else its name.
pub open spec fn shown_brand(p: PlatformNames) -> Seq<char> {
    if p.brand@.len() == 0 {
        p.name@
    } else {
        p.brand@
    }
}

fn brand_text(p: &PlatformNames) -> (r: &str)
    ensures
        r@ == shown_brand(*p),
{
    if p.brand.as_str().is_empty() {
        p.name.as_str()
    } else {
        p.brand.as_str()
    }
}

/// The lines of the heap report above its entries: the title, the
/// platform when the upload names one, and the number of entries shown,
/// then an empty line.
pub open spec fn heap_header_lines(p: Option<PlatformNames>, shown: usize) -> Seq<Seq<char>> {
    let l = seq!["=== Spark Heap Summary ==="@];
    let l = match p {
        Some(q) => l.push("Platform: "@ + shown_brand(q) + " "@ + q.version@),
        None => l,
    };
    l.push("Showing "@ + decimal(shown as nat) + " entries"@).push(Seq::empty())
}

pub fn heap_header(p: &Option<PlatformNames>, shown: usize) -> (r: Vec<String>)
    ensures
        texts(r@) == heap_header_lines(*p, shown),
{
    let mut lines: Vec<String> = Vec::new();
    add_line(&mut lines, string_of("=== Spark Heap Summary ==="));
    if let Some(q) = p {
        let mut l = label_line("Platform: ", brand_text(q));
        push_str(&mut l, " ");
        push_str(&mut l, q.version.as_str());
        assert(l@ =~= "Platform: "@ + shown_brand(*q) + " "@ + q.version@);
        add_line(&mut lines, l);
    }
    let mut l = string_of("Showing ");
    push_decimal(&mut l, shown as u64);
    push_str(&mut l, " entries");
    add_line(&mut lines, l);
    add_line(&mut lines, String::new());
    assert(texts(lines@) =~= heap_header_lines(*p, shown));
    lines
}

/// The names of an operating system.
pub struct OsNames {
    pub name: String,
    pub version: String,
    pub arch: String,
}

/// A processor: its thread count and model.
pub struct CpuNames {
    pub threads: i32,
    pub model: String,
}

/// What the health report shows of the upload's metadata, besides its
/// floating-point statistics. `sources` are the names of the plugins and
/// mods, in the order to show.
pub struct HealthHeader {
    pub platform: Option<PlatformNames>,
    pub user: Option<String>,
    pub generated_time: i64,
    pub os: Option<OsNames>,
    pub cpu: Option<CpuNames>,
    pub sources: Vec<String>,
}

/// The metadata lines of the health report; `tps` and `mspt` are the
/// floating-point statistics, already rendered, when the upload has them.
pub open spec fn health_meta_lines(
    m: HealthHeader,
    tps: Option<Seq<char>>,
    mspt: Option<Seq<char>>,
    l: Seq<Seq<char>>,
) -> Seq<Seq<char>> {
    let l = match m.platform {
        Some(p) => l.push("Platform: "@ + shown_brand(p) + " "@ + p.version@ + " ("@ + p.minecraft_version@ + ")"@),
        None => l,
    };
    let l = match m.user {
        Some(u) => l.push("User    : "@ + u@),
        None => l,
    };
    let l = l.push("Generated: "@ + int_text(m.generated_time as int));
    let l = match tps {
        Some(t) => l.push("TPS     : "@ + t),
        None => l,
    };
    let l = match mspt {
        Some(t) => l.push("MSPT    : "@ + t),
        None => l,
    };
    let l = match m.os {
        Some(o) => l.push("OS      : "@ + o.name@ + " "@ + o.version@ + " ("@ + o.arch@ + ")"@),
        None => l,
    };
    let l = match m.cpu {
        Some(c) => l.push("CPU     : "@ + int_text(c.threads as int) + " threads "@ + c.model@),
        None => l,
    };
    if m.sources@.len() > 0 {
        l.push("Sources : "@ + joined(texts(m.sources@), ", "@))
    } else {
        l
    }
}

/// The lines of the health report above its windows: the title, the
/// metadata lines when the upload has metadata, and the number of windows.
pub open spec fn health_header_lines(
    h: Option<HealthHeader>,
    tps: Option<Seq<char>>,
    mspt: Option<Seq<char>>,
    windows: usize,
) -> Seq<Seq<char>> {
    let l = seq!["=== Spark Health Report ==="@];
    let l = match h {
        Some(m) => health_meta_lines(m, tps, mspt, l),
        None => l,
    };
    l.push("Windows : "@ + decimal(windows as nat))
}

pub open spec fn opt_str_view(s: &Option<String>) -> Option<Seq<char>> {
    match s {
        Some(t) => Some(t@),
        None => None,
    }
}

fn add_platform_user(m: &HealthHeader, lines: &mut Vec<String>)
    ensures
        texts(final(lines)@) == {
            let l = texts(old(lines)@);
            let l = match m.platform {
                Some(p) => l.push(
                    "Platform: "@ + shown_brand(p) + " "@ + p.version@ + " ("@ + p.minecraft_version@ + ")"@,
                ),
                None => l,
            };
            let l = match m.user {
                Some(u) => l.push("User    : "@ + u@),
                None => l,
            };
            l.push("Generated: "@ + int_text(m.generated_time as int))
        },
{
    if let Some(p) = &m.platform {
        let mut l = label_line("Platform: ", brand_text(p));
        push_str(&mut l, " ");
        push_str(&mut l, p.version.as_str());
        push_str(&mut l, " (");
        push_str(&mut l, p.minecraft_version.as_str());
        push_str(&mut l, ")");
        assert(l@ =~= "Platform: "@ + shown_brand(*p) + " "@ + p.version@ + " ("@ + p.minecraft_version@ + ")"@);
        add_line(lines, l);
    }
    if let Some(u) = &m.user {
        add_line(lines, label_line("User    : ", u.as_str()));
    }
    let mut l = string_of("Generated: ");
    push_int(&mut l, m.generated_time);
    add_line(lines, l);
}

fn add_system_lines(m: &HealthHeader, lines: &mut Vec<String>)
    ensures
        texts(final(lines)@) == {
            let l = texts(old(lines)@);
            let l = match m.os {
                Some(o) => l.push("OS      : "@ + o.name@ + " "@ + o.version@ + " ("@ + o.arch@ + ")"@),
                None => l,
            };
            let l = match m.cpu {
                Some(c) => l.push("CPU     : "@ + int_text(c.threads as int) + " threads "@ + c.model@),
                None => l,
            };
            if m.sources@.len() > 0 {
                l.push("Sources : "@ + joined(texts(m.sources@), ", "@))
            } else {
                l
            }
        },
{
    if let Some(o) = &m.os {
        let mut l = label_line("OS      : ", o.name.as_str());
        push_str(&mut l, " ");
        push_str(&mut l, o.version.as_str());
        push_str(&mut l, " (");
        push_str(&mut l, o.arch.as_str());
        push_str(&mut l, ")");
        assert(l@ =~= "OS      : "@ + o.name@ + " "@ + o.version@ + " ("@ + o.arch@ + ")"@);
        add_line(lines, l);
    }
    if let Some(c) = &m.cpu {
        let mut l = string_of("CPU     : ");
        push_int(&mut l, c.threads as i64);
        push_str(&mut l, " threads ");
        push_str(&mut l, c.model.as_str());
        assert(l@ =~= "CPU     : "@ + int_text(c.threads as int) + " threads "@ + c.model@);
        add_line(lines, l);
    }
    if m.sources.len() > 0 {
        let j = join_strings(&m.sources, ", ");
        add_line(lines, label_line("Sources : ", j.as_str()));
    }
}

/// The lines of the health report above its windows.
pub fn health_header(
    h: &Option<HealthHeader>,
    tps: &Option<String>,
    mspt: &Option<String>,
    windows: usize,
) -> (r: Vec<String>)
    ensures
        texts(r@) == health_header_lines(*h, opt_str_view(tps), opt_str_view(mspt), windows),
{
    let mut lines: Vec<String> = Vec::new();
    add_line(&mut lines, string_of("=== Spark Health Report ==="));
    if let Some(m) = h {
        add_platform_user(m, &mut lines);
        if let Some(t) = tps {
            add_line(&mut lines, label_line("TPS     : ", t.as_str()));
        }
        if let Some(t) = mspt {
            add_line(&mut lines, label_line("MSPT    : ", t.as_str()));
        }
        add_system_lines(m, &mut lines);
    }
    let mut l = string_of("Windows : ");
    push_decimal(&mut l, windows as u64);
    add_line(&mut lines, l);
    lines
}

/// The plugin report of a profile without a source map: it says so and
/// lists the installed plugins and mods.
pub open spec fn no_source_map_lines(plugins: Seq<Seq<char>>) -> Seq<Seq<char>> {
    seq![
        "No plugin/mod source map in this profile (plugin occupancy unavailable).\n"@,
        "Installed plugins/mods from metadata:\n"@,
    ] + plugins.map_values(|p: Seq<char>| "  - "@ + p)
}

pub fn no_source_map_text(plugins: &Vec<String>) -> (r: String)
    ensures
        r@ == lines_text(no_source_map_lines(texts(plugins@))),
{
    let ghost ps = texts(plugins@);
    let mut lines: Vec<String> = Vec::new();
    add_line(&mut lines, string_of("No plugin/mod source map in this profile (plugin occupancy unavailable).\n"));
    add_line(&mut lines, string_of("Installed plugins/mods from metadata:\n"));
    let ghost head = texts(lines@);
    let n = plugins.len();
    assert(ps.take(0).map_values(|p: Seq<char>| "  - "@ + p) =~= Seq::<Seq<char>>::empty());
    for i in 0..n
        invariant
            n == plugins@.len(),
            ps == texts(plugins@),
            texts(lines@) == head + ps.take(i as int).map_values(|p: Seq<char>| "  - "@ + p),
    {
        let ghost o = texts(lines@);
        add_line(&mut lines, label_line("  - ", plugins[i].as_str()));
        assert(ps[i as int] == plugins@[i as int]@);
        assert(ps.take(i + 1).map_values(|p: Seq<char>| "  - "@ + p) =~= ps.take(i as int).map_values(
            |p: Seq<char>| "  - "@ + p,
        ).push("  - "@ + ps[i as int]));
        assert(texts(lines@) =~= head + ps.take(i + 1).map_values(|p: Seq<char>| "  - "@ + p));
    }
    assert(ps.take(n as int) =~= ps);
    assert(texts(lines@) =~= no_source_map_lines(ps));
    join_lines(&lines)
}

/// The line under the first eight threads of the plugin report that counts
/// the rest, when there are more than eight.
pub fn more_threads_line(shown: usize) -> (r: Option<String>)
    ensures
        match r {
            Some(l) => shown > 8 && l@ == "  • … +"@ + decimal((shown - 8) as nat) + " more"@,
            None => shown <= 8,
        },
{
    if shown > 8 {
        let mut l = string_of("  • … +");
        push_decimal(&mut l, (shown - 8) as u64);
        push_str(&mut l, " more");
        Some(l)
    } else {
        None
    }
}

} // verus!
