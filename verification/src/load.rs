//! The kinds of spark data and how an input names its kind.
use vstd::prelude::*;
use crate::text::{chars_eq, chars_of, contains, lemma_contains_lower, lower, lower_chars, split_on};

verus! {

#[verifier::external_type_specification]
#[verifier::external_body]
pub struct ExIoError(std::io::Error);

/// What a spark upload holds.
#[derive(Debug, Clone, Copy, PartialEq, Eq, Structural)]
pub enum ContentKind {
    Sampler,
    Heap,
    Health,
}

/// Why an input could not be loaded.
#[derive(Debug)]
pub enum LoadError {
    /// Reading a local file failed.
    Io(std::io::Error),
    /// The download failed.
    Http { status: u16, body: String },
    Msg(String),
}

/// A path component that names nothing for `Path::file_name`: empty
/// pieces (repeated or trailing `/`) and `.`.
pub open spec fn skipped_component(c: Seq<char>) -> bool {
    c.len() == 0 || c == seq!['.']
}

/// The last of the first `n` components that is not skipped.
pub open spec fn last_named(segs: Seq<Seq<char>>, n: int) -> Option<Seq<char>>
    decreases n,
{
    if n <= 0 {
        None
    } else if skipped_component(segs[n - 1]) {
        last_named(segs, n - 1)
    } else {
        Some(segs[n - 1])
    }
}

/// `Path::file_name` on a `/`-separated path: the last component, unless
/// it is `..` or there is none.
pub open spec fn file_name(path: Seq<char>) -> Option<Seq<char>> {
    let segs = split_on(path, '/');
    match last_named(segs, segs.len() as int) {
        Some(c) => if c == seq!['.', '.'] {
            None
        } else {
            Some(c)
        },
        None => None,
    }
}

/// `Path::extension` of a file name: what follows its last `.`, when that
/// `.` is not its first character.
pub open spec fn name_extension(name: Seq<char>) -> Option<Seq<char>> {
    if exists|i: int| 0 < i < name.len() && name[i] == '.' {
        let i = choose|i: int|
            0 < i < name.len() && name[i] == '.' && forall|j: int| i < j < name.len() ==> name[j] != '.';
        Some(name.skip(i + 1))
    } else {
        None
    }
}

pub open spec fn path_extension(path: Seq<char>) -> Option<Seq<char>> {
    match file_name(path) {
        Some(n) => name_extension(n),
        None => None,
    }
}

/// An ASCII letter.
pub open spec fn ascii_letter(c: char) -> bool {
    ('a' <= c && c <= 'z') || ('A' <= c && c <= 'Z')
}

/// A path that every platform reads alike: it holds no `\\` (a separator
/// on Windows only), does not start with a letter and `:` (a drive prefix
/// on Windows), and does not start with `//` (a network share or device
/// prefix on Windows). Any other `:`, as in a URL, is an ordinary
/// character everywhere.
pub open spec fn portable_path(path: Seq<char>) -> bool {
    &&& !path.contains('\\')
    &&& !(path.len() >= 2 && ascii_letter(path[0]) && path[1] == ':')
    &&& !(path.len() >= 2 && path[0] == '/' && path[1] == '/')
}

/// The kind an extension names, ASCII case-insensitively: `sparkheap`,
/// `sparkhealth`, and a sampler profile for any other extension or none.
pub open spec fn kind_of_extension(ext: Option<Seq<char>>) -> ContentKind {
    match ext {
        Some(e) => if lower(e) == "sparkheap"@ {
            ContentKind::Heap
        } else if lower(e) == "sparkhealth"@ {
            ContentKind::Health
        } else {
            ContentKind::Sampler
        },
        None => ContentKind::Sampler,
    }
}

/// The kind that an input's file extension names, ASCII case-insensitively;
/// `Sampler` for any other input (such as a bytebin code).
pub open spec fn kind_of_input(input: Seq<char>) -> ContentKind {
    kind_of_extension(path_extension(input))
}

/// What is known of the kind read from an input's extension on every
/// platform: on a portable path, the kind its extension names; on any path,
/// a heap or health kind only when the input holds `.sparkheap` or
/// `.sparkhealth` (ASCII case-insensitively).
pub open spec fn kind_read_from(input: Seq<char>, k: ContentKind) -> bool {
    &&& portable_path(input) ==> k == kind_of_input(input)
    &&& k == ContentKind::Heap ==> contains(lower(input), ".sparkheap"@)
    &&& k == ContentKind::Health ==> contains(lower(input), ".sparkhealth"@)
}

pub open spec fn opt_text(s: Option<String>) -> Option<Seq<char>> {
    match s {
        Some(t) => Some(t@),
        None => None,
    }
}

/// `std::path::Path::extension` of the input, as text. Which characters
/// separate components, and which prefixes a path may have, are the
/// platform's: on a `portable_path` every platform gives the extension
/// that `path_extension` states. On any path, an extension is a piece of
/// the input that follows a `.` (a path's components are pieces of it);
/// which piece, on a path that is not portable, is the platform's.
#[verifier::external_body]
fn std_path_extension(input: &str) -> (r: Option<String>)
    ensures
        portable_path(input@) ==> opt_text(r) == path_extension(input@),
        r matches Some(e) ==> contains(input@, seq!['.'] + e@),
{
    std::path::Path::new(input).extension().and_then(|e| e.to_str()).map(|e| e.to_string())
}

/// The kind an extension names (`sparkheap`, `sparkhealth`, ASCII
/// case-insensitive), a sampler profile for any other or none.
pub fn kind_for_extension(ext: Option<&str>) -> (r: ContentKind)
    ensures
        r == kind_of_extension(crate::filter::opt_view(ext)),
{
    match ext {
        None => ContentKind::Sampler,
        Some(e) => {
            let le = lower_chars(&chars_of(e));
            let heap = chars_of("sparkheap");
            let health = chars_of("sparkhealth");
            if chars_eq(&le, &heap) {
                ContentKind::Heap
            } else if chars_eq(&le, &health) {
                ContentKind::Health
            } else {
                ContentKind::Sampler
            }
        },
    }
}

/// The kind of content, from a forced choice or else from the input's
/// file extension as the platform's `Path` reads it (`.sparkprofile`,
/// `.sparkheap`, `.sparkhealth`, ASCII case-insensitive); an input with any
/// other extension or none, such as a bytebin code, is taken for a sampler
/// profile. Never fails.
pub fn detect_kind(input: &str, forced: Option<ContentKind>, _bytes: &[u8]) -> (r: Result<
    ContentKind,
    LoadError,
>)
    ensures
        r matches Ok(k) && match forced {
            Some(f) => k == f,
            None => kind_read_from(input@, k),
        },
{
    if let Some(k) = forced {
        return Ok(k);
    }
    let ext = std_path_extension(input);
    let k = match &ext {
        Some(e) => kind_for_extension(Some(e.as_str())),
        None => kind_for_extension(None),
    };
    proof {
        if let Some(e) = ext {
            lemma_contains_lower(input@, seq!['.'] + e@);
            assert(lower(seq!['.'] + e@) =~= seq!['.'] + lower(e@));
            reveal_strlit(".sparkheap");
            reveal_strlit("sparkheap");
            reveal_strlit(".sparkhealth");
            reveal_strlit("sparkhealth");
            assert(".sparkheap"@ =~= seq!['.'] + "sparkheap"@);
            assert(".sparkhealth"@ =~= seq!['.'] + "sparkhealth"@);
        }
    }
    Ok(k)
}

} // verus!
