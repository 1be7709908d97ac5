//! The names under which the `nb` executable is looked for.

use crate::error;
use crate::paths;
use crate::text;
use vstd::prelude::*;

verus! {

/// The extensions that are tried where `PATHEXT` is not set.
pub const DEFAULT_PATHEXT: &'static str = ".COM;.EXE;.BAT;.CMD";

/// The text that `str::to_lowercase` makes of a text that is not ASCII.
pub uninterp spec fn lower_text(s: Seq<char>) -> Seq<char>;

/// A text in lower case.
pub open spec fn lowered(s: Seq<char>) -> Seq<char> {
    if vstd::utf8::is_ascii_chars(s) {
        text::ascii_lower_text(s)
    } else {
        lower_text(s)
    }
}

/// `str::to_lowercase`: in an ASCII text the letters `A` to `Z` become `a` to `z` and nothing
/// else changes. Of other texts the result is only said to depend on the text alone, not how
/// their characters are mapped.
#[verifier::external_body]
fn to_lowercase(s: &str) -> (r: String)
    ensures
        vstd::utf8::is_ascii_chars(s@) ==> r@ == text::ascii_lower_text(s@),
        !vstd::utf8::is_ascii_chars(s@) ==> r@ == lower_text(s@),
{
    s.to_lowercase()
}

/// The names for the first `n` parts of a list of extensions.
pub open spec fn names_for(parts: Seq<Seq<char>>, n: int) -> Seq<Seq<char>>
    decreases n,
{
    if n <= 0 {
        Seq::empty()
    } else {
        let ext = text::trim(parts[n - 1]);
        if ext.len() == 0 {
            names_for(parts, n - 1)
        } else {
            names_for(parts, n - 1).push("nb"@ + lowered(ext))
        }
    }
}

/// The names that a list of extensions, separated by semicolons, stands for.
pub open spec fn candidate_names(pathext: Seq<char>) -> Seq<Seq<char>> {
    let parts = text::split(pathext, ';');
    names_for(parts, parts.len() as int)
}

/// The name of the executable with an extension.
pub fn name_with_extension(lower_ext: &str) -> (r: String)
    ensures
        r@ == "nb"@ + lower_ext@,
{
    text::cat2("nb", lower_ext)
}

/// The names that a list of extensions, separated by semicolons, stands for.
pub fn pathext_names(pathext: &str) -> (r: Vec<String>)
    ensures
        text::texts(r@) == candidate_names(pathext@),
{
    let parts = text::split_on(pathext, ';');
    let ghost all = text::texts(parts@);
    let mut out = text::no_texts();
    let mut i: usize = 0;
    while i < parts.len()
        invariant
            i <= parts.len(),
            all == text::texts(parts@),
            text::texts(out@) == names_for(all, i as int),
        decreases parts.len() - i,
    {
        assert(all[i as int] == parts@[i as int]@);
        let ext = text::trimmed(parts[i].as_str());
        if !ext.is_empty() {
            let lower = to_lowercase(ext);
            let name = name_with_extension(lower.as_str());
            text::push_text(&mut out, name.as_str());
        }
        i += 1;
    }
    assert(all.len() == parts@.len());
    out
}
/// Where the program is looked for, in order: at the path that was asked for where the platform
/// calls it absolute, and then under each name in each directory of the path.
pub open spec fn places_of(
    explicit: Option<Seq<char>>,
    absolute: bool,
    names: Seq<Seq<char>>,
    path: Seq<Seq<char>>,
    separator: char,
) -> Seq<Seq<char>> {
    let found = paths::names_in_all(path, names, path.len() as int, separator);
    match explicit {
        Some(p) => if absolute {
            seq![p] + found
        } else {
            found
        },
        None => found,
    }
}

/// Where the program is looked for, in order.
pub fn program_candidates(
    explicit: Option<String>,
    absolute: bool,
    names: &Vec<String>,
    path: &Vec<String>,
    separator: char,
) -> (r: Vec<String>)
    ensures
        text::texts(r@) == places_of(
            error::opt_text(explicit),
            absolute,
            text::texts(names@),
            text::texts(path@),
            separator,
        ),
{
    let mut found = paths::join_names(path, names, separator);
    assert(text::texts(path@).len() == path@.len());
    match explicit {
        Some(p) => {
            if !absolute {
                return found;
            }
            let ghost rest = found@;
            let mut out: Vec<String> = Vec::new();
            out.push(p);
            out.append(&mut found);
            assert(text::texts(out@) =~= seq![p@] + text::texts(rest));
            out
        },
        None => found,
    }
}

/// Whether a file with an extension can be started on Windows, in any case of the letters.
pub fn has_spawnable_windows_extension(extension: Option<String>) -> (r: bool)
    ensures
        r == (extension matches Some(e) && (text::ascii_lower_text(e@) == "com"@
            || text::ascii_lower_text(e@) == "exe"@ || text::ascii_lower_text(e@) == "bat"@
            || text::ascii_lower_text(e@) == "cmd"@)),
{
    match extension {
        Some(e) => {
            let lower = text::lower_ascii(e.as_str());
            text::equal(lower.as_str(), "com") || text::equal(lower.as_str(), "exe")
                || text::equal(lower.as_str(), "bat") || text::equal(lower.as_str(), "cmd")
        },
        None => false,
    }
}

} // verus!
