//! Names and paths of new entries: validation, file names from titles, `-N` suffixes.

use crate::bytes;
use crate::error;
use crate::error::NbError;
use crate::parser::helpers;
use crate::parser::helpers::{atx_heading_level, heading_text};
use crate::paths;
use crate::paths::{file_name_of, normalize_rel};
use crate::text;
use crate::types::NoteTarget;
use vstd::prelude::*;

verus! {

/// A component that no path of a new entry may have.
pub open spec fn bad_component(p: Seq<char>) -> bool {
    p.len() == 0 || p == "."@ || p == ".."@
}

/// A component that no path of a new entry may have is among the parts.
pub open spec fn has_bad_component(parts: Seq<Seq<char>>) -> bool {
    exists|k: int| 0 <= k < parts.len() && bad_component(#[trigger] parts[k])
}

/// What is wrong with the path of a new entry; a `file` needs a file name.
pub open spec fn create_path_fault(path: Seq<char>, file: bool) -> Option<Seq<char>> {
    let raw = text::trim(path);
    let p = paths::normalized(raw);
    if raw.len() == 0 {
        Some("path must not be empty"@)
    } else if raw[0] == '/' || raw[0] == '\\' {
        Some("path must be notebook-relative (absolute paths refused)"@)
    } else if raw.contains('\\') {
        Some("path must not contain backslash separators"@)
    } else if raw.contains('\0') {
        Some("path must not contain NUL"@)
    } else if p.len() == 0 {
        Some("path must not be empty"@)
    } else if has_bad_component(text::split(p, '/')) {
        Some("path must not contain empty, `.`, or `..` segments"@)
    } else if file && paths::file_name(p) is None {
        Some("create path must include a filename"@)
    } else {
        None
    }
}

/// Whether a component is among those that no path of a new entry may have.
fn is_bad_component(p: &str) -> (r: bool)
    ensures
        r == bad_component(p@),
{
    p.is_empty() || text::equal(p, ".") || text::equal(p, "..")
}

/// The notebook-relative path of a new entry.
pub fn validate_create_path(path: &str, file: bool) -> (r: Result<String, NbError>)
    ensures
        match r {
            Ok(p) => create_path_fault(path@, file) is None && p@ == paths::normalized(
                text::trim(path@),
            ),
            Err(e) => create_path_fault(path@, file) matches Some(reason) && e@ == error::invalid(
                reason,
            ),
        },
{
    let raw = text::trimmed(path);
    let x = text::chars_of(raw);
    if x.len() == 0 {
        return Err(NbError::invalid("path must not be empty"));
    }
    if x[0] == '/' || x[0] == '\\' {
        return Err(NbError::invalid("path must be notebook-relative (absolute paths refused)"));
    }
    if text::contains_char(raw, '\\') {
        return Err(NbError::invalid("path must not contain backslash separators"));
    }
    if text::contains_char(raw, '\0') {
        return Err(NbError::invalid("path must not contain NUL"));
    }
    let p = normalize_rel(raw);
    if p.as_str().is_empty() {
        return Err(NbError::invalid("path must not be empty"));
    }
    let parts = text::split_on(p.as_str(), '/');
    let ghost all = text::texts(parts@);
    let mut i: usize = 0;
    while i < parts.len()
        invariant
            i <= parts.len(),
            all == text::texts(parts@),
            forall|k: int| 0 <= k < i ==> !bad_component(#[trigger] all[k]),
            all == text::split(p@, '/'),
            p@ == paths::normalized(raw@),
            raw@ == text::trim(path@),
            p@.len() > 0,
            raw@.len() > 0,
            raw@[0] != '/' && raw@[0] != '\\',
            !raw@.contains('\\'),
            !raw@.contains('\0'),
        decreases parts.len() - i,
    {
        assert(all[i as int] == parts@[i as int]@);
        if is_bad_component(parts[i].as_str()) {
            assert(has_bad_component(all));
            return Err(NbError::invalid("path must not contain empty, `.`, or `..` segments"));
        }
        i += 1;
    }
    assert(all.len() == parts@.len());
    if file {
        match file_name_of(p.as_str()) {
            None => {
                return Err(NbError::invalid("create path must include a filename"));
            },
            Some(_) => {},
        }
    }
    Ok(p)
}

/// Check that a target names something.
pub fn validate_target(target: &NoteTarget) -> (r: Result<(), NbError>)
    ensures
        match r {
            Ok(()) => text::trim(target@.value()).len() > 0,
            Err(e) => text::trim(target@.value()).len() == 0 && e@ == error::invalid(
                "note target must not be empty"@,
            ),
        },
{
    if text::trimmed(target.value()).is_empty() {
        return Err(NbError::invalid("note target must not be empty"));
    }
    Ok(())
}

/// The test for a line with something other than white space on it.
pub open spec fn has_text() -> spec_fn(Seq<char>) -> bool {
    |l: Seq<char>| text::trim(l).len() > 0
}

/// The first line of `content` that is not blank, when it is a level-one heading whose text is
/// the title.
pub open spec fn duplicate_heading(title: Seq<char>, content: Seq<char>) -> Option<Seq<char>> {
    let all = text::lines(content);
    let at = bytes::find_from(all, has_text(), 0);
    if at >= all.len() {
        None
    } else {
        let line = vstd::utf8::encode_utf8(all[at]);
        if helpers::heading_level(line) == Some(1u8) && text::lossy_text(
            helpers::heading_text_bytes(line, 1),
        ) == text::trim(title) {
            Some(all[at])
        } else {
            None
        }
    }
}

/// The first line of `content` that is not blank, when it is a level-one heading that repeats
/// the title.
pub fn detect_duplicate_title_heading(title: &str, content: &str) -> (r: Option<String>)
    ensures
        match r {
            Some(h) => duplicate_heading(title@, content@) == Some(h@),
            None => duplicate_heading(title@, content@) is None,
        },
{
    let all = text::lines_of(content);
    let ghost l = text::texts(all@);
    let mut i: usize = 0;
    while i < all.len() && text::trimmed(all[i].as_str()).is_empty()
        invariant
            i <= all.len(),
            l == text::texts(all@),
            forall|k: int| 0 <= k < i ==> !has_text()(#[trigger] l[k]),
        decreases all.len() - i,
    {
        assert(l[i as int] == all@[i as int]@);
        i += 1;
    }
    proof {
        if i < all@.len() {
            assert(l[i as int] == all@[i as int]@);
        }
        bytes::lemma_find_from_is(l, has_text(), 0, i as int);
    }
    if i >= all.len() {
        return None;
    }
    let line = all[i].as_str().as_bytes();
    match atx_heading_level(line) {
        Some(level) => {
            if level != 1 {
                return None;
            }
            proof {
                bytes::lemma_find_from(line@, helpers::not_space(), 0);
                bytes::lemma_find_from(line@, helpers::not_hash(), helpers::indent(line@));
            }
            let heading = heading_text(line, 1);
            if text::equal(heading.as_str(), text::trimmed(title)) {
                Some(all[i].clone())
            } else {
                None
            }
        },
        None => None,
    }
}

/// An ASCII letter or digit.
pub open spec fn ascii_alphanumeric(c: char) -> bool {
    ('0' <= c && c <= '9') || ('a' <= c && c <= 'z') || ('A' <= c && c <= 'Z')
}

/// An ASCII character.
pub open spec fn ascii(c: char) -> bool {
    (c as u32) < 128
}

/// A title with ASCII letters in lower case and every run of other ASCII characters turned
/// into one `_`.
pub open spec fn slug(s: Seq<char>) -> Seq<char>
    decreases s.len(),
{
    if s.len() == 0 {
        s
    } else {
        let before = slug(s.drop_last());
        let c = s.last();
        if ascii_alphanumeric(c) {
            before.push(text::ascii_lower(c))
        } else if !ascii(c) {
            before.push(c)
        } else if before.len() > 0 && before.last() == '_' {
            before
        } else {
            before.push('_')
        }
    }
}

/// The file name stem for a title.
pub open spec fn stem_of(title: Seq<char>) -> Seq<char> {
    paths::strip_both(slug(title), '_')
}

/// A character that a stem may have: a lower-case ASCII letter, a digit, `_`, or anything
/// beyond ASCII.
pub open spec fn stem_char(c: char) -> bool {
    ('0' <= c && c <= '9') || ('a' <= c && c <= 'z') || c == '_' || !ascii(c)
}

proof fn lemma_slug_chars(s: Seq<char>)
    ensures
        forall|k: int| 0 <= k < slug(s).len() ==> stem_char(#[trigger] slug(s)[k]),
        forall|k: int|
            0 <= k < slug(s).len() - 1 ==> !((#[trigger] slug(s)[k]) == '_' && slug(s)[k + 1]
                == '_'),
    decreases s.len(),
{
    if s.len() > 0 {
        lemma_slug_chars(s.drop_last());
        let before = slug(s.drop_last());
        let now = slug(s);
        assert forall|k: int| 0 <= k < now.len() implies stem_char(#[trigger] now[k]) by {
            if k < before.len() {
                assert(stem_char(before[k]));
            }
        }
        assert forall|k: int| 0 <= k < now.len() - 1 implies !((#[trigger] now[k]) == '_' && now[k
            + 1] == '_') by {
            if k + 1 < before.len() {
                assert(!(before[k] == '_' && before[k + 1] == '_'));
            } else {
                assert(before.last() == now[k]);
            }
        }
    }
}

proof fn lemma_strip_trailing(s: Seq<char>, c: char)
    ensures
        paths::strip_trailing(s, c).len() <= s.len(),
        paths::strip_trailing(s, c) == s.take(paths::strip_trailing(s, c).len() as int),
        paths::strip_trailing(s, c).len() > 0 ==> paths::strip_trailing(s, c).last() != c,
    decreases s.len(),
{
    if s.len() > 0 && s.last() == c {
        lemma_strip_trailing(s.drop_last(), c);
        let n = paths::strip_trailing(s, c).len() as int;
        assert(s.drop_last().take(n) =~= s.take(n));
    } else {
        assert(s.take(s.len() as int) =~= s);
    }
}

/// A stem has only characters that suit a file name, no `_` at either end and no two in a row.
pub proof fn law_stem_is_clean(title: Seq<char>)
    ensures
        forall|k: int| 0 <= k < stem_of(title).len() ==> stem_char(#[trigger] stem_of(title)[k]),
        stem_of(title).len() > 0 ==> stem_of(title)[0] != '_' && stem_of(title).last() != '_',
        forall|k: int|
            0 <= k < stem_of(title).len() - 1 ==> !((#[trigger] stem_of(title)[k]) == '_'
                && stem_of(title)[k + 1] == '_'),
{
    let m = slug(title);
    lemma_slug_chars(title);
    let at = bytes::find_from(m, paths::not_char('_'), 0);
    bytes::lemma_find_from(m, paths::not_char('_'), 0);
    let front = paths::strip_leading(m, '_');
    lemma_strip_trailing(front, '_');
    let r = stem_of(title);
    assert forall|k: int| 0 <= k < r.len() implies r[k] == #[trigger] m[k + at] by {
        assert(r[k] == front[k]);
    }
    assert forall|k: int| 0 <= k < r.len() implies stem_char(#[trigger] r[k]) by {
        assert(r[k] == m[k + at]);
    }
    assert forall|k: int| 0 <= k < r.len() - 1 implies !((#[trigger] r[k]) == '_' && r[k + 1]
        == '_') by {
        assert(r[k] == m[k + at]);
        assert(r[k + 1] == m[(k + 1) + at]);
    }
    if r.len() > 0 {
        assert(r[0] == m[0 + at]);
        assert(paths::not_char('_')(m[at]));
    }
}

/// The file name stem for a title: ASCII letters in lower case, every run of other ASCII
/// characters one `_`, none at either end, and the rest as it is.
pub fn mangle_stem(title: &str) -> (r: String)
    ensures
        r@ == stem_of(title@),
{
    let x = text::chars_of(title);
    let mut out = String::new();
    let mut underscore = false;
    let mut i: usize = 0;
    assert(x@.take(0) =~= Seq::<char>::empty());
    assert(out@ =~= slug(x@.take(0)));
    while i < x.len()
        invariant
            i <= x.len(),
            x@ == title@,
            out@ == slug(x@.take(i as int)),
            underscore == (out@.len() > 0 && out@.last() == '_'),
        decreases x.len() - i,
    {
        let c = x[i];
        proof {
            assert(x@.take(i + 1).drop_last() =~= x@.take(i as int));
            assert(x@.take(i + 1).last() == c);
        }
        if ('0' <= c && c <= '9') || ('a' <= c && c <= 'z') || ('A' <= c && c <= 'Z') {
            out.push(text::to_ascii_lower(c));
            underscore = false;
        } else if (c as u32) < 128 {
            if !underscore {
                out.push('_');
                underscore = true;
            }
        } else {
            out.push(c);
            underscore = false;
        }
        i += 1;
    }
    assert(x@.take(x@.len() as int) =~= x@);
    paths::without_both(out.as_str(), '_')
}

/// `s` with zeros in front until it has `width` characters.
pub open spec fn zero_padded(s: Seq<char>, width: nat) -> Seq<char>
    decreases width - s.len(),
{
    if s.len() >= width {
        s
    } else {
        zero_padded(seq!['0'] + s, width)
    }
}

/// The stem of a name without a title: the given local time stamp when it is one, else the
/// time in seconds, and a counter.
pub open spec fn stamp_stem(stamp: Option<Seq<char>>, secs: u64, n: u64) -> Seq<char> {
    let fallback = zero_padded(text::decimal(secs as nat), 14) + "-"@ + text::decimal(n as nat);
    match stamp {
        Some(s) => if text::trim(s).len() == 14 && text::all_digits(text::trim(s)) {
            text::trim(s)
        } else {
            fallback
        },
        None => fallback,
    }
}

/// Whether a text is only decimal digits.
fn is_all_digits(s: &str) -> (r: bool)
    ensures
        r == text::all_digits(s@),
{
    let x = text::chars_of(s);
    let mut i: usize = 0;
    while i < x.len()
        invariant
            i <= x.len(),
            x@ == s@,
            forall|k: int| 0 <= k < i ==> text::ascii_digit(#[trigger] s@[k]),
        decreases x.len() - i,
    {
        if !('0' <= x[i] && x[i] <= '9') {
            assert(!text::ascii_digit(s@[i as int]));
            return false;
        }
        i += 1;
    }
    true
}

/// The stem of a name without a title, from the output of a time stamp command if it ran, the
/// time in seconds, and a counter.
pub fn titleless_stem(stamp: Option<String>, secs: u64, n: u64) -> (r: String)
    ensures
        r@ == stamp_stem(error::opt_text(stamp), secs, n),
{
    if let Some(s) = stamp {
        let t = text::trimmed(s.as_str());
        let x = text::chars_of(t);
        if x.len() == 14 && is_all_digits(t) {
            return t.to_string();
        }
    }
    let mut padded = text::decimal_of(secs);
    let ghost digits = padded@;
    let mut len: usize = text::chars_of(padded.as_str()).len();
    while len < 14
        invariant
            len == padded@.len(),
            zero_padded(padded@, 14) == zero_padded(digits, 14),
        decreases 14 - len,
    {
        let ghost before = padded@;
        padded = text::cat2("0", padded.as_str());
        proof {
            reveal_strlit("0");
            assert(padded@ =~= seq!['0'] + before);
        }
        len += 1;
    }
    let counter = text::decimal_of(n);
    text::cat3(padded.as_str(), "-", counter.as_str())
}

/// The file name for a title, or for none: then `titleless` is the stem.
pub open spec fn file_name_for(
    title: Option<Seq<char>>,
    extension: Seq<char>,
    titleless: Seq<char>,
) -> Seq<char> {
    match title {
        Some(t) => if stem_of(text::trim(t)).len() > 0 {
            stem_of(text::trim(t)) + "."@ + extension
        } else {
            titleless + "."@ + extension
        },
        None => titleless + "."@ + extension,
    }
}

/// The file name of a new entry: from its title, or from `titleless` when there is no usable
/// title.
pub fn filename_for_title(title: Option<&str>, extension: &str, titleless: &str) -> (r: String)
    ensures
        r@ == file_name_for(text::opt_str(title), extension@, titleless@),
{
    if let Some(t) = title {
        let stem = mangle_stem(text::trimmed(t));
        if !stem.as_str().is_empty() {
            return text::cat3(stem.as_str(), ".", extension);
        }
    }
    text::cat3(titleless, ".", extension)
}

/// A file name with `-N` before its first dot.
pub open spec fn suffixed(name: Seq<char>, n: u32) -> Seq<char> {
    let at = bytes::find_from(name, text::is_char('.'), 0);
    name.take(at) + "-"@ + text::decimal(n as nat) + name.skip(at)
}

/// Insert `-N` before the extension of a file name.
pub fn suffixed_filename(filename: &str, n: u32) -> (r: String)
    ensures
        r@ == suffixed(filename@, n),
{
    let x = text::chars_of(filename);
    let mut i: usize = 0;
    while i < x.len() && x[i] != '.'
        invariant
            i <= x.len(),
            x@ == filename@,
            forall|k: int| 0 <= k < i ==> !text::is_char('.')(#[trigger] filename@[k]),
        decreases x.len() - i,
    {
        i += 1;
    }
    proof {
        bytes::lemma_find_from_is(filename@, text::is_char('.'), 0, i as int);
    }
    let stem = text::string_of(vstd::slice::slice_subrange(x.as_slice(), 0, i));
    let rest = text::string_of(vstd::slice::slice_subrange(x.as_slice(), i, x.len()));
    assert(stem@ =~= filename@.take(i as int));
    assert(rest@ =~= filename@.skip(i as int));
    let digits = text::decimal_of(n as u64);
    text::cat4(stem.as_str(), "-", digits.as_str(), rest.as_str())
}

/// A file name in a folder, or at the root when the folder is blank.
pub open spec fn joined(folder: Option<Seq<char>>, name: Seq<char>) -> Seq<char> {
    match folder {
        Some(f) => if text::trim(f).len() > 0 {
            paths::normalized(f) + "/"@ + paths::strip_leading(name, '/')
        } else {
            name
        },
        None => name,
    }
}

/// Put a file name into a folder.
pub fn join_folder_file(folder: Option<&str>, filename: &str) -> (r: String)
    ensures
        r@ == joined(text::opt_str(folder), filename@),
{
    match folder {
        Some(f) => {
            if text::trimmed(f).is_empty() {
                filename.to_string()
            } else {
                let dir = normalize_rel(f);
                let name = paths::without_leading(filename, '/');
                text::cat3(dir.as_str(), "/", name.as_str())
            }
        },
        None => filename.to_string(),
    }
}

/// The names that are tried after a collision are all different.
pub proof fn law_suffixes_differ(name: Seq<char>, a: u32, b: u32)
    requires
        suffixed(name, a) == suffixed(name, b),
    ensures
        a == b,
{
    reveal_strlit("-");
    let at = bytes::find_from(name, text::is_char('.'), 0);
    bytes::lemma_find_from(name, text::is_char('.'), 0);
    let x = text::decimal(a as nat);
    let y = text::decimal(b as nat);
    let s = suffixed(name, a);
    let t = suffixed(name, b);
    assert(s.len() == name.len() + 1 + x.len());
    assert(t.len() == name.len() + 1 + y.len());
    assert(x =~= s.subrange(at + 1, at + 1 + x.len()));
    assert(y =~= t.subrange(at + 1, at + 1 + y.len()));
    text::law_decimal_reads_back(a as nat);
    text::law_decimal_reads_back(b as nat);
}

} // verus!
