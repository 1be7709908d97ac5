//! The home directory of the user, from what the system prints about them.

use crate::bytes;
use crate::error;
use crate::text;
use vstd::prelude::*;
use vstd::string::StrSliceExecFns;

verus! {

/// A text unless it is empty.
pub open spec fn non_empty(s: Seq<char>) -> Option<Seq<char>> {
    if s.len() == 0 {
        None
    } else {
        Some(s)
    }
}

/// A text unless it is empty.
fn unless_empty(s: &str) -> (r: Option<String>)
    ensures
        error::opt_text(r) == non_empty(s@),
{
    if s.is_empty() {
        None
    } else {
        Some(s.to_string())
    }
}

/// The home in an entry with fields separated by colons: the ninth field of ten, or the sixth
/// of seven.
pub open spec fn passwd_home(line: Seq<char>) -> Option<Seq<char>> {
    let fields = text::split(text::trim(line), ':');
    if fields.len() >= 10 {
        non_empty(fields[8])
    } else if fields.len() >= 7 {
        non_empty(fields[5])
    } else {
        None
    }
}

/// The home in an entry with fields separated by colons.
pub fn home_from_passwd_style_line(line: &str) -> (r: Option<String>)
    ensures
        error::opt_text(r) == passwd_home(line@),
{
    let fields = text::split_on(text::trimmed(line), ':');
    let ghost all = text::texts(fields@);
    assert(all.len() == fields@.len());
    if fields.len() >= 10 {
        assert(all[8] == fields@[8]@);
        unless_empty(fields[8].as_str())
    } else if fields.len() >= 7 {
        assert(all[5] == fields@[5]@);
        unless_empty(fields[5].as_str())
    } else {
        None
    }
}

/// What a line of a directory listing says of the home.
pub open spec fn home_value(line: Seq<char>) -> Option<Seq<char>> {
    let l = text::trim(line);
    if "NFSHomeDirectory:"@.is_prefix_of(l) {
        Some(text::trim(l.skip("NFSHomeDirectory:"@.len() as int)))
    } else if "dsAttrTypeNative:NFSHomeDirectory:"@.is_prefix_of(l) {
        Some(text::trim(l.skip("dsAttrTypeNative:NFSHomeDirectory:"@.len() as int)))
    } else {
        None
    }
}

/// The first home that the lines from `i` on name.
pub open spec fn first_home(lines: Seq<Seq<char>>, i: int) -> Option<Seq<char>>
    decreases lines.len() - i,
{
    if i < 0 || i >= lines.len() {
        None
    } else {
        match home_value(lines[i]) {
            Some(home) => if home.len() > 0 {
                Some(home)
            } else {
                first_home(lines, i + 1)
            },
            None => first_home(lines, i + 1),
        }
    }
}

/// What follows a prefix.
fn after_prefix<'a>(s: &'a str, prefix: &str) -> (r: Option<&'a str>)
    ensures
        match r {
            Some(t) => prefix@.is_prefix_of(s@) && t@ == s@.skip(prefix@.len() as int),
            None => !prefix@.is_prefix_of(s@),
        },
{
    if !text::starts_with(s, prefix) {
        return None;
    }
    let n: usize = text::chars_of(s).len();
    let k: usize = text::chars_of(prefix).len();
    let t = s.substring_char(k, n);
    assert(t@ =~= s@.skip(k as int));
    Some(t)
}

/// The home in the output of a directory service.
pub fn parse_dscl_home(stdout: &str) -> (r: Option<String>)
    ensures
        error::opt_text(r) == first_home(text::lines(stdout@), 0),
{
    let lines = text::lines_of(stdout);
    let ghost all = text::texts(lines@);
    let mut i: usize = 0;
    assert(all.len() == lines@.len());
    while i < lines.len()
        invariant
            i <= lines.len(),
            all == text::texts(lines@),
            all.len() == lines@.len(),
            first_home(all, 0) == first_home(all, i as int),
            all == text::lines(stdout@),
        decreases lines.len() - i,
    {
        assert(all[i as int] == lines@[i as int]@);
        let line = text::trimmed(lines[i].as_str());
        let rest = match after_prefix(line, "NFSHomeDirectory:") {
            Some(t) => Some(t),
            None => after_prefix(line, "dsAttrTypeNative:NFSHomeDirectory:"),
        };
        if let Some(t) = rest {
            let home = text::trimmed(t);
            if !home.is_empty() {
                return Some(home.to_string());
            }
        }
        i += 1;
    }
    None
}

/// A number of 32 bits, if the text is one.
pub open spec fn number32(s: Seq<char>) -> Option<u32> {
    match text::unsigned(s) {
        Some(n) => if n <= u32::MAX {
            Some(n as u32)
        } else {
            None
        },
        None => None,
    }
}

/// A number of 32 bits, if the text is one.
pub fn parse_u32(s: &str) -> (r: Option<u32>)
    ensures
        r == number32(s@),
{
    match text::parse_unsigned(s) {
        Some(n) => {
            if n as u64 <= u32::MAX as u64 {
                Some(n as u32)
            } else {
                None
            }
        },
        None => None,
    }
}

/// The user id in the output of `id -u`.
pub fn uid_printed(stdout: &str) -> (r: Option<u32>)
    ensures
        r == number32(text::trim(stdout@)),
{
    parse_u32(text::trimmed(stdout))
}

/// White space, as a predicate.
pub open spec fn is_space() -> spec_fn(char) -> bool {
    |c: char| text::whitespace(c)
}

/// The first word of a text; empty if it has none.
pub open spec fn first_word(s: Seq<char>) -> Seq<char> {
    let t = text::trim_start(s);
    t.take(bytes::find_from(t, is_space(), 0))
}

/// The first word of a text; empty if it has none.
fn first_word_of<'a>(s: &'a str) -> (r: &'a str)
    ensures
        r@ == first_word(s@),
{
    let t = text::trimmed_start(s);
    let x = text::chars_of(t);
    let n: usize = x.len();
    let mut i: usize = 0;
    while i < n && !text::is_whitespace(x[i])
        invariant
            i <= n,
            n == x.len(),
            x@ == t@,
            forall|k: int| 0 <= k < i ==> !text::whitespace(#[trigger] t@[k]),
        decreases n - i,
    {
        i += 1;
    }
    proof {
        bytes::lemma_find_from_is(t@, is_space(), 0, i as int);
    }
    let r = t.substring_char(0, i);
    assert(r@ =~= first_word(s@));
    r
}

/// The user id that the first line from `i` on that starts with `Uid:` gives.
pub open spec fn status_uid(lines: Seq<Seq<char>>, i: int) -> Option<u32>
    decreases lines.len() - i,
{
    if i < 0 || i >= lines.len() {
        None
    } else if "Uid:"@.is_prefix_of(lines[i]) {
        number32(first_word(lines[i].skip("Uid:"@.len() as int)))
    } else {
        status_uid(lines, i + 1)
    }
}

/// The user id in the status of a process.
pub fn uid_from_status(content: &str) -> (r: Option<u32>)
    ensures
        r == status_uid(text::lines(content@), 0),
{
    let lines = text::lines_of(content);
    let ghost all = text::texts(lines@);
    let mut i: usize = 0;
    assert(all.len() == lines@.len());
    while i < lines.len()
        invariant
            i <= lines.len(),
            all == text::texts(lines@),
            all.len() == lines@.len(),
            status_uid(all, 0) == status_uid(all, i as int),
            all == text::lines(content@),
        decreases lines.len() - i,
    {
        assert(all[i as int] == lines@[i as int]@);
        if let Some(rest) = after_prefix(lines[i].as_str(), "Uid:") {
            return parse_u32(first_word_of(rest));
        }
        i += 1;
    }
    None
}

/// The home of a user in the entries from `i` on. An entry that cannot be read ends the search.
pub open spec fn home_of_uid(lines: Seq<Seq<char>>, uid: u32, i: int) -> Option<Seq<char>>
    decreases lines.len() - i,
{
    if i < 0 || i >= lines.len() {
        None
    } else {
        let fields = text::split(lines[i], ':');
        if fields.len() < 3 || number32(fields[2]) is None {
            None
        } else if number32(fields[2]) != Some(uid) {
            home_of_uid(lines, uid, i + 1)
        } else if fields.len() < 6 {
            None
        } else if fields[5].len() > 0 {
            Some(fields[5])
        } else {
            home_of_uid(lines, uid, i + 1)
        }
    }
}

/// The home of a user in a file of entries.
pub fn home_from_passwd(content: &str, uid: u32) -> (r: Option<String>)
    ensures
        error::opt_text(r) == home_of_uid(text::lines(content@), uid, 0),
{
    let lines = text::lines_of(content);
    let ghost all = text::texts(lines@);
    let mut i: usize = 0;
    assert(all.len() == lines@.len());
    while i < lines.len()
        invariant
            i <= lines.len(),
            all == text::texts(lines@),
            all.len() == lines@.len(),
            home_of_uid(all, uid, 0) == home_of_uid(all, uid, i as int),
            all == text::lines(content@),
        decreases lines.len() - i,
    {
        assert(all[i as int] == lines@[i as int]@);
        let fields = text::split_on(lines[i].as_str(), ':');
        let ghost f = text::texts(fields@);
        assert(f.len() == fields@.len());
        if fields.len() < 3 {
            return None;
        }
        assert(f[2] == fields@[2]@);
        match parse_u32(fields[2].as_str()) {
            None => {
                return None;
            },
            Some(n) => {
                if n == uid {
                    if fields.len() < 6 {
                        return None;
                    }
                    assert(f[5] == fields@[5]@);
                    if !fields[5].as_str().is_empty() {
                        return Some(fields[5].clone());
                    }
                }
            },
        }
        i += 1;
    }
    None
}

} // verus!
