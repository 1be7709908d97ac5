//! What the names and paths of new entries are made of.

use vstd::prelude::*;

use crate::bytes;
use crate::error::NbErrorView;
use crate::parser::recognised;
use crate::path_laws;
use crate::paths;
use crate::text;
use crate::text_laws;
use crate::transaction::names;
use crate::transaction::plan;
use crate::transaction::plan::Op;

verus! {

/// A character that a file name keeps of a title: an ASCII letter or digit, or anything beyond
/// ASCII.
pub open spec fn keeps(c: char) -> bool {
    ('0' <= c && c <= '9') || ('a' <= c && c <= 'z') || ('A' <= c && c <= 'Z') || c as u32 >= 128
}

/// A word of characters that are kept.
pub open spec fn word(s: Seq<char>) -> bool {
    s.len() > 0 && forall|k: int| 0 <= k < s.len() ==> keeps(#[trigger] s[k])
}

/// A run of characters that are not kept.
pub open spec fn separation(s: Seq<char>) -> bool {
    s.len() > 0 && forall|k: int| 0 <= k < s.len() ==> !keeps(#[trigger] s[k])
}

/// An ASCII letter in lower case; anything else as it is.
pub open spec fn lowered(s: Seq<char>) -> Seq<char> {
    s.map_values(
        |c: char|
            if 'A' <= c && c <= 'Z' {
                ((c as u32) + 32) as char
            } else {
                c
            },
    )
}

proof fn lemma_slug_word(t: Seq<char>, w: Seq<char>)
    requires
        forall|k: int| 0 <= k < w.len() ==> keeps(#[trigger] w[k]),
    ensures
        names::slug(t + w) == names::slug(t) + lowered(w),
    decreases w.len(),
{
    if w.len() == 0 {
        assert(t + w =~= t);
        assert(names::slug(t) + lowered(w) =~= names::slug(t));
    } else {
        let init = w.drop_last();
        assert forall|k: int| 0 <= k < init.len() implies keeps(#[trigger] init[k]) by {
            assert(init[k] == w[k]);
        }
        lemma_slug_word(t, init);
        assert((t + w).drop_last() =~= t + init);
        assert((t + w).last() == w.last());
        assert(keeps(w[w.len() - 1]));
        assert(names::slug(t) + lowered(w) =~= (names::slug(t) + lowered(init)).push(
            lowered(w).last(),
        ));
    }
}

proof fn lemma_slug_separation(t: Seq<char>, s: Seq<char>)
    requires
        separation(s),
    ensures
        names::slug(t + s) == (if names::slug(t).len() > 0 && names::slug(t).last() == '_' {
            names::slug(t)
        } else {
            names::slug(t).push('_')
        }),
    decreases s.len(),
{
    let init = s.drop_last();
    assert((t + s).drop_last() =~= t + init);
    assert((t + s).last() == s.last());
    assert(!keeps(s[s.len() - 1]));
    if init.len() > 0 {
        assert forall|k: int| 0 <= k < init.len() implies !keeps(#[trigger] init[k]) by {
            assert(init[k] == s[k]);
        }
        lemma_slug_separation(t, init);
    } else {
        assert(t + init =~= t);
    }
}

proof fn lemma_word_ends(w: Seq<char>)
    requires
        word(w),
    ensures
        lowered(w)[0] != '_',
        lowered(w).last() != '_',
{
    assert(keeps(w[0]));
    assert(keeps(w[w.len() - 1]));
}

proof fn lemma_strip_ends(s: Seq<char>, at: int)
    requires
        0 <= at < s.len(),
        s[at] != '_',
        s.last() != '_',
        forall|k: int| 0 <= k < at ==> #[trigger] s[k] == '_',
    ensures
        paths::strip_both(s, '_') == s.skip(at),
{
    bytes::lemma_find_from_is(s, paths::not_char('_'), 0, at);
    assert(s.skip(at).last() == s.last());
}

/// The stem for a title that is one word is the word in lower case, whatever stands around it;
/// each further word follows behind one `_`.
pub proof fn law_stem_joins_words(t: Seq<char>, s: Seq<char>, w: Seq<char>)
    requires
        word(w),
        separation(s),
        t.len() > 0 && keeps(t.last()),
    ensures
        names::stem_of(w) == lowered(w),
        names::stem_of(s + w) == lowered(w),
        names::stem_of(t + s) == names::stem_of(t),
        names::stem_of(t + s + w) == names::stem_of(t) + seq!['_'] + lowered(w),
{
    let none = Seq::<char>::empty();
    lemma_word_ends(w);
    lemma_slug_word(none, w);
    assert(none + w =~= w);
    assert(names::slug(none) + lowered(w) =~= lowered(w));
    lemma_strip_ends(lowered(w), 0);
    assert(lowered(w).skip(0) =~= lowered(w));
    lemma_slug_separation(none, s);
    assert(none + s =~= s);
    lemma_slug_word(s, w);
    let sw = names::slug(s) + lowered(w);
    assert(names::slug(s) =~= seq!['_']);
    lemma_strip_ends(sw, 1);
    assert(sw.skip(1) =~= lowered(w));
    let init = t.drop_last();
    let one = seq![t.last()];
    assert(init + one =~= t);
    assert(word(one));
    lemma_slug_word(init, one);
    lemma_word_ends(one);
    let g = names::slug(t);
    assert(g.last() == lowered(one)[0]);
    let at = bytes::find_from(g, paths::not_char('_'), 0);
    bytes::lemma_find_from(g, paths::not_char('_'), 0);
    assert(paths::not_char('_')(g[g.len() - 1]));
    assert(at < g.len());
    assert forall|k: int| 0 <= k < at implies #[trigger] g[k] == '_' by {
        assert(!paths::not_char('_')(g[k]));
    }
    lemma_strip_ends(g, at);
    lemma_slug_separation(t, s);
    let gs = g.push('_');
    assert(names::slug(t + s) == gs);
    assert forall|k: int| 0 <= k < at implies !paths::not_char('_')(#[trigger] gs[k]) by {
        assert(g[k] == gs[k]);
    }
    assert(gs[at] == g[at]);
    bytes::lemma_find_from_is(gs, paths::not_char('_'), 0, at);
    assert(gs.skip(at).drop_last() =~= g.skip(at));
    assert(g.skip(at).last() == g.last());
    assert(paths::strip_trailing(gs.skip(at), '_') == paths::strip_trailing(g.skip(at), '_'));
    lemma_slug_word(t + s, w);
    let all = gs + lowered(w);
    assert forall|k: int| 0 <= k < at implies #[trigger] all[k] == '_' by {
        assert(all[k] == g[k]);
    }
    assert(all[at] == g[at]);
    lemma_strip_ends(all, at);
    assert(all.skip(at) =~= g.skip(at) + seq!['_'] + lowered(w));
}

/// A title without a character that is kept gives no stem.
pub proof fn law_no_word_gives_no_stem(s: Seq<char>)
    requires
        separation(s) || s.len() == 0,
    ensures
        names::stem_of(s).len() == 0,
{
    if s.len() > 0 {
        let none = Seq::<char>::empty();
        lemma_slug_separation(none, s);
        assert(none + s =~= s);
        let g = names::slug(s);
        assert(g =~= seq!['_']);
        bytes::lemma_find_from_is(g, paths::not_char('_'), 0, 1);
        assert(g.skip(1) =~= none);
    } else {
        bytes::lemma_find_from_is(s, paths::not_char('_'), 0, 0);
    }
}

/// A file name is a stem, a dot and the extension: the stem of the title where it has one, else
/// the stem that is given for entries without a title.
pub proof fn law_file_name_is_stem_and_extension(
    title: Seq<char>,
    extension: Seq<char>,
    titleless: Seq<char>,
)
    ensures
        ({
            let stem = names::stem_of(text::trim(title));
            let end = seq!['.'] + extension;
            &&& names::file_name_for(None, extension, titleless) == titleless + end
            &&& stem.len() > 0 ==> names::file_name_for(Some(title), extension, titleless) == stem
                + end
            &&& stem.len() == 0 ==> names::file_name_for(Some(title), extension, titleless)
                == titleless + end
        }),
{
    reveal_strlit(".");
    assert("."@ =~= seq!['.']);
    let stem = names::stem_of(text::trim(title));
    let end = seq!['.'] + extension;
    assert(titleless + "."@ + extension =~= titleless + end);
    assert(stem + "."@ + extension =~= stem + end);
}

/// A suffix stands between the stem and the extensions of a name, behind a dash, in decimal
/// digits.
pub proof fn law_suffix_stands_before_the_extension(
    stem: Seq<char>,
    extensions: Seq<char>,
    n: u32,
)
    requires
        !stem.contains('.'),
        extensions.len() > 0 ==> extensions[0] == '.',
    ensures
        names::suffixed(stem + extensions, n) == stem + seq!['-'] + text::decimal(n as nat)
            + extensions,
{
    reveal_strlit("-");
    assert("-"@ =~= seq!['-']);
    let name = stem + extensions;
    let at = stem.len() as int;
    assert forall|k: int| 0 <= k < at implies !text::is_char('.')(#[trigger] name[k]) by {
        assert(name[k] == stem[k]);
        if stem[k] == '.' {
            assert(stem.contains('.'));
        }
    }
    if extensions.len() > 0 {
        assert(name[at] == extensions[0]);
    }
    bytes::lemma_find_from_is(name, text::is_char('.'), 0, at);
    assert(name.take(at) =~= stem);
    assert(name.skip(at) =~= extensions);
}

/// A name in a folder stands behind the path of the folder and a slash; at the root it stands
/// alone.
pub proof fn law_name_is_put_into_its_folder(folder: Seq<char>, name: Seq<char>)
    requires
        path_laws::plain(folder),
        name.len() > 0 && name[0] != '/',
    ensures
        names::joined(Some(folder), name) == folder + seq!['/'] + name,
        names::joined(None, name) == name,
{
    reveal_strlit("/");
    assert("/"@ =~= seq!['/']);
    let none = Seq::<char>::empty();
    path_laws::law_normalizing_strips(none, 0, folder, 0, none);
    text_laws::law_bare_text_stays(folder);
    bytes::lemma_find_from_is(name, paths::not_char('/'), 0, 0);
    assert(name.skip(0) =~= name);
}

/// A part that the path of a new entry may have.
pub open spec fn part(p: Seq<char>) -> bool {
    &&& p.len() > 0
    &&& p != seq!['.'] && p != seq!['.', '.']
    &&& !p.contains('/') && !p.contains('\\') && !p.contains('\0')
}

/// The parts of a path with slashes between them.
pub open spec fn slashed(parts: Seq<Seq<char>>) -> Seq<char> {
    text::join(parts, seq!['/'])
}

proof fn lemma_part_literals()
    ensures
        "."@ == seq!['.'],
        ".."@ == seq!['.', '.'],
{
    reveal_strlit(".");
    reveal_strlit("..");
    assert("."@ =~= seq!['.']);
    assert(".."@ =~= seq!['.', '.']);
}

pub proof fn lemma_joined_ends(parts: Seq<Seq<char>>)
    requires
        parts.len() > 0,
        forall|k: int| 0 <= k < parts.len() ==> part(#[trigger] parts[k]),
    ensures
        ({
            let p = slashed(parts);
            &&& p.len() >= parts[0].len()
            &&& parts[0].len() > 0
            &&& p[0] == parts[0][0]
            &&& p.last() == parts.last().last()
            &&& p.take(parts[0].len() as int) == parts[0]
            &&& p.len() > parts[0].len() ==> p[parts[0].len() as int] == '/'
            &&& !p.contains('\\')
            &&& !p.contains('\0')
        }),
    decreases parts.len(),
{
    let p = slashed(parts);
    assert(part(parts[0]));
    if parts.len() == 1 {
        assert(p.take(parts[0].len() as int) =~= parts[0]);
    } else {
        let init = parts.drop_last();
        assert forall|k: int| 0 <= k < init.len() implies part(#[trigger] init[k]) by {
            assert(init[k] == parts[k]);
        }
        lemma_joined_ends(init);
        let q = slashed(init);
        let l = parts.last();
        assert(part(parts[parts.len() - 1]));
        assert(p == q + seq!['/'] + l);
        assert(init[0] == parts[0]);
        assert(p.take(parts[0].len() as int) =~= q.take(parts[0].len() as int));
        if p.contains('\\') {
            let k = choose|k: int| 0 <= k < p.len() && p[k] == '\\';
            if k < q.len() {
                assert(q[k] == '\\');
                assert(q.contains('\\'));
            } else {
                assert(k > q.len());
                assert(l[k - q.len() - 1] == '\\');
                assert(l.contains('\\'));
            }
        }
        if p.contains('\0') {
            let k = choose|k: int| 0 <= k < p.len() && p[k] == '\0';
            if k < q.len() {
                assert(q[k] == '\0');
                assert(q.contains('\0'));
            } else {
                assert(k > q.len());
                assert(l[k - q.len() - 1] == '\0');
                assert(l.contains('\0'));
            }
        }
    }
}

/// The path of a new entry is accepted as it is written, when each of its parts is one that a
/// path may have and no white space stands at its ends.
pub proof fn law_good_path_is_accepted(parts: Seq<Seq<char>>, file: bool)
    requires
        parts.len() > 0,
        forall|k: int| 0 <= k < parts.len() ==> part(#[trigger] parts[k]),
        text_laws::bare(slashed(parts)),
    ensures
        plan::create_path(slashed(parts), file) == Ok::<Seq<char>, NbErrorView>(slashed(parts)),
{
    let p = slashed(parts);
    lemma_part_literals();
    lemma_joined_ends(parts);
    text_laws::law_bare_text_stays(p);
    assert(part(parts[0]));
    let n = parts[0].len() as int;
    assert(!parts[0].contains('/'));
    assert(parts[0][0] != '/') by {
        assert(parts[0].contains(parts[0][0]));
    }
    assert(p[0] != '\\') by {
        assert(p.contains(p[0]));
    }
    let l = parts.last();
    assert(part(parts[parts.len() - 1]));
    assert(l.last() != '/') by {
        assert(l.contains(l.last()));
    }
    if p[0] == '.' {
        if n == 1 {
            assert(parts[0] =~= seq!['.']);
        } else {
            assert(p.take(n)[1] == parts[0][1]);
            assert(parts[0].contains(parts[0][1]));
        }
    }
    assert(path_laws::plain(p));
    let none = Seq::<char>::empty();
    path_laws::law_normalizing_strips(none, 0, p, 0, none);
    assert forall|k: int| 0 <= k < parts.len() implies !(#[trigger] parts[k]).contains('/') by {
        assert(part(parts[k]));
    }
    text_laws::law_split_undoes_join(parts, '/');
    assert(!names::has_bad_component(parts)) by {
        assert forall|k: int| 0 <= k < parts.len() implies !names::bad_component(
            #[trigger] parts[k],
        ) by {
            assert(part(parts[k]));
        }
    }
    if parts.len() == 1 {
        path_laws::law_file_name_is_the_final_component(seq!['x'], p);
    } else {
        let q = slashed(parts.drop_last());
        assert forall|k: int| 0 <= k < parts.drop_last().len() implies part(
            #[trigger] parts.drop_last()[k],
        ) by {
            assert(part(parts[k]));
        }
        lemma_joined_ends(parts.drop_last());
        reveal_strlit("/");
        assert("/"@ =~= seq!['/']);
        assert(p == q + seq!['/'] + l);
        lemma_file_name_of_last(q, l);
    }
}

proof fn lemma_file_name_of_last(q: Seq<char>, l: Seq<char>)
    requires
        part(l),
    ensures
        paths::file_name(q + seq!['/'] + l) is Some,
{
    lemma_part_literals();
    let p = q + seq!['/'] + l;
    assert(l.last() != '/') by {
        assert(l.contains(l.last()));
    }
    assert(p.last() == l.last());
    if l.last() == '.' {
        if l.len() == 1 {
            assert(l =~= seq!['.']);
        } else {
            assert(p[p.len() - 2] == l[l.len() - 2]);
            assert(l.contains(l[l.len() - 2]));
        }
    }
    assert(paths::trim_path(p) == p);
    let at = q.len() as int;
    assert forall|k: int| at < k < p.len() implies p[k] != '/' by {
        assert(p[k] == l[k - at - 1]);
        assert(l.contains(l[k - at - 1]));
    }
    paths::lemma_last_index_is(p, '/', at);
    assert(p.skip(at + 1) =~= l);
}

/// A path is refused that is empty or blank, that starts with a slash, that holds a backslash
/// or a zero character, or that goes up.
pub proof fn law_bad_path_is_refused(path: Seq<char>, file: bool)
    requires
        ({
            let raw = text::trim(path);
            raw.len() == 0 || raw[0] == '/' || raw.contains('\\') || raw.contains('\0')
        }),
    ensures
        plan::create_path(path, file) is Err,
{
}

/// A path with a part `..`, `.` or nothing between its slashes is refused.
pub proof fn law_path_does_not_go_up(parts: Seq<Seq<char>>, k: int, file: bool)
    requires
        0 <= k < parts.len(),
        forall|i: int| 0 <= i < parts.len() ==> !(#[trigger] parts[i]).contains('/'),
        parts[k].len() == 0 || parts[k] == seq!['.'] || parts[k] == seq!['.', '.'],
        path_laws::plain(slashed(parts)),
    ensures
        plan::create_path(slashed(parts), file) is Err,
{
    let p = slashed(parts);
    lemma_part_literals();
    text_laws::law_bare_text_stays(p);
    let none = Seq::<char>::empty();
    path_laws::law_normalizing_strips(none, 0, p, 0, none);
    text_laws::law_split_undoes_join(parts, '/');
    assert(names::bad_component(parts[k]));
}

/// A note is planned at its path with its parts as they were given, unless its content starts
/// by repeating its title.
pub proof fn law_note_is_planned_as_given(
    path: Seq<char>,
    at: Seq<char>,
    title: Option<Seq<char>>,
    content: Seq<char>,
    tags: Seq<Seq<char>>,
)
    requires
        plan::create_path(path, true) == Ok::<Seq<char>, NbErrorView>(at),
    ensures
        title is None || names::duplicate_heading(title->Some_0, content) is None
            ==> plan::note_op(path, title, content, tags) == Ok::<Op, NbErrorView>(
            Op::AddNote { path: at, title, content, tags },
        ),
        title is Some && names::duplicate_heading(title->Some_0, content) is Some ==> (
        plan::note_op(path, title, content, tags) matches Err(
            NbErrorView::DuplicateTitleHeading { title: t, heading },
        ) && Some(t) == title),
{
}

/// Content that starts with the title as a heading repeats it, also behind blank lines.
pub proof fn law_repeated_title_is_found(title: Seq<char>, rest: Seq<char>, blank: Seq<char>)
    requires
        title.len() > 0,
        text_laws::bare(title),
        !title.contains('\n'),
        title.last() != '#',
        text_laws::blank(blank),
        !blank.contains('\n'),
    ensures
        names::duplicate_heading(title, seq!['#', ' '] + title + seq!['\n'] + rest) == Some(
            seq!['#', ' '] + title,
        ),
        forall|content: Seq<char>|
            names::duplicate_heading(title, #[trigger] (blank + seq!['\n'] + content))
                == names::duplicate_heading(title, content),
{
    let line = seq!['#', ' '] + title;
    if line.contains('\n') {
        let k = choose|k: int| 0 <= k < line.len() && line[k] == '\n';
        assert(title[k - 2] == '\n');
        assert(title.contains('\n'));
    }
    text_laws::law_lines_are_read_one_by_one(line, rest);
    assert(line.last() == title.last());
    text_laws::law_ascii_white_space('\r');
    let content = line + seq!['\n'] + rest;
    let all = text::lines(content);
    assert(all[0] == line);
    text_laws::law_ascii_white_space('#');
    assert(text_laws::bare(line));
    text_laws::law_bare_text_stays(line);
    bytes::lemma_find_from_is(all, names::has_text(), 0, 0);
    lemma_heading_of_title(title);
    text_laws::law_bare_text_stays(title);
    text::lemma_lossy_of_text(title);
    assert forall|content: Seq<char>|
        names::duplicate_heading(title, #[trigger] (blank + seq!['\n'] + content))
            == names::duplicate_heading(title, content) by {
        lemma_blank_line_skipped(title, blank, content);
    }
}

proof fn lemma_heading_of_title(title: Seq<char>)
    requires
        title.len() > 0,
        text_laws::bare(title),
        title.last() != '#',
    ensures
        ({
            let line = vstd::utf8::encode_utf8(seq!['#', ' '] + title);
            &&& crate::parser::helpers::heading_level(line) == Some(1u8)
            &&& crate::parser::helpers::heading_text_bytes(line, 1) == vstd::utf8::encode_utf8(
                title,
            )
        }),
{
    let front = seq!['#', ' '];
    let t = vstd::utf8::encode_utf8(title);
    text::lemma_encode_concat(front, title);
    vstd::utf8::is_ascii_chars_encode_utf8(front);
    assert(vstd::utf8::encode_utf8(front) =~= seq![35u8, 32u8]);
    let line = vstd::utf8::encode_utf8(front + title);
    assert(line =~= recognised::run(32, 0) + recognised::run(35, 1) + seq![32u8] + t);
    lemma_ends_of_bytes(title);
    recognised::law_heading_has_its_level_and_text(0, 1, 32, t, 0);
}

/// The first and the last byte of a text are those of ASCII characters only where its first and
/// last characters are.
proof fn lemma_ends_of_bytes(s: Seq<char>)
    requires
        s.len() > 0,
        text_laws::bare(s),
        s.last() != '#',
    ensures
        ({
            let t = vstd::utf8::encode_utf8(s);
            &&& t.len() > 0
            &&& !recognised::gap(t[0])
            &&& !recognised::gap(t.last())
            &&& t.last() != 35
        }),
{
    let first = seq![s[0]];
    let last = seq![s.last()];
    text::lemma_encode_concat(first, s.skip(1));
    assert(first + s.skip(1) =~= s);
    text::lemma_encode_concat(s.drop_last(), last);
    assert(s.drop_last() + last =~= s);
    lemma_one_without(s[0], ' ');
    lemma_one_without(s[0], '\t');
    lemma_one_without(s.last(), ' ');
    lemma_one_without(s.last(), '\t');
    lemma_one_without(s.last(), '#');
    let f = vstd::utf8::encode_utf8(first);
    let l = vstd::utf8::encode_utf8(last);
    assert(f.contains(f[0]));
    assert(l.contains(l.last()));
}

proof fn lemma_one_without(c: char, d: char)
    requires
        c != d,
        (d as u32) < 128,
    ensures
        vstd::utf8::encode_utf8(seq![c]).len() > 0,
        !vstd::utf8::encode_utf8(seq![c]).contains(d as u8),
{
    let one = seq![c];
    if one.contains(d) {
        assert(one[0] == d);
    }
    text::lemma_encode_without(one, d);
    reveal_with_fuel(vstd::utf8::encode_utf8, 2);
}

proof fn lemma_blank_line_skipped(title: Seq<char>, blank: Seq<char>, content: Seq<char>)
    requires
        text_laws::blank(blank),
        !blank.contains('\n'),
    ensures
        names::duplicate_heading(title, blank + seq!['\n'] + content) == names::duplicate_heading(
            title,
            content,
        ),
{
    text_laws::law_lines_are_read_one_by_one(blank, content);
    let first = if blank.len() > 0 && blank.last() == '\r' {
        blank.drop_last()
    } else {
        blank
    };
    let none = Seq::<char>::empty();
    assert(text_laws::blank(first));
    text_laws::law_trimming_takes_white_space(first, none, none);
    assert(first + none + none =~= first);
    let rest = text::lines(content);
    let all = text::lines(blank + seq!['\n'] + content);
    assert(all == seq![first] + rest);
    let p = names::has_text();
    let at = bytes::find_from(rest, p, 0);
    bytes::lemma_find_from(rest, p, 0);
    assert forall|k: int| 0 <= k < at + 1 implies !p(#[trigger] all[k]) by {
        if k > 0 {
            assert(all[k] == rest[k - 1]);
        }
    }
    if at < rest.len() {
        assert(all[at + 1] == rest[at]);
    }
    bytes::lemma_find_from_is(all, p, 0, at + 1);
}

/// An entry without a title goes by the given time stamp, when that is fourteen digits and
/// white space at most around them.
pub proof fn law_stamp_is_taken(
    a: Seq<char>,
    digits: Seq<char>,
    b: Seq<char>,
    secs: u64,
    n: u64,
)
    requires
        text_laws::blank(a),
        text_laws::blank(b),
        digits.len() == 14,
        forall|k: int| 0 <= k < digits.len() ==> '0' <= #[trigger] digits[k] <= '9',
    ensures
        names::stamp_stem(Some(a + digits + b), secs, n) == digits,
{
    assert('0' <= digits[0] <= '9');
    assert('0' <= digits[13] <= '9');
    text_laws::law_ascii_white_space(digits[0]);
    text_laws::law_ascii_white_space(digits[13]);
    assert(' ' as u32 == 32 && '0' as u32 == 48 && '\t' as u32 == 9 && '\n' as u32 == 10);
    text_laws::law_trimming_takes_white_space(a, digits, b);
    assert forall|k: int| 0 <= k < digits.len() implies text::ascii_digit(#[trigger] digits[k]) by {
        assert('0' <= digits[k] <= '9');
    }
}

proof fn lemma_padded(s: Seq<char>, width: nat)
    ensures
        s.len() >= width ==> names::zero_padded(s, width) == s,
        s.len() < width ==> names::zero_padded(s, width) == text_laws::run_of(
            '0',
            (width - s.len()) as nat,
        ) + s,
    decreases width - s.len(),
{
    if s.len() < width {
        let t = seq!['0'] + s;
        lemma_padded(t, width);
        let z = text_laws::run_of('0', (width - s.len()) as nat);
        if t.len() < width {
            assert(text_laws::run_of('0', (width - t.len()) as nat) + t =~= z + s);
        } else {
            assert(t =~= z + s);
        }
    }
}

/// Without a time stamp, or with one that is not fourteen digits, an entry without a title goes
/// by the seconds, with zeros in front up to fourteen digits, a dash and the counter.
pub proof fn law_seconds_and_counter_stand_in(stamp: Seq<char>, secs: u64, n: u64)
    requires
        text_laws::bare(stamp),
        stamp.len() != 14 || exists|k: int|
            0 <= k < stamp.len() && !('0' <= #[trigger] stamp[k] && stamp[k] <= '9'),
        text::decimal(secs as nat).len() <= 14,
    ensures
        ({
            let s = text::decimal(secs as nat);
            let fallback = text_laws::run_of('0', (14 - s.len()) as nat) + s + seq!['-']
                + text::decimal(n as nat);
            &&& names::stamp_stem(None, secs, n) == fallback
            &&& names::stamp_stem(Some(stamp), secs, n) == fallback
        }),
{
    reveal_strlit("-");
    assert("-"@ =~= seq!['-']);
    let s = text::decimal(secs as nat);
    lemma_padded(s, 14);
    text_laws::law_bare_text_stays(stamp);
    if stamp.len() == 14 {
        let k = choose|k: int|
            0 <= k < stamp.len() && !('0' <= #[trigger] stamp[k] && stamp[k] <= '9');
        assert(!text::ascii_digit(stamp[k]));
    }
    if s.len() == 14 {
        assert(text_laws::run_of('0', 0) + s =~= s);
    }
}

/// A folder is planned at its path, when each of its parts is one that a path may have.
pub proof fn law_folder_is_planned_at_its_path(parts: Seq<Seq<char>>)
    requires
        parts.len() > 0,
        forall|k: int| 0 <= k < parts.len() ==> part(#[trigger] parts[k]),
        text_laws::bare(slashed(parts)),
    ensures
        plan::folder_op(slashed(parts)) == Ok::<Op, NbErrorView>(
            Op::AddFolder { path: slashed(parts) },
        ),
{
    law_good_path_is_accepted(parts, false);
}

} // verus!
