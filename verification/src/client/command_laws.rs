//! What the commands of a client ask for, and which notebook they go to.

use vstd::prelude::*;

use crate::argv;
use crate::argv::{SearchMode, TaskStatus};
use crate::bytes;
use crate::client;
use crate::client::{Client, Step, Targeted};
use crate::diagnostics;
use crate::error::{NbError, NbErrorView};
use crate::text;
use crate::text_laws;
use crate::transaction::content;
use crate::transaction::names;
use crate::transaction::resolve_laws;

verus! {

/// Every term of a search is passed on, in order: one behind the other where all have to match,
/// and with `--or` between each two where one has to.
pub proof fn law_search_terms_are_passed_on(queries: Seq<Seq<char>>, n: int)
    requires
        0 <= n <= queries.len(),
    ensures
        argv::term_args(queries, SearchMode::All, n) == queries.take(n),
        ({
            let v = argv::term_args(queries, SearchMode::Any, n);
            &&& v.len() == (if n == 0 {
                0
            } else {
                2 * n - 1
            })
            &&& forall|k: int| 0 <= k < n ==> v[2 * k] == #[trigger] queries[k]
            &&& forall|k: int| 0 <= k < v.len() && k % 2 == 1 ==> #[trigger] v[k] == "--or"@
        }),
    decreases n,
{
    if n > 0 {
        law_search_terms_are_passed_on(queries, n - 1);
        assert(queries.take(n) =~= queries.take(n - 1).push(queries[n - 1]));
        let u = argv::term_args(queries, SearchMode::Any, n - 1);
        let v = argv::term_args(queries, SearchMode::Any, n);
        assert(n > 1 ==> v == u + seq!["--or"@, queries[n - 1]]);
        assert forall|k: int| 0 <= k < n implies v[2 * k] == #[trigger] queries[k] by {
            if k < n - 1 {
                assert(v[2 * k] == u[2 * k]);
            }
        }
        assert forall|k: int| 0 <= k < v.len() && k % 2 == 1 implies #[trigger] v[k] == "--or"@ by {
            if k < u.len() {
                assert(v[k] == u[k]);
            }
        }
    } else {
        assert(argv::term_args(queries, SearchMode::All, n) =~= queries.take(0));
    }
}

/// From argument `at` on, tag `k` stands behind its flag, with its `#`.
pub open spec fn tag_in_place(
    v: Seq<Seq<char>>,
    at: int,
    flag: Seq<char>,
    tags: Seq<Seq<char>>,
    k: int,
) -> bool {
    v[at + 2 * k] == flag && v[at + 2 * k + 1] == content::tag_text(tags[k])
}

/// Every tag of a command stands behind its flag, with its `#`, in order.
pub proof fn law_tags_follow_their_flag(flag: Seq<char>, tags: Seq<Seq<char>>, n: int)
    requires
        0 <= n <= tags.len(),
    ensures
        ({
            let v = argv::tag_args(flag, tags, n);
            &&& v.len() == 2 * n
            &&& forall|k: int| 0 <= k < n ==> #[trigger] tag_in_place(v, 0, flag, tags, k)
        }),
    decreases n,
{
    if n > 0 {
        law_tags_follow_their_flag(flag, tags, n - 1);
        let u = argv::tag_args(flag, tags, n - 1);
        let v = argv::tag_args(flag, tags, n);
        assert forall|k: int| 0 <= k < n implies #[trigger] tag_in_place(v, 0, flag, tags, k) by {
            if k < n - 1 {
                assert(tag_in_place(u, 0, flag, tags, k));
                assert(v[2 * k] == u[2 * k]);
                assert(v[2 * k + 1] == u[2 * k + 1]);
            } else {
                assert(u.len() == 2 * k);
                assert(v == u + seq![flag, content::tag_text(tags[k])]);
                assert(v[u.len() as int] == flag);
                assert(v[u.len() as int + 1] == content::tag_text(tags[k]));
            }
        }
    }
}

/// A search asks for its terms and its tags in its scope, and for plain output.
pub proof fn law_search_asks_in_its_scope(
    scope: Seq<char>,
    queries: Seq<Seq<char>>,
    mode: SearchMode,
    tags: Seq<Seq<char>>,
)
    ensures
        ({
            let v = argv::search_args(scope, queries, mode, tags);
            let terms = argv::term_args(queries, mode, queries.len() as int);
            let rest = v.len() - 2 * tags.len() - 1;
            &&& v[0] == "search"@
            &&& v[1] == scope
            &&& v.subrange(2, 2int + terms.len() as int) == terms
            &&& rest == 2 + terms.len()
            &&& forall|k: int|
                0 <= k < tags.len() ==> #[trigger] tag_in_place(v, rest, "--tag"@, tags, k)
            &&& v.last() == "--no-color"@
        }),
{
    let v = argv::search_args(scope, queries, mode, tags);
    let terms = argv::term_args(queries, mode, queries.len() as int);
    let marks = argv::tag_args("--tag"@, tags, tags.len() as int);
    law_tags_follow_their_flag("--tag"@, tags, tags.len() as int);
    assert(v.subrange(2, 2int + terms.len() as int) =~= terms);
    let rest = 2int + terms.len();
    assert forall|k: int| 0 <= k < tags.len() implies #[trigger] tag_in_place(
        v,
        rest,
        "--tag"@,
        tags,
        k,
    ) by {
        assert(tag_in_place(marks, 0, "--tag"@, tags, k));
        assert(v[rest + 2 * k] == marks[2 * k]);
        assert(v[rest + (2 * k + 1)] == marks[2 * k + 1]);
    }
}

/// A list asks for its scope and its tags, and for no more entries than its limit, in decimal
/// digits; without a limit it asks for all.
pub proof fn law_list_asks_for_its_limit(scope: Seq<char>, n: u32, tags: Seq<Seq<char>>)
    ensures
        ({
            let all = argv::list_args(scope, None, tags);
            let some = argv::list_args(scope, Some(n), tags);
            &&& all == seq!["list"@, scope, "--no-color"@] + argv::tag_args(
                "--tags"@,
                tags,
                tags.len() as int,
            )
            &&& some == all.take(3) + seq!["-n"@, text::decimal(n as nat)] + all.skip(3)
        }),
{
    let all = argv::list_args(scope, None, tags);
    let some = argv::list_args(scope, Some(n), tags);
    assert(some =~= all.take(3) + seq!["-n"@, text::decimal(n as nat)] + all.skip(3));
}

/// A list of tasks asks for its scope, and for the open or the closed ones where it is told so.
pub proof fn law_tasks_ask_for_their_status(scope: Seq<char>)
    ensures
        argv::tasks_args(scope, None) == seq!["tasks"@, scope, "--no-color"@],
        argv::tasks_args(scope, Some(TaskStatus::Open)) == argv::tasks_args(scope, None).insert(
            2,
            "open"@,
        ),
        argv::tasks_args(scope, Some(TaskStatus::Closed)) == argv::tasks_args(scope, None).insert(
            2,
            "closed"@,
        ),
{
    let none = argv::tasks_args(scope, None);
    assert(argv::tasks_args(scope, Some(TaskStatus::Open)) =~= none.insert(2, "open"@));
    assert(argv::tasks_args(scope, Some(TaskStatus::Closed)) =~= none.insert(2, "closed"@));
}

/// The scope of a command is its notebook and a colon, with the folder and a slash behind them
/// where it has one.
pub proof fn law_scope_is_notebook_and_folder(notebook: Seq<char>, folder: Seq<char>)
    ensures
        argv::scope_of(notebook, None) == notebook + seq![':'],
        argv::scope_of(notebook, Some(folder)) == argv::scope_of(notebook, None) + folder + seq![
            '/',
        ],
        folder.len() > 0 ==> argv::non_empty(Some(folder)) == Some(folder),
        folder.len() == 0 ==> argv::non_empty(Some(folder)) is None,
{
    reveal_strlit(":");
    reveal_strlit("/");
    assert(":"@ =~= seq![':']);
    assert("/"@ =~= seq!['/']);
    assert(argv::scope_of(notebook, Some(folder)) =~= argv::scope_of(notebook, None) + folder
        + seq!['/']);
}

/// An import names its source, then asks for a conversion where it is told so, and then names
/// where it goes: the name below the folder, or the one of them that is given.
pub proof fn law_import_names_source_and_destination(
    notebook: Seq<char>,
    source: Seq<char>,
    folder: Seq<char>,
    name: Seq<char>,
)
    ensures
        ({
            let head = argv::import_args(notebook, source, false, None, None);
            let converted = argv::import_args(notebook, source, true, None, None);
            &&& head == seq![notebook + ":import"@, source]
            &&& converted == head.push("--convert"@)
            &&& argv::import_args(notebook, source, false, Some(folder), Some(name)) == head.push(
                folder + seq!['/'] + name,
            )
            &&& argv::import_args(notebook, source, true, Some(folder), Some(name))
                == converted.push(folder + seq!['/'] + name)
            &&& argv::import_args(notebook, source, false, Some(folder), None) == head.push(
                folder + seq!['/'],
            )
            &&& argv::import_args(notebook, source, false, None, Some(name)) == head.push(name)
        }),
{
    reveal_strlit("/");
    assert("/"@ =~= seq!['/']);
}

/// The notebook that a command names is the one that it goes to; only a command that names none
/// goes to the default, and without a default it is refused.
pub proof fn law_named_notebook_comes_first(default: Option<Seq<char>>, name: Seq<char>)
    ensures
        client::notebook_of(default, Some(name)) == Ok::<Seq<char>, NbErrorView>(name),
        client::notebook_of(Some(name), None) == Ok::<Seq<char>, NbErrorView>(name),
        client::notebook_of(None, None) is Err,
{
}

/// An id that names its notebook goes there, and has to find it; naming another notebook beside
/// it is refused. An id that names none goes to the notebook of the command.
pub proof fn law_target_goes_to_its_notebook(
    default: Option<Seq<char>>,
    id: Seq<char>,
    own: Seq<char>,
    path: Seq<char>,
    given: Seq<char>,
)
    ensures
        client::targeted(default, id, Some((own, path)), None) == Ok::<Targeted, NbErrorView>(
            Targeted { notebook: own, selector: own + seq![':'] + path, must_exist: true },
        ),
        client::targeted(default, id, Some((own, path)), Some(own)) == client::targeted(
            default,
            id,
            Some((own, path)),
            None,
        ),
        given != own ==> client::targeted(default, id, Some((own, path)), Some(given)) is Err,
        client::targeted(default, id, None, Some(given)) == Ok::<Targeted, NbErrorView>(
            Targeted { notebook: given, selector: given + seq![':'] + id, must_exist: false },
        ),
        client::targeted(Some(given), id, None, None) == client::targeted(
            default,
            id,
            None,
            Some(given),
        ),
        client::targeted(None, id, None, None) is Err,
{
    reveal_strlit(":");
    assert(":"@ =~= seq![':']);
}

/// A warning stands behind the whole output, and there is one exactly where the output is of
/// another notebook than the default.
pub proof fn law_warning_follows_the_output(
    default: Option<Seq<char>>,
    output: Seq<char>,
    notebook: Seq<char>,
)
    ensures
        output.is_prefix_of(client::warned(default, output, notebook)),
        client::warned(default, output, notebook) == output <==> default is None || default == Some(
            notebook,
        ),
{
    reveal_strlit("Warning: wrote to notebook `");
    reveal_strlit("\n");
    reveal_strlit("\n\n");
    let w = client::warned(default, output, notebook);
    assert(output =~= w.take(output.len() as int));
    if default is Some && default != Some(notebook) {
        assert(w.len() > output.len());
    }
}

/// A warning is set apart from the output by an empty line: one line feed where the output ends
/// with one, else two.
pub proof fn law_warning_is_set_apart(output: Seq<char>, warning: Seq<char>)
    ensures
        text::trim(output).len() > 0 && output.last() == '\n' ==> diagnostics::with_warning(
            output,
            warning,
        ) == output + seq!['\n'] + warning,
        text::trim(output).len() > 0 && output.last() != '\n' ==> diagnostics::with_warning(
            output,
            warning,
        ) == output + seq!['\n', '\n'] + warning,
        text::trim(output).len() == 0 ==> diagnostics::with_warning(output, warning) == output
            + warning,
{
    reveal_strlit("\n");
    reveal_strlit("\n\n");
    assert("\n"@ =~= seq!['\n']);
    assert("\n\n"@ =~= seq!['\n', '\n']);
}

/// A text without control characters is printable as it is.
proof fn lemma_printable_stays(s: Seq<char>, i: int)
    requires
        0 <= i <= s.len(),
        forall|k: int| 0 <= k < s.len() ==> (#[trigger] s[k]) as u32 >= 32,
    ensures
        diagnostics::printable_from(s, i) == s.skip(i),
    decreases s.len() - i,
{
    if i < s.len() {
        lemma_printable_stays(s, i + 1);
        assert(s[i] as u32 >= 32);
        assert('\u{1b}' as u32 == 27);
        assert(s.skip(i) =~= seq![s[i]] + s.skip(i + 1));
    } else {
        assert(s.skip(i) =~= Seq::<char>::empty());
    }
}

/// A diagnostic that is an exclamation mark, blanks, a keyword and a value says exactly that of
/// the value.
pub proof fn law_diagnostic_is_recognised(
    gap: Seq<char>,
    keyword: Seq<char>,
    value: Seq<char>,
)
    requires
        text_laws::blank(gap),
        forall|k: int| 0 <= k < gap.len() ==> (#[trigger] gap[k]) as u32 >= 32,
        forall|k: int| 0 <= k < keyword.len() ==> (#[trigger] keyword[k]) as u32 >= 32,
        forall|k: int| 0 <= k < value.len() ==> (#[trigger] value[k]) as u32 >= 32,
        keyword.len() > 0 && !text::whitespace(keyword[0]),
    ensures
        diagnostics::diagnoses(seq!['!'] + gap + keyword + value, keyword, value),
{
    let s = seq!['!'] + gap + keyword + value;
    assert forall|k: int| 0 <= k < s.len() implies (#[trigger] s[k]) as u32 >= 32 by {
        if 1 <= k < 1 + gap.len() {
            assert(s[k] == gap[k - 1]);
        } else if 1 + gap.len() <= k < 1 + gap.len() + keyword.len() {
            assert(s[k] == keyword[k - 1 - gap.len()]);
        } else if k > 0 {
            assert(s[k] == value[k - 1 - gap.len() - keyword.len()]);
        }
    }
    lemma_printable_stays(s, 0);
    assert(s.skip(0) =~= s);
    assert(s.last() as u32 >= 32) by {
        assert(s[s.len() - 1] as u32 >= 32);
    }
    assert('\n' as u32 == 10 && '\r' as u32 == 13);
    assert(text::without_line_end(s) == s);
    let t = s.skip(1);
    assert(t =~= gap + keyword + value);
    let p = |c: char| !text::whitespace(c);
    let n = gap.len() as int;
    assert(t[n] == keyword[0]);
    assert forall|k: int| 0 <= k < n implies !p(#[trigger] t[k]) by {
        assert(t[k] == gap[k]);
    }
    bytes::lemma_find_from_is(t, p, 0, n);
    assert(t.skip(n) =~= keyword + value);
}

/// The outputs of scopes that have tasks stand one below the other, in order of their scopes,
/// each without white space around it; the first scope that failed is what is reported.
pub proof fn law_tasks_of_all_scopes_are_listed(
    v: Seq<Result<String, NbError>>,
    last: Result<String, NbError>,
    status: Option<TaskStatus>,
)
    ensures
        last matches Ok(out) && text::trim(out@).len() > 0 ==> client::write::task_outputs(
            v.push(last),
            v.len() as int + 1,
        ) == client::write::task_outputs(v, v.len() as int).push(text::trim(last->Ok_0@)),
        last is Err || text::trim(last->Ok_0@).len() == 0 ==> client::write::task_outputs(
            v.push(last),
            v.len() as int + 1,
        ) == client::write::task_outputs(v, v.len() as int),
        forall|k: int|
            0 <= k < v.len() && (#[trigger] v[k]) is Err && !client::write::empty_scope(v[k]) && (forall|
                j: int,
            |
                0 <= j < k ==> (#[trigger] v[j]) is Ok || client::write::empty_scope(v[j]))
                ==> client::write::tasks_of(v, status) == Err::<Seq<char>, NbErrorView>(v[k]->Err_0@),
{
    let n = v.len() as int;
    lemma_outputs_of_prefix(v, last, n);
    assert(v.push(last)[n] == last);
    assert forall|k: int|
        0 <= k < v.len() && (#[trigger] v[k]) is Err && !client::write::empty_scope(v[k]) && (forall|
            j: int,
        |
            0 <= j < k ==> (#[trigger] v[j]) is Ok || client::write::empty_scope(v[j])) implies client::write::tasks_of(
        v,
        status,
    ) == Err::<Seq<char>, NbErrorView>(v[k]->Err_0@) by {
        let p = client::write::failed_scope();
        assert forall|j: int| 0 <= j < k implies !p(#[trigger] v[j]) by {
            assert(v[j] is Ok || client::write::empty_scope(v[j]));
        }
        bytes::lemma_find_from_is(v, p, 0, k);
    }
}

proof fn lemma_outputs_of_prefix(
    v: Seq<Result<String, NbError>>,
    last: Result<String, NbError>,
    n: int,
)
    requires
        0 <= n <= v.len(),
    ensures
        client::write::task_outputs(v.push(last), n) == client::write::task_outputs(v, n),
    decreases n,
{
    if n > 0 {
        lemma_outputs_of_prefix(v, last, n - 1);
        assert(v.push(last)[n - 1] == v[n - 1]);
    }
}

/// The folders inside a folder are named behind it, each once for each name, in order.
pub proof fn law_children_are_below_their_folder(
    folder: Seq<char>,
    names: Seq<Seq<char>>,
    n: int,
    k: int,
)
    requires
        0 <= k < n <= names.len(),
    ensures
        client::write::children_of(folder, names, n).len() == n,
        folder.len() == 0 ==> client::write::children_of(folder, names, n)[k] == names[k],
        folder.len() > 0 ==> client::write::children_of(folder, names, n)[k] == folder + seq!['/']
            + names[k],
    decreases n,
{
    reveal_strlit("/");
    assert("/"@ =~= seq!['/']);
    if n > 1 && k < n - 1 {
        law_children_are_below_their_folder(folder, names, n - 1, k);
    } else if n > 1 {
        law_children_are_below_their_folder(folder, names, n - 1, 0);
    } else {
        reveal_with_fuel(client::write::children_of, 2);
    }
}

/// The first attempt to create an entry is at its own name, and attempt `n` at its name with
/// the suffix `n`, all in the same folder.
pub proof fn law_attempts_follow_the_name(
    folder: Option<Seq<char>>,
    name: Seq<char>,
    n: u32,
)
    ensures
        client::write::attempt_path_of(folder, name, 0) == crate::transaction::names::joined(folder, name),
        n > 0 ==> client::write::attempt_path_of(folder, name, n) == client::write::attempt_path_of(
            folder,
            crate::transaction::names::suffixed(name, n),
            0,
        ),
{
}

/// What stands between two places of a text is printed as it is, when it has no control
/// characters.
proof fn lemma_printed_part(s: Seq<char>, i: int, j: int)
    requires
        0 <= i <= j <= s.len(),
        forall|k: int| i <= k < j ==> (#[trigger] s[k]) as u32 >= 32,
    ensures
        diagnostics::printable_from(s, i) == s.subrange(i, j) + diagnostics::printable_from(s, j),
    decreases j - i,
{
    if i < j {
        lemma_printed_part(s, i + 1, j);
        assert(s[i] as u32 >= 32);
        assert('\u{1b}' as u32 == 27);
        assert(s.subrange(i, j) + diagnostics::printable_from(s, j) =~= seq![s[i]] + (s.subrange(
            i + 1,
            j,
        ) + diagnostics::printable_from(s, j)));
    } else {
        assert(s.subrange(i, j) + diagnostics::printable_from(s, j) =~= diagnostics::printable_from(
            s,
            j,
        ));
    }
}

/// Without control characters.
pub open spec fn visible(s: Seq<char>) -> bool {
    forall|k: int| 0 <= k < s.len() ==> (#[trigger] s[k]) as u32 >= 32
}

proof fn lemma_printed_end(s: Seq<char>, a: Seq<char>, mid: Seq<char>, b: Seq<char>)
    requires
        s == a + mid + b,
        visible(a),
        visible(b),
    ensures
        diagnostics::printable_from(s, 0) == a + diagnostics::printable_from(s, a.len() as int),
        diagnostics::printable_from(s, a.len() as int + mid.len() as int) == b,
{
    let i = a.len() as int;
    let j = i + mid.len() as int;
    assert forall|k: int| 0 <= k < i implies (#[trigger] s[k]) as u32 >= 32 by {
        assert(s[k] == a[k]);
    }
    lemma_printed_part(s, 0, i);
    assert(s.subrange(0, i) =~= a);
    assert forall|k: int| j <= k < s.len() implies (#[trigger] s[k]) as u32 >= 32 by {
        assert(s[k] == b[k - j]);
    }
    lemma_printed_part(s, j, s.len() as int);
    assert(s.subrange(j, s.len() as int) =~= b);
    assert(b + diagnostics::printable_from(s, s.len() as int) =~= b);
}

/// A control sequence is not printed: an escape, an opening bracket, and everything up to the
/// first character from `@` to `~`.
pub proof fn law_control_sequences_are_not_printed(
    a: Seq<char>,
    inside: Seq<char>,
    last: char,
    b: Seq<char>,
)
    requires
        visible(a),
        visible(b),
        forall|k: int| 0 <= k < inside.len() ==> !(0x40 <= (#[trigger] inside[k]) as u32 <= 0x7e),
        '@' <= last && last <= '~',
    ensures
        diagnostics::printable(a + (seq!['\u{1b}', '['] + inside + seq![last]) + b) == a + b,
{
    let mid = seq!['\u{1b}', '['] + inside + seq![last];
    let s = a + mid + b;
    lemma_printed_end(s, a, mid, b);
    let i = a.len() as int;
    let p = diagnostics::ends_sequence();
    let z = i + 2 + inside.len() as int;
    assert('@' as u32 == 0x40 && '~' as u32 == 0x7e);
    assert(s[i] == mid[0]);
    assert(s[i + 1] == mid[1]);
    assert(s[z] == last);
    assert forall|k: int| i + 2 <= k < z implies !p(#[trigger] s[k]) by {
        let c = inside[k - i - 2];
        assert(mid[k - i] == c);
        assert(s[k] == c);
    }
    assert(0x40 <= last as u32 <= 0x7e);
    bytes::lemma_find_from_is(s, p, i + 2, z);
}

/// An escape takes the next character with it, when that is no opening bracket.
pub proof fn law_escaped_characters_are_not_printed(a: Seq<char>, c: char, b: Seq<char>)
    requires
        visible(a),
        visible(b),
        c != '[',
    ensures
        diagnostics::printable(a + seq!['\u{1b}', c] + b) == a + b,
{
    let mid = seq!['\u{1b}', c];
    let s = a + mid + b;
    lemma_printed_end(s, a, mid, b);
    let i = a.len() as int;
    assert(s[i] == mid[0]);
    assert(s[i + 1] == mid[1]);
}

/// Of the control characters only tabs, line feeds and returns are printed.
pub proof fn law_control_characters_are_not_printed(a: Seq<char>, c: char, b: Seq<char>)
    requires
        visible(a),
        visible(b),
        (c as u32) < 32,
        c != '\u{1b}',
    ensures
        diagnostics::printable(a + seq![c] + b) == (if c == '\t' || c == '\n' || c == '\r' {
            a + seq![c] + b
        } else {
            a + b
        }),
{
    let s = a + seq![c] + b;
    lemma_printed_end(s, a, seq![c], b);
    let i = a.len() as int;
    assert(s[i] == c);
    assert(a + (seq![c] + b) =~= a + seq![c] + b);
}

/// A text that is not blank has something left when it is trimmed.
proof fn lemma_blank(s: Seq<char>)
    ensures
        text::trim(s).len() == 0 <==> text_laws::blank(s),
{
    if text_laws::blank(s) {
        let none = Seq::<char>::empty();
        text_laws::law_trimming_takes_white_space(s, none, none);
        assert(s + none + none =~= s);
    }
    resolve_laws::lemma_visible(s);
}

/// A new note that does not repeat its title is let through where notes may stand at the top
/// or where it names a folder; a blank folder is none.
pub proof fn law_new_note_needs_a_folder(
    to: Client,
    title: Option<Seq<char>>,
    content_text: Seq<char>,
    folder: Seq<char>,
)
    requires
        title matches Some(t) ==> names::duplicate_heading(t, content_text) is None,
    ensures
        client::new_note_refusal(to, title, content_text, None) is None
            <==> to.allow_top_level_notes,
        client::new_note_refusal(to, title, content_text, Some(folder)) is None
            <==> to.allow_top_level_notes || !text_laws::blank(folder),
        client::new_note_refusal(to, title, content_text, Some(folder)) matches Some(e)
            ==> e is ValidationError,
{
    lemma_blank(folder);
}

/// A new note that repeats its title is refused wherever it goes.
pub proof fn law_repeated_title_is_refused(
    to: Client,
    title: Seq<char>,
    content_text: Seq<char>,
    folder: Option<Seq<char>>,
)
    requires
        names::duplicate_heading(title, content_text) is Some,
    ensures
        client::new_note_refusal(to, Some(title), content_text, folder) == Some(
            NbErrorView::DuplicateTitleHeading {
                title,
                heading: names::duplicate_heading(title, content_text)->Some_0,
            },
        ),
{
}

/// The path of a notebook or of an item is what the command printed, without the white space
/// around it; a command that printed nothing has failed.
pub proof fn law_printed_path_is_bare(
    name: Seq<char>,
    a: Seq<char>,
    path: Seq<char>,
    b: Seq<char>,
    out: String,
)
    requires
        text_laws::blank(a),
        text_laws::blank(b),
        text_laws::bare(path),
        out@ == a + path + b,
    ensures
        path.len() > 0 ==> {
            &&& client::notebook_path_printed(name, a + path + b) == Ok::<Seq<char>, NbErrorView>(
                path,
            )
            &&& client::read::item_path(name, Ok(out)) == Ok::<Seq<char>, NbErrorView>(path)
        },
        path.len() == 0 ==> {
            &&& client::notebook_path_printed(name, a + path + b) is Err
            &&& client::read::item_path(name, Ok(out)) is Err
        },
{
    text_laws::law_trimming_takes_white_space(a, path, b);
}

/// An item that the command says is not there is not found, and the error names it; every other
/// failure is passed on.
pub proof fn law_missing_item_is_not_found(
    selector: Seq<char>,
    gap: Seq<char>,
    e: NbError,
)
    requires
        text_laws::blank(gap),
        visible(gap),
        visible(selector),
    ensures
        e matches NbError::CommandFailed { stderr, .. } && stderr@ == seq!['!'] + gap
            + "Not found: "@ + selector ==> client::read::item_path(selector, Err(e)) == Err::<
            Seq<char>,
            NbErrorView,
        >(NbErrorView::NotFound { selector }),
        !(e is CommandFailed) ==> client::read::item_path(selector, Err(e)) == Err::<
            Seq<char>,
            NbErrorView,
        >(e@),
{
    reveal_strlit("Not found: ");
    let k = "Not found: "@;
    assert forall|i: int| 0 <= i < k.len() implies (#[trigger] k[i]) as u32 >= 32 by {}
    law_diagnostic_is_recognised(gap, k, selector);
}

/// A notebook is there when its path was printed. One that the command says is missing is
/// created, by its name, where that is allowed, and refused where it is not.
pub proof fn law_missing_notebook_is_created(
    create: bool,
    notebook: Seq<char>,
    gap: Seq<char>,
    result: Result<String, NbError>,
)
    requires
        text_laws::blank(gap),
        visible(gap),
        visible(notebook),
    ensures
        result matches Ok(out) && !text_laws::blank(out@) ==> client::ensured(
            create,
            notebook,
            client::checked(notebook, result),
        ) == Ok::<Step, NbErrorView>(Step::Ready),
        result matches Err(NbError::CommandFailed { stderr, .. }) && stderr@ == seq!['!'] + gap
            + "Notebook not found: "@ + notebook ==> {
            let step = client::ensured(create, notebook, client::checked(notebook, result));
            &&& create ==> step == Ok::<Step, NbErrorView>(
                Step::Create { args: seq!["notebooks"@, "add"@, notebook] },
            )
            &&& !create ==> (step matches Err(e) && e is ValidationError)
        },
{
    reveal_strlit("Notebook not found: ");
    let k = "Notebook not found: "@;
    assert forall|i: int| 0 <= i < k.len() implies (#[trigger] k[i]) as u32 >= 32 by {}
    law_diagnostic_is_recognised(gap, k, notebook);
    if let Ok(out) = result {
        lemma_blank(out@);
    }
}

/// What is said where there are no tasks is recognised as that, whichever tasks were asked for,
/// and tells which they were; a message that says nothing of tasks is not taken for it.
pub proof fn law_no_tasks_is_recognised(message: Seq<char>)
    ensures
        argv::no_tasks_diagnostic(argv::no_tasks_message(None)),
        argv::no_tasks_diagnostic(argv::no_tasks_message(Some(TaskStatus::Open))),
        argv::no_tasks_diagnostic(argv::no_tasks_message(Some(TaskStatus::Closed))),
        argv::no_tasks_message(Some(TaskStatus::Open)) != argv::no_tasks_message(
            Some(TaskStatus::Closed),
        ),
        !message.contains('!') ==> !argv::no_tasks_diagnostic(message),
        !message.contains('.') ==> !argv::no_tasks_diagnostic(message),
{
    reveal_strlit("! 0 ");
    reveal_strlit(" tasks.");
    reveal_strlit("! 0 tasks.");
    reveal_strlit("! 0 open tasks.");
    reveal_strlit("! 0 closed tasks.");
    assert("! 0 tasks."@.subrange(3, 10) =~= " tasks."@);
    assert("! 0 open tasks."@.subrange(8, 15) =~= " tasks."@);
    assert("! 0 closed tasks."@.subrange(10, 17) =~= " tasks."@);
    assert("! 0 tasks."@.take(4) =~= "! 0 "@);
    assert("! 0 open tasks."@.take(4) =~= "! 0 "@);
    assert("! 0 closed tasks."@.take(4) =~= "! 0 "@);
    lemma_recognised("! 0 tasks."@, 3);
    lemma_recognised("! 0 open tasks."@, 8);
    lemma_recognised("! 0 closed tasks."@, 10);
    assert("! 0 open tasks."@.len() != "! 0 closed tasks."@.len());
    if argv::no_tasks_diagnostic(message) {
        text::lemma_find_text(message, " tasks."@, 0);
        let i = text::find_text(message, " tasks."@, 0)->Some_0;
        assert(message.subrange(i, i + 7)[6] == message[i + 6]);
        assert(message[i + 6] == '.');
        let t = text::trim_start(message);
        assert(t.take(4) == "! 0 "@);
        assert(t[0] == t.take(4)[0]);
        let at = text::trim_start_at(message);
        bytes::lemma_find_from(message, |c: char| !text::whitespace(c), 0);
        assert(t == message.skip(at));
        assert(message[at] == '!');
    }
}

proof fn lemma_recognised(s: Seq<char>, i: int)
    requires
        0 <= i,
        i + 7 <= s.len(),
        s.len() >= 4,
        s.subrange(i, i + 7) == " tasks."@,
        s.take(4) == "! 0 "@,
    ensures
        argv::no_tasks_diagnostic(s),
{
    reveal_strlit("! 0 ");
    reveal_strlit(" tasks.");
    text_laws::law_first_place_is_found(s, " tasks."@, i);
    assert(s[0] == s.take(4)[0]);
    let p = |c: char| !text::whitespace(c);
    text_laws::law_ascii_white_space('!');
    bytes::lemma_find_from_is(s, p, 0, 0);
    assert(s.skip(0) =~= s);
    assert(s.take(4) =~= s.subrange(0, 4));
}

/// A command of `nb` that succeeded gives what it printed. One that failed is reported with its
/// arguments and its exit code, and with what it printed on the error output, or else on the
/// other.
pub proof fn law_nb_command_tells_why_it_failed(
    args: Seq<Seq<char>>,
    code: Option<i32>,
    stdout: Seq<char>,
    stderr: Seq<char>,
)
    ensures
        client::command_outcome(args, true, code, stdout, stderr, true) == Ok::<
            Seq<char>,
            NbErrorView,
        >(stdout),
        client::command_outcome(args, true, code, stdout, stderr, false) == Ok::<
            Seq<char>,
            NbErrorView,
        >(stdout),
        client::command_outcome(args, false, code, stdout, stderr, true) matches Err(
            NbErrorView::CommandFailed { command, stderr: said, exit_code },
        ) && said == stdout && exit_code == code && command == seq!['n', 'b', ' '] + text::join(
            args,
            seq![' '],
        ),
        client::command_outcome(args, false, code, stdout, stderr, false) matches Err(
            NbErrorView::CommandFailed { command, stderr: said, exit_code },
        ) && said == stderr && exit_code == code && command == seq!['n', 'b', ' '] + text::join(
            args,
            seq![' '],
        ),
{
    reveal_strlit("nb ");
    reveal_strlit(" ");
    assert("nb "@ =~= seq!['n', 'b', ' ']);
    assert(" "@ =~= seq![' ']);
}

/// Tasks are asked for in each folder, in order: the scope is the notebook and a colon, with
/// the folder and a slash behind them where the folder has a name.
pub proof fn law_each_folder_is_a_scope(notebook: Seq<char>, folders: Seq<Seq<char>>, k: int)
    requires
        0 <= k < folders.len(),
    ensures
        client::write::scopes_of(notebook, folders).len() == folders.len(),
        folders[k].len() == 0 ==> client::write::scopes_of(notebook, folders)[k] == notebook + seq![
            ':',
        ],
        folders[k].len() > 0 ==> client::write::scopes_of(notebook, folders)[k] == notebook + seq![
            ':',
        ] + folders[k] + seq!['/'],
{
    reveal_strlit(":");
    reveal_strlit("/");
    assert(":"@ =~= seq![':']);
    assert("/"@ =~= seq!['/']);
}

/// Where `nb` says of one scope that it has no tasks, and no other scope has any either, that
/// is reported; a scope that prints tasks is enough for a list.
pub proof fn law_no_tasks_anywhere_is_reported(
    v: Seq<Result<String, NbError>>,
    status: Option<TaskStatus>,
    k: int,
)
    requires
        forall|j: int| 0 <= j < v.len() ==> (#[trigger] v[j]) is Ok || client::write::empty_scope(
            v[j],
        ),
        0 <= k < v.len(),
    ensures
        client::write::empty_scope(v[k]) && (forall|j: int|
            0 <= j < v.len() && (#[trigger] v[j]) is Ok ==> text_laws::blank(v[j]->Ok_0@))
            ==> client::write::tasks_of(v, status) is Err,
        v[k] matches Ok(out) && !text_laws::blank(out@) ==> client::write::tasks_of(
            v,
            status,
        ) is Ok,
{
    let p = client::write::failed_scope();
    assert forall|j: int| 0 <= j < v.len() implies !p(#[trigger] v[j]) by {
        assert(v[j] is Ok || client::write::empty_scope(v[j]));
    }
    bytes::lemma_find_from_is(v, p, 0, v.len() as int);
    lemma_printed_tasks(v, v.len() as int, k);
}

proof fn lemma_printed_tasks(v: Seq<Result<String, NbError>>, n: int, k: int)
    requires
        0 <= n <= v.len(),
    ensures
        (forall|j: int| 0 <= j < n && (#[trigger] v[j]) is Ok ==> text_laws::blank(v[j]->Ok_0@))
            ==> client::write::task_outputs(v, n).len() == 0,
        0 <= k < n && (v[k] matches Ok(out) && !text_laws::blank(out@))
            ==> client::write::task_outputs(v, n).len() > 0,
    decreases n,
{
    if n > 0 {
        lemma_printed_tasks(v, n - 1, k);
        if let Ok(out) = v[n - 1] {
            lemma_blank(out@);
        }
    }
}

} // verus!
