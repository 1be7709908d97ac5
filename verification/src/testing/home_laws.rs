//! Which home an account database or a directory service gives.

use vstd::prelude::*;

use crate::bytes;
use crate::testing::home;
use crate::text;
use crate::text_laws;

verus! {

/// The fields of an entry, with colons between them.
pub open spec fn entry(fields: Seq<Seq<char>>) -> Seq<char> {
    text::join(fields, seq![':'])
}

/// Fields that an entry can hold.
pub open spec fn plain_fields(fields: Seq<Seq<char>>) -> bool {
    forall|k: int| 0 <= k < fields.len() ==> !(#[trigger] fields[k]).contains(':')
}

/// The home in an entry of seven, eight or nine fields is the sixth, and in one of ten or more
/// the ninth, unless that is empty; an entry with fewer has none.
pub proof fn law_home_is_its_field(fields: Seq<Seq<char>>, before: Seq<char>, behind: Seq<char>)
    requires
        fields.len() > 0,
        plain_fields(fields),
        text_laws::bare(entry(fields)),
        text_laws::blank(before),
        text_laws::blank(behind),
    ensures
        ({
            let line = before + entry(fields) + behind;
            &&& fields.len() < 7 ==> home::passwd_home(line) is None
            &&& 7 <= fields.len() < 10 && fields[5].len() > 0 ==> home::passwd_home(line) == Some(
                fields[5],
            )
            &&& fields.len() >= 10 && fields[8].len() > 0 ==> home::passwd_home(line) == Some(
                fields[8],
            )
            &&& 7 <= fields.len() < 10 && fields[5].len() == 0 ==> home::passwd_home(line) is None
            &&& fields.len() >= 10 && fields[8].len() == 0 ==> home::passwd_home(line) is None
        }),
{
    text_laws::law_trimming_takes_white_space(before, entry(fields), behind);
    text_laws::law_split_undoes_join(fields, ':');
}

/// An entry of the account with a user id gives the home of that user, behind any entries of
/// other users.
pub proof fn law_home_of_the_user(
    lines: Seq<Seq<char>>,
    fields: Seq<Seq<char>>,
    uid: u32,
    i: int,
    k: int,
)
    requires
        0 <= i <= k < lines.len(),
        fields.len() >= 6,
        plain_fields(fields),
        fields[2] == text::decimal(uid as nat),
        fields[5].len() > 0,
        lines[k] == entry(fields),
        forall|j: int|
            i <= j < k ==> {
                let f = text::split(#[trigger] lines[j], ':');
                f.len() >= 3 && home::number32(f[2]) is Some && home::number32(f[2]) != Some(uid)
            },
    ensures
        home::home_of_uid(lines, uid, i) == Some(fields[5]),
    decreases k - i,
{
    if i < k {
        assert(text::split(lines[i], ':').len() >= 3);
        law_home_of_the_user(lines, fields, uid, i + 1, k);
    } else {
        text_laws::law_split_undoes_join(fields, ':');
        text_laws::law_decimal_form(uid as nat);
    }
}

/// A user whose id no entry has gets no home.
pub proof fn law_other_users_give_no_home(lines: Seq<Seq<char>>, uid: u32, i: int)
    requires
        0 <= i,
        forall|j: int|
            i <= j < lines.len() ==> home::number32(text::split(#[trigger] lines[j], ':')[2])
                != Some(uid),
    ensures
        home::home_of_uid(lines, uid, i) is None,
    decreases lines.len() - i,
{
    if i < lines.len() {
        assert(home::number32(text::split(lines[i], ':')[2]) != Some(uid));
        law_other_users_give_no_home(lines, uid, i + 1);
    }
}

/// A number in decimal digits is read as that number, if it has 32 bits.
pub proof fn law_number_is_read(n: nat)
    requires
        n <= usize::MAX,
    ensures
        n <= u32::MAX ==> home::number32(text::decimal(n)) == Some(n as u32),
        n > u32::MAX ==> home::number32(text::decimal(n)) is None,
{
    text_laws::law_decimal_form(n);
}

/// The home that a directory service prints is what follows the name of the attribute, without
/// white space around it, on the first line that names it.
pub proof fn law_printed_home_is_read(
    lines: Seq<Seq<char>>,
    gap: Seq<char>,
    value: Seq<char>,
    behind: Seq<char>,
    i: int,
    k: int,
)
    requires
        0 <= i <= k < lines.len(),
        text_laws::bare(value),
        value.len() > 0,
        text_laws::blank(gap),
        text_laws::blank(behind),
        lines[k] == "NFSHomeDirectory:"@ + gap + value + behind,
        forall|j: int| i <= j < k ==> home::home_value(#[trigger] lines[j]) is None,
    ensures
        home::first_home(lines, i) == Some(value),
    decreases k - i,
{
    if i < k {
        assert(home::home_value(lines[i]) is None);
        law_printed_home_is_read(lines, gap, value, behind, i + 1, k);
    } else {
        reveal_strlit("NFSHomeDirectory:");
        let name = "NFSHomeDirectory:"@;
        let none = Seq::<char>::empty();
        let core = name + gap + value;
        assert(core.last() == value.last());
        text_laws::law_ascii_white_space('N');
        assert(text_laws::bare(core));
        text_laws::law_trimming_takes_white_space(none, core, behind);
        assert(none + core + behind =~= lines[k]);
        assert(name =~= core.take(name.len() as int));
        assert(core.skip(name.len() as int) =~= gap + value + none);
        text_laws::law_trimming_takes_white_space(gap, value, none);
    }
}

/// The user id in the status of a process is the first number behind `Uid:`.
pub proof fn law_status_tells_the_user(
    lines: Seq<Seq<char>>,
    gap: Seq<char>,
    uid: u32,
    rest: Seq<char>,
    i: int,
    k: int,
)
    requires
        0 <= i <= k < lines.len(),
        text_laws::blank(gap),
        rest.len() > 0 ==> text::whitespace(rest[0]),
        lines[k] == "Uid:"@ + gap + text::decimal(uid as nat) + rest,
        forall|j: int| i <= j < k ==> !"Uid:"@.is_prefix_of(#[trigger] lines[j]),
    ensures
        home::status_uid(lines, i) == Some(uid),
    decreases k - i,
{
    if i < k {
        assert(!"Uid:"@.is_prefix_of(lines[i]));
        law_status_tells_the_user(lines, gap, uid, rest, i + 1, k);
    } else {
        reveal_strlit("Uid:");
        let d = text::decimal(uid as nat);
        text_laws::law_decimal_form(uid as nat);
        assert("Uid:"@ =~= lines[k].take(4));
        let s = lines[k].skip(4);
        assert(s =~= gap + d + rest);
        let p = |c: char| !text::whitespace(c);
        let n = gap.len() as int;
        assert(s[n] == d[0]);
        assert('0' <= d[0] <= '9');
        text_laws::law_ascii_white_space(d[0]);
        assert forall|j: int| 0 <= j < n implies !p(#[trigger] s[j]) by {
            assert(s[j] == gap[j]);
        }
        bytes::lemma_find_from_is(s, p, 0, n);
        let t = s.skip(n);
        assert(t =~= d + rest);
        assert forall|j: int| 0 <= j < d.len() implies !home::is_space()(#[trigger] t[j]) by {
            assert(t[j] == d[j]);
            assert('0' <= d[j] <= '9');
            text_laws::law_ascii_white_space(d[j]);
        }
        if rest.len() > 0 {
            assert(t[d.len() as int] == rest[0]);
        }
        bytes::lemma_find_from_is(t, home::is_space(), 0, d.len() as int);
        assert(t.take(d.len() as int) =~= d);
    }
}

} // verus!
