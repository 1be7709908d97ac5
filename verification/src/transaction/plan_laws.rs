//! What planning an operation keeps of what it was given, and what it refuses.

use vstd::prelude::*;

use crate::bytes;
use crate::error::{NbError, NbErrorView};
use crate::path_laws;
use crate::paths;
use crate::text;
use crate::text_laws;
use crate::transaction::content_laws;
use crate::transaction::plan;
use crate::transaction::plan::{Op, Planned};
use crate::transaction::resolve;
use crate::transaction::resolve_laws;
use crate::types::Target;

verus! {

/// An operation on a target is planned as it was given, unless the target is blank or the
/// operation has a fault of its own.
pub proof fn law_operation_is_planned_as_given(
    target: Target,
    fault: Option<NbErrorView>,
    op: Op,
)
    ensures
        resolve_laws::visible(target.value()) ==> plan::target_op(target, op) == Ok::<
            Op,
            NbErrorView,
        >(op),
        resolve_laws::visible(target.value()) && fault is None ==> plan::checked_op(
            target,
            fault,
            op,
        ) == Ok::<Op, NbErrorView>(op),
        resolve_laws::visible(target.value()) && fault is Some ==> plan::checked_op(
            target,
            fault,
            op,
        ) == Err::<Op, NbErrorView>(fault->Some_0),
        !resolve_laws::visible(target.value()) ==> plan::target_op(target, op) is Err
            && plan::checked_op(target, fault, op) is Err,
{
    resolve_laws::lemma_visible(target.value());
}

/// A planned destination leads where the destination leads: into the same folder with the base
/// name of the source where it ends in a slash, and to the path itself where it does not.
pub proof fn law_planned_destination_leads_there(
    from_folder: Seq<char>,
    base: Seq<char>,
    folder: Seq<char>,
    before: Seq<char>,
    behind: Seq<char>,
)
    requires
        path_laws::plain(folder),
        path_laws::plain(base),
        path_laws::component(base),
        from_folder.len() == 0 || path_laws::plain(from_folder) && !(from_folder.len() > 1
            && from_folder.last() == '.' && from_folder[from_folder.len() - 2] == '/'),
        text_laws::blank(before),
        text_laws::blank(behind),
    ensures
        plan::destination_of(before + folder + seq!['/'] + behind) == folder + seq!['/'],
        resolve::moved_to(
            resolve_laws::inside(from_folder, base),
            plan::destination_of(before + folder + seq!['/'] + behind),
        ) == folder + seq!['/'] + base,
        plan::destination_of(before + folder + behind) == folder,
{
    let destination = before + folder + seq!['/'] + behind;
    let one = Seq::new(1, |i: int| '/');
    let nothing = Seq::new(0, |i: int| '/');
    assert(one =~= seq!['/']);
    path_laws::law_normalizing_strips(before, 0, folder, 1, behind);
    assert(before + nothing + folder + one + behind =~= destination);
    let mid = folder + seq!['/'];
    text_laws::law_trimming_takes_white_space(before, mid, behind);
    assert(before + mid + behind =~= destination);
    assert((before + mid).last() == '/');
    assert(folder.push('/') =~= mid);
    let none = Seq::<char>::empty();
    resolve_laws::law_move_into_folder_keeps_base_name(from_folder, base, folder, none, none);
    assert(none + folder + seq!['/'] + none =~= mid);
    path_laws::law_normalizing_strips(before, 0, folder, 0, behind);
    assert(before + nothing + folder + nothing + behind =~= before + folder + behind);
    text_laws::law_trimming_takes_white_space(before, folder, behind);
    assert((before + folder).last() == folder.last());
}

/// A destination that goes up, or that names nothing, is refused, and no other.
pub proof fn law_destination_does_not_go_up(destination: Seq<char>, i: int)
    ensures
        ({
            let d = paths::normalized(destination);
            &&& 0 <= i && i + 2 <= d.len() && d[i] == '.' && d[i + 1] == '.'
                ==> plan::destination_fault(destination) is Some
            &&& d.len() == 0 ==> plan::destination_fault(destination) is Some
            &&& d.len() > 0 && (forall|k: int|
                0 <= k < d.len() - 1 ==> !((#[trigger] d[k]) == '.' && d[k + 1] == '.'))
                ==> plan::destination_fault(destination) is None
        }),
{
    reveal_strlit("..");
    let d = paths::normalized(destination);
    if 0 <= i && i + 2 <= d.len() && d[i] == '.' && d[i + 1] == '.' {
        assert(d.subrange(i, i + 2) =~= ".."@);
        text_laws::law_first_place_is_found(d, ".."@, i);
    }
    text::lemma_find_text(d, ".."@, 0);
    if let Some(k) = text::find_text(d, ".."@, 0) {
        assert(d.subrange(k, k + 2)[0] == d[k]);
        assert(d.subrange(k, k + 2)[1] == d[k + 1]);
        assert(".."@[0] == '.' && ".."@[1] == '.');
    }
}

/// A tag edit is refused exactly when a tag is both added and removed, however many `#`s stand
/// in front of it.
pub proof fn law_contradictory_tag_edit_is_refused(add: Seq<Seq<char>>, remove: Seq<Seq<char>>)
    ensures
        plan::tag_edit_fault(add, remove) is Some <==> exists|i: int, j: int|
            0 <= i < add.len() && 0 <= j < remove.len() && content_laws::key(#[trigger] add[i])
                == content_laws::key(#[trigger] remove[j]),
{
    let keys = plan::tag_keys(remove);
    let new = plan::tag_keys(add);
    let p = plan::listed_in(new);
    bytes::lemma_find_from(keys, p, 0);
    let at = bytes::find_from(keys, p, 0);
    assert forall|j: int| 0 <= j < remove.len() implies #[trigger] keys[j] == content_laws::key(
        remove[j],
    ) by {
        content_laws::lemma_key(remove[j]);
    }
    assert forall|i: int| 0 <= i < add.len() implies #[trigger] new[i] == content_laws::key(
        add[i],
    ) by {
        content_laws::lemma_key(add[i]);
    }
    if at < keys.len() {
        assert(p(keys[at]));
        let i = choose|i: int| 0 <= i < new.len() && new[i] == keys[at];
        assert(content_laws::key(add[i]) == content_laws::key(remove[at]));
    }
    if exists|i: int, j: int|
        0 <= i < add.len() && 0 <= j < remove.len() && content_laws::key(#[trigger] add[i])
            == content_laws::key(#[trigger] remove[j]) {
        let (i, j) = choose|i: int, j: int|
            0 <= i < add.len() && 0 <= j < remove.len() && content_laws::key(#[trigger] add[i])
                == content_laws::key(#[trigger] remove[j]);
        assert(new[i] == keys[j]);
        assert(new.contains(keys[j]));
        assert(p(keys[j]));
    }
}

/// A task is planned unless its title is blank, and a bookmark unless its address is.
pub proof fn law_blank_titles_and_addresses_are_refused(
    path: Seq<char>,
    at: Seq<char>,
    title: Seq<char>,
    description: Option<Seq<char>>,
    tasks: Seq<Seq<char>>,
    tags: Seq<Seq<char>>,
    link_title: Option<Seq<char>>,
)
    requires
        plan::create_path(path, true) == Ok::<Seq<char>, NbErrorView>(at),
    ensures
        resolve_laws::visible(title) ==> plan::todo_op(path, title, description, tasks, tags)
            == Ok::<Op, NbErrorView>(Op::AddTodo { path: at, title, description, tasks, tags }),
        resolve_laws::visible(title) ==> plan::bookmark_op(
            path,
            title,
            link_title,
            tags,
            description,
        ) == Ok::<Op, NbErrorView>(
            Op::AddBookmark { path: at, url: title, title: link_title, tags, comment: description },
        ),
        !resolve_laws::visible(title) ==> plan::todo_op(path, title, description, tasks, tags)
            is Err && plan::bookmark_op(path, title, link_title, tags, description) is Err,
{
    resolve_laws::lemma_visible(title);
}

/// A batch of line edits is refused exactly when it is empty, and so is a pattern.
pub proof fn law_empty_edits_are_refused(n: nat, pattern: Seq<char>)
    ensures
        plan::batch_fault(n) is Some <==> n == 0,
        plan::pattern_fault(pattern) is Some <==> pattern.len() == 0,
        plan::pattern_fault(pattern) matches Some(e) ==> e is EmptySubstringPattern,
{
}

/// An operation that is planned stands behind those that were planned before it, which stay;
/// one that is refused leaves the plan as it was.
pub proof fn law_operations_are_planned_in_order(
    before: Planned,
    after: Planned,
    r: Result<(), NbError>,
    model: Result<Op, NbErrorView>,
    k: int,
)
    requires
        plan::planned(before, after, r, model),
    ensures
        r is Ok <==> model is Ok,
        r is Ok ==> after.plan.len() == before.plan.len() + 1 && after.plan.last() == model->Ok_0,
        r is Ok && 0 <= k < before.plan.len() ==> after.plan[k] == before.plan[k],
        r is Err ==> after == before && model->Err_0 == r->Err_0@,
{
}

} // verus!
