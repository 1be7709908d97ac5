//! Environment overrides that switch the signing of commits and tags off.

use crate::text;
use vstd::prelude::*;

verus! {

/// The settings that are overridden.
pub open spec fn overrides() -> Seq<(Seq<char>, Seq<char>)> {
    seq![("commit.gpgsign"@, "false"@), ("tag.gpgsign"@, "false"@)]
}

/// The variables that override a setting, given its number.
pub open spec fn override_vars(index: nat, setting: (Seq<char>, Seq<char>)) -> Seq<
    (Seq<char>, Seq<char>),
> {
    seq![
        ("GIT_CONFIG_KEY_"@ + text::decimal(index), setting.0),
        ("GIT_CONFIG_VALUE_"@ + text::decimal(index), setting.1),
    ]
}

/// The variables that switch signing off, with settings numbered from `start`.
pub open spec fn signing_vars(start: nat) -> Seq<(Seq<char>, Seq<char>)> {
    let total = if start + 2 <= usize::MAX {
        start + 2
    } else {
        usize::MAX as nat
    };
    seq![("GIT_CONFIG_COUNT"@, text::decimal(total))] + override_vars(start, overrides()[0])
        + override_vars(start + 1, overrides()[1])
}

/// The models of a vector of variables.
pub open spec fn vars(v: Seq<(String, String)>) -> Seq<(Seq<char>, Seq<char>)> {
    v.map_values(|p: (String, String)| (p.0@, p.1@))
}

/// Append a variable.
fn push_var(list: &mut Vec<(String, String)>, name: String, value: &str)
    ensures
        vars(final(list)@) == vars(old(list)@).push((name@, value@)),
{
    let ghost before = list@;
    let ghost n = name@;
    list.push((name, value.to_string()));
    assert(vars(list@) =~= vars(before).push((n, value@)));
}

/// The variables that switch signing off, with settings numbered from `start_index`.
pub fn git_signing_env_vars(start_index: usize) -> (r: Vec<(String, String)>)
    requires
        start_index < usize::MAX,
    ensures
        vars(r@) == signing_vars(start_index as nat),
{
    let total: usize = if start_index <= usize::MAX - 2 {
        start_index + 2
    } else {
        usize::MAX
    };
    let count = text::decimal_of(total as u64);
    let first = text::decimal_of(start_index as u64);
    let second = text::decimal_of((start_index + 1) as u64);
    let mut out: Vec<(String, String)> = Vec::new();
    assert(vars(out@) =~= Seq::<(Seq<char>, Seq<char>)>::empty());
    push_var(&mut out, "GIT_CONFIG_COUNT".to_string(), count.as_str());
    push_var(&mut out, text::cat2("GIT_CONFIG_KEY_", first.as_str()), "commit.gpgsign");
    push_var(&mut out, text::cat2("GIT_CONFIG_VALUE_", first.as_str()), "false");
    push_var(&mut out, text::cat2("GIT_CONFIG_KEY_", second.as_str()), "tag.gpgsign");
    push_var(&mut out, text::cat2("GIT_CONFIG_VALUE_", second.as_str()), "false");
    assert(vars(out@) =~= signing_vars(start_index as nat));
    out
}

} // verus!
