//! Environment variables that redirect Git.

use crate::text;
use vstd::prelude::*;

verus! {

/// The names among the first `n` that start with `GIT_`.
pub open spec fn git_names(names: Seq<Seq<char>>, n: int) -> Seq<Seq<char>>
    decreases n,
{
    if n <= 0 {
        Seq::empty()
    } else if "GIT_"@.is_prefix_of(names[n - 1]) {
        git_names(names, n - 1).push(names[n - 1])
    } else {
        git_names(names, n - 1)
    }
}

/// The names of an environment that a child process of Git must not inherit: all that start
/// with `GIT_`.
pub fn leaked_git_names(names: &Vec<String>) -> (r: Vec<String>)
    ensures
        text::texts(r@) == git_names(text::texts(names@), names@.len() as int),
{
    let ghost all = text::texts(names@);
    let mut out = text::no_texts();
    let mut i: usize = 0;
    while i < names.len()
        invariant
            i <= names.len(),
            all == text::texts(names@),
            text::texts(out@) == git_names(all, i as int),
        decreases names.len() - i,
    {
        assert(all[i as int] == names@[i as int]@);
        if text::starts_with(names[i].as_str(), "GIT_") {
            text::push_text(&mut out, names[i].as_str());
        }
        i += 1;
    }
    out
}

/// Every name that starts with `GIT_` is found, and no other.
pub proof fn law_exactly_git_names_leak(names: Seq<Seq<char>>, n: int, name: Seq<char>)
    requires
        0 <= n <= names.len(),
    ensures
        git_names(names, n).contains(name) <==> names.take(n).contains(name) && "GIT_"@.is_prefix_of(
            name,
        ),
    decreases n,
{
    let now = git_names(names, n);
    if n > 0 {
        let last = names[n - 1];
        law_exactly_git_names_leak(names, n - 1, name);
        let before = git_names(names, n - 1);
        let seen = names.take(n - 1);
        let all = names.take(n);
        assert(all =~= seen.push(last));
        if before.contains(name) {
            let k = choose|k: int| 0 <= k < before.len() && before[k] == name;
            assert(now[k] == name);
        }
        if seen.contains(name) {
            let k = choose|k: int| 0 <= k < seen.len() && seen[k] == name;
            assert(all[k] == name);
        }
        if name == last {
            assert(all[n - 1] == name);
            if "GIT_"@.is_prefix_of(name) {
                assert(now[before.len() as int] == name);
            }
        }
        if now.contains(name) && name != last {
            let k = choose|k: int| 0 <= k < now.len() && now[k] == name;
            assert(before[k] == name);
        }
        if all.contains(name) && name != last {
            let k = choose|k: int| 0 <= k < all.len() && all[k] == name;
            assert(seen[k] == name);
        }
    }
}

} // verus!
