//! Gates that serialise the operations on one notebook.

use crate::error::{NbError, NbErrorView};
use crate::text;
use vstd::prelude::*;

verus! {

/// How long to wait for a gate by default, in milliseconds.
pub const DEFAULT_GATE_TIMEOUT_MS: u64 = 60_000;

/// The gates that have been asked for: one for each repository, never given up.
#[derive(Debug)]
pub struct GateRegistry {
    keys: Vec<String>,
}

impl View for GateRegistry {
    type V = Seq<Seq<char>>;

    /// The repositories in the order in which they were first asked for; the place of each is
    /// the number of its gate.
    closed spec fn view(&self) -> Seq<Seq<char>> {
        text::texts(self.keys@)
    }
}

/// The repositories after one more was asked for.
pub open spec fn asked_for(before: Seq<Seq<char>>, key: Seq<char>) -> Seq<Seq<char>> {
    if before.contains(key) {
        before
    } else {
        before.push(key)
    }
}

impl GateRegistry {
    /// No repository has two gates.
    #[verifier::type_invariant]
    spec fn sound(self) -> bool {
        text::texts(self.keys@).no_duplicates()
    }

    /// No gates.
    pub fn new() -> (r: Self)
        ensures
            r@ == Seq::<Seq<char>>::empty(),
    {
        GateRegistry { keys: text::no_texts() }
    }

    /// The place of a repository; one that has none gets the next.
    pub fn gate_for(&mut self, key: &str) -> (r: usize)
        ensures
            r < final(self)@.len(),
            final(self)@[r as int] == key@,
            final(self)@.no_duplicates(),
            final(self)@ == asked_for(old(self)@, key@),
    {
        proof {
            use_type_invariant(&*self);
        }
        let ghost all = self@;
        let mut i: usize = 0;
        while i < self.keys.len()
            invariant
                i <= self.keys.len(),
                all == self@,
                *self == *old(self),
                all == text::texts(self.keys@),
                all.no_duplicates(),
                forall|k: int| 0 <= k < i ==> #[trigger] all[k] != key@,
            decreases self.keys.len() - i,
        {
            assert(all[i as int] == self.keys@[i as int]@);
            if text::equal(self.keys[i].as_str(), key) {
                return i;
            }
            i += 1;
        }
        assert(all.len() == self.keys@.len());
        assert(!all.contains(key@));
        let mut keys: Vec<String> = text::no_texts();
        std::mem::swap(&mut keys, &mut self.keys);
        text::push_text(&mut keys, key);
        self.keys = keys;
        i
    }
}

/// The number of gates.
pub fn registry_len(registry: &GateRegistry) -> (r: usize)
    ensures
        r == registry@.len(),
{
    assert(registry@.len() == registry.keys@.len());
    registry.keys.len()
}

/// A gate was not free in time.
pub fn gate_timed_out(label: &str, timeout_ms: u64) -> (r: NbError)
    ensures
        r@ == (NbErrorView::GateTimeout { gate: label@, timeout_ms }),
{
    NbError::GateTimeout { gate: label.to_string(), timeout_ms }
}

/// Once a repository has a gate, every later request gets the same one, whatever was asked for
/// in between.
pub proof fn law_gate_stays(before: Seq<Seq<char>>, key: Seq<char>, other: Seq<char>, k: int)
    requires
        0 <= k < before.len(),
        before[k] == key,
    ensures
        asked_for(before, other)[k] == key,
        asked_for(asked_for(before, other), key) == asked_for(before, other),
{
    let after = asked_for(before, other);
    assert(after[k] == key);
}

/// A repository that was asked for has a gate, and no other gets one.
pub proof fn law_asked_repository_has_a_gate(before: Seq<Seq<char>>, key: Seq<char>, other: Seq<char>)
    ensures
        asked_for(before, key).contains(key),
        other != key ==> (asked_for(before, key).contains(other) <==> before.contains(other)),
{
    let after = asked_for(before, key);
    if !before.contains(key) {
        assert(after[before.len() as int] == key);
        if before.contains(other) {
            let k = choose|k: int| 0 <= k < before.len() && before[k] == other;
            assert(after[k] == other);
        }
        if other != key && after.contains(other) {
            let k = choose|k: int| 0 <= k < after.len() && after[k] == other;
            assert(before[k] == other);
        }
    }
}

} // verus!
