//! Small facts about sequences used across the crate.

use vstd::prelude::*;

verus! {

/// Appending `v` adds exactly `v` to the set of elements.
pub proof fn lemma_push_to_set<A>(s: Seq<A>, v: A)
    ensures
        s.push(v).to_set() == s.to_set().insert(v),
{
    assert forall|x: A| #[trigger] s.push(v).to_set().contains(x) <==> s.to_set().insert(v).contains(x) by {
        if s.push(v).contains(x) {
            let t = choose|t: int| 0 <= t < s.len() + 1 && s.push(v)[t] == x;
            if t < s.len() {
                assert(s[t] == x);
            }
        }
        if s.contains(x) {
            let t = choose|t: int| 0 <= t < s.len() && s[t] == x;
            assert(s.push(v)[t] == x);
        }
        if x == v {
            assert(s.push(v)[s.len() as int] == v);
        }
    }
    assert(s.push(v).to_set() =~= s.to_set().insert(v));
}

} // verus!
