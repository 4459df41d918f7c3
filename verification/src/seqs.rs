//! Small facts about sequences that the collections of this crate rely on.

use vstd::prelude::*;

verus! {

/// Appending `v` adds exactly `v` to what a sequence contains.
pub proof fn lemma_push_contains<A>(s: Seq<A>, v: A)
    ensures
        forall|x: A| #[trigger] s.push(v).contains(x) <==> (x == v || s.contains(x)),
{
    assert forall|x: A| #[trigger] s.push(v).contains(x) <==> (x == v || s.contains(x)) by {
        vstd::seq_lib::lemma_seq_contains_after_push(s, v, x);
    }
}

/// Appending an element that is not yet present keeps a sequence free of duplicates.
pub proof fn lemma_push_unique<A>(s: Seq<A>, v: A)
    requires
        s.no_duplicates(),
        !s.contains(v),
    ensures
        s.push(v).no_duplicates(),
{
    let t = s.push(v);
    assert forall|i: int, j: int| 0 <= i < t.len() && 0 <= j < t.len() && i != j implies t[i] != t[j] by {
        if i < s.len() && j < s.len() {
            assert(t[i] == s[i] && t[j] == s[j]);
        } else if i < s.len() {
            assert(t[i] == s[i]);
        } else if j < s.len() {
            assert(t[j] == s[j]);
        }
    }
}

/// The first `i + 1` elements are the first `i` followed by element `i`.
pub proof fn lemma_take_next<A>(s: Seq<A>, i: int)
    requires
        0 <= i < s.len(),
    ensures
        s.take(i + 1) == s.take(i).push(s[i]),
{
    assert(s.take(i + 1) =~= s.take(i).push(s[i]));
}

/// Taking every element gives the whole sequence.
pub proof fn lemma_take_all<A>(s: Seq<A>)
    ensures
        s.take(s.len() as int) == s,
{
    assert(s.take(s.len() as int) =~= s);
}

} // verus!
