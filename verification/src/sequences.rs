//! Facts about sequences that several modules use.
use vstd::prelude::*;

verus! {

/// Filtering one more element of a sequence adds that element or nothing.
pub proof fn lemma_filter_next<A>(s: Seq<A>, k: int, keep: spec_fn(A) -> bool)
    requires
        0 <= k < s.len(),
    ensures
        s.take(k + 1).filter(keep) == (if keep(s[k]) {
            s.take(k).filter(keep).push(s[k])
        } else {
            s.take(k).filter(keep)
        }),
{
    reveal(Seq::filter);
    assert(s.take(k + 1).drop_last() =~= s.take(k));
}

/// Filtering nothing gives nothing.
pub proof fn lemma_filter_none<A>(s: Seq<A>, keep: spec_fn(A) -> bool)
    ensures
        s.take(0).filter(keep) == Seq::<A>::empty(),
{
    reveal(Seq::filter);
    assert(s.take(0) =~= Seq::<A>::empty());
}

/// What is left after filtering was there before, and passed.
pub proof fn lemma_filter_from<A>(s: Seq<A>, keep: spec_fn(A) -> bool, i: int)
    requires
        0 <= i < s.filter(keep).len(),
    ensures
        keep(s.filter(keep)[i]),
        exists|j: int| 0 <= j < s.len() && s[j] == s.filter(keep)[i],
    decreases s.len(),
{
    reveal(Seq::filter);
    let rest = s.drop_last();
    if keep(s.last()) && i == s.filter(keep).len() - 1 {
        assert(s[s.len() - 1] == s.filter(keep)[i]);
    } else {
        lemma_filter_from(rest, keep, i);
        let j = choose|j: int| 0 <= j < rest.len() && rest[j] == rest.filter(keep)[i];
        assert(s[j] == s.filter(keep)[i]);
    }
}

/// Filtering a second time takes nothing away.
pub proof fn lemma_filter_twice<A>(s: Seq<A>, keep: spec_fn(A) -> bool)
    ensures
        s.filter(keep).filter(keep) == s.filter(keep),
    decreases s.len(),
{
    reveal(Seq::filter);
    if s.len() > 0 {
        let rest = s.drop_last();
        lemma_filter_twice(rest, keep);
        if keep(s.last()) {
            assert(s.filter(keep).drop_last() =~= rest.filter(keep));
        }
    }
}

} // verus!
