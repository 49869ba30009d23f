//! What is picked out of a sequence, and from where.

use vstd::prelude::*;

verus! {

/// The numbers of `at` rise, from 0 on, and stay below `end`.
pub open spec fn climbs(at: Seq<int>, end: int) -> bool {
    &&& forall|i: int| 0 <= i < at.len() ==> 0 <= #[trigger] at[i] < end
    &&& forall|i: int, j: int| 0 <= i < j < at.len() ==> #[trigger] at[i] < #[trigger] at[j]
}

/// One more element adds what it maps to.
pub proof fn lemma_filter_map_push<A, B>(s: Seq<A>, x: A, f: spec_fn(A) -> Option<B>)
    ensures
        s.push(x).filter_map(f) == (match f(x) {
            Some(y) => s.filter_map(f).push(y),
            None => s.filter_map(f),
        }),
{
    let all = s.push(x);
    all.lemma_filter_map_take_succ(f, s.len() as int);
    assert(all.take(s.len() as int) =~= s);
    assert(all.take(s.len() as int + 1) =~= all);
}

/// Where each of the mapped elements stands: in rising order, and at every place
/// whose element maps to something.
pub proof fn lemma_filter_map_places<A, B>(s: Seq<A>, f: spec_fn(A) -> Option<B>) -> (at: Seq<int>)
    ensures
        at.len() == s.filter_map(f).len(),
        climbs(at, s.len() as int),
        forall|i: int| 0 <= i < at.len() ==> f(s[#[trigger] at[i]]) == Some(s.filter_map(f)[i]),
        forall|k: int| 0 <= k < s.len() && f(#[trigger] s[k]) is Some ==> at.contains(k),
    decreases s.len(),
{
    if s.len() == 0 {
        assert(s.filter_map(f) =~= Seq::<B>::empty());
        Seq::empty()
    } else {
        let front = s.drop_last();
        let last = s.len() - 1;
        let before = lemma_filter_map_places(front, f);
        assert(s =~= front.push(s[last]));
        lemma_filter_map_push(front, s[last], f);
        let at = if f(s[last]) is Some {
            before.push(last)
        } else {
            before
        };
        assert forall|i: int| 0 <= i < at.len() implies f(s[#[trigger] at[i]]) == Some(
            s.filter_map(f)[i],
        ) by {
            if i < before.len() {
                assert(f(front[before[i]]) == Some(front.filter_map(f)[i]));
            }
        }
        assert forall|k: int| 0 <= k < s.len() && f(#[trigger] s[k]) is Some implies at.contains(
            k,
        ) by {
            if k < last {
                assert(front[k] == s[k]);
                let i = choose|i: int| 0 <= i < before.len() && before[i] == k;
                assert(at[i] == k);
            } else {
                assert(at[before.len() as int] == k);
            }
        }
        at
    }
}

/// What an element of `s` maps to stands among what `s` maps to.
pub proof fn lemma_filter_map_has<A, B>(s: Seq<A>, f: spec_fn(A) -> Option<B>, k: int)
    requires
        0 <= k < s.len(),
        f(s[k]) is Some,
    ensures
        s.filter_map(f).contains(f(s[k])->0),
    decreases s.len(),
{
    let front = s.drop_last();
    let last = s.len() - 1;
    s.lemma_filter_map_take_succ(f, last);
    assert(s.take(last) =~= front);
    assert(s.take(last + 1) =~= s);
    let y = f(s[k])->0;
    if k < last {
        lemma_filter_map_has(front, f, k);
        let i = choose|i: int| 0 <= i < front.filter_map(f).len() && front.filter_map(f)[i] == y;
        assert(s.filter_map(f)[i] == y);
    } else {
        assert(s.filter_map(f)[front.filter_map(f).len() as int] == y);
    }
}

} // verus!
