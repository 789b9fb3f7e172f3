//! Small sequence lemmas used by the filtering loops of the peer list and
//! the claim table.

use vstd::prelude::*;

verus! {

/// Unfolds one step of `filter` over a growing prefix: filtering the first
/// `i + 1` elements keeps the filtered first `i` elements and appends the
/// `i`-th element iff the predicate holds of it.
pub proof fn lemma_filter_take_succ<A>(s: Seq<A>, pred: spec_fn(A) -> bool, i: int)
    requires
        0 <= i < s.len(),
    ensures
        s.take(i + 1).filter(pred) == if pred(s[i]) {
            s.take(i).filter(pred).push(s[i])
        } else {
            s.take(i).filter(pred)
        },
{
    reveal(Seq::filter);
    assert(s.take(i + 1).drop_last() =~= s.take(i));
    assert(s.take(i + 1).last() == s[i]);
}

/// Filtering the whole sequence is filtering the full-length prefix.
pub proof fn lemma_filter_take_all<A>(s: Seq<A>, pred: spec_fn(A) -> bool)
    ensures
        s.take(s.len() as int).filter(pred) == s.filter(pred),
{
    assert(s.take(s.len() as int) =~= s);
}

/// A filtered sequence keeps exactly the elements that satisfy the predicate,
/// in order; membership transfers both ways.
pub proof fn lemma_filter_membership<A>(s: Seq<A>, pred: spec_fn(A) -> bool)
    ensures
        forall|i: int|
            0 <= i < s.filter(pred).len() ==> pred(#[trigger] s.filter(pred)[i]) && s.contains(
                s.filter(pred)[i],
            ),
        forall|i: int| 0 <= i < s.len() && pred(s[i]) ==> #[trigger] s.filter(pred).contains(s[i]),
    decreases s.len(),
{
    reveal(Seq::filter);
    if s.len() > 0 {
        lemma_filter_membership(s.drop_last(), pred);
        let f = s.filter(pred);
        let fd = s.drop_last().filter(pred);
        assert forall|i: int| 0 <= i < f.len() implies pred(#[trigger] f[i]) && s.contains(
            f[i],
        ) by {
            if i < fd.len() {
                assert(fd[i] == f[i]);
                assert(s.drop_last().contains(fd[i]));
                let j = choose|j: int| 0 <= j < s.drop_last().len() && s.drop_last()[j] == fd[i];
                assert(s[j] == fd[i]);
            } else {
                assert(s[s.len() - 1] == f[i]);
            }
        }
        assert forall|i: int| 0 <= i < s.len() && pred(s[i]) implies #[trigger] f.contains(
            s[i],
        ) by {
            if i < s.len() - 1 {
                assert(s.drop_last()[i] == s[i]);
                assert(fd.contains(s[i]));
                let j = choose|j: int| 0 <= j < fd.len() && fd[j] == s[i];
                assert(f[j] == s[i]);
            } else {
                assert(f.last() == s[i]);
            }
        }
    }
}

/// Filtering a sequence in which every element satisfies the predicate
/// returns the sequence itself.
pub proof fn lemma_filter_all_true<A>(s: Seq<A>, pred: spec_fn(A) -> bool)
    requires
        forall|i: int| 0 <= i < s.len() ==> pred(#[trigger] s[i]),
    ensures
        s.filter(pred) == s,
    decreases s.len(),
{
    reveal(Seq::filter);
    if s.len() > 0 {
        lemma_filter_all_true(s.drop_last(), pred);
        assert(s.drop_last().push(s.last()) =~= s);
    }
}

/// When exactly one element fails the predicate, filtering equals removing
/// that element.
pub proof fn lemma_filter_skips_one<A>(s: Seq<A>, pred: spec_fn(A) -> bool, i: int)
    requires
        0 <= i < s.len(),
        !pred(s[i]),
        forall|j: int| 0 <= j < s.len() && j != i ==> pred(#[trigger] s[j]),
    ensures
        s.filter(pred) == s.remove(i),
{
    reveal_with_fuel(Seq::filter, 3);
    let a = s.take(i);
    let b = seq![s[i]];
    let c = s.skip(i + 1);
    assert(s =~= a + (b + c));
    Seq::filter_distributes_over_add(a, b + c, pred);
    Seq::filter_distributes_over_add(b, c, pred);
    lemma_filter_all_true(a, pred);
    lemma_filter_all_true(c, pred);
    assert(b.drop_last() =~= Seq::<A>::empty());
    assert(b.filter(pred) =~= Seq::<A>::empty());
    assert((a + (b + c)).filter(pred) == a.filter(pred) + (b + c).filter(pred));
    assert(s.filter(pred) =~= a + c);
    assert(s.remove(i) =~= a + c);
}

/// Filtering a sequence in which no element satisfies the predicate
/// returns the empty sequence.
pub proof fn lemma_filter_all_false<A>(s: Seq<A>, pred: spec_fn(A) -> bool)
    requires
        forall|i: int| 0 <= i < s.len() ==> !pred(#[trigger] s[i]),
    ensures
        s.filter(pred).len() == 0,
    decreases s.len(),
{
    reveal(Seq::filter);
    if s.len() > 0 {
        lemma_filter_all_false(s.drop_last(), pred);
    }
}

/// Pushing an element extends sequence membership by exactly that element.
pub proof fn lemma_push_contains<A>(s: Seq<A>, x: A)
    ensures
        forall|a: A| #[trigger] s.push(x).contains(a) <==> (s.contains(a) || a == x),
{
    assert forall|a: A| #[trigger] s.push(x).contains(a) implies (s.contains(a) || a == x) by {
        let i = choose|i: int| 0 <= i < s.push(x).len() && s.push(x)[i] == a;
        if i < s.len() {
            assert(s[i] == a);
        }
    }
    assert forall|a: A| (s.contains(a) || a == x) implies #[trigger] s.push(x).contains(a) by {
        if s.contains(a) {
            let i = choose|i: int| 0 <= i < s.len() && s[i] == a;
            assert(s.push(x)[i] == a);
        } else {
            assert(s.push(x)[s.len() as int] == a);
        }
    }
}

} // verus!
