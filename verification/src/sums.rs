//! Sums over indexes, and counts of items in sequences.

use vstd::multiset::Multiset;
use vstd::prelude::*;

use crate::active::lemma_bag_join;

verus! {

broadcast use vstd::seq_lib::group_to_multiset_ensures;

/// The sum of `f` over the indexes below `n`.
pub open spec fn sum_over(n: nat, f: spec_fn(int) -> int) -> int
    decreases n,
{
    if n == 0 {
        0
    } else {
        sum_over((n - 1) as nat, f) + f(n - 1)
    }
}

/// Sums of the same terms are the same.
pub proof fn lemma_sum_same(n: nat, f: spec_fn(int) -> int, g: spec_fn(int) -> int)
    requires
        forall|k: int| 0 <= k < n ==> #[trigger] f(k) == g(k),
    ensures
        sum_over(n, f) == sum_over(n, g),
    decreases n,
{
    if n > 0 {
        lemma_sum_same((n - 1) as nat, f, g);
        assert(f(n - 1) == g(n - 1));
    }
}

/// A sum of zeros is zero.
pub proof fn lemma_sum_zero(n: nat, f: spec_fn(int) -> int)
    requires
        forall|k: int| 0 <= k < n ==> #[trigger] f(k) == 0,
    ensures
        sum_over(n, f) == 0,
    decreases n,
{
    if n > 0 {
        lemma_sum_zero((n - 1) as nat, f);
        assert(f(n - 1) == 0);
    }
}

/// A sum is its first term and the sum of the others.
pub proof fn lemma_sum_first(n: nat, f: spec_fn(int) -> int, g: spec_fn(int) -> int)
    requires
        n > 0,
        forall|k: int| 0 <= k < n - 1 ==> #[trigger] g(k) == f(k + 1),
    ensures
        sum_over(n, f) == f(0) + sum_over((n - 1) as nat, g),
    decreases n,
{
    if n > 1 {
        lemma_sum_first((n - 1) as nat, f, g);
        assert(g(n - 2) == f(n - 1));
    } else {
        reveal_with_fuel(sum_over, 2);
    }
}

/// Sequences joined hold an item as often as both together.
pub proof fn lemma_count_join<A>(a: Seq<A>, b: Seq<A>, x: A)
    ensures
        (a + b).to_multiset().count(x) == a.to_multiset().count(x) + b.to_multiset().count(x),
{
    lemma_bag_join(a, b);
}

/// An empty sequence holds nothing, and one of one item holds that.
pub proof fn lemma_count_small<A>(y: A, x: A)
    ensures
        Seq::<A>::empty().to_multiset().count(x) == 0,
        seq![y].to_multiset().count(x) == (if y == x {
            1nat
        } else {
            0
        }),
{
    let none = Seq::<A>::empty();
    assert(none.to_multiset() =~= Multiset::<A>::empty());
    assert(seq![y] =~= none.push(y));
}

/// How often a sequence holds an item, by its first item and by its last.
pub proof fn lemma_count_ends<A>(s: Seq<A>, x: A)
    requires
        s.len() > 0,
    ensures
        s.to_multiset().count(x) == s.drop_first().to_multiset().count(x) + (if s[0] == x {
            1nat
        } else {
            0
        }),
        s.to_multiset().count(x) == s.drop_last().to_multiset().count(x) + (if s.last() == x {
            1nat
        } else {
            0
        }),
{
    lemma_count_small(s[0], x);
    lemma_count_small(s.last(), x);
    lemma_count_join(seq![s[0]], s.drop_first(), x);
    lemma_count_join(s.drop_last(), seq![s.last()], x);
    assert(s =~= seq![s[0]] + s.drop_first());
    assert(s =~= s.drop_last() + seq![s.last()]);
}

} // verus!
