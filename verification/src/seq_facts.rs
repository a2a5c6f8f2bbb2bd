//! Small facts about `Seq::reverse` and concatenation that the list
//! proofs use repeatedly.

use vstd::prelude::*;

verus! {

/// Reversing a concatenation concatenates the reversals in swapped order.
pub proof fn lemma_reverse_concat<T>(a: Seq<T>, b: Seq<T>)
    ensures
        (a + b).reverse() == b.reverse() + a.reverse(),
{
    assert((a + b).reverse() =~= b.reverse() + a.reverse());
}

/// Reversing twice gives the original sequence back.
pub proof fn lemma_reverse_involution<T>(s: Seq<T>)
    ensures
        s.reverse().reverse() == s,
{
    assert(s.reverse().reverse() =~= s);
}

/// Prepending one element and reversing appends that element.
pub proof fn lemma_reverse_cons<T>(e: T, s: Seq<T>)
    ensures
        (seq![e] + s).reverse() == s.reverse() + seq![e],
{
    assert((seq![e] + s).reverse() =~= s.reverse() + seq![e]);
}

} // verus!
