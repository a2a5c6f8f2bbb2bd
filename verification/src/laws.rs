//! Laws that relate several list operations, proved once and for all.
//! Each law is stated over the sequence views that the operations'
//! contracts use, so it applies to every list those contracts describe.

use crate::list::{interleave_seq, list_interleave, seq_eq_by_elems};
use crate::seq_facts::lemma_reverse_involution;
use vstd::prelude::*;
use vstd::std_specs::cmp::PartialEqSpec;

verus! {

/// One stack operation: a push of an element, or a pop.
pub enum StackOp<T> {
    Push(T),
    Pop,
}

/// The view of a list after running `ops` from the empty list, following
/// the contracts of `List::push` and `List::pop`: a push puts its element
/// in front, a pop on a non-empty list removes the front, and a pop on an
/// empty list changes nothing.
pub open spec fn run_ops<T>(ops: Seq<StackOp<T>>) -> Seq<T>
    decreases ops.len(),
{
    if ops.len() == 0 {
        Seq::empty()
    } else {
        let prev = run_ops(ops.drop_last());
        match ops.last() {
            StackOp::Push(e) => seq![e] + prev,
            StackOp::Pop => if prev.len() == 0 {
                prev
            } else {
                prev.drop_first()
            },
        }
    }
}

/// How many of the operations in `ops` are pushes.
pub open spec fn count_pushes<T>(ops: Seq<StackOp<T>>) -> int
    decreases ops.len(),
{
    if ops.len() == 0 {
        0
    } else {
        count_pushes(ops.drop_last()) + if ops.last() is Push {
            1int
        } else {
            0int
        }
    }
}

/// How many of the pops in `ops` succeed, that is, find a non-empty list.
pub open spec fn count_successful_pops<T>(ops: Seq<StackOp<T>>) -> int
    decreases ops.len(),
{
    if ops.len() == 0 {
        0
    } else {
        count_successful_pops(ops.drop_last()) + if ops.last() is Pop && run_ops(
            ops.drop_last(),
        ).len() > 0 {
            1int
        } else {
            0int
        }
    }
}

/// After any sequence of pushes and pops, `len()` is the number of
/// pushes minus the number of successful pops.
pub proof fn lemma_len_counts_operations<T>(ops: Seq<StackOp<T>>)
    ensures
        run_ops(ops).len() == count_pushes(ops) - count_successful_pops(ops),
    decreases ops.len(),
{
    if ops.len() == 0 {
    } else {
        lemma_len_counts_operations(ops.drop_last());
    }
}

/// Pushing the elements of `elems` in order onto an empty list leaves
/// the view `elems.reverse()`, so popping yields the pushed elements
/// newest first: the list is a stack.
pub proof fn lemma_pushes_are_lifo<T>(elems: Seq<T>)
    ensures
        run_ops(elems.map_values(|e: T| StackOp::Push(e))) == elems.reverse(),
    decreases elems.len(),
{
    let ops = elems.map_values(|e: T| StackOp::Push(e));
    if elems.len() == 0 {
        assert(run_ops(ops) =~= elems.reverse());
    } else {
        let front = elems.drop_last();
        assert(ops.drop_last() =~= front.map_values(|e: T| StackOp::Push(e)));
        lemma_pushes_are_lifo(front);
        assert(ops.last() == StackOp::Push(elems.last()));
        assert(run_ops(ops) == seq![elems.last()] + front.reverse());
        assert(elems.reverse() =~= seq![elems.last()] + front.reverse());
    }
}

/// The elements yielded by removing the front over and over until the
/// list is empty, as both `List::pop` and `IntoIter::next` do.
pub open spec fn pop_all<T>(v: Seq<T>) -> Seq<T>
    decreases v.len(),
{
    if v.len() == 0 {
        Seq::empty()
    } else {
        seq![v[0]] + pop_all(v.drop_first())
    }
}

/// Consuming iteration yields the same sequence as repeated `pop`:
/// `into_iter` keeps the view, `IntoIter::next` has exactly `List::pop`'s
/// contract, and either way the yielded sequence is the view itself.
pub proof fn lemma_iteration_matches_pop<T>(v: Seq<T>)
    ensures
        pop_all(v) == v,
    decreases v.len(),
{
    if v.len() == 0 {
        assert(pop_all(v) =~= v);
    } else {
        lemma_iteration_matches_pop(v.drop_first());
        assert(pop_all(v) =~= v);
    }
}

/// Reversal is an involution: `List::reverse` turns the view into its
/// reversal, so reversing a list twice leaves a view equal to the
/// original one.
pub proof fn lemma_reverse_twice_is_identity<T>(s: Seq<T>)
    ensures
        s.reverse().reverse() == s,
{
    lemma_reverse_involution(s);
}

/// `apply` with an identity mapper preserves order and content: when
/// every result the mapper can return equals its argument, the sequence
/// `apply` guarantees equals the original view.
pub proof fn lemma_apply_identity<T, F: Fn(&T) -> T>(f: F, s: Seq<T>, r: Seq<T>)
    requires
        r.len() == s.len(),
        forall|i: int| 0 <= i < s.len() ==> call_ensures(f, (&s[i],), #[trigger] r[i]),
        forall|x: &T, y: T| call_ensures(f, (x,), y) ==> y == *x,
    ensures
        r == s,
{
    assert forall|i: int| 0 <= i < s.len() implies r[i] == s[i] by {
        assert(call_ensures(f, (&s[i],), r[i]));
    }
    assert(r =~= s);
}

/// Two lists are equal exactly when they hold the same elements in the
/// same order: when the element type's equality specification means
/// value equality, the chain equality that `List::eq` decides holds if
/// and only if the views are equal.  Lists built by pushing the same
/// elements in the same order have equal views, so they are equal, and
/// lists differing in any element or in length are not.
pub proof fn lemma_eq_is_view_eq<T: PartialEq>(x: Seq<T>, y: Seq<T>)
    requires
        forall|a: T, b: T| #[trigger] a.eq_spec(&b) <==> a == b,
    ensures
        seq_eq_by_elems(x, y) <==> x == y,
    decreases x.len(),
{
    if x.len() == 0 || y.len() == 0 {
        if x.len() == y.len() {
            assert(x =~= y);
        }
    } else {
        lemma_eq_is_view_eq(x.drop_first(), y.drop_first());
        assert(x[0].eq_spec(&y[0]) <==> x[0] == y[0]);
        if x[0] == y[0] && x.drop_first() == y.drop_first() {
            assert forall|i: int| 0 <= i < x.len() implies x[i] == y[i] by {
                if i > 0 {
                    assert(x.drop_first()[i - 1] == y.drop_first()[i - 1]);
                }
            }
            assert(x =~= y);
        }
        if x == y {
            assert(x.drop_first() =~= y.drop_first());
            assert(x[0] == y[0]);
        }
    }
}

/// Interleaving with one empty input returns the non-empty input's
/// elements in their own order, whichever side of the parity rule the
/// lengths fall on.
pub proof fn lemma_interleave_with_empty<T>(s: Seq<T>)
    ensures
        list_interleave(s, Seq::empty()) == s,
        list_interleave(Seq::empty(), s) == s,
{
    if s.len() > 0 {
        assert(interleave_seq(Seq::<T>::empty(), s.drop_first()) == s.drop_first());
        assert(interleave_seq(s, Seq::<T>::empty()) =~= s);
    }
}

} // verus!
