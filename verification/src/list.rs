//! The list container: a chain of singly linked nodes with a cached size.
//!
//! The mathematical model of a list is the sequence of its elements in
//! head-to-tail order (`view`); every operation's contract is stated over
//! that sequence.

use crate::seq_facts::{lemma_reverse_concat, lemma_reverse_cons, lemma_reverse_involution};
use vstd::prelude::*;
use vstd::std_specs::cmp::PartialEqSpec;
use vstd::string::StringExecFns;

verus! {

/// One link in the chain: an element and exclusive ownership of the
/// following node, or none at the end of the chain.
#[derive(Debug)]
pub struct Node<T> {
    elem: T,
    next: Option<Box<Node<T>>>,
}

/// The elements reachable from a link, head first.
pub closed spec fn chain_view<T>(link: Option<Box<Node<T>>>) -> Seq<T>
    decreases link,
{
    match link {
        None => Seq::empty(),
        Some(node) => seq![node.elem] + chain_view(node.next),
    }
}

/// Alternates the elements of `x` and `y`, starting with `x`; when one
/// side runs out, the rest of the other follows unchanged.
pub open spec fn interleave_seq<T>(x: Seq<T>, y: Seq<T>) -> Seq<T>
    decreases x.len() + y.len(),
{
    if x.len() == 0 {
        y
    } else {
        seq![x[0]] + interleave_seq(y, x.drop_first())
    }
}

/// What interleaving two chains at the node level produces.  Every level
/// of the recursion reverses its intermediate chain once, so the merged
/// chain comes out forward when the first chain is strictly longer and
/// reversed otherwise; an empty first chain passes the second through.
pub open spec fn chain_interleave<T>(x: Seq<T>, y: Seq<T>) -> Seq<T> {
    if x.len() == 0 {
        y
    } else if x.len() > y.len() {
        interleave_seq(x, y)
    } else {
        interleave_seq(x, y).reverse()
    }
}

/// What `List::interleave` produces: when the two lengths have the same
/// parity the second list plays the role of the leading chain, otherwise
/// the first does.
pub open spec fn list_interleave<T>(a: Seq<T>, b: Seq<T>) -> Seq<T> {
    if a.len() % 2 == b.len() % 2 {
        chain_interleave(b, a)
    } else {
        chain_interleave(a, b)
    }
}

/// Interleaving merges the two inputs without losing or adding elements,
/// so the lengths add up.
pub proof fn lemma_interleave_seq_len<T>(x: Seq<T>, y: Seq<T>)
    ensures
        interleave_seq(x, y).len() == x.len() + y.len(),
    decreases x.len() + y.len(),
{
    if x.len() == 0 {
    } else {
        lemma_interleave_seq_len(y, x.drop_first());
    }
}

/// The chain produced by the interleave recursion when an accumulator
/// chain `c` is already in front of the work.
pub open spec fn interleave_onto<T>(c: Seq<T>, x: Seq<T>, y: Seq<T>) -> Seq<T> {
    if x.len() == 0 && y.len() == 0 {
        Seq::empty()
    } else if x.len() == 0 {
        c.reverse() + y
    } else if x.len() > y.len() {
        c.reverse() + interleave_seq(x, y)
    } else {
        interleave_seq(x, y).reverse() + c
    }
}

impl<T> Node<T> {
    /// Detaches the nodes of `head` one by one and reattaches each in
    /// front of an accumulator that starts as `init`; the chain comes out
    /// reversed, with `init` behind it.
    fn _reverse(init: Option<Box<Node<T>>>, head: Option<Box<Node<T>>>) -> (r: Option<
        Box<Node<T>>,
    >)
        ensures
            chain_view(r) == chain_view(head).reverse() + chain_view(init),
    {
        let mut prev = init;
        let mut curr_head = head;
        let ghost goal = chain_view(curr_head).reverse() + chain_view(prev);
        loop
            invariant
                chain_view(curr_head).reverse() + chain_view(prev) == goal,
            ensures
                chain_view(prev) == goal,
            decreases chain_view(curr_head).len(),
        {
            match curr_head {
                None => {
                    break ;
                },
                Some(mut curr) => {
                    proof {
                        lemma_reverse_cons(curr.elem, chain_view(curr.next));
                    }
                    curr_head = curr.next.take();
                    curr.next = prev;
                    prev = Some(curr);
                    proof {
                        assert(chain_view(curr_head).reverse() + chain_view(prev) =~= goal);
                    }
                },
            }
        }
        prev
    }

    /// Reverses a whole chain in place; ownership of the nodes moves, no
    /// node is copied.
    pub fn reverse(head: Option<Box<Node<T>>>) -> (r: Option<Box<Node<T>>>)
        ensures
            chain_view(r) == chain_view(head).reverse(),
    {
        let r = Self::_reverse(None, head);
        proof {
            assert(chain_view(head).reverse() + chain_view(None::<Box<Node<T>>>) =~= chain_view(
                head,
            ).reverse());
        }
        r
    }

    /// Consumes the head of `first`, puts it in front of the accumulator
    /// `curr`, and recurses with the roles of the two inputs swapped;
    /// when one input runs out, the rest of the other is reversed onto
    /// the accumulator.  Each level reverses its intermediate chain once
    /// on the way out.
    fn _interleave(
        curr: Option<Box<Node<T>>>,
        first: Option<Box<Node<T>>>,
        second: Option<Box<Node<T>>>,
    ) -> (r: Option<Box<Node<T>>>)
        ensures
            chain_view(r) == interleave_onto(
                chain_view(curr),
                chain_view(first),
                chain_view(second),
            ),
        decreases chain_view(first).len() + chain_view(second).len(),
    {
        let ghost c = chain_view(curr);
        let ghost x = chain_view(first);
        let ghost y = chain_view(second);
        let r = match (first, second) {
            (None, None) => {
                proof {
                    assert(chain_view(None::<Box<Node<T>>>).reverse() =~= Seq::<T>::empty());
                    assert(chain_view(None::<Box<Node<T>>>).reverse() == interleave_onto(c, x, y));
                }
                None
            },
            (Some(f), None) => {
                proof {
                    assert(x.len() > 0);
                }
                let out = Self::_reverse(curr, Some(f));
                proof {
                    lemma_reverse_concat(x.reverse(), c);
                    lemma_reverse_involution(x);
                    assert(interleave_seq(y, x.drop_first()) == x.drop_first());
                    assert(interleave_seq(x, y) =~= x);
                    assert(chain_view(out).reverse() == interleave_onto(c, x, y));
                }
                out
            },
            (None, Some(s)) => {
                let out = Self::_reverse(curr, Some(s));
                proof {
                    lemma_reverse_concat(y.reverse(), c);
                    lemma_reverse_involution(y);
                    assert(chain_view(out).reverse() == interleave_onto(c, x, y));
                }
                out
            },
            (Some(mut f), Some(s)) => {
                let f_next = f.next.take();
                f.next = curr;
                proof {
                    assert(x == seq![x[0]] + chain_view(f_next));
                    assert(chain_view(f_next) =~= x.drop_first());
                    assert(chain_view(Some(f)) == seq![x[0]] + c);
                }
                let out = Self::_interleave(Some(f), Some(s), f_next);
                proof {
                    let xr = x.drop_first();
                    let inner = interleave_onto(seq![x[0]] + c, y, xr);
                    assert(chain_view(out) == inner);
                    assert(interleave_seq(x, y) == seq![x[0]] + interleave_seq(y, xr));
                    if y.len() > xr.len() {
                        // the merged chain is still reversed one level up
                        assert(inner == (seq![x[0]] + c).reverse() + interleave_seq(y, xr));
                        lemma_reverse_concat((seq![x[0]] + c).reverse(), interleave_seq(y, xr));
                        lemma_reverse_involution(seq![x[0]] + c);
                        lemma_reverse_cons(x[0], interleave_seq(y, xr));
                        assert(inner.reverse() =~= (interleave_seq(x, y).reverse() + c));
                    } else {
                        // the merged chain comes back forward
                        assert(inner == interleave_seq(y, xr).reverse() + (seq![x[0]] + c));
                        lemma_reverse_concat(interleave_seq(y, xr).reverse(), seq![x[0]] + c);
                        lemma_reverse_involution(interleave_seq(y, xr));
                        lemma_reverse_cons(x[0], c);
                        assert(inner.reverse() =~= c.reverse() + interleave_seq(x, y));
                    }
                    assert(chain_view(out).reverse() == interleave_onto(c, x, y));
                }
                out
            },
        };
        let res = Self::reverse(r);
        res
    }

    /// Merges two chains by alternate consumption, starting with `first`;
    /// see `chain_interleave` for the order the merged chain comes out in.
    pub fn interleave(first: Option<Box<Node<T>>>, second: Option<Box<Node<T>>>) -> (r: Option<
        Box<Node<T>>,
    >)
        ensures
            chain_view(r) == chain_interleave(chain_view(first), chain_view(second)),
    {
        let ghost x = chain_view(first);
        let ghost y = chain_view(second);
        let r = Self::_interleave(None, first, second);
        proof {
            assert(chain_view(None::<Box<Node<T>>>).reverse() =~= Seq::<T>::empty());
            if x.len() == 0 && y.len() == 0 {
                assert(chain_view(r) =~= chain_interleave(x, y));
            } else if x.len() == 0 {
                assert(chain_view(r) =~= chain_interleave(x, y));
            } else if x.len() > y.len() {
                assert(chain_view(r) =~= chain_interleave(x, y));
            } else {
                assert(chain_view(r) =~= chain_interleave(x, y));
            }
        }
        r
    }
}

/// A singly linked list: the head link plus a cached element count.
#[derive(Debug)]
pub struct List<T> {
    head: Option<Box<Node<T>>>,
    size: usize,
}

impl<T> View for List<T> {
    type V = Seq<T>;

    closed spec fn view(&self) -> Seq<T> {
        chain_view(self.head)
    }
}

impl<T> List<T> {
    /// The cached size agrees with the number of nodes in the chain.
    pub closed spec fn wf(&self) -> bool {
        self.size == chain_view(self.head).len()
    }

    /// Returns an empty list.
    pub fn new() -> (r: Self)
        ensures
            r@ == Seq::<T>::empty(),
            r.wf(),
    {
        List { head: None, size: 0 }
    }

    /// Returns the number of elements, from the cached count.
    pub fn len(&self) -> (r: usize)
        requires
            self.wf(),
        ensures
            r == self@.len(),
    {
        self.size
    }

    /// Puts `elem` in front of all current elements.
    pub fn push(&mut self, elem: T)
        requires
            old(self).wf(),
            old(self)@.len() < usize::MAX,
        ensures
            final(self).wf(),
            final(self)@ == seq![elem] + old(self)@,
    {
        let new_node = Box::new(Node { elem, next: self.head.take() });
        self.size = self.size + 1;
        self.head = Some(new_node);
    }

    /// Removes and returns the front element; `None` on an empty list,
    /// which it leaves unchanged.
    pub fn pop(&mut self) -> (r: Option<T>)
        requires
            old(self).wf(),
        ensures
            final(self).wf(),
            match r {
                None => old(self)@.len() == 0 && *final(self) == *old(self),
                Some(e) => {
                    &&& old(self)@.len() > 0
                    &&& e == old(self)@[0]
                    &&& final(self)@ == old(self)@.drop_first()
                },
            },
    {
        match self.head.take() {
            None => None,
            Some(node) => {
                let node = *node;
                self.head = node.next;
                self.size = self.size - 1;
                assert(self@ =~= old(self)@.drop_first());
                Some(node.elem)
            },
        }
    }

    /// Replaces the chain with its reversal; a no-op on an empty list.
    pub fn reverse(&mut self)
        requires
            old(self).wf(),
        ensures
            final(self).wf(),
            final(self)@ == old(self)@.reverse(),
    {
        match self.head.take() {
            None => {
                assert(self@ =~= old(self)@.reverse());
            },
            Some(node) => {
                self.head = Node::reverse(Some(node));
            },
        }
    }

    /// Borrows the front element, or `None` on an empty list.
    pub fn peek(&self) -> (r: Option<&T>)
        ensures
            match r {
                None => self@.len() == 0,
                Some(e) => self@.len() > 0 && *e == self@[0],
            },
    {
        match &self.head {
            None => None,
            Some(node) => Some(&node.elem),
        }
    }

    /// Borrows the front element mutably, or `None` on an empty list.
    /// Writing through the reference replaces the front element and
    /// nothing else.
    pub fn peek_mut(&mut self) -> (r: Option<&mut T>)
        requires
            old(self).wf(),
        ensures
            match r {
                None => old(self)@.len() == 0 && *final(self) == *old(self),
                Some(e) => {
                    &&& old(self)@.len() > 0
                    &&& *e == old(self)@[0]
                    &&& final(self)@ == old(self)@.update(0, *final(e))
                    &&& final(self).wf()
                },
            },
    {
        match &mut self.head {
            None => None,
            Some(node) => Some(&mut node.elem),
        }
    }

    /// Builds a new list by applying `mapper_func` to every element in
    /// front-to-back order; the output keeps that order.
    pub fn apply<U, F: Fn(&T) -> U>(&self, mapper_func: F) -> (r: List<U>)
        requires
            self.wf(),
            forall|i: int| 0 <= i < self@.len() ==> call_requires(mapper_func, (&self@[i],)),
        ensures
            r.wf(),
            r@.len() == self@.len(),
            forall|i: int|
                0 <= i < self@.len() ==> call_ensures(mapper_func, (&self@[i],), #[trigger] r@[i]),
    {
        let mut new_list: List<U> = List::new();
        let mut curr = &self.head;
        let ghost mut outs: Seq<U> = Seq::empty();
        loop
            invariant
                self.wf(),
                forall|i: int| 0 <= i < self@.len() ==> call_requires(mapper_func, (&self@[i],)),
                outs.len() <= self@.len(),
                chain_view(*curr) == self@.skip(outs.len() as int),
                new_list@ == outs.reverse(),
                new_list.wf(),
                forall|i: int|
                    0 <= i < outs.len() ==> call_ensures(
                        mapper_func,
                        (&self@[i],),
                        #[trigger] outs[i],
                    ),
            ensures
                outs.len() == self@.len(),
                new_list@ == outs.reverse(),
                new_list.wf(),
                forall|i: int|
                    0 <= i < outs.len() ==> call_ensures(
                        mapper_func,
                        (&self@[i],),
                        #[trigger] outs[i],
                    ),
            decreases chain_view(*curr).len(),
        {
            let ghost k = outs.len() as int;
            match curr {
                None => {
                    proof {
                        assert(self@.skip(k).len() == 0);
                    }
                    break ;
                },
                Some(node) => {
                    proof {
                        assert(chain_view(*curr) == seq![node.elem] + chain_view(node.next));
                        assert(self@.skip(k)[0] == node.elem);
                        assert(self@.skip(k)[0] == self@[k]);
                        assert forall|j: int| 0 <= j < chain_view(node.next).len() implies
                            chain_view(node.next)[j] == self@[k + 1 + j] by {
                            assert(chain_view(node.next)[j] == self@.skip(k)[j + 1]);
                        }
                    }
                    let u = mapper_func(&node.elem);
                    new_list.push(u);
                    proof {
                        lemma_reverse_concat(outs, seq![u]);
                        assert(seq![u].reverse() =~= seq![u]);
                        assert(outs.push(u) =~= outs + seq![u]);
                        outs = outs.push(u);
                        assert(new_list@ =~= outs.reverse());
                        assert(chain_view(node.next) =~= self@.skip(k + 1));
                    }
                    curr = &node.next;
                },
            }
        }
        new_list.reverse();
        proof {
            lemma_reverse_involution(outs);
        }
        new_list
    }

    /// Consumes both lists and merges them.  Which input's head leads is
    /// decided by the parity rule of `list_interleave`; the resulting
    /// size is the sum of the two input sizes.
    pub fn interleave(self, other: Self) -> (r: Self)
        requires
            self.wf(),
            other.wf(),
            self@.len() + other@.len() <= usize::MAX,
        ensures
            r.wf(),
            r@ == list_interleave(self@, other@),
            r@.len() == self@.len() + other@.len(),
    {
        let mut this = self;
        let mut that = other;
        let n = this.size % 2 == 1;
        let m = that.size % 2 == 1;
        match (n, m) {
            (true, true) | (false, false) => {
                this.head = Node::interleave(that.head.take(), this.head.take());
                proof {
                    lemma_chain_interleave_len(other@, self@);
                }
            },
            _ => {
                this.head = Node::interleave(this.head.take(), that.head.take());
                proof {
                    lemma_chain_interleave_len(self@, other@);
                }
            },
        }
        this.size = this.size + that.size;
        this
    }

    /// Wraps the list in a consuming iterator.
    pub fn into_iter(self) -> (r: IntoIter<T>)
        requires
            self.wf(),
        ensures
            r.wf(),
            r@ == self@,
    {
        IntoIter(self)
    }
}

/// A consuming iterator over a list: yields the elements front to back
/// by removing the front element each time.
pub struct IntoIter<T>(List<T>);

impl<T> View for IntoIter<T> {
    type V = Seq<T>;

    closed spec fn view(&self) -> Seq<T> {
        self.0@
    }
}

impl<T> IntoIter<T> {
    /// The wrapped list keeps its size cache consistent.
    pub closed spec fn wf(&self) -> bool {
        self.0.wf()
    }

    /// Removes and yields the front element, exactly as `List::pop` does;
    /// `None` once the list is empty.
    pub fn next(&mut self) -> (r: Option<T>)
        requires
            old(self).wf(),
        ensures
            final(self).wf(),
            match r {
                None => old(self)@.len() == 0 && *final(self) == *old(self),
                Some(e) => {
                    &&& old(self)@.len() > 0
                    &&& e == old(self)@[0]
                    &&& final(self)@ == old(self)@.drop_first()
                },
            },
    {
        self.0.pop()
    }
}

/// The text of the element texts in `parts`, each followed by an arrow.
pub open spec fn arrows_text(parts: Seq<Seq<char>>) -> Seq<char>
    decreases parts.len(),
{
    if parts.len() == 0 {
        Seq::empty()
    } else {
        parts[0] + "->"@ + arrows_text(parts.drop_first())
    }
}

/// The rendering of a list whose element texts are `parts`:
/// `elem->elem->...->end`.
pub open spec fn rendered(parts: Seq<Seq<char>>) -> Seq<char> {
    arrows_text(parts) + "end"@
}

/// Appending one more element text extends the arrow text at its end.
proof fn lemma_arrows_snoc(parts: Seq<Seq<char>>, p: Seq<char>)
    ensures
        arrows_text(parts.push(p)) == arrows_text(parts) + p + "->"@,
    decreases parts.len(),
{
    if parts.len() == 0 {
        assert(parts.push(p).drop_first() =~= Seq::<Seq<char>>::empty());
        assert(arrows_text(Seq::<Seq<char>>::empty()) == Seq::<char>::empty());
        assert(parts.push(p)[0] == p);
        assert(arrows_text(parts.push(p)) =~= arrows_text(parts) + p + "->"@);
    } else {
        assert(parts.push(p).drop_first() =~= parts.drop_first().push(p));
        lemma_arrows_snoc(parts.drop_first(), p);
        assert(parts.push(p)[0] == parts[0]);
        assert(arrows_text(parts.push(p)) =~= arrows_text(parts) + p + "->"@);
    }
}

impl<T> List<T> {
    /// Renders the elements front to back as `elem->elem->...->end`,
    /// with `f` supplying the text of one element.
    pub fn render<F: Fn(&T) -> String>(&self, f: F) -> (r: String)
        requires
            self.wf(),
            forall|i: int| 0 <= i < self@.len() ==> call_requires(f, (&self@[i],)),
        ensures
            exists|parts: Seq<String>|
                {
                    &&& parts.len() == self@.len()
                    &&& (forall|i: int|
                        0 <= i < parts.len() ==> call_ensures(f, (&self@[i],), #[trigger] parts[i]))
                    &&& r@ == rendered(parts.map_values(|s: String| s@))
                },
    {
        let mut out = String::new();
        let mut curr = &self.head;
        let ghost mut parts: Seq<String> = Seq::empty();
        proof {
            assert(parts.map_values(|s: String| s@) =~= Seq::<Seq<char>>::empty());
        }
        loop
            invariant
                self.wf(),
                forall|i: int| 0 <= i < self@.len() ==> call_requires(f, (&self@[i],)),
                parts.len() <= self@.len(),
                chain_view(*curr) == self@.skip(parts.len() as int),
                forall|i: int|
                    0 <= i < parts.len() ==> call_ensures(f, (&self@[i],), #[trigger] parts[i]),
                out@ == arrows_text(parts.map_values(|s: String| s@)),
            ensures
                parts.len() == self@.len(),
                forall|i: int|
                    0 <= i < parts.len() ==> call_ensures(f, (&self@[i],), #[trigger] parts[i]),
                out@ == arrows_text(parts.map_values(|s: String| s@)),
            decreases chain_view(*curr).len(),
        {
            let ghost k = parts.len() as int;
            match curr {
                None => {
                    proof {
                        assert(self@.skip(k).len() == 0);
                    }
                    break ;
                },
                Some(node) => {
                    proof {
                        assert(chain_view(*curr) == seq![node.elem] + chain_view(node.next));
                        assert(self@.skip(k)[0] == node.elem);
                        assert(self@.skip(k)[0] == self@[k]);
                        assert forall|j: int| 0 <= j < chain_view(node.next).len() implies
                            chain_view(node.next)[j] == self@[k + 1 + j] by {
                            assert(chain_view(node.next)[j] == self@.skip(k)[j + 1]);
                        }
                    }
                    let piece = f(&node.elem);
                    out.append(piece.as_str());
                    out.append("->");
                    proof {
                        let ghost old_parts = parts;
                        parts = parts.push(piece);
                        lemma_arrows_snoc(old_parts.map_values(|s: String| s@), piece@);
                        assert(parts.map_values(|s: String| s@) =~= old_parts.map_values(
                            |s: String| s@,
                        ).push(piece@));
                        assert(out@ =~= arrows_text(parts.map_values(|s: String| s@)));
                        assert(chain_view(node.next) =~= self@.skip(k + 1));
                    }
                    curr = &node.next;
                },
            }
        }
        out.append("end");
        proof {
            assert(out@ == rendered(parts.map_values(|s: String| s@)));
        }
        out
    }
}

/// Element-by-element equality of two sequences, phrased over the
/// element type's own equality specification.
pub open spec fn seq_eq_by_elems<T: PartialEq>(x: Seq<T>, y: Seq<T>) -> bool
    decreases x.len(),
{
    if x.len() == 0 || y.len() == 0 {
        x.len() == y.len()
    } else {
        x[0].eq_spec(&y[0]) && seq_eq_by_elems(x.drop_first(), y.drop_first())
    }
}

/// Walks the two chains together, comparing element by element; the
/// chains are equal when they have the same length and equal elements
/// in the same order.
fn _eq<T: PartialEq>(curr: &Option<Box<Node<T>>>, other: &Option<Box<Node<T>>>) -> (r: bool)
    ensures
        T::obeys_eq_spec() ==> r == seq_eq_by_elems(chain_view(*curr), chain_view(*other)),
    decreases chain_view(*curr).len(),
{
    match (curr, other) {
        (None, None) => true,
        (Some(_), None) => false,
        (None, Some(_)) => false,
        (Some(n1), Some(n2)) => {
            proof {
                assert(chain_view(*curr) == seq![n1.elem] + chain_view(n1.next));
                assert(chain_view(*other) == seq![n2.elem] + chain_view(n2.next));
                assert(chain_view(*curr)[0] == n1.elem);
                assert(chain_view(*other)[0] == n2.elem);
                assert(chain_view(*curr).drop_first() =~= chain_view(n1.next));
                assert(chain_view(*other).drop_first() =~= chain_view(n2.next));
            }
            if n1.elem == n2.elem {
                _eq(&n1.next, &n2.next)
            } else {
                false
            }
        },
    }
}

impl<T: PartialEq> PartialEq for List<T> {
    /// Two lists are equal when their chains hold equal elements in the
    /// same order.
    fn eq(&self, other: &Self) -> (r: bool) {
        _eq(&self.head, &other.head)
    }
}

impl<T: PartialEq> vstd::std_specs::cmp::PartialEqSpecImpl for List<T> {
    open spec fn obeys_eq_spec() -> bool {
        T::obeys_eq_spec()
    }

    open spec fn eq_spec(&self, other: &Self) -> bool {
        seq_eq_by_elems(self@, other@)
    }
}

impl<T> Drop for List<T> {
    /// Tears the chain down iteratively, so that dropping a long list
    /// does not recurse once per node.
    fn drop(&mut self)
        opens_invariants none
        no_unwind
    {
        let mut cur: Option<Box<Node<T>>> = None;
        core::mem::swap(&mut cur, &mut self.head);
        loop
            decreases chain_view(cur).len(),
        {
            match cur {
                None => {
                    break ;
                },
                Some(node) => {
                    let mut node = node;
                    let mut rest: Option<Box<Node<T>>> = None;
                    core::mem::swap(&mut rest, &mut node.next);
                    cur = rest;
                },
            }
        }
    }
}

/// Interleaving at the chain level also adds the lengths.
pub proof fn lemma_chain_interleave_len<T>(x: Seq<T>, y: Seq<T>)
    ensures
        chain_interleave(x, y).len() == x.len() + y.len(),
{
    if x.len() == 0 {
    } else {
        lemma_interleave_seq_len(x, y);
    }
}

} // verus!
