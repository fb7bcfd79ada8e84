use vstd::prelude::*;

verus! {

/// A last-in-first-out stack.
///
/// The abstract state is the sequence of elements in push order: the
/// oldest element first, the current top last.  `push` appends at the
/// back, `pop` and `peek` work on the back, and `iter` walks the
/// sequence from front to back (push order).
pub struct Stack<T> {
    data: Vec<T>,
}

impl<T> View for Stack<T> {
    type V = Seq<T>;

    closed spec fn view(&self) -> Seq<T> {
        self.data@
    }
}

impl<T> Stack<T> {
    /// Returns an empty stack.
    pub fn new() -> (r: Self)
        ensures
            r@ == Seq::<T>::empty(),
    {
        Stack { data: Vec::new() }
    }

    /// Appends `item` as the new top of the stack.
    pub fn push(&mut self, item: T)
        ensures
            final(self)@ == old(self)@.push(item),
    {
        self.data.push(item);
    }

    /// Removes and returns the top of the stack, the element pushed
    /// most recently among those not yet popped; `None` when the stack
    /// is empty, which leaves the stack unchanged.
    pub fn pop(&mut self) -> (r: Option<T>)
        ensures
            old(self)@.len() == 0 ==> r is None && final(self)@ == old(self)@,
            old(self)@.len() > 0 ==> r == Some(old(self)@.last()) && final(self)@ == old(
                self,
            )@.drop_last(),
    {
        let r = self.data.pop();
        proof {
            if old(self)@.len() > 0 {
                assert(old(self)@.subrange(0, old(self)@.len() - 1) =~= old(self)@.drop_last());
            }
        }
        r
    }

    /// Returns a reference to the top of the stack without removing it;
    /// `None` when the stack is empty.
    pub fn peek(&self) -> (r: Option<&T>)
        ensures
            self@.len() == 0 ==> r is None,
            self@.len() > 0 ==> (r matches Some(v) && *v == self@.last()),
    {
        if self.data.len() > 0 {
            Some(&self.data[self.data.len() - 1])
        } else {
            None
        }
    }

    /// True when the stack holds no elements.
    pub fn is_empty(&self) -> (r: bool)
        ensures
            r == (self@.len() == 0),
    {
        self.data.len() == 0
    }

    /// Returns a fresh traversal of the stack in push order: the oldest
    /// element is yielded first, the current top last.
    pub fn iter<'a>(&'a self) -> (it: StackIter<'a, T>)
        ensures
            it.remaining() == self@,
    {
        let it = StackIter { elements: &self.data, pos: 0 };
        proof {
            assert(it.remaining() =~= self@);
        }
        it
    }
}

/// The LIFO law: pushing `v` onto a stack with contents `s` makes `v`
/// the top — the element [`Stack::pop`] and [`Stack::peek`] return —
/// and popping it restores the contents to `s`.  Applied repeatedly,
/// pushes of `v1 .. vn` followed by `n` pops return `vn, .., v1`.
pub proof fn lemma_push_pop_lifo<T>(s: Seq<T>, v: T)
    ensures
        s.push(v).len() == s.len() + 1,
        s.push(v).last() == v,
        s.push(v).drop_last() == s,
{
    assert(s.push(v).drop_last() =~= s);
}

/// The iteration law: a traversal that has yielded `k` elements of a
/// stack with contents `s` has `s.skip(k)` left, so its next element
/// is `s[k]` — the elements come out in push order `s[0], s[1], ..`,
/// oldest first.
pub proof fn lemma_iter_push_order<T>(s: Seq<T>, k: int)
    requires
        0 <= k < s.len(),
    ensures
        s.skip(k).len() == s.len() - k,
        s.skip(k).first() == s[k],
        s.skip(k).drop_first() == s.skip(k + 1),
{
    assert(s.skip(k).drop_first() =~= s.skip(k + 1));
}

/// A forward traversal over a [`Stack`], yielding the elements in push
/// order.  Each call of [`Stack::iter`] starts a fresh traversal.
pub struct StackIter<'a, T> {
    elements: &'a Vec<T>,
    pos: usize,
}

impl<'a, T> StackIter<'a, T> {
    /// The elements this traversal has not yielded yet, in the order it
    /// will yield them.
    pub closed spec fn remaining(&self) -> Seq<T> {
        if self.pos as int <= self.elements@.len() {
            self.elements@.skip(self.pos as int)
        } else {
            Seq::<T>::empty()
        }
    }

    /// Yields the next element of the traversal, or `None` once every
    /// element has been yielded.
    pub fn next(&mut self) -> (r: Option<&'a T>)
        ensures
            old(self).remaining().len() == 0 ==> r is None && final(self).remaining() == old(
                self,
            ).remaining(),
            old(self).remaining().len() > 0 ==> (r matches Some(v) && *v == old(
                self,
            ).remaining().first() && final(self).remaining() == old(self).remaining().drop_first()),
    {
        let elements: &'a Vec<T> = self.elements;
        if self.pos < elements.len() {
            let r = Some(&elements[self.pos]);
            proof {
                assert(self.elements@.skip(self.pos as int + 1) =~= self.elements@.skip(
                    self.pos as int,
                ).drop_first());
            }
            self.pos = self.pos + 1;
            r
        } else {
            None
        }
    }
}

} // verus!
