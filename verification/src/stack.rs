//! The growable contiguous stack used for both the operand stack and the
//! call-frame stack.
//!
//! The stack is a thin, fully specified layer over a contiguous growable
//! buffer. Popping from an empty stack yields `None` (underflow), never
//! undefined behaviour; the VM layer converts underflow into a structured
//! error. Shrinking the logical length never moves surviving elements.

use vstd::prelude::*;

verus! {

/// A growable stack of `T` with push, pop, bulk pop and peek operations.
pub struct Stack<T> {
    data: Vec<T>,
}

impl<T> View for Stack<T> {
    type V = Seq<T>;

    closed spec fn view(&self) -> Seq<T> {
        self.data@
    }
}

impl<T> Stack<T> {
    /// An empty stack.
    pub fn new() -> (r: Stack<T>)
        ensures
            r@ == Seq::<T>::empty(),
    {
        Stack { data: Vec::new() }
    }

    /// Pushes `elem` on top of the stack.
    pub fn push(&mut self, elem: T)
        ensures
            final(self)@ == old(self)@.push(elem),
    {
        self.data.push(elem);
    }

    /// Pops the top element, or `None` on underflow.
    pub fn pop(&mut self) -> (r: Option<T>)
        ensures
            old(self)@.len() == 0 ==> r is None && final(self)@ == old(self)@,
            old(self)@.len() > 0 ==> r == Some(old(self)@.last()) && final(self)@ == old(
                self,
            )@.drop_last(),
    {
        self.data.pop()
    }

    /// The number of elements on the stack.
    pub fn len(&self) -> (r: usize)
        ensures
            r == self@.len(),
    {
        self.data.len()
    }

    /// Replaces the top element in place, returning whether there was
    /// one: the mutation `last` cannot hand out a reference for.
    pub fn set_last(&mut self, elem: T) -> (r: bool)
        ensures
            old(self)@.len() == 0 ==> !r && final(self)@ == old(self)@,
            old(self)@.len() > 0 ==> r && final(self)@ == old(self)@.update(
                old(self)@.len() - 1,
                elem,
            ),
    {
        let n = self.data.len();
        if n == 0 {
            false
        } else {
            self.data.set(n - 1, elem);
            true
        }
    }

    /// Peeks at the top element without removing it.
    pub fn last(&self) -> (r: Option<&T>)
        ensures
            self@.len() == 0 ==> r is None,
            self@.len() > 0 ==> r == Some(&self@.last()),
    {
        if self.data.len() == 0 {
            None
        } else {
            Some(&self.data[self.data.len() - 1])
        }
    }
}

impl<T: Copy> Stack<T> {
    /// Pops the top `n` elements, returned in push order, or `None` on
    /// underflow (in which case the stack is unchanged).
    pub fn pop_n(&mut self, n: usize) -> (r: Option<Vec<T>>)
        ensures
            old(self)@.len() < n ==> r is None && final(self)@ == old(self)@,
            old(self)@.len() >= n ==> {
                &&& r is Some
                &&& r->0@ == old(self)@.subrange(old(self)@.len() - n, old(self)@.len() as int)
                &&& final(self)@ == old(self)@.subrange(0, old(self)@.len() - n)
            },
    {
        if self.data.len() < n {
            return None;
        }
        let start = self.data.len() - n;
        let mut out: Vec<T> = Vec::new();
        let mut i = start;
        while i < self.data.len()
            invariant
                start <= i <= self.data.len(),
                self.data@ == old(self)@,
                n <= self.data@.len(),
                start == self.data@.len() - n,
                out@ == self.data@.subrange(start as int, i as int),
            decreases self.data@.len() - i,
        {
            out.push(self.data[i]);
            i = i + 1;
        }
        self.data.truncate(start);
        assert(out@ == old(self)@.subrange(start as int, old(self)@.len() as int));
        Some(out)
    }

    /// Peeks at the top `n` elements, returned in push order, or `None` on
    /// underflow.
    pub fn last_n(&self, n: usize) -> (r: Option<Vec<T>>)
        ensures
            self@.len() < n ==> r is None,
            self@.len() >= n ==> r is Some && r->0@ == self@.subrange(
                self@.len() - n,
                self@.len() as int,
            ),
    {
        if self.data.len() < n {
            return None;
        }
        let start = self.data.len() - n;
        let mut out: Vec<T> = Vec::new();
        let mut i = start;
        while i < self.data.len()
            invariant
                start <= i <= self.data.len(),
                n <= self.data@.len(),
                start == self.data@.len() - n,
                out@ == self.data@.subrange(start as int, i as int),
            decreases self.data@.len() - i,
        {
            out.push(self.data[i]);
            i = i + 1;
        }
        Some(out)
    }
}

/// Law: popping right after `push(x)` returns `x` and restores the stack.
pub proof fn lemma_push_pop<T>(s: Seq<T>, x: T)
    ensures
        s.push(x).last() == x,
        s.push(x).drop_last() == s,
{
    assert(s.push(x).drop_last() =~= s);
}

/// Law: after pushing the elements of `xs` in order, popping `xs.len()`
/// elements in bulk returns exactly `xs` in push order and restores the
/// stack.
pub proof fn lemma_pushes_pop_n<T>(s: Seq<T>, xs: Seq<T>)
    ensures
        (s + xs).subrange(s.len() as int, (s + xs).len() as int) == xs,
        (s + xs).subrange(0, s.len() as int) == s,
{
    assert((s + xs).subrange(s.len() as int, (s + xs).len() as int) =~= xs);
    assert((s + xs).subrange(0, s.len() as int) =~= s);
}

} // verus!
