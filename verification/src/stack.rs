//! A growable last-in-first-out container.
//!
//! The view of a [`Stack`] is the sequence of its elements from bottom to
//! top, so `self@.last()` is the element that the next `pop` returns.

use vstd::prelude::*;

verus! {

/// The failure conditions of the stack and of the algorithms built on it.
/// Misuse is reported to the caller instead of ending the process.
#[derive(Clone, Copy, Debug, PartialEq, Eq, Structural)]
pub enum StackError {
    /// `pop` or `peek` was called on a stack with no elements.
    EmptyStackError,
    /// An internal indexed access fell outside `[0, size())`.
    IndexRangeError,
    /// A division during postfix evaluation had a zero divisor.
    DivisionByZeroError,
}

/// A last-in-first-out container over any element type.
///
/// `top` tracks the index one past the last pushed element and always
/// equals the element count; `well_formed` states that invariant.
/// `reserved` records a floor on the slots the backing vector has
/// allocated: it is set to what `Vec::with_capacity` reserved, kept
/// unchanged by operations that never shrink the allocation, and reset to
/// zero when the backing vector is replaced.
pub struct Stack<T> {
    top: usize,
    elements: Vec<T>,
    reserved: Ghost<nat>,
}

impl<T> View for Stack<T> {
    type V = Seq<T>;

    closed spec fn view(&self) -> Seq<T> {
        self.elements@
    }
}

impl<T> Stack<T> {
    /// The internal invariant: the top index equals the element count.
    pub closed spec fn well_formed(&self) -> bool {
        self.top == self.elements@.len()
    }

    /// The number of slots the stack is known to have reserved: `capacity`
    /// never reports less.
    pub closed spec fn reserved_capacity(&self) -> nat {
        self.reserved@
    }

    /// Creates an empty stack with room reserved for at least 16 elements.
    pub fn new() -> (s: Self)
        ensures
            s@ == Seq::<T>::empty(),
            s.well_formed(),
            s.reserved_capacity() == 16,
    {
        Stack { top: 0, elements: Vec::with_capacity(16), reserved: Ghost(16nat) }
    }

    /// Pushes `item` on top of the stack.
    pub fn push(&mut self, item: T)
        requires
            old(self).well_formed(),
        ensures
            final(self).well_formed(),
            final(self)@ == old(self)@.push(item),
            final(self)@.len() == old(self)@.len() + 1,
            final(self).reserved_capacity() == old(self).reserved_capacity(),
    {
        self.add_element(item);
        proof {
            // The backing vector now holds top + 1 elements, and a vector's
            // length always fits in usize.
            vstd::std_specs::vec::axiom_spec_len(&self.elements);
        }
        self.top = self.top + 1;
    }

    /// Appends `item` to the backing storage without moving the top index.
    fn add_element(&mut self, item: T)
        ensures
            final(self).elements@ == old(self).elements@.push(item),
            final(self).top == old(self).top,
            final(self).reserved == old(self).reserved,
    {
        self.elements.push(item);
    }

    /// The number of elements currently on the stack.
    pub fn size(&self) -> (n: usize)
        ensures
            n == self@.len(),
    {
        self.elements.len()
    }

    /// True exactly when the stack holds no elements.
    pub fn empty(&self) -> (b: bool)
        ensures
            b == (self@.len() == 0),
    {
        self.size() == 0
    }

    /// The number of slots the backing storage has allocated; never below
    /// the element count, nor below the recorded reservation.
    ///
    /// Relies on `Vec::capacity`: the number of elements the vector can
    /// hold without reallocating, which is never below its length. The
    /// `reserved_capacity` floor holds because the backing vector is
    /// created with `Vec::with_capacity(reserved)`, a vector never shrinks
    /// its allocation on its own, and the floor is reset to zero wherever
    /// the vector is replaced.
    #[verifier::external_body]
    pub fn capacity(&self) -> (c: usize)
        ensures
            c >= self@.len(),
            c >= self.reserved_capacity(),
    {
        self.elements.capacity()
    }

    /// Removes and returns the top element, or reports `EmptyStackError`
    /// and leaves the stack unchanged when there is none.
    pub fn pop(&mut self) -> (r: Result<T, StackError>)
        requires
            old(self).well_formed(),
        ensures
            final(self).well_formed(),
            old(self)@.len() == 0 ==> r == Err::<T, StackError>(StackError::EmptyStackError)
                && final(self)@ == old(self)@,
            old(self)@.len() > 0 ==> r is Ok && r->Ok_0 == old(self)@.last()
                && final(self)@ == old(self)@.drop_last(),
            final(self).reserved_capacity() == old(self).reserved_capacity(),
    {
        if self.empty() {
            return Err(StackError::EmptyStackError);
        }
        self.top = self.top - 1;
        match self.elements.pop() {
            Some(item) => {
                proof {
                    assert(old(self)@.drop_last() =~= self@);
                }
                Ok(item)
            },
            None => Err(StackError::EmptyStackError),
        }
    }

    /// Returns a reference to the top element without removing it, or
    /// reports `EmptyStackError` when there is none.
    pub fn peek(&self) -> (r: Result<&T, StackError>)
        ensures
            self@.len() == 0 ==> r == Err::<&T, StackError>(StackError::EmptyStackError),
            self@.len() > 0 ==> r is Ok && *r->Ok_0 == self@.last(),
    {
        if self.empty() {
            return Err(StackError::EmptyStackError);
        }
        let peek_idx: usize = self.size() - 1;
        self.get_item_by_idx(peek_idx)
    }

    /// Returns the element at `idx`, counted from the bottom, or reports
    /// `IndexRangeError` when `idx` falls outside `[0, size())`.
    pub fn get_item_by_idx(&self, idx: usize) -> (r: Result<&T, StackError>)
        ensures
            idx < self@.len() ==> r is Ok && *r->Ok_0 == self@[idx as int],
            idx >= self@.len() ==> r == Err::<&T, StackError>(StackError::IndexRangeError),
    {
        match self.check_range(idx) {
            Ok(()) => Ok(&self.elements[idx]),
            Err(e) => Err(e),
        }
    }

    /// Validates an internal index against the bounds `[0, size())`.
    fn check_range(&self, idx: usize) -> (r: Result<(), StackError>)
        ensures
            idx < self@.len() ==> r == Ok::<(), StackError>(()),
            idx >= self@.len() ==> r == Err::<(), StackError>(StackError::IndexRangeError),
    {
        if idx >= self.size() {
            return Err(StackError::IndexRangeError);
        }
        Ok(())
    }

    /// Removes every element. The backing vector is replaced, so the
    /// reserved capacity may shrink and its recorded floor drops to zero.
    pub fn clear(&mut self)
        ensures
            final(self).well_formed(),
            final(self)@ == Seq::<T>::empty(),
            final(self).reserved_capacity() == 0,
    {
        self.elements = Vec::new();
        self.top = 0;
        self.reserved = Ghost(0nat);
    }

    /// A read-only view of the elements, bottom first.
    pub fn get_all_elements(&self) -> (r: &Vec<T>)
        ensures
            r@ == self@,
    {
        &self.elements
    }
}

/// The sequence of values obtained by popping a stack whose view is `s`
/// all the way down to empty: `pop` returns `s.last()` and leaves
/// `s.drop_last()`, so the first value out is the last one in.
pub open spec fn pop_all<T>(s: Seq<T>) -> Seq<T>
    decreases s.len(),
{
    if s.len() == 0 {
        Seq::empty()
    } else {
        seq![s.last()] + pop_all(s.drop_last())
    }
}

/// Law: popping a stack down to empty yields the pushed elements in exactly
/// the reverse of push order. Pushing `s` element by element onto an empty
/// stack gives a stack whose view is `s` (by the contract of `push`), and
/// popping it repeatedly returns `pop_all(s)` (by the contract of `pop`),
/// which is `s` reversed; the stack is empty afterwards.
pub proof fn lemma_pop_all_reverses<T>(s: Seq<T>)
    ensures
        pop_all(s) == s.reverse(),
    decreases s.len(),
{
    if s.len() == 0 {
        assert(pop_all(s) =~= s.reverse());
    } else {
        lemma_pop_all_reverses(s.drop_last());
        assert(pop_all(s) =~= s.reverse());
    }
}

/// The view of a stack after `j` pops from a stack whose view is `s`:
/// each pop removes the last element.
pub open spec fn pop_n<T>(s: Seq<T>, j: int) -> Seq<T>
    decreases j,
{
    if j <= 0 {
        s
    } else {
        pop_n(s, j - 1).drop_last()
    }
}

/// Law: after k pushes and j pops (j <= k) on an initially empty stack the
/// stack holds the first k - j pushed elements, so its size is k - j.
/// Pushing the sequence `s` (k = s.len()) onto an empty stack gives a stack
/// whose view is `s`, and j pops leave `pop_n(s, j)`.
pub proof fn lemma_size_after_pops<T>(s: Seq<T>, j: int)
    requires
        0 <= j <= s.len(),
    ensures
        pop_n(s, j) == s.take(s.len() - j),
        pop_n(s, j).len() == s.len() - j,
    decreases j,
{
    if j <= 0 {
        assert(pop_n(s, j) =~= s.take(s.len() - j));
    } else {
        lemma_size_after_pops(s, j - 1);
        assert(pop_n(s, j) =~= s.take(s.len() - j));
    }
}

} // verus!
