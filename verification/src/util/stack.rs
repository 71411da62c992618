//! A last-in first-out stack that holds at most `N` items.
use vstd::prelude::*;

verus! {

/// Why a stack operation was refused.
#[derive(Debug, Clone, Copy, PartialEq, Eq, Structural)]
pub enum StackError {
    /// A push onto a full stack.
    Overflow,
    /// A pop from an empty stack.
    Underflow,
}

impl StackError {
    /// The message that describes the error.
    pub fn to_string(&self) -> (s: String)
        ensures
            s@ == (match self {
                StackError::Overflow => "Stack overflow"@,
                StackError::Underflow => "Stack underflow"@,
            }),
    {
        match self {
            StackError::Overflow => String::from_str("Stack overflow"),
            StackError::Underflow => String::from_str("Stack underflow"),
        }
    }
}

/// What a push of `value` onto a stack holding `items`, with room for `cap`, returns and
/// leaves: refused with `Overflow`, and nothing changed, when the stack is full.
pub open spec fn push_outcome<T>(items: Seq<T>, cap: nat, value: T) -> (Result<(), StackError>, Seq<T>) {
    if items.len() < cap {
        (Ok(()), items.push(value))
    } else {
        (Err(StackError::Overflow), items)
    }
}

/// What a pop from a stack holding `items` returns and leaves: the top item, or `Underflow`,
/// and nothing changed, when the stack is empty.
pub open spec fn pop_outcome<T>(items: Seq<T>) -> (Result<T, StackError>, Seq<T>) {
    if items.len() > 0 {
        (Ok(items.last()), items.drop_last())
    } else {
        (Err(StackError::Underflow), items)
    }
}

/// Popping right after a push that was accepted gives back the pushed value, and leaves the
/// items as they were before the push.
pub proof fn lemma_push_then_pop<T>(items: Seq<T>, cap: nat, value: T)
    requires
        push_outcome(items, cap, value).0 is Ok,
    ensures
        pop_outcome(push_outcome(items, cap, value).1) == (Ok::<T, StackError>(value), items),
{
    assert(items.push(value).drop_last() =~= items);
}

/// A stack of at most `N` items; the last item pushed is the first popped.
pub struct Stack<T, const N: usize> {
    items: Vec<T>,
}

impl<T, const N: usize> View for Stack<T, N> {
    /// The items from the bottom of the stack to its top.
    type V = Seq<T>;

    closed spec fn view(&self) -> Seq<T> {
        self.items@
    }
}

impl<T, const N: usize> Default for Stack<T, N> {
    /// An empty stack.
    fn default() -> (s: Self)
        ensures
            s@ == Seq::<T>::empty(),
    {
        Self::new()
    }
}

impl<T, const N: usize> Stack<T, N> {
    #[verifier::type_invariant]
    spec fn bounded(self) -> bool {
        self.items.len() <= N
    }

    /// An empty stack.
    pub fn new() -> (s: Self)
        ensures
            s@ == Seq::<T>::empty(),
    {
        Self { items: Vec::new() }
    }

    /// The most items the stack can hold.
    pub fn cap(&self) -> (c: usize)
        ensures
            c == N,
    {
        N
    }

    /// The number of items, never more than `N`.
    pub fn len(&self) -> (n: usize)
        ensures
            n == self@.len(),
            n <= N,
    {
        proof { use_type_invariant(self); }
        self.items.len()
    }

    pub fn is_empty(&self) -> (b: bool)
        ensures
            b == (self@.len() == 0),
    {
        self.items.len() == 0
    }

    /// Puts `value` on top; refused with `Overflow`, and the stack left as it was, when it is full.
    pub fn push(&mut self, value: T) -> (r: Result<(), StackError>)
        ensures
            (r, final(self)@) == push_outcome(old(self)@, N as nat, value),
    {
        proof { use_type_invariant(&*self); }
        if self.items.len() >= N {
            return Err(StackError::Overflow);
        }
        let mut items = Vec::new();
        std::mem::swap(&mut items, &mut self.items);
        items.push(value);
        *self = Self { items };
        Ok(())
    }

    /// Takes the top item off; refused with `Underflow`, and the stack left as it was, when it is empty.
    pub fn pop(&mut self) -> (r: Result<T, StackError>)
        ensures
            (r, final(self)@) == pop_outcome(old(self)@),
    {
        proof { use_type_invariant(&*self); }
        if self.items.len() == 0 {
            return Err(StackError::Underflow);
        }
        let mut items = Vec::new();
        std::mem::swap(&mut items, &mut self.items);
        let top = items.pop();
        *self = Self { items };
        match top {
            Some(v) => Ok(v),
            None => Err(StackError::Underflow),
        }
    }

    /// Drops every item.
    pub fn clear(&mut self)
        ensures
            final(self)@ == Seq::<T>::empty(),
    {
        *self = Self { items: Vec::new() };
    }
}

} // verus!
