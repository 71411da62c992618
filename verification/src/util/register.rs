//! Scenario registers: a resizable array of signed integers.
use vstd::prelude::*;

verus! {

/// The registers of a scenario, each an `i32`.
pub struct Register {
    inner: Vec<i32>,
}

impl View for Register {
    type V = Seq<i32>;

    closed spec fn view(&self) -> Seq<i32> {
        self.inner@
    }
}

impl From<Vec<i32>> for Register {
    /// The registers that hold `values`, in order.
    fn from(values: Vec<i32>) -> (r: Self)
        ensures
            r@ == values@,
    {
        Self { inner: values }
    }
}

impl vstd::std_specs::convert::FromSpecImpl<Vec<i32>> for Register {
    open spec fn obeys_from_spec() -> bool {
        true
    }

    closed spec fn from_spec(values: Vec<i32>) -> Self {
        Register { inner: values }
    }
}

impl Register {
    /// `count` registers, all zero.
    pub fn new(count: usize) -> (s: Self)
        ensures
            s@ == Seq::new(count as nat, |i: int| 0i32),
    {
        let s = Self { inner: vec![0; count] };
        proof { assert(s@ =~= Seq::new(count as nat, |i: int| 0i32)); }
        s
    }

    /// Changes the number of registers to `count`: registers past it are dropped, new ones are zero.
    pub fn resize(&mut self, count: usize)
        ensures
            final(self)@ == if count <= old(self)@.len() {
                old(self)@.take(count as int)
            } else {
                old(self)@ + Seq::new((count - old(self)@.len()) as nat, |i: int| 0i32)
            },
    {
        self.inner.resize(count, 0);
        proof {
            if count <= old(self)@.len() {
                assert(self@ =~= old(self)@.take(count as int));
            } else {
                assert(self@ =~= old(self)@ + Seq::new((count - old(self)@.len()) as nat, |i: int| 0i32));
            }
        }
    }

    pub fn len(&self) -> (n: usize)
        ensures
            n == self@.len(),
    {
        self.inner.len()
    }

    /// The values of all registers, in order.
    pub fn as_slice(&self) -> (s: &[i32])
        ensures
            s@ == self@,
    {
        self.inner.as_slice()
    }

    pub fn is_empty(&self) -> (b: bool)
        ensures
            b == (self@.len() == 0),
    {
        self.inner.len() == 0
    }

    /// Register `index`, if there is one.
    pub fn get(&self, index: usize) -> (r: Option<i32>)
        ensures
            r == if index < self@.len() { Some(self@[index as int]) } else { None::<i32> },
    {
        if index < self.inner.len() {
            Some(self.inner[index])
        } else {
            None
        }
    }

    /// Stores `value` in register `index`; `false` if there is no such register.
    pub fn set(&mut self, index: usize, value: i32) -> (done: bool)
        ensures
            done == (index < old(self)@.len()),
            final(self)@ == if done { old(self)@.update(index as int, value) } else { old(self)@ },
    {
        if index >= self.inner.len() {
            return false;
        }
        self.inner.set(index, value);
        true
    }

    /// Adds one to register `index`; `false` if there is no such register.
    pub fn inc(&mut self, index: usize) -> (done: bool)
        requires
            index < old(self)@.len() ==> old(self)@[index as int] < i32::MAX,
        ensures
            done == (index < old(self)@.len()),
            final(self)@ == if done {
                old(self)@.update(index as int, (old(self)@[index as int] + 1) as i32)
            } else {
                old(self)@
            },
    {
        if index >= self.inner.len() {
            return false;
        }
        let v = self.inner[index];
        self.inner.set(index, v + 1);
        true
    }

    /// Subtracts one from register `index`; `false` if there is no such register.
    pub fn dec(&mut self, index: usize) -> (done: bool)
        requires
            index < old(self)@.len() ==> old(self)@[index as int] > i32::MIN,
        ensures
            done == (index < old(self)@.len()),
            final(self)@ == if done {
                old(self)@.update(index as int, (old(self)@[index as int] - 1) as i32)
            } else {
                old(self)@
            },
    {
        if index >= self.inner.len() {
            return false;
        }
        let v = self.inner[index];
        self.inner.set(index, v - 1);
        true
    }
}

/// Incrementing a register and then decrementing it leaves the registers as they were.
pub proof fn lemma_inc_then_dec(regs: Seq<i32>, i: int)
    requires
        0 <= i < regs.len(),
        regs[i] < i32::MAX,
    ensures
        ({
            let up = regs.update(i, (regs[i] + 1) as i32);
            up[i] > i32::MIN && up.update(i, (up[i] - 1) as i32) == regs
        }),
{
    let up = regs.update(i, (regs[i] + 1) as i32);
    assert(up.update(i, (up[i] - 1) as i32) =~= regs);
}

} // verus!
