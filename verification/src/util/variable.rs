//! Game variables: a resizable array of signed integers.
use vstd::prelude::*;

verus! {

/// The variables of a game, each an `i32`.
pub struct Variables {
    inner: Vec<i32>,
}

impl View for Variables {
    type V = Seq<i32>;

    closed spec fn view(&self) -> Seq<i32> {
        self.inner@
    }
}

impl Variables {
    /// `count` variables, all zero.
    pub fn new(count: usize) -> (s: Self)
        ensures
            s@ == Seq::new(count as nat, |i: int| 0i32),
    {
        let s = Self { inner: vec![0; count] };
        proof { assert(s@ =~= Seq::new(count as nat, |i: int| 0i32)); }
        s
    }

    /// Changes the number of variables to `count`: variables past it are dropped, new ones are zero.
    pub fn resize(&mut self, count: usize)
        ensures
            final(self)@ == if count <= old(self)@.len() {
                old(self)@.take(count as int)
            } else {
                old(self)@ + Seq::new((count - old(self)@.len()) as nat, |i: int| 0i32)
            },
    {
        self.inner.resize(count, 0);
        proof {
            if count <= old(self)@.len() {
                assert(self@ =~= old(self)@.take(count as int));
            } else {
                assert(self@ =~= old(self)@ + Seq::new((count - old(self)@.len()) as nat, |i: int| 0i32));
            }
        }
    }

    pub fn len(&self) -> (n: usize)
        ensures
            n == self@.len(),
    {
        self.inner.len()
    }

    pub fn is_empty(&self) -> (b: bool)
        ensures
            b == (self@.len() == 0),
    {
        self.inner.len() == 0
    }

    /// Variable `index`, if there is one.
    pub fn get(&self, index: usize) -> (r: Option<i32>)
        ensures
            r == if index < self@.len() { Some(self@[index as int]) } else { None::<i32> },
    {
        if index < self.inner.len() {
            Some(self.inner[index])
        } else {
            None
        }
    }

    /// Stores `value` in variable `index`; `false` if there is no such variable.
    pub fn set(&mut self, index: usize, value: i32) -> (done: bool)
        ensures
            done == (index < old(self)@.len()),
            final(self)@ == if done { old(self)@.update(index as int, value) } else { old(self)@ },
    {
        if index >= self.inner.len() {
            return false;
        }
        self.inner.set(index, value);
        true
    }

    /// Adds one to variable `index`; `false` if there is no such variable.
    pub fn inc(&mut self, index: usize) -> (done: bool)
        requires
            index < old(self)@.len() ==> old(self)@[index as int] < i32::MAX,
        ensures
            done == (index < old(self)@.len()),
            final(self)@ == if done {
                old(self)@.update(index as int, (old(self)@[index as int] + 1) as i32)
            } else {
                old(self)@
            },
    {
        if index >= self.inner.len() {
            return false;
        }
        let v = self.inner[index];
        self.inner.set(index, v + 1);
        true
    }

    /// Subtracts one from variable `index`; `false` if there is no such variable.
    pub fn dec(&mut self, index: usize) -> (done: bool)
        requires
            index < old(self)@.len() ==> old(self)@[index as int] > i32::MIN,
        ensures
            done == (index < old(self)@.len()),
            final(self)@ == if done {
                old(self)@.update(index as int, (old(self)@[index as int] - 1) as i32)
            } else {
                old(self)@
            },
    {
        if index >= self.inner.len() {
            return false;
        }
        let v = self.inner[index];
        self.inner.set(index, v - 1);
        true
    }

    /// The values, in order.
    pub fn inner(&self) -> (v: &Vec<i32>)
        ensures
            v@ == self@,
    {
        &self.inner
    }
}

} // verus!
