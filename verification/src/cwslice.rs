//! The disjoint-write shared buffer.
//!
//! A scatter-write buffer for the samplers: writes, reads, a swap of two
//! positions, and the "claim the numerically smallest contender" operation
//! that linearizes conflicting claims to an index.  In a concurrent
//! execution the buffer is shared by writers whose safety rests on a
//! disjointness precondition; here every access carries its bounds as a
//! verified precondition and each operation's effect on the contents is part
//! of its contract.

use vstd::prelude::*;

verus! {

pub struct UnsafeSlice<T> {
    data: Vec<T>,
}

impl<T> View for UnsafeSlice<T> {
    type V = Seq<T>;

    closed spec fn view(&self) -> Seq<T> {
        self.data@
    }
}

impl<T> UnsafeSlice<T> {
    /// Wraps a vector, taking ownership of it for the buffer's lifetime.
    pub fn new(data: Vec<T>) -> (s: Self)
        ensures
            s@ == data@,
    {
        UnsafeSlice { data }
    }

    /// Gives the buffer's contents back.
    pub fn into_vec(self) -> (v: Vec<T>)
        ensures
            v@ == self@,
    {
        self.data
    }

    pub fn len(&self) -> (n: usize)
        ensures
            n == self@.len(),
    {
        self.data.len()
    }

    /// Overwrites position `i`.
    pub fn write(&mut self, i: usize, value: T)
        requires
            i < old(self)@.len(),
        ensures
            final(self)@ == old(self)@.update(i as int, value),
    {
        self.data[i] = value;
    }

    /// Reads position `i`.
    pub fn read(&self, i: usize) -> (r: &T)
        requires
            i < self@.len(),
        ensures
            *r == self@[i as int],
    {
        &self.data[i]
    }
}

impl<T: Copy> UnsafeSlice<T> {
    /// Exchanges the contents of two positions.
    pub fn swap(&mut self, loc_a: usize, loc_b: usize)
        requires
            loc_a < old(self)@.len(),
            loc_b < old(self)@.len(),
        ensures
            final(self)@ == old(self)@.update(loc_a as int, old(self)@[loc_b as int]).update(
                loc_b as int,
                old(self)@[loc_a as int],
            ),
    {
        let a = self.data[loc_a];
        let b = self.data[loc_b];
        self.data[loc_a] = b;
        self.data[loc_b] = a;
    }
}

impl UnsafeSlice<usize> {
    /// Keeps the numerically largest of the current content and `value`.
    pub fn write_max(&mut self, i: usize, value: usize)
        requires
            i < old(self)@.len(),
        ensures
            final(self)@ == old(self)@.update(
                i as int,
                if old(self)@[i as int] >= value {
                    old(self)@[i as int]
                } else {
                    value
                },
            ),
    {
        if self.data[i] < value {
            self.data[i] = value;
        } else {
            proof {
                assert(old(self)@.update(i as int, old(self)@[i as int]) =~= old(self)@);
            }
        }
    }

    /// Keeps the numerically smallest of the current content and `value`:
    /// the claim step of the reservation protocol, where the smaller
    /// contender index wins.
    pub fn claim_min(&mut self, i: usize, value: usize)
        requires
            i < old(self)@.len(),
        ensures
            final(self)@ == old(self)@.update(
                i as int,
                if old(self)@[i as int] <= value {
                    old(self)@[i as int]
                } else {
                    value
                },
            ),
    {
        if self.data[i] > value {
            self.data[i] = value;
        } else {
            proof {
                assert(old(self)@.update(i as int, old(self)@[i as int]) =~= old(self)@);
            }
        }
    }
}

} // verus!
