//! A fixed-length heap buffer with strided access.
//!
//! The index engine keeps each table's rows in one contiguous allocation;
//! this type is that allocation. Its length is chosen at construction and
//! never changes afterwards.

use vstd::prelude::*;

verus! {

pub struct HeapAllocatedArray<T> {
    data: Vec<T>,
}

impl<T> View for HeapAllocatedArray<T> {
    type V = Seq<T>;

    closed spec fn view(&self) -> Seq<T> {
        self.data@
    }
}

impl<T> HeapAllocatedArray<T> {
    pub fn len(&self) -> (r: usize)
        ensures
            r == self@.len(),
    {
        self.data.len()
    }

    /// The buffer as a borrowed slice.
    pub fn as_slice(&self) -> (r: &[T])
        ensures
            r@ == self@,
    {
        self.data.as_slice()
    }
}

impl<T: Copy> HeapAllocatedArray<T> {
    /// A buffer of `len` slots, every one holding `value`.
    pub fn with_value(len: usize, value: T) -> (r: Self)
        ensures
            r@.len() == len,
            forall|i: int| 0 <= i < len ==> r@[i] == value,
    {
        let mut data: Vec<T> = Vec::new();
        let mut i: usize = 0;
        while i < len
            invariant
                i <= len,
                data@.len() == i,
                forall|j: int| 0 <= j < i ==> data@[j] == value,
            decreases len - i,
        {
            data.push(value);
            i = i + 1;
        }
        HeapAllocatedArray { data }
    }

    pub fn get(&self, idx: usize) -> (r: T)
        requires
            idx < self@.len(),
        ensures
            r == self@[idx as int],
    {
        self.data[idx]
    }

    pub fn set(&mut self, idx: usize, val: T)
        requires
            idx < old(self)@.len(),
        ensures
            final(self)@ == old(self)@.update(idx as int, val),
    {
        self.data[idx] = val;
    }

    /// Overwrites every slot with `value`; the length stays as it was.
    pub fn fill(&mut self, value: T)
        ensures
            final(self)@.len() == old(self)@.len(),
            forall|i: int| 0 <= i < final(self)@.len() ==> final(self)@[i] == value,
    {
        let len = self.data.len();
        let mut i: usize = 0;
        while i < len
            invariant
                i <= len,
                self@.len() == len,
                forall|j: int| 0 <= j < i ==> self@[j] == value,
            decreases len - i,
        {
            self.data[i] = value;
            i = i + 1;
        }
    }
}

impl HeapAllocatedArray<u32> {
    /// A buffer of `len` slots, each holding the default value 0.
    pub fn with_default(len: usize) -> (r: Self)
        ensures
            r@.len() == len,
            forall|i: int| 0 <= i < len ==> r@[i] == 0u32,
    {
        Self::with_value(len, u32::default())
    }
}

impl HeapAllocatedArray<usize> {
    /// A buffer of `len` slots, each holding the default value 0.
    pub fn with_default(len: usize) -> (r: Self)
        ensures
            r@.len() == len,
            forall|i: int| 0 <= i < len ==> r@[i] == 0usize,
    {
        Self::with_value(len, usize::default())
    }
}

} // verus!
