use vstd::prelude::*;

verus! {

/// A red, green and blue triple.
#[derive(Clone, Copy)]
pub struct Rgb<T> {
    pub r: T,
    pub g: T,
    pub b: T,
}

impl<T: Copy> Rgb<T> {
    /// The triple with all three channels set to `v`.
    pub fn splat(v: T) -> (c: Rgb<T>)
        ensures
            c == (Rgb { r: v, g: v, b: v }),
    {
        Rgb { r: v, g: v, b: v }
    }
}

/// One value per patch and channel, stored as three equally long arrays.
pub struct RadBuffer<T> {
    pub r: Vec<T>,
    pub g: Vec<T>,
    pub b: Vec<T>,
}

/// Every entry of `s` is `v`.
pub open spec fn all_eq<T>(s: Seq<T>, v: T) -> bool {
    forall|i: int| 0 <= i < s.len() ==> s[i] == v
}

impl<T> RadBuffer<T> {
    /// The three channels have `n` entries each.
    /// The three channels of patch `i`.
    pub open spec fn at(&self, i: int) -> Rgb<T> {
        Rgb { r: self.r@[i], g: self.g@[i], b: self.b@[i] }
    }

    pub open spec fn has_len(&self, n: int) -> bool {
        &&& self.r@.len() == n
        &&& self.g@.len() == n
        &&& self.b@.len() == n
    }
}

impl<T: Copy> RadBuffer<T> {
    /// A vector of `len` copies of `init`.
    pub fn aligned_vector_init(len: usize, init: T) -> (v: Vec<T>)
        ensures
            v@.len() == len,
            all_eq(v@, init),
    {
        let mut v: Vec<T> = Vec::with_capacity(len);
        let mut i: usize = 0;
        while i < len
            invariant
                i <= len,
                v@.len() == i,
                all_eq(v@, init),
            decreases len - i,
        {
            v.push(init);
            i += 1;
        }
        v
    }

    /// A buffer for `size` patches, every channel set to `zero`.
    pub fn new(size: usize, zero: T) -> (buf: RadBuffer<T>)
        ensures
            buf.has_len(size as int),
            all_eq(buf.r@, zero),
            all_eq(buf.g@, zero),
            all_eq(buf.b@, zero),
    {
        RadBuffer {
            r: Self::aligned_vector_init(size, zero),
            g: Self::aligned_vector_init(size, zero),
            b: Self::aligned_vector_init(size, zero),
        }
    }

    /// The number of patches.
    pub fn len(&self) -> (n: usize)
        requires
            self.has_len(self.r@.len() as int),
        ensures
            self.has_len(n as int),
    {
        self.r.len()
    }

    /// Read-only views of the three channels.
    pub fn slice_full(&self) -> (s: (&[T], &[T], &[T]))
        ensures
            s.0@ == self.r@,
            s.1@ == self.g@,
            s.2@ == self.b@,
    {
        (self.r.as_slice(), self.g.as_slice(), self.b.as_slice())
    }

    /// Writable views of the three channels.
    pub fn slice_full_mut(&mut self) -> (s: (&mut [T], &mut [T], &mut [T]))
        ensures
            s.0@ == old(self).r@,
            s.1@ == old(self).g@,
            s.2@ == old(self).b@,
            final(self).r@ == final(s.0)@,
            final(self).g@ == final(s.1)@,
            final(self).b@ == final(s.2)@,
    {
        (self.r.as_mut_slice(), self.g.as_mut_slice(), self.b.as_mut_slice())
    }

    /// The three channels of patch `i`.
    pub fn get(&self, i: usize) -> (c: Rgb<T>)
        requires
            i < self.r@.len(),
            i < self.g@.len(),
            i < self.b@.len(),
        ensures
            c == self.at(i as int),
    {
        Rgb { r: self.r[i], g: self.g[i], b: self.b[i] }
    }
}

} // verus!
