//! A bounds-checked cursor over bytes.

use vstd::prelude::*;
use vstd::slice::*;

use crate::bytes;
use crate::bytes::{array_at, copy_range, u32_at, u64_at};

verus! {

/// The first `n` bytes of `s`.
pub open spec fn head(s: Seq<u8>, n: int) -> Seq<u8> {
    s.subrange(0, n)
}

/// What follows the first `n` bytes of `s`.
pub open spec fn tail(s: Seq<u8>, n: int) -> Seq<u8> {
    s.subrange(n, s.len() as int)
}

/// A position in a run of bytes. Every read checks that enough is left, and
/// moves on only if so.
pub struct Reader<'a> {
    pub b: &'a [u8],
    pub off: usize,
}

impl<'a> Reader<'a> {
    /// Whether the position lies within the bytes.
    pub open spec fn ok(&self) -> bool {
        self.off <= self.b.len()
    }

    /// What is left to read.
    pub open spec fn rest(&self) -> Seq<u8> {
        tail(self.b@, self.off as int)
    }

    pub fn new(b: &'a [u8]) -> (r: Self)
        ensures
            r.ok(),
            r.rest() == b@,
    {
        assert(tail(b@, 0) =~= b@);
        Reader { b, off: 0 }
    }

    /// How many bytes are left.
    pub fn left(&self) -> (n: usize)
        requires
            self.ok(),
        ensures
            n == self.rest().len(),
    {
        self.b.len() - self.off
    }

    /// The next `n` bytes.
    pub fn take(&mut self, n: usize) -> (r: Option<Vec<u8>>)
        requires
            old(self).ok(),
        ensures
            final(self).ok(),
            match r {
                Some(v) => {
                    &&& old(self).rest().len() >= n
                    &&& v@ == head(old(self).rest(), n as int)
                    &&& final(self).rest() == tail(old(self).rest(), n as int)
                },
                None => old(self).rest().len() < n,
            },
    {
        if self.left() < n {
            return None;
        }
        let v = copy_range(self.b, self.off, self.off + n);
        assert(v@ =~= head(self.rest(), n as int));
        let ghost was = self.rest();
        self.off = self.off + n;
        assert(self.rest() =~= tail(was, n as int));
        Some(v)
    }

    /// The next byte.
    pub fn u8(&mut self) -> (r: Option<u8>)
        requires
            old(self).ok(),
        ensures
            final(self).ok(),
            match r {
                Some(x) => {
                    &&& old(self).rest().len() >= 1
                    &&& x == old(self).rest()[0]
                    &&& final(self).rest() == tail(old(self).rest(), 1)
                },
                None => old(self).rest().len() < 1,
            },
    {
        if self.left() < 1 {
            return None;
        }
        let x = self.b[self.off];
        let ghost was = self.rest();
        self.off = self.off + 1;
        assert(self.rest() =~= tail(was, 1));
        Some(x)
    }

    /// The next `u32`.
    pub fn u32(&mut self) -> (r: Option<u32>)
        requires
            old(self).ok(),
        ensures
            final(self).ok(),
            match r {
                Some(x) => {
                    &&& old(self).rest().len() >= 4
                    &&& x == bytes::of_le4(head(old(self).rest(), 4))
                    &&& final(self).rest() == tail(old(self).rest(), 4)
                },
                None => old(self).rest().len() < 4,
            },
    {
        if self.left() < 4 {
            return None;
        }
        let x = u32_at(self.b, self.off);
        assert(self.b@.subrange(self.off as int, self.off + 4) =~= head(self.rest(), 4));
        let ghost was = self.rest();
        self.off = self.off + 4;
        assert(self.rest() =~= tail(was, 4));
        Some(x)
    }

    /// The next `u64`.
    pub fn u64(&mut self) -> (r: Option<u64>)
        requires
            old(self).ok(),
        ensures
            final(self).ok(),
            match r {
                Some(x) => {
                    &&& old(self).rest().len() >= 8
                    &&& x == bytes::of_le8(head(old(self).rest(), 8))
                    &&& final(self).rest() == tail(old(self).rest(), 8)
                },
                None => old(self).rest().len() < 8,
            },
    {
        if self.left() < 8 {
            return None;
        }
        let x = u64_at(self.b, self.off);
        assert(self.b@.subrange(self.off as int, self.off + 8) =~= head(self.rest(), 8));
        let ghost was = self.rest();
        self.off = self.off + 8;
        assert(self.rest() =~= tail(was, 8));
        Some(x)
    }

    /// The next `N` bytes, as an array.
    pub fn array<const N: usize>(&mut self) -> (r: Option<[u8; N]>)
        requires
            old(self).ok(),
        ensures
            final(self).ok(),
            match r {
                Some(x) => {
                    &&& old(self).rest().len() >= N
                    &&& x@ == head(old(self).rest(), N as int)
                    &&& final(self).rest() == tail(old(self).rest(), N as int)
                },
                None => old(self).rest().len() < N,
            },
    {
        if self.left() < N {
            return None;
        }
        let x = array_at::<N>(self.b, self.off);
        assert(self.b@.subrange(self.off as int, self.off + N) =~= head(self.rest(), N as int));
        let ghost was = self.rest();
        self.off = self.off + N;
        assert(self.rest() =~= tail(was, N as int));
        Some(x)
    }
}

/// More bytes behind do not change what is read in front.
pub proof fn lemma_more(s: Seq<u8>, t: Seq<u8>, n: int)
    requires
        0 <= n <= s.len(),
    ensures
        head(s + t, n) == head(s, n),
        tail(s + t, n) == tail(s, n) + t,
{
    assert(head(s + t, n) =~= head(s, n));
    assert(tail(s + t, n) =~= tail(s, n) + t);
}

} // verus!
