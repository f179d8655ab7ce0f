use vstd::prelude::*;

use super::cursor::Cursor;

verus! {

/// A snapshot of a map's live keys, in increasing order, consumed from
/// either end.
#[derive(Debug)]
pub struct Keys {
    inner: Cursor<u64>,
}

impl View for Keys {
    type V = Seq<u64>;

    /// The keys not yet taken.
    closed spec fn view(&self) -> Seq<u64> {
        self.inner@
    }
}

impl Keys {
    pub(crate) fn new(keys: Vec<u64>) -> (r: Self)
        ensures
            r@ == keys@,
    {
        Keys { inner: Cursor::new(keys) }
    }

    /// Takes the smallest key left.
    pub fn next(&mut self) -> (r: Option<u64>)
        ensures
            old(self)@.len() == 0 ==> r is None && final(self)@ == old(self)@,
            old(self)@.len() > 0 ==> r == Some(old(self)@[0]) && final(self)@
                == old(self)@.drop_first(),
    {
        self.inner.next()
    }

    /// Takes the largest key left.
    pub fn next_back(&mut self) -> (r: Option<u64>)
        ensures
            old(self)@.len() == 0 ==> r is None && final(self)@ == old(self)@,
            old(self)@.len() > 0 ==> r == Some(old(self)@.last()) && final(self)@
                == old(self)@.drop_last(),
    {
        self.inner.next_back()
    }

    /// The number of keys left.
    pub fn len(&self) -> (r: usize)
        ensures
            r == self@.len(),
    {
        self.inner.len()
    }

    /// Lower and upper bound on the number of keys left; both are exact.
    pub fn size_hint(&self) -> (r: (usize, Option<usize>))
        ensures
            r == (self@.len() as usize, Some(self@.len() as usize)),
    {
        let n = self.inner.len();
        (n, Some(n))
    }

    /// The last key in traversal order.
    pub fn last(self) -> (r: Option<u64>)
        ensures
            r == (if self@.len() == 0 { None } else { Some(self@.last()) }),
    {
        let mut s = self;
        s.next_back()
    }

    /// The first key in traversal order, which is the smallest.
    pub fn min(self) -> (r: Option<u64>)
        ensures
            r == (if self@.len() == 0 { None } else { Some(self@[0]) }),
    {
        let mut s = self;
        s.next()
    }

    /// The last key in traversal order, which is the largest.
    pub fn max(self) -> (r: Option<u64>)
        ensures
            r == (if self@.len() == 0 { None } else { Some(self@.last()) }),
    {
        let mut s = self;
        s.next_back()
    }

    /// The keys left, in order.
    pub fn to_vec(&self) -> (r: Vec<u64>)
        ensures
            r@ == self@,
    {
        self.inner.to_vec()
    }
}

} // verus!
