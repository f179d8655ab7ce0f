use vstd::prelude::*;

use super::cursor::Cursor;

verus! {

/// A snapshot of a map's live values, in the order of their keys, consumed
/// from either end.
#[derive(Debug)]
pub struct Values<'a, V> {
    inner: Cursor<&'a V>,
}

impl<'a, V> View for Values<'a, V> {
    type V = Seq<&'a V>;

    /// The values not yet taken.
    closed spec fn view(&self) -> Seq<&'a V> {
        self.inner@
    }
}

impl<'a, V> Values<'a, V> {
    pub(crate) fn new(values: Vec<&'a V>) -> (r: Self)
        ensures
            r@ == values@,
    {
        Values { inner: Cursor::new(values) }
    }

    /// Takes the value of the smallest key left.
    pub fn next(&mut self) -> (r: Option<&'a V>)
        ensures
            old(self)@.len() == 0 ==> r is None && final(self)@ == old(self)@,
            old(self)@.len() > 0 ==> r == Some(old(self)@[0]) && final(self)@
                == old(self)@.drop_first(),
    {
        self.inner.next()
    }

    /// Takes the value of the largest key left.
    pub fn next_back(&mut self) -> (r: Option<&'a V>)
        ensures
            old(self)@.len() == 0 ==> r is None && final(self)@ == old(self)@,
            old(self)@.len() > 0 ==> r == Some(old(self)@.last()) && final(self)@
                == old(self)@.drop_last(),
    {
        self.inner.next_back()
    }

    /// The number of values left.
    pub fn len(&self) -> (r: usize)
        ensures
            r == self@.len(),
    {
        self.inner.len()
    }

    /// Lower and upper bound on the number of values left; both are exact.
    pub fn size_hint(&self) -> (r: (usize, Option<usize>))
        ensures
            r == (self@.len() as usize, Some(self@.len() as usize)),
    {
        let n = self.inner.len();
        (n, Some(n))
    }

    /// The last value in traversal order.
    pub fn last(self) -> (r: Option<&'a V>)
        ensures
            r == (if self@.len() == 0 { None } else { Some(self@.last()) }),
    {
        let mut s = self;
        s.next_back()
    }

    /// The values left, in order.
    pub fn to_vec(&self) -> (r: Vec<&'a V>)
        ensures
            r@ == self@,
    {
        self.inner.to_vec()
    }
}

} // verus!
