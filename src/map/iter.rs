use vstd::prelude::*;

use super::cursor::Cursor;

verus! {

/// A snapshot of a map's live entries, in increasing order of keys,
/// consumed from either end.
#[derive(Debug)]
pub struct Iter<'a, V> {
    keys: Cursor<u64>,
    values: Cursor<&'a V>,
}

impl<'a, V> View for Iter<'a, V> {
    type V = Seq<(u64, &'a V)>;

    /// The entries not yet taken.
    closed spec fn view(&self) -> Seq<(u64, &'a V)> {
        Seq::new(self.keys@.len(), |i: int| (self.keys@[i], self.values@[i]))
    }
}

impl<'a, V> Iter<'a, V> {
    #[verifier::type_invariant]
    closed spec fn inv(self) -> bool {
        self.keys@.len() == self.values@.len()
    }

    pub(crate) fn new(keys: Vec<u64>, values: Vec<&'a V>) -> (r: Self)
        requires
            keys@.len() == values@.len(),
        ensures
            r@.len() == keys@.len(),
            forall|i: int| 0 <= i < keys@.len() ==> #[trigger] r@[i] == (keys@[i], values@[i]),
    {
        Iter { keys: Cursor::new(keys), values: Cursor::new(values) }
    }

    /// Takes the entry of the smallest key left.
    pub fn next(&mut self) -> (r: Option<(u64, &'a V)>)
        ensures
            old(self)@.len() == 0 ==> r is None && final(self)@ == old(self)@,
            old(self)@.len() > 0 ==> r == Some(old(self)@[0]) && final(self)@
                == old(self)@.drop_first(),
    {
        proof {
            use_type_invariant(&*self);
        }
        let mut taken = Iter { keys: Cursor::new(Vec::new()), values: Cursor::new(Vec::new()) };
        core::mem::swap(&mut taken, self);
        let Iter { mut keys, mut values } = taken;
        let k = keys.next();
        let v = values.next();
        let r = Iter { keys, values };
        assert(r@ =~= if old(self)@.len() == 0 { old(self)@ } else { old(self)@.drop_first() });
        *self = r;
        match (k, v) {
            (Some(k), Some(v)) => Some((k, v)),
            _ => None,
        }
    }

    /// Takes the entry of the largest key left.
    pub fn next_back(&mut self) -> (r: Option<(u64, &'a V)>)
        ensures
            old(self)@.len() == 0 ==> r is None && final(self)@ == old(self)@,
            old(self)@.len() > 0 ==> r == Some(old(self)@.last()) && final(self)@
                == old(self)@.drop_last(),
    {
        proof {
            use_type_invariant(&*self);
        }
        let mut taken = Iter { keys: Cursor::new(Vec::new()), values: Cursor::new(Vec::new()) };
        core::mem::swap(&mut taken, self);
        let Iter { mut keys, mut values } = taken;
        let k = keys.next_back();
        let v = values.next_back();
        let r = Iter { keys, values };
        assert(r@ =~= if old(self)@.len() == 0 { old(self)@ } else { old(self)@.drop_last() });
        *self = r;
        match (k, v) {
            (Some(k), Some(v)) => Some((k, v)),
            _ => None,
        }
    }

    /// The number of entries left.
    pub fn len(&self) -> (r: usize)
        ensures
            r == self@.len(),
    {
        self.keys.len()
    }

    /// Lower and upper bound on the number of entries left; both are exact.
    pub fn size_hint(&self) -> (r: (usize, Option<usize>))
        ensures
            r == (self@.len() as usize, Some(self@.len() as usize)),
    {
        let n = self.keys.len();
        (n, Some(n))
    }

    /// The last entry in traversal order.
    pub fn last(self) -> (r: Option<(u64, &'a V)>)
        ensures
            r == (if self@.len() == 0 { None } else { Some(self@.last()) }),
    {
        let mut s = self;
        s.next_back()
    }

    /// The first entry in traversal order, which has the smallest key.
    pub fn min(self) -> (r: Option<(u64, &'a V)>)
        ensures
            r == (if self@.len() == 0 { None } else { Some(self@[0]) }),
    {
        let mut s = self;
        s.next()
    }

    /// The last entry in traversal order, which has the largest key.
    pub fn max(self) -> (r: Option<(u64, &'a V)>)
        ensures
            r == (if self@.len() == 0 { None } else { Some(self@.last()) }),
    {
        let mut s = self;
        s.next_back()
    }

    /// The entries left, in order.
    pub fn to_vec(&self) -> (r: Vec<(u64, &'a V)>)
        ensures
            r@ == self@,
    {
        proof {
            use_type_invariant(self);
        }
        let keys = self.keys.to_vec();
        let values = self.values.to_vec();
        let mut r: Vec<(u64, &'a V)> = Vec::new();
        let mut i: usize = 0;
        while i < keys.len()
            invariant
                keys@ == self.keys@,
                values@ == self.values@,
                keys@.len() == values@.len(),
                i <= keys@.len(),
                r@ == self@.subrange(0, i as int),
            decreases keys@.len() - i,
        {
            r.push((keys[i], values[i]));
            i = i + 1;
            assert(r@ =~= self@.subrange(0, i as int));
        }
        assert(r@ =~= self@);
        r
    }
}

} // verus!
