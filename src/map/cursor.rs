use vstd::prelude::*;

verus! {

/// A snapshot of items, consumed from either end.
#[derive(Debug)]
pub struct Cursor<T: Copy> {
    items: Vec<T>,
    front: usize,
    back: usize,
}

impl<T: Copy> View for Cursor<T> {
    type V = Seq<T>;

    /// The items not yet taken.
    closed spec fn view(&self) -> Seq<T> {
        self.items@.subrange(self.front as int, self.back as int)
    }
}

impl<T: Copy> Cursor<T> {
    #[verifier::type_invariant]
    closed spec fn inv(self) -> bool {
        self.front <= self.back <= self.items@.len()
    }

    /// A cursor over all of `items`.
    pub fn new(items: Vec<T>) -> (r: Self)
        ensures
            r@ == items@,
    {
        let back = items.len();
        let r = Cursor { items, front: 0, back };
        assert(r@ =~= r.items@);
        r
    }

    /// Takes the first item left.
    pub fn next(&mut self) -> (r: Option<T>)
        ensures
            old(self)@.len() == 0 ==> r is None && final(self)@ == old(self)@,
            old(self)@.len() > 0 ==> r == Some(old(self)@[0]) && final(self)@
                == old(self)@.drop_first(),
    {
        proof {
            use_type_invariant(&*self);
        }
        if self.front < self.back {
            let t = self.items[self.front];
            self.front = self.front + 1;
            assert(self@ =~= old(self)@.drop_first());
            Some(t)
        } else {
            None
        }
    }

    /// Takes the last item left.
    pub fn next_back(&mut self) -> (r: Option<T>)
        ensures
            old(self)@.len() == 0 ==> r is None && final(self)@ == old(self)@,
            old(self)@.len() > 0 ==> r == Some(old(self)@.last()) && final(self)@
                == old(self)@.drop_last(),
    {
        proof {
            use_type_invariant(&*self);
        }
        if self.front < self.back {
            self.back = self.back - 1;
            let t = self.items[self.back];
            assert(self@ =~= old(self)@.drop_last());
            Some(t)
        } else {
            None
        }
    }

    /// The number of items left.
    pub fn len(&self) -> (r: usize)
        ensures
            r == self@.len(),
    {
        proof {
            use_type_invariant(self);
        }
        self.back - self.front
    }

    /// The items left, in order.
    pub fn to_vec(&self) -> (r: Vec<T>)
        ensures
            r@ == self@,
    {
        proof {
            use_type_invariant(self);
        }
        let mut r: Vec<T> = Vec::new();
        let mut i = self.front;
        while i < self.back
            invariant
                self.front <= i <= self.back <= self.items@.len(),
                r@ == self.items@.subrange(self.front as int, i as int),
            decreases self.back - i,
        {
            r.push(self.items[i]);
            i = i + 1;
            assert(r@ =~= self.items@.subrange(self.front as int, i as int));
        }
        r
    }
}

} // verus!
