use vstd::prelude::*;

verus! {

/// Stability: the value pushed at position `s.len()` is still there, at that
/// position, after any number of further values are appended.
pub proof fn lemma_list_stability<T>(s: Seq<T>, t: T, more: Seq<T>)
    ensures
        (s.push(t) + more)[s.len() as int] == t,
        (s.push(t) + more).len() == s.len() + 1 + more.len(),
        forall|i: int| 0 <= i < s.len() ==> (s.push(t) + more)[i] == s[i],
{
}

/// Clone content: where cloning a value gives an equal value, a copy that
/// `clone` describes (the same length, each value a clone) is equal.
pub proof fn lemma_exact_clone_same_list<T: Clone>(a: Seq<T>, b: Seq<T>)
    requires
        forall|x: T, y: T| #[trigger] cloned::<T>(x, y) ==> x == y,
        b.len() == a.len(),
        forall|i: int| 0 <= i < a.len() ==> cloned::<T>(a[i], #[trigger] b[i]),
    ensures
        b == a,
{
    assert forall|i: int| 0 <= i < a.len() implies b[i] == a[i] by {
        assert(cloned::<T>(a[i], b[i]));
    }
    assert(b =~= a);
}

/// An append-only list of boxed values.
///
/// Each value lives in a box of its own: growing the list reallocates only
/// the array of boxes, never a value. Position `i` names the `i`-th value
/// ever pushed, for the whole life of the list.
#[derive(Debug)]
pub struct PinnedList<T> {
    cells: Vec<Box<T>>,
    /// The capacity asked for when the list was made.
    reserved: usize,
}

impl<T> View for PinnedList<T> {
    type V = Seq<T>;

    closed spec fn view(&self) -> Seq<T> {
        self.cells@.map_values(|b: Box<T>| *b)
    }
}

impl<T> PinnedList<T> {
    /// The capacity that the list was made with: the array of boxes holds at
    /// least this many before it is reallocated.
    pub closed spec fn min_capacity(&self) -> nat {
        self.reserved as nat
    }

    /// An empty list.
    pub fn new() -> (r: Self)
        ensures
            r@ == Seq::<T>::empty(),
            r.min_capacity() == 0,
    {
        let r = PinnedList { cells: Vec::new(), reserved: 0 };
        assert(r@ =~= Seq::<T>::empty());
        r
    }

    /// An empty list with room for `capacity` handles before the array of
    /// boxes is reallocated.
    pub fn with_capacity(capacity: usize) -> (r: Self)
        ensures
            r@ == Seq::<T>::empty(),
            r.min_capacity() == capacity,
    {
        let r = PinnedList { cells: Vec::with_capacity(capacity), reserved: capacity };
        assert(r@ =~= Seq::<T>::empty());
        r
    }

    /// How many values fit before the array of boxes is reallocated.
    ///
    /// Relies on `Vec::capacity`: never less than the length, and never less
    /// than what `Vec::with_capacity` was asked for, since pushing never
    /// shrinks a vector.
    #[verifier::external_body]
    pub fn capacity(&self) -> (r: usize)
        ensures
            r >= self@.len(),
            r >= self.min_capacity(),
    {
        self.cells.capacity()
    }

    /// The number of values.
    pub fn len(&self) -> (r: usize)
        ensures
            r == self@.len(),
    {
        self.cells.len()
    }

    /// Appends `t` in a new cell and returns its position, the handle by
    /// which it is read back. Values already stored keep their positions.
    pub fn push(&mut self, t: T) -> (r: usize)
        ensures
            final(self)@ == old(self)@.push(t),
            final(self).min_capacity() == old(self).min_capacity(),
            r == old(self)@.len(),
    {
        let r = self.cells.len();
        self.cells.push(Box::new(t));
        assert(self@ =~= old(self)@.push(t));
        r
    }

    /// Appends every value of `items`, in order, and returns their positions.
    pub fn extend(&mut self, items: Vec<T>) -> (r: Vec<usize>)
        ensures
            final(self)@ == old(self)@ + items@,
            final(self).min_capacity() == old(self).min_capacity(),
            r@.len() == items@.len(),
            forall|i: int| 0 <= i < r@.len() ==> r@[i] == old(self)@.len() + i,
    {
        let mut items = items;
        let ghost all = items@;
        let start = self.cells.len();
        let mut rest: Vec<T> = Vec::new();
        // Taking values from the back reverses them; a second pass restores
        // their order.
        while items.len() > 0
            invariant
                all == items@ + rest@.reverse(),
            decreases items.len(),
        {
            let t = items.pop().unwrap();
            proof {
                assert(all =~= items@ + rest@.push(t).reverse());
            }
            rest.push(t);
        }
        assert(rest@.reverse() =~= all);
        let mut r: Vec<usize> = Vec::new();
        let ghost base = self@;
        while rest.len() > 0
            invariant
                self@ == base + all.subrange(0, r@.len() as int),
                r@.len() + rest@.len() == all.len(),
                rest@.reverse() == all.subrange(r@.len() as int, all.len() as int),
                base.len() == start,
                self.min_capacity() == old(self).min_capacity(),
                forall|i: int| 0 <= i < r@.len() ==> r@[i] == start + i,
            decreases rest.len(),
        {
            let ghost n = r@.len() as int;
            let ghost before = rest@;
            let t = rest.pop().unwrap();
            proof {
                assert(before.reverse()[0] == t);
                assert(all[n] == t);
            }
            let h = self.push(t);
            r.push(h);
            proof {
                assert(all.subrange(0, n + 1).drop_last() =~= all.subrange(0, n));
                assert(self@ =~= base + all.subrange(0, n + 1));
                assert(before =~= rest@.push(t));
                assert forall|i: int| 0 <= i < rest@.len() implies rest@.reverse()[i]
                    == all.subrange(n + 1, all.len() as int)[i] by {
                    assert(rest@.reverse()[i] == before.reverse()[i + 1]);
                }
                assert(rest@.reverse() =~= all.subrange(n + 1, all.len() as int));
            }
        }
        assert(all.subrange(0, all.len() as int) =~= all);
        r
    }

    /// The value at position `index`.
    pub fn index(&self, index: usize) -> (r: &T)
        requires
            index < self@.len(),
        ensures
            *r == self@[index as int],
    {
        &*self.cells[index]
    }
}

impl<T> Default for PinnedList<T> {
    fn default() -> (r: Self)
        ensures
            r@ == Seq::<T>::empty(),
            r.min_capacity() == 0,
    {
        Self::new()
    }
}

/// A copy in new cells: each value is cloned into a box of its own, so no
/// cell of the copy is a cell of `self`.
impl<T: Clone> Clone for PinnedList<T> {
    fn clone(&self) -> (r: Self)
        ensures
            r@.len() == self@.len(),
            forall|i: int| 0 <= i < self@.len() ==> cloned::<T>(self@[i], #[trigger] r@[i]),
            r.min_capacity() == self.min_capacity(),
    {
        let mut cells: Vec<Box<T>> = Vec::with_capacity(self.reserved);
        let mut i: usize = 0;
        while i < self.cells.len()
            invariant
                i <= self@.len(),
                cells@.len() == i,
                forall|j: int| 0 <= j < i ==> cloned::<T>(self@[j], #[trigger] *cells@[j]),
            decreases self@.len() - i,
        {
            let t: &T = &*self.cells[i];
            let c = t.clone();
            cells.push(Box::new(c));
            i = i + 1;
        }
        let r = PinnedList { cells, reserved: self.reserved };
        assert forall|i: int| 0 <= i < self@.len() implies cloned::<T>(self@[i], #[trigger] r@[i]) by {
            assert(r@[i] == *cells@[i]);
        }
        r
    }
}

} // verus!
