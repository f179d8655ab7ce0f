use std::collections::BTreeMap;
use vstd::prelude::*;
use vstd::std_specs::btree::increasing_seq;
use vstd::std_specs::cmp::OrdSpec;
use vstd::std_specs::iter::IteratorSpec;

use crate::list::PinnedList;

pub use iter::Iter;
pub use keys::Keys;
pub use values::Values;

mod cursor;
mod iter;
mod keys;
mod values;

verus! {

broadcast use vstd::std_specs::btree::group_btree_axioms, vstd::laws_cmp::group_laws_cmp;

/// Whether `s` is strictly increasing.
pub open spec fn increasing(s: Seq<u64>) -> bool {
    forall|i: int, j: int| 0 <= i < j < s.len() ==> s[i] < s[j]
}

/// What a [`PinnedMap`] holds, as mathematics.
///
/// `cells` is the arena: every value ever stored, in the order it was stored,
/// a handle being a position in it. `handles` maps each live key to the cell
/// that lookups reach. `shadowed` lists, in order, the cells whose key was
/// later stored again: no lookup reaches them, yet they stay in the arena.
pub struct MapModel<V> {
    pub cells: Seq<V>,
    pub handles: Map<u64, nat>,
    pub shadowed: Seq<nat>,
    pub strict: bool,
}

impl<V> MapModel<V> {
    /// Every handle names a cell of the arena.
    pub open spec fn wf(self) -> bool {
        &&& forall|k: u64| #[trigger]
            self.handles.contains_key(k) ==> self.handles[k] < self.cells.len()
        &&& forall|i: int| 0 <= i < self.shadowed.len() ==> #[trigger] self.shadowed[i] < self.cells.len()
    }

    /// Whether `s` lists the live keys in increasing order, each once.
    pub open spec fn is_key_order(self, s: Seq<u64>) -> bool {
        &&& increasing(s)
        &&& forall|k: u64| #[trigger] self.handles.contains_key(k) <==> s.contains(k)
    }

    /// The live keys in increasing order: the one sequence that
    /// `is_key_order` admits, see `lemma_key_order_unique`.
    pub open spec fn key_order(self) -> Seq<u64> {
        choose|s: Seq<u64>| self.is_key_order(s)
    }

    /// The value that a lookup of each live key finds.
    pub open spec fn contents(self) -> Map<u64, V> {
        self.handles.map_values(|h: nat| self.cells[h as int])
    }

    /// Stores `v` in a new cell under `k`; a cell that `k` named before is
    /// shadowed.
    pub open spec fn insert(self, k: u64, v: V) -> Self {
        MapModel {
            cells: self.cells.push(v),
            handles: self.handles.insert(k, self.cells.len()),
            shadowed: if self.handles.contains_key(k) {
                self.shadowed.push(self.handles[k])
            } else {
                self.shadowed
            },
            strict: self.strict,
        }
    }

    /// Stores `v` under `k` unless `k` is already live.
    pub open spec fn get_or_insert(self, k: u64, v: V) -> Self {
        if self.handles.contains_key(k) {
            self
        } else {
            self.insert(k, v)
        }
    }

    /// The cell that `get_or_insert(k, v)` hands back.
    pub open spec fn get_or_insert_handle(self, k: u64) -> nat {
        if self.handles.contains_key(k) {
            self.handles[k]
        } else {
            self.cells.len()
        }
    }

    /// The model after storing each pair of `ops` in turn.
    pub open spec fn insert_all(self, ops: Seq<(u64, V)>) -> Self
        decreases ops.len(),
    {
        if ops.len() == 0 {
            self
        } else {
            self.insert_all(ops.drop_last()).insert(ops.last().0, ops.last().1)
        }
    }
}

/// Storing more pairs never changes a cell already made: every handle keeps
/// naming the value it named, and the arena grows by one cell per pair.
pub proof fn lemma_insert_all_keeps_cells<V>(m: MapModel<V>, ops: Seq<(u64, V)>, h: nat)
    requires
        h < m.cells.len(),
    ensures
        m.insert_all(ops).cells.len() == m.cells.len() + ops.len(),
        m.insert_all(ops).cells[h as int] == m.cells[h as int],
    decreases ops.len(),
{
    if ops.len() > 0 {
        lemma_insert_all_keeps_cells(m, ops.drop_last(), h);
    }
}

/// A key that none of the stored pairs names keeps reaching the same cell.
pub proof fn lemma_insert_all_keeps_handle<V>(m: MapModel<V>, ops: Seq<(u64, V)>, k: u64)
    requires
        m.handles.contains_key(k),
        forall|i: int| 0 <= i < ops.len() ==> (#[trigger] ops[i]).0 != k,
    ensures
        m.insert_all(ops).handles.contains_key(k),
        m.insert_all(ops).handles[k] == m.handles[k],
    decreases ops.len(),
{
    if ops.len() > 0 {
        let front = ops.drop_last();
        assert forall|i: int| 0 <= i < front.len() implies (#[trigger] front[i]).0 != k by {
            assert(front[i] == ops[i]);
        }
        lemma_insert_all_keeps_handle(m, front, k);
        assert(ops[ops.len() - 1] == ops.last());
    }
}

/// Stability: the cell made by `insert(k, v)` holds `v` after any further
/// insertions, and as long as none of them names `k` again, a lookup of `k`
/// reaches that very cell, the handle `insert` returned.
pub proof fn lemma_stability<V>(m: MapModel<V>, k: u64, v: V, ops: Seq<(u64, V)>)
    requires
        forall|i: int| 0 <= i < ops.len() ==> (#[trigger] ops[i]).0 != k,
    ensures
        ({
            let after = m.insert(k, v).insert_all(ops);
            &&& after.cells[m.cells.len() as int] == v
            &&& after.handles.contains_key(k)
            &&& after.handles[k] == m.cells.len()
            &&& after.contents()[k] == v
        }),
{
    let m1 = m.insert(k, v);
    lemma_insert_all_keeps_cells(m1, ops, m.cells.len());
    lemma_insert_all_keeps_handle(m1, ops, k);
}

/// Shadow retention: in a lenient map, storing `k` twice leaves the first
/// cell holding `v1` in the arena and shadowed, lookups of `k` find `v2`,
/// and the number of live keys does not change.
pub proof fn lemma_shadow_retention<V>(m: MapModel<V>, k: u64, v1: V, v2: V)
    requires
        !m.strict,
    ensures
        ({
            let first = m.insert(k, v1);
            let second = first.insert(k, v2);
            let h1 = m.cells.len();
            &&& first.handles[k] == h1
            &&& second.cells[h1 as int] == v1
            &&& second.shadowed.last() == h1
            &&& second.contents()[k] == v2
            &&& second.handles.dom() == first.handles.dom()
            &&& second.handles.len() == first.handles.len()
        }),
{
    let first = m.insert(k, v1);
    let second = first.insert(k, v2);
    assert(second.handles.dom() =~= first.handles.dom());
}

/// Strict rejection: once a strict map holds `k`, storing `k` again is
/// outside what `insert` admits; and every insertion that a strict map does
/// admit leaves its shadowed cells as they were, so it never overwrites.
pub proof fn lemma_strict_rejects<V>(m: MapModel<V>, k: u64, v1: V)
    requires
        m.strict,
    ensures
        m.insert(k, v1).strict,
        m.insert(k, v1).handles.contains_key(k),
        !m.handles.contains_key(k) ==> m.insert(k, v1).shadowed == m.shadowed,
{
}

/// Clone content: where cloning a value gives an equal value, a copy that
/// `clone` describes (the same live keys, each value a clone) holds exactly
/// the same contents.
pub proof fn lemma_exact_clone_same_contents<V: Clone>(a: MapModel<V>, b: MapModel<V>)
    requires
        forall|x: V, y: V| #[trigger] cloned::<V>(x, y) ==> x == y,
        b.handles.dom() == a.handles.dom(),
        forall|k: u64| #[trigger]
            a.handles.contains_key(k) ==> cloned::<V>(a.contents()[k], b.contents()[k]),
    ensures
        b.contents() == a.contents(),
{
    assert(b.contents().dom() =~= a.contents().dom());
    assert forall|k: u64| #[trigger] a.contents().contains_key(k) implies b.contents()[k]
        == a.contents()[k] by {
        assert(cloned::<V>(a.contents()[k], b.contents()[k]));
    }
    assert(b.contents() =~= a.contents());
}

/// Upsert: after `get_or_insert(k, v1)`, a second `get_or_insert(k, v2)`
/// changes nothing and hands back the same cell, which holds the value that
/// `k` had, or `v1` if it had none.
pub proof fn lemma_get_or_insert_once<V>(m: MapModel<V>, k: u64, v1: V, v2: V)
    ensures
        ({
            let first = m.get_or_insert(k, v1);
            &&& first.get_or_insert(k, v2) == first
            &&& first.get_or_insert_handle(k) == m.get_or_insert_handle(k)
            &&& first.contents()[k] == if m.handles.contains_key(k) {
                m.contents()[k]
            } else {
                v1
            }
        }),
{
}

/// Order: there is one increasing listing of a set of live keys, so the
/// order of traversal depends on the keys alone, not on the order in which
/// they were stored.
pub proof fn lemma_key_order_unique<V>(m: MapModel<V>, a: Seq<u64>, b: Seq<u64>)
    requires
        m.is_key_order(a),
        m.is_key_order(b),
    ensures
        a == b,
    decreases a.len(),
{
    if a.len() == 0 {
        if b.len() > 0 {
            assert(m.handles.contains_key(b[0]));
            assert(a.contains(b[0]));
        }
        assert(a =~= b);
    } else {
        assert(m.handles.contains_key(a[0]));
        assert(b.contains(a[0]));
        assert(b.len() > 0);
        assert(m.handles.contains_key(b[0]));
        assert(a.contains(b[0]));
        // Both heads are the smallest live key.
        let i = choose|i: int| 0 <= i < b.len() && b[i] == a[0];
        let j = choose|j: int| 0 <= j < a.len() && a[j] == b[0];
        assert(b[0] <= a[0]);
        assert(a[0] <= b[0]);
        let k0 = a[0];
        let rest = m.handles.remove(k0);
        let n = MapModel { cells: m.cells, handles: rest, shadowed: m.shadowed, strict: m.strict };
        assert forall|k: u64| #[trigger] n.handles.contains_key(k) <==> a.drop_first().contains(k) by {
            if a.drop_first().contains(k) {
                let x = choose|x: int| 0 <= x < a.len() - 1 && a.drop_first()[x] == k;
                assert(a[x + 1] == k);
                assert(a.contains(k));
            }
            if n.handles.contains_key(k) {
                assert(a.contains(k));
                let x = choose|x: int| 0 <= x < a.len() && a[x] == k;
                assert(x != 0);
                assert(a.drop_first()[x - 1] == k);
            }
        }
        assert forall|k: u64| #[trigger] n.handles.contains_key(k) <==> b.drop_first().contains(k) by {
            if b.drop_first().contains(k) {
                let x = choose|x: int| 0 <= x < b.len() - 1 && b.drop_first()[x] == k;
                assert(b[x + 1] == k);
                assert(b.contains(k));
            }
            if n.handles.contains_key(k) {
                assert(b.contains(k));
                let x = choose|x: int| 0 <= x < b.len() && b[x] == k;
                assert(x != 0);
                assert(b.drop_first()[x - 1] == k);
            }
        }
        lemma_key_order_unique(n, a.drop_first(), b.drop_first());
        assert forall|x: int| 0 <= x < a.len() implies a[x] == b[x] by {
            if x > 0 {
                assert(a[x] == a.drop_first()[x - 1]);
                assert(b[x] == b.drop_first()[x - 1]);
            }
        }
        assert(a =~= b);
    }
}

/// An ordered map from `u64` keys to boxed values.
///
/// Each value lives in a cell of its own, in an append-only arena, and keeps
/// its handle for the life of the map. Storing a key again either is ruled
/// out (a strict map) or moves lookups to the new cell while the old one
/// stays in the arena, shadowed (a lenient map).
#[derive(Debug)]
pub struct PinnedMap<V> {
    cells: PinnedList<V>,
    index: BTreeMap<u64, usize>,
    shadowed: Vec<usize>,
    strict: bool,
}

impl<V> View for PinnedMap<V> {
    type V = MapModel<V>;

    closed spec fn view(&self) -> MapModel<V> {
        MapModel {
            cells: self.cells@,
            handles: self.index@.map_values(|h: usize| h as nat),
            shadowed: self.shadowed@.map_values(|h: usize| h as nat),
            strict: self.strict,
        }
    }
}

impl<V> PinnedMap<V> {
    #[verifier::type_invariant]
    closed spec fn inv(self) -> bool {
        self@.wf()
    }

    /// The live keys, in increasing order, as the index walks them.
    fn sorted_keys(&self) -> (r: Vec<u64>)
        ensures
            self@.is_key_order(r@),
            r@ == self@.key_order(),
    {
        proof {
            vstd::std_specs::btree::axiom_spec_keys_iter(&self.index);
        }
        let ghost all = vstd::std_specs::btree::spec_keys_iter(&self.index).remaining();
        let mut r: Vec<u64> = Vec::new();
        for k in walk: self.index.keys()
            invariant
                walk.seq() == all,
                r@.len() == walk.index(),
                forall|i: int| 0 <= i < r@.len() ==> r@[i] == *all[i],
        {
            r.push(*k);
        }
        assert(r@.len() == all.len());
        assert(r@ =~= all.unref());
        proof {
            assert(vstd::laws_cmp::obeys_cmp::<&u64>());
            assert(increasing_seq(all));
            vstd::std_specs::btree::axiom_increasing_seq_meaning::<&u64>(all);
            assert forall|i: int, j: int| 0 <= i < j < r@.len() implies r@[i] < r@[j] by {
                assert(<&u64 as OrdSpec>::cmp_spec(&all[i], &all[j]) is Less);
            }
            assert forall|k: u64| #[trigger] self@.handles.contains_key(k) <==> r@.contains(k) by {
                assert(self@.handles.dom() =~= self.index@.dom());
                assert(r@.to_set().contains(k) <==> r@.contains(k));
            }
            assert(self@.is_key_order(r@));
            assert(self@.is_key_order(self@.key_order()));
            lemma_key_order_unique(self@, r@, self@.key_order());
        }
        r
    }

    /// The handles that lookups of `key_order` reach, in that order.
    fn ordered_handles(&self) -> (r: Vec<usize>)
        ensures
            self@.is_key_order(self@.key_order()),
            r@.len() == self@.key_order().len(),
            forall|i: int| #![trigger r@[i]]
                0 <= i < r@.len() ==> self@.handles.contains_key(self@.key_order()[i])
                    && r@[i] as nat == self@.handles[self@.key_order()[i]]
                    && r@[i] < self@.cells.len(),
    {
        let keys = self.sorted_keys();
        let mut r: Vec<usize> = Vec::new();
        let mut i: usize = 0;
        while i < keys.len()
            invariant
                self@.is_key_order(keys@),
                keys@ == self@.key_order(),
                i <= keys@.len(),
                r@.len() == i,
                forall|j: int| #![trigger r@[j]]
                    0 <= j < i ==> self@.handles.contains_key(keys@[j]) && r@[j] as nat
                        == self@.handles[keys@[j]] && r@[j] < self@.cells.len(),
            decreases keys@.len() - i,
        {
            proof {
                use_type_invariant(self);
            }
            let k = keys[i];
            assert(keys@.contains(k));
            match self.handle_of(&k) {
                Some(h) => {
                    r.push(h);
                },
                None => {
                    proof {
                        assert(false);
                    }
                },
            }
            i = i + 1;
        }
        r
    }

    /// A snapshot of the live keys, in increasing order.
    pub fn keys(&self) -> (r: Keys)
        ensures
            r@ == self@.key_order(),
            self@.is_key_order(r@),
    {
        Keys::new(self.sorted_keys())
    }

    /// A snapshot of the live values, in increasing order of their keys.
    pub fn values(&self) -> (r: Values<'_, V>)
        ensures
            self@.is_key_order(self@.key_order()),
            r@.len() == self@.key_order().len(),
            forall|i: int| #![trigger r@[i]]
                0 <= i < r@.len() ==> *r@[i] == self@.contents()[self@.key_order()[i]],
    {
        proof {
            use_type_invariant(self);
        }
        let handles = self.ordered_handles();
        let mut values: Vec<&V> = Vec::new();
        let mut i: usize = 0;
        while i < handles.len()
            invariant
                i <= handles@.len(),
                values@.len() == i,
                handles@.len() == self@.key_order().len(),
                forall|j: int| #![trigger handles@[j]]
                    0 <= j < handles@.len() ==> self@.handles.contains_key(self@.key_order()[j])
                        && handles@[j] as nat == self@.handles[self@.key_order()[j]]
                        && handles@[j] < self@.cells.len(),
                forall|j: int| #![trigger values@[j]]
                    0 <= j < i ==> *values@[j] == self@.contents()[self@.key_order()[j]],
            decreases handles@.len() - i,
        {
            let h = handles[i];
            values.push(self.cells.index(h));
            proof {
                let k = self@.key_order()[i as int];
                assert(self@.contents()[k] == self@.cells[self@.handles[k] as int]);
            }
            i = i + 1;
        }
        Values::new(values)
    }

    /// A snapshot of the live entries, in increasing order of keys.
    pub fn iter(&self) -> (r: Iter<'_, V>)
        ensures
            self@.is_key_order(self@.key_order()),
            r@.len() == self@.key_order().len(),
            forall|i: int| #![trigger r@[i]]
                0 <= i < r@.len() ==> r@[i].0 == self@.key_order()[i] && *r@[i].1
                    == self@.contents()[self@.key_order()[i]],
    {
        proof {
            use_type_invariant(self);
        }
        let keys = self.keys().to_vec();
        let values = self.values().to_vec();
        Iter::new(keys, values)
    }

    fn with_policy(strict: bool) -> (r: Self)
        ensures
            r@.wf(),
            r@.cells.len() == 0,
            r@.handles.is_empty(),
            r@.shadowed.len() == 0,
            r@.strict == strict,
    {
        let r = PinnedMap {
            cells: PinnedList::new(),
            index: BTreeMap::new(),
            shadowed: Vec::new(),
            strict,
        };
        assert(r@.handles =~= Map::empty());
        r
    }

    /// An empty lenient map: storing a live key again shadows its old cell.
    pub fn new() -> (r: Self)
        ensures
            r@.wf(),
            r@.cells.len() == 0,
            r@.handles.is_empty(),
            r@.shadowed.len() == 0,
            !r@.strict,
    {
        Self::with_policy(false)
    }

    /// An empty strict map: storing a live key again is ruled out.
    pub fn new_strict() -> (r: Self)
        ensures
            r@.wf(),
            r@.cells.len() == 0,
            r@.handles.is_empty(),
            r@.shadowed.len() == 0,
            r@.strict,
    {
        Self::with_policy(true)
    }

    /// Whether storing a live key again is ruled out.
    pub fn is_strict(&self) -> (r: bool)
        ensures
            r == self@.strict,
    {
        self.strict
    }

    /// The number of live keys; shadowed cells are not counted.
    pub fn len(&self) -> (r: usize)
        ensures
            r == self@.handles.len(),
    {
        assert(self@.handles.dom() =~= self.index@.dom());
        self.index.len()
    }

    /// Stores `value` in a new cell under `key` and returns the cell's handle.
    ///
    /// A strict map requires that `key` is not live. In a lenient map the
    /// cell that `key` named before, if any, is shadowed: it keeps its value,
    /// and lookups now reach the new cell.
    pub fn insert(&mut self, key: u64, value: V) -> (r: usize)
        requires
            old(self)@.strict ==> !old(self)@.handles.contains_key(key),
        ensures
            final(self)@ == old(self)@.insert(key, value),
            final(self)@.wf(),
            r == old(self)@.cells.len(),
    {
        proof {
            use_type_invariant(&*self);
        }
        // A strict map is left untouched by a key stored twice: the call
        // stops before any change.
        if self.strict && self.index.contains_key(&key) {
            return vstd::pervasive::unreached();
        }
        let ghost pre = self@;
        // The map is taken apart and put back whole, so that the invariant
        // need hold only of the finished map.
        let mut taken = Self::with_policy(self.strict);
        core::mem::swap(&mut taken, self);
        proof {
            use_type_invariant(&taken);
        }
        let ghost old_index = taken.index@;
        let ghost old_shadowed = taken.shadowed@;
        proof {
            assert forall|k: u64| #[trigger] old_index.contains_key(k) implies old_index[k]
                < pre.cells.len() by {
                assert(pre.handles.contains_key(k));
            }
            assert forall|i: int| 0 <= i < old_shadowed.len() implies #[trigger] old_shadowed[i]
                < pre.cells.len() by {
                assert(pre.shadowed[i] == old_shadowed[i] as nat);
            }
        }
        let PinnedMap { mut cells, mut index, mut shadowed, strict } = taken;
        let h = cells.push(value);
        if let Some(p) = index.insert(key, h) {
            shadowed.push(p);
        }
        let r = PinnedMap { cells, index, shadowed, strict };
        proof {
            assert forall|i: int| 0 <= i < r.shadowed@.len() implies #[trigger] r.shadowed@[i]
                < r.cells@.len() by {
                if i < old_shadowed.len() {
                    assert(r.shadowed@[i] == old_shadowed[i]);
                }
            }
            assert(r@.wf());
        }
        *self = r;
        proof {
            assert(self@.handles =~= pre.handles.insert(key, pre.cells.len()));
            assert(self@.shadowed =~= pre.insert(key, value).shadowed);
        }
        h
    }

    /// The value in the cell that `handle` names.
    pub fn cell(&self, handle: usize) -> (r: &V)
        requires
            handle < self@.cells.len(),
        ensures
            *r == self@.cells[handle as int],
    {
        self.cells.index(handle)
    }

    /// The value that `key` reaches, if `key` is live.
    pub fn get(&self, key: &u64) -> (r: Option<&V>)
        ensures
            match r {
                Some(v) => self@.handles.contains_key(*key) && *v == self@.contents()[*key],
                None => !self@.handles.contains_key(*key),
            },
    {
        proof {
            use_type_invariant(self);
        }
        match self.index.get(key) {
            Some(h) => {
                assert(self@.handles.contains_key(*key));
                Some(self.cells.index(*h))
            },
            None => None,
        }
    }

    /// The handle of the cell that `key` reaches, if `key` is live.
    fn handle_of(&self, key: &u64) -> (r: Option<usize>)
        ensures
            match r {
                Some(h) => self@.handles.contains_key(*key) && h == self@.handles[*key],
                None => !self@.handles.contains_key(*key),
            },
    {
        match self.index.get(key) {
            Some(h) => Some(*h),
            None => None,
        }
    }

    /// The handle of the cell that `key` reaches; if `key` is not live,
    /// `value` is first stored under it. Otherwise `value` is dropped.
    pub fn get_or_insert(&mut self, key: u64, value: V) -> (r: usize)
        ensures
            final(self)@ == old(self)@.get_or_insert(key, value),
            final(self)@.wf(),
            r == old(self)@.get_or_insert_handle(key),
    {
        proof {
            use_type_invariant(&*self);
        }
        match self.handle_of(&key) {
            Some(h) => h,
            None => self.insert(key, value),
        }
    }

    /// The handle of the cell that `key` reaches; if `key` is not live,
    /// `default` is called, once, and its value stored under `key`.
    /// `default` is not called when `key` is live.
    pub fn get_or_insert_with<F: FnOnce() -> V>(&mut self, key: u64, default: F) -> (r: usize)
        requires
            !old(self)@.handles.contains_key(key) ==> default.requires(()),
        ensures
            r == old(self)@.get_or_insert_handle(key),
            final(self)@.wf(),
            old(self)@.handles.contains_key(key) ==> final(self)@ == old(self)@,
            !old(self)@.handles.contains_key(key) ==> {
                &&& r < final(self)@.cells.len()
                &&& default.ensures((), final(self)@.cells[r as int])
                &&& final(self)@ == old(self)@.insert(key, final(self)@.cells[r as int])
            },
    {
        proof {
            use_type_invariant(&*self);
        }
        match self.handle_of(&key) {
            Some(h) => h,
            None => {
                let value = default();
                self.insert(key, value)
            },
        }
    }
}

/// An empty lenient map.
impl<V> Default for PinnedMap<V> {
    fn default() -> (r: Self)
        ensures
            r@.wf(),
            r@.cells.len() == 0,
            r@.handles.is_empty(),
            r@.shadowed.len() == 0,
            !r@.strict,
    {
        Self::new()
    }
}

/// A copy of the live entries in new cells, in increasing order of keys:
/// shadowed cells are left behind, and no cell of the copy is a cell of
/// `self`.
impl<V: Clone> Clone for PinnedMap<V> {
    fn clone(&self) -> (r: Self)
        ensures
            r@.strict == self@.strict,
            r@.wf(),
            r@.shadowed.len() == 0,
            r@.cells.len() == self@.handles.len(),
            r@.handles.dom() == self@.handles.dom(),
            forall|k: u64| #[trigger]
                self@.handles.contains_key(k) ==> cloned::<V>(
                    self@.contents()[k],
                    r@.contents()[k],
                ),
    {
        proof {
            use_type_invariant(self);
        }
        let keys = self.sorted_keys();
        let ghost order = keys@;
        let mut r = Self::with_policy(self.strict);
        let mut i: usize = 0;
        while i < keys.len()
            invariant
                i <= order.len(),
                order == keys@,
                self@.is_key_order(order),
                r@.wf(),
                r@.handles.dom().finite(),
                r@.handles.len() == i,
                r@.strict == self@.strict,
                r@.shadowed.len() == 0,
                r@.cells.len() == i,
                forall|k: u64| #[trigger]
                    r@.handles.contains_key(k) <==> order.subrange(0, i as int).contains(k),
                forall|k: u64| #[trigger]
                    r@.handles.contains_key(k) ==> self@.handles.contains_key(k) && cloned::<V>(
                        self@.contents()[k],
                        r@.contents()[k],
                    ),
            decreases order.len() - i,
        {
            proof {
                use_type_invariant(&r);
                use_type_invariant(self);
            }
            let ghost pre = r@;
            let k = keys[i];
            assert(order.contains(k));
            let c = match self.get(&k) {
                Some(v) => v.clone(),
                None => {
                    return r;
                },
            };
            proof {
                assert(pre.handles.dom().insert(k).len() == pre.handles.dom().len() + 1);
                if order.subrange(0, i as int).contains(k) {
                    let j = choose|j: int| 0 <= j < i && #[trigger] order.subrange(0, i as int)[j] == k;
                    assert(order[j] < order[i as int]);
                }
            }
            r.insert(k, c);
            proof {
                assert forall|x: u64| #[trigger]
                    r@.handles.contains_key(x) <==> order.subrange(0, i + 1).contains(x) by {
                    if order.subrange(0, i + 1).contains(x) && x != k {
                        let j = choose|j: int| 0 <= j < i + 1 && #[trigger] order.subrange(0, i + 1)[j] == x;
                        assert(order.subrange(0, i as int)[j] == x);
                    }
                    if order.subrange(0, i as int).contains(x) {
                        let j = choose|j: int| 0 <= j < i && #[trigger] order.subrange(0, i as int)[j] == x;
                        assert(order.subrange(0, i + 1)[j] == x);
                    }
                    if x == k {
                        assert(order.subrange(0, i + 1)[i as int] == x);
                    }
                }
                assert forall|x: u64| #[trigger] r@.handles.contains_key(x) implies self@.handles.contains_key(x)
                    && cloned::<V>(self@.contents()[x], r@.contents()[x]) by {
                    if x != k {
                        assert(pre.handles.contains_key(x));
                        assert(r@.contents()[x] == pre.contents()[x]);
                    }
                }
            }
            i = i + 1;
        }
        proof {
            assert(order.subrange(0, i as int) =~= order);
            assert forall|k: u64| #[trigger] self@.handles.contains_key(k) implies r@.handles.contains_key(k) by {
                assert(order.contains(k));
            }
            assert(r@.handles.dom() =~= self@.handles.dom());
            assert(self@.handles.dom() =~= self.index@.dom());
        }
        r
    }
}

} // verus!
