//! The slot store: a fixed-capacity, type-erased component store.
//!
//! A store is built for a fixed number of slots. Component types are
//! declared under an opaque runtime tag (a `u64` key); each declared key
//! owns one dense column of length `size`, every cell of which holds an
//! optional component value. Per-cell operations (`insert`, `remove`,
//! `has`, `get`, `take`) address one key and one slot; fan-out operations
//! (`clear`, `clear_all`, `move_slot`) walk every declared column.
//!
//! The store is modelled by a map from declared keys to their columns,
//! each column a sequence of `Option` cells.

use vstd::prelude::*;
use vstd::map::*;
use vstd::assert_seqs_equal;
use vstd::assert_sets_equal;

verus! {

/// Why a store operation was refused.
#[derive(Clone, Copy, Debug, PartialEq, Eq, Structural)]
pub enum TilesError {
    /// The operation referenced a component key that was never declared.
    TypeNotDeclared,
    /// A component key was declared twice.
    AlreadyDeclared,
    /// The slot index is outside `[0, size)`.
    SlotOutOfRange,
    /// `take` was invoked on a cell holding no value.
    ComponentAbsent,
}

/// A fixed-capacity component store: one dense column of `size` optional
/// cells for every declared component key.
pub struct Tiles<C> {
    size: usize,
    keys: Vec<u64>,
    columns: Vec<Vec<Option<C>>>,
}

impl<C> View for Tiles<C> {
    type V = Map<u64, Seq<Option<C>>>;

    /// The store as a map from each declared key to its column of cells.
    closed spec fn view(&self) -> Map<u64, Seq<Option<C>>> {
        Map::new(
            |k: u64| self.keys@.contains(k),
            |k: u64| self.columns@[self.keys@.index_of(k)]@,
        )
    }
}

impl<C> Tiles<C> {
    /// The number of slots, fixed at construction.
    pub closed spec fn size(self) -> nat {
        self.size as nat
    }

    /// Whether component key `k` has been declared.
    pub open spec fn declared(self, k: u64) -> bool {
        self@.dom().contains(k)
    }

    /// Internal well-formedness: one column per declared key, every column
    /// exactly `size` cells long, no key declared twice.
    pub closed spec fn inv(self) -> bool {
        &&& self.columns@.len() == self.keys@.len()
        &&& forall|i: int|
            0 <= i < self.columns@.len() ==> (#[trigger] self.columns@[i])@.len()
                == self.size as nat
        &&& forall|i: int, j: int|
            0 <= i < j < self.keys@.len() ==> self.keys@[i] != self.keys@[j]
    }

    /// In a well-formed store every declared column has exactly `size` cells.
    pub proof fn lemma_columns_sized(self)
        requires
            self.inv(),
        ensures
            forall|k: u64| self@.dom().contains(k) ==> (#[trigger] self@[k]).len() == self.size(),
    {
        assert forall|k: u64| self@.dom().contains(k) implies (#[trigger] self@[k]).len()
            == self.size() by {
            let i = self.keys@.index_of(k);
            assert(0 <= i < self.keys@.len() && self.keys@[i] == k);
        }
    }

    /// The key at index `i` maps, in the view, to the column at index `i`.
    proof fn lemma_key_index(self, i: int)
        requires
            self.inv(),
            0 <= i < self.keys@.len(),
        ensures
            self.keys@.contains(self.keys@[i]),
            self.keys@.index_of(self.keys@[i]) == i,
            self@.dom().contains(self.keys@[i]),
            self@[self.keys@[i]] == self.columns@[i]@,
    {
        let k = self.keys@[i];
        assert(self.keys@.contains(k));
        let j = self.keys@.index_of(k);
        assert(0 <= j < self.keys@.len() && self.keys@[j] == k);
        if j < i {
            assert(self.keys@[j] != self.keys@[i]);
        }
        if i < j {
            assert(self.keys@[i] != self.keys@[j]);
        }
    }

    /// Builds a store with `size` slots and no declared component keys.
    pub fn new(size: usize) -> (r: Tiles<C>)
        ensures
            r.inv(),
            r.size() == size,
            r@ == Map::<u64, Seq<Option<C>>>::empty(),
    {
        let r = Tiles { size, keys: Vec::new(), columns: Vec::new() };
        proof {
            let empty = Map::<u64, Seq<Option<C>>>::empty();
            assert_maps_equal!(r.view(), empty, k => {
                assert(!r.keys@.contains(k));
            });
        }
        r
    }

    /// The number of slots.
    pub fn len(&self) -> (r: usize)
        ensures
            r == self.size(),
    {
        self.size
    }

    /// Finds the column index of key `k`, if `k` is declared.
    fn find_col(&self, k: u64) -> (r: Option<usize>)
        requires
            self.inv(),
        ensures
            match r {
                Some(i) => i < self.keys@.len() && self.keys@[i as int] == k,
                None => !self.declared(k),
            },
    {
        let n = self.keys.len();
        let mut i: usize = 0;
        while i < n
            invariant
                n == self.keys@.len(),
                i <= n,
                forall|j: int| 0 <= j < i ==> self.keys@[j] != k,
            decreases n - i,
        {
            if self.keys[i] == k {
                return Some(i);
            }
            i += 1;
        }
        proof {
            assert(!self.keys@.contains(k));
        }
        None
    }

    /// A column of `size` vacant cells.
    fn none_column(size: usize) -> (r: Vec<Option<C>>)
        ensures
            r@ == Seq::new(size as nat, |i: int| Option::<C>::None),
    {
        let mut r: Vec<Option<C>> = Vec::new();
        let mut i: usize = 0;
        while i < size
            invariant
                i <= size,
                r@.len() == i,
                forall|j: int| 0 <= j < i ==> r@[j] is None,
            decreases size - i,
        {
            r.push(None);
            i += 1;
        }
        proof {
            assert_seqs_equal!(r.view(), Seq::new(size as nat, |i: int| Option::<C>::None));
        }
        r
    }

    /// Frame rule for replacing the one column at index `i`: the view gains
    /// the new column under that key and is otherwise unchanged.
    proof fn lemma_update_column(pre: Self, post: Self, i: int)
        requires
            pre.inv(),
            0 <= i < pre.columns@.len(),
            post.size == pre.size,
            post.keys == pre.keys,
            post.columns@ == pre.columns@.update(i, post.columns@[i]),
            post.columns@[i]@.len() == pre.size as nat,
        ensures
            post.inv(),
            post@ == pre@.insert(pre.keys@[i], post.columns@[i]@),
            post@.dom() == pre@.dom(),
    {
        assert(post.columns@.len() == pre.columns@.len());
        assert forall|j: int|
            0 <= j < post.columns@.len() implies (#[trigger] post.columns@[j])@.len()
            == post.size as nat by {
            if j != i {
                assert(post.columns@[j] == pre.columns@[j]);
            }
        }
        assert(post.inv());
        let ki = pre.keys@[i];
        let m2 = pre@.insert(ki, post.columns@[i]@);
        assert_maps_equal!(post.view(), m2, k => {
            if post.keys@.contains(k) {
                let j = post.keys@.index_of(k);
                post.lemma_key_index(j);
                pre.lemma_key_index(j);
                if k == ki {
                    post.lemma_key_index(i);
                    pre.lemma_key_index(i);
                    assert(post@[k] == post.columns@[i]@);
                } else {
                    assert(j != i);
                    assert(post.columns@[j] == pre.columns@[j]);
                }
            }
        });
        assert_sets_equal!(post.view().dom(), pre.view().dom(), k => {});
    }

    /// Declares component key `k`, allocating its column with every cell
    /// vacant. Refused with `AlreadyDeclared` if `k` is already declared.
    pub fn register(&mut self, k: u64) -> (r: Result<(), TilesError>)
        requires
            old(self).inv(),
        ensures
            final(self).inv(),
            final(self).size() == old(self).size(),
            r is Ok <==> !old(self).declared(k),
            r == Err::<(), TilesError>(TilesError::AlreadyDeclared) <==> old(self).declared(k),
            r is Err ==> *final(self) == *old(self),
            r is Ok ==> final(self)@ == old(self)@.insert(
                k,
                Seq::new(old(self).size(), |i: int| Option::<C>::None),
            ),
    {
        if self.find_col(k).is_some() {
            return Err(TilesError::AlreadyDeclared);
        }
        let column = Self::none_column(self.size);
        self.keys.push(k);
        self.columns.push(column);
        proof {
            let pre = *old(self);
            let post = *self;
            let n = pre.keys@.len() as int;
            assert forall|a: int, b: int|
                0 <= a < b < post.keys@.len() implies post.keys@[a] != post.keys@[b] by {
                if b < n {
                    assert(pre.keys@[a] != pre.keys@[b]);
                } else {
                    assert(post.keys@[b] == k);
                    assert(post.keys@[a] == pre.keys@[a]);
                    assert(pre.keys@.contains(pre.keys@[a]));
                }
            }
            assert forall|j: int|
                0 <= j < post.columns@.len() implies (#[trigger] post.columns@[j])@.len()
                == post.size as nat by {
                if j < n {
                    assert(post.columns@[j] == pre.columns@[j]);
                }
            }
            assert(post.inv());
            let m2 = pre@.insert(k, Seq::new(pre.size(), |i: int| Option::<C>::None));
            assert_maps_equal!(post.view(), m2, k2 => {
                if pre.keys@.contains(k2) {
                    let j = pre.keys@.index_of(k2);
                    pre.lemma_key_index(j);
                    assert(post.keys@[j] == k2);
                    assert(post.keys@.contains(k2));
                    post.lemma_key_index(j);
                    assert(post.columns@[j] == pre.columns@[j]);
                } else if k2 == k {
                    assert(post.keys@[n] == k2);
                    assert(post.keys@.contains(k2));
                    post.lemma_key_index(n);
                } else {
                    if post.keys@.contains(k2) {
                        let j = post.keys@.index_of(k2);
                        post.lemma_key_index(j);
                        if j < n {
                            assert(pre.keys@[j] == k2);
                            assert(pre.keys@.contains(k2));
                        }
                        assert(false);
                    }
                }
            });
        }
        Ok(())
    }

    /// Sets the cell of key `k` at `slot` to hold `value`, unconditionally
    /// overwriting any prior value.
    pub fn insert(&mut self, k: u64, slot: usize, value: C) -> (r: Result<(), TilesError>)
        requires
            old(self).inv(),
        ensures
            final(self).inv(),
            final(self).size() == old(self).size(),
            r is Ok <==> (slot < old(self).size() && old(self).declared(k)),
            r is Ok ==> final(self)@ == old(self)@.insert(
                k,
                old(self)@[k].update(slot as int, Some(value)),
            ) && final(self)@.dom() == old(self)@.dom(),
            r is Err ==> *final(self) == *old(self),
            r == Err::<(), TilesError>(TilesError::SlotOutOfRange) <==> slot >= old(self).size(),
            r == Err::<(), TilesError>(TilesError::TypeNotDeclared) <==> (slot < old(self).size()
                && !old(self).declared(k)),
    {
        if slot >= self.size {
            return Err(TilesError::SlotOutOfRange);
        }
        let i = match self.find_col(k) {
            Some(i) => i,
            None => { return Err(TilesError::TypeNotDeclared); },
        };
        self.columns[i][slot] = Some(value);
        proof {
            old(self).lemma_key_index(i as int);
            Self::lemma_update_column(*old(self), *self, i as int);
        }
        Ok(())
    }

    /// Vacates the cell of key `k` at `slot`; idempotent on an already
    /// vacant cell.
    pub fn remove(&mut self, k: u64, slot: usize) -> (r: Result<(), TilesError>)
        requires
            old(self).inv(),
        ensures
            final(self).inv(),
            final(self).size() == old(self).size(),
            r is Ok <==> (slot < old(self).size() && old(self).declared(k)),
            r is Ok ==> final(self)@ == old(self)@.insert(
                k,
                old(self)@[k].update(slot as int, Option::<C>::None),
            ) && final(self)@.dom() == old(self)@.dom(),
            r is Err ==> *final(self) == *old(self),
            r == Err::<(), TilesError>(TilesError::SlotOutOfRange) <==> slot >= old(self).size(),
            r == Err::<(), TilesError>(TilesError::TypeNotDeclared) <==> (slot < old(self).size()
                && !old(self).declared(k)),
    {
        if slot >= self.size {
            return Err(TilesError::SlotOutOfRange);
        }
        let i = match self.find_col(k) {
            Some(i) => i,
            None => { return Err(TilesError::TypeNotDeclared); },
        };
        self.columns[i][slot] = None;
        proof {
            old(self).lemma_key_index(i as int);
            Self::lemma_update_column(*old(self), *self, i as int);
        }
        Ok(())
    }

    /// Whether the cell of key `k` at `slot` holds a value.
    pub fn has(&self, k: u64, slot: usize) -> (r: Result<bool, TilesError>)
        requires
            self.inv(),
        ensures
            r is Ok <==> (slot < self.size() && self.declared(k)),
            r matches Ok(b) ==> (b <==> self@[k][slot as int] is Some),
            r == Err::<bool, TilesError>(TilesError::SlotOutOfRange) <==> slot >= self.size(),
            r == Err::<bool, TilesError>(TilesError::TypeNotDeclared) <==> (slot < self.size()
                && !self.declared(k)),
    {
        if slot >= self.size {
            return Err(TilesError::SlotOutOfRange);
        }
        match self.find_col(k) {
            Some(i) => {
                proof {
                    self.lemma_key_index(i as int);
                }
                Ok(self.columns[i][slot].is_some())
            },
            None => Err(TilesError::TypeNotDeclared),
        }
    }

    /// Reads the cell of key `k` at `slot`: a reference to the value if the
    /// cell holds one, `None` if it is vacant.
    pub fn get(&self, k: u64, slot: usize) -> (r: Result<Option<&C>, TilesError>)
        requires
            self.inv(),
        ensures
            r is Ok <==> (slot < self.size() && self.declared(k)),
            r matches Ok(v) ==> (v is Some <==> self@[k][slot as int] is Some),
            r matches Ok(v) ==> (v matches Some(c) ==> self@[k][slot as int] == Some(*c)),
            r == Err::<Option<&C>, TilesError>(TilesError::SlotOutOfRange) <==> slot
                >= self.size(),
            r == Err::<Option<&C>, TilesError>(TilesError::TypeNotDeclared) <==> (slot
                < self.size() && !self.declared(k)),
    {
        if slot >= self.size {
            return Err(TilesError::SlotOutOfRange);
        }
        match self.find_col(k) {
            Some(i) => {
                proof {
                    self.lemma_key_index(i as int);
                }
                Ok(self.columns[i][slot].as_ref())
            },
            None => Err(TilesError::TypeNotDeclared),
        }
    }

    /// Reads and vacates the cell of key `k` at `slot`, returning the value
    /// it held; refused with `ComponentAbsent` if the cell was vacant.
    pub fn take(&mut self, k: u64, slot: usize) -> (r: Result<C, TilesError>)
        requires
            old(self).inv(),
        ensures
            final(self).inv(),
            final(self).size() == old(self).size(),
            r is Ok <==> (slot < old(self).size() && old(self).declared(k)
                && old(self)@[k][slot as int] is Some),
            r matches Ok(v) ==> old(self)@[k][slot as int] == Some(v)
                && final(self)@ == old(self)@.insert(
                    k,
                    old(self)@[k].update(slot as int, Option::<C>::None),
                )
                && final(self)@.dom() == old(self)@.dom(),
            r is Err ==> *final(self) == *old(self),
            r == Err::<C, TilesError>(TilesError::SlotOutOfRange) <==> slot >= old(self).size(),
            r == Err::<C, TilesError>(TilesError::TypeNotDeclared) <==> (slot < old(self).size()
                && !old(self).declared(k)),
            r == Err::<C, TilesError>(TilesError::ComponentAbsent) <==> (slot < old(self).size()
                && old(self).declared(k) && old(self)@[k][slot as int] is None),
    {
        if slot >= self.size {
            return Err(TilesError::SlotOutOfRange);
        }
        let i = match self.find_col(k) {
            Some(i) => i,
            None => { return Err(TilesError::TypeNotDeclared); },
        };
        proof {
            self.lemma_key_index(i as int);
        }
        if self.columns[i][slot].is_none() {
            return Err(TilesError::ComponentAbsent);
        }
        let v = self.columns[i][slot].take();
        proof {
            old(self).lemma_key_index(i as int);
            Self::lemma_update_column(*old(self), *self, i as int);
        }
        Ok(v.unwrap())
    }

    /// Vacates every cell of key `k`'s column, across all slots.
    pub fn clear_column(&mut self, k: u64) -> (r: Result<(), TilesError>)
        requires
            old(self).inv(),
        ensures
            final(self).inv(),
            final(self).size() == old(self).size(),
            r is Ok <==> old(self).declared(k),
            r == Err::<(), TilesError>(TilesError::TypeNotDeclared) <==> !old(self).declared(k),
            r is Err ==> *final(self) == *old(self),
            r is Ok ==> final(self)@ == old(self)@.insert(
                k,
                Seq::new(old(self).size(), |i: int| Option::<C>::None),
            ) && final(self)@.dom() == old(self)@.dom(),
    {
        let i = match self.find_col(k) {
            Some(i) => i,
            None => { return Err(TilesError::TypeNotDeclared); },
        };
        let column = Self::none_column(self.size);
        self.columns[i] = column;
        proof {
            old(self).lemma_key_index(i as int);
            Self::lemma_update_column(*old(self), *self, i as int);
        }
        Ok(())
    }

    /// Deletes the whole slot: for every declared key, vacates the cell at
    /// `slot`. Keys are walked in an order callers cannot observe.
    pub fn clear(&mut self, slot: usize) -> (r: Result<(), TilesError>)
        requires
            old(self).inv(),
        ensures
            final(self).inv(),
            final(self).size() == old(self).size(),
            r is Ok <==> slot < old(self).size(),
            r == Err::<(), TilesError>(TilesError::SlotOutOfRange) <==> slot >= old(self).size(),
            r is Err ==> *final(self) == *old(self),
            r is Ok ==> final(self)@.dom() == old(self)@.dom() && forall|k: u64|
                old(self)@.dom().contains(k) ==> final(self)@[k] == old(self)@[k].update(
                    slot as int,
                    Option::<C>::None,
                ),
    {
        if slot >= self.size {
            return Err(TilesError::SlotOutOfRange);
        }
        let n = self.columns.len();
        let mut i: usize = 0;
        while i < n
            invariant
                n == self.columns@.len(),
                i <= n,
                slot < self.size,
                self.size == old(self).size,
                self.keys == old(self).keys,
                self.columns@.len() == old(self).columns@.len(),
                old(self).inv(),
                self.inv(),
                forall|j: int| i <= j < n ==> self.columns@[j] == old(self).columns@[j],
                forall|j: int|
                    0 <= j < i ==> (#[trigger] self.columns@[j])@ == old(self).columns@[j]@.update(
                        slot as int,
                        Option::<C>::None,
                    ),
            decreases n - i,
        {
            self.columns[i][slot] = None;
            i += 1;
        }
        proof {
            self.lemma_slotwise_view(*old(self), slot as int);
        }
        Ok(())
    }

    /// For two states whose columns are all the pointwise `update` of the
    /// old ones at `slot`, lifts that fact from columns to the view.
    proof fn lemma_slotwise_view(self, pre: Self, slot: int)
        requires
            pre.inv(),
            self.inv(),
            self.keys == pre.keys,
            self.columns@.len() == pre.columns@.len(),
            forall|j: int|
                0 <= j < self.columns@.len() ==> (#[trigger] self.columns@[j])@
                    == pre.columns@[j]@.update(slot, Option::<C>::None),
        ensures
            self@.dom() == pre@.dom(),
            forall|k: u64|
                pre@.dom().contains(k) ==> self@[k] == pre@[k].update(slot, Option::<C>::None),
    {
        assert_sets_equal!(self.view().dom(), pre.view().dom(), k => {});
        assert forall|k: u64| pre@.dom().contains(k) implies self@[k] == pre@[k].update(
            slot,
            Option::<C>::None,
        ) by {
            let j = pre.keys@.index_of(k);
            pre.lemma_key_index(j);
            self.lemma_key_index(j);
        }
    }

    /// Returns the store to its freshly declared state: every cell of every
    /// declared key becomes vacant.
    pub fn clear_all(&mut self)
        requires
            old(self).inv(),
        ensures
            final(self).inv(),
            final(self).size() == old(self).size(),
            final(self)@.dom() == old(self)@.dom(),
            forall|k: u64|
                old(self)@.dom().contains(k) ==> final(self)@[k] == Seq::new(
                    old(self).size(),
                    |i: int| Option::<C>::None,
                ),
    {
        let n = self.columns.len();
        let mut i: usize = 0;
        while i < n
            invariant
                n == self.columns@.len(),
                i <= n,
                self.size == old(self).size,
                self.keys == old(self).keys,
                self.columns@.len() == old(self).columns@.len(),
                old(self).inv(),
                self.inv(),
                forall|j: int| i <= j < n ==> self.columns@[j] == old(self).columns@[j],
                forall|j: int|
                    0 <= j < i ==> (#[trigger] self.columns@[j])@ == Seq::new(
                        self.size as nat,
                        |s: int| Option::<C>::None,
                    ),
            decreases n - i,
        {
            let column = Self::none_column(self.size);
            self.columns[i] = column;
            i += 1;
        }
        proof {
            assert_sets_equal!(self.view().dom(), old(self).view().dom(), k => {});
            assert forall|k: u64| old(self)@.dom().contains(k) implies self@[k] == Seq::new(
                old(self).size(),
                |s: int| Option::<C>::None,
            ) by {
                let j = old(self).keys@.index_of(k);
                old(self).lemma_key_index(j);
                self.lemma_key_index(j);
            }
        }
    }

    /// Transfers the whole slot `source` into slot `target`: for every
    /// declared key the target cell receives the source cell's contents
    /// (overwriting and losing any prior value, by design) and the source
    /// cell becomes vacant.
    pub fn move_slot(&mut self, source: usize, target: usize) -> (r: Result<(), TilesError>)
        requires
            old(self).inv(),
        ensures
            final(self).inv(),
            final(self).size() == old(self).size(),
            r is Ok <==> (source < old(self).size() && target < old(self).size()),
            r == Err::<(), TilesError>(TilesError::SlotOutOfRange)
                <==> (source >= old(self).size() || target >= old(self).size()),
            r is Err ==> *final(self) == *old(self),
            r is Ok ==> final(self)@.dom() == old(self)@.dom() && forall|k: u64|
                old(self)@.dom().contains(k) ==> final(self)@[k] == old(self)@[k].update(
                    source as int,
                    Option::<C>::None,
                ).update(target as int, old(self)@[k][source as int]),
    {
        if source >= self.size || target >= self.size {
            return Err(TilesError::SlotOutOfRange);
        }
        let n = self.columns.len();
        let mut i: usize = 0;
        while i < n
            invariant
                n == self.columns@.len(),
                i <= n,
                source < self.size,
                target < self.size,
                self.size == old(self).size,
                self.keys == old(self).keys,
                self.columns@.len() == old(self).columns@.len(),
                old(self).inv(),
                self.inv(),
                forall|j: int| i <= j < n ==> self.columns@[j] == old(self).columns@[j],
                forall|j: int|
                    0 <= j < i ==> (#[trigger] self.columns@[j])@ == old(self).columns@[j]@.update(
                        source as int,
                        Option::<C>::None,
                    ).update(target as int, old(self).columns@[j]@[source as int]),
            decreases n - i,
        {
            let moved = self.columns[i][source].take();
            self.columns[i][target] = moved;
            i += 1;
        }
        proof {
            assert_sets_equal!(self.view().dom(), old(self).view().dom(), k => {});
            assert forall|k: u64| old(self)@.dom().contains(k) implies self@[k]
                == old(self)@[k].update(source as int, Option::<C>::None).update(
                target as int,
                old(self)@[k][source as int],
            ) by {
                let j = old(self).keys@.index_of(k);
                old(self).lemma_key_index(j);
                self.lemma_key_index(j);
            }
        }
        Ok(())
    }

    /// Transfers one key's cell from `source` to `target`: the target cell
    /// receives the source cell's contents (overwriting any prior value)
    /// and the source cell becomes vacant.
    pub fn transfer(&mut self, k: u64, source: usize, target: usize) -> (r: Result<
        (),
        TilesError,
    >)
        requires
            old(self).inv(),
        ensures
            final(self).inv(),
            final(self).size() == old(self).size(),
            r is Ok <==> (source < old(self).size() && target < old(self).size()
                && old(self).declared(k)),
            r == Err::<(), TilesError>(TilesError::SlotOutOfRange)
                <==> (source >= old(self).size() || target >= old(self).size()),
            r == Err::<(), TilesError>(TilesError::TypeNotDeclared)
                <==> (source < old(self).size() && target < old(self).size()
                && !old(self).declared(k)),
            r is Err ==> *final(self) == *old(self),
            r is Ok ==> final(self)@ == old(self)@.insert(
                k,
                old(self)@[k].update(source as int, Option::<C>::None).update(
                    target as int,
                    old(self)@[k][source as int],
                ),
            ) && final(self)@.dom() == old(self)@.dom(),
    {
        if source >= self.size || target >= self.size {
            return Err(TilesError::SlotOutOfRange);
        }
        let i = match self.find_col(k) {
            Some(i) => i,
            None => { return Err(TilesError::TypeNotDeclared); },
        };
        let moved = self.columns[i][source].take();
        self.columns[i][target] = moved;
        proof {
            assert(self.columns@ =~= old(self).columns@.update(
                i as int,
                self.columns@[i as int],
            ));
            old(self).lemma_key_index(i as int);
            Self::lemma_update_column(*old(self), *self, i as int);
        }
        Ok(())
    }

    /// Borrows the whole column of key `k`: one optional cell per slot.
    pub fn get_components(&self, k: u64) -> (r: Result<&Vec<Option<C>>, TilesError>)
        requires
            self.inv(),
        ensures
            r is Ok <==> self.declared(k),
            r matches Ok(col) ==> col@ == self@[k] && col@.len() == self.size(),
            r == Err::<&Vec<Option<C>>, TilesError>(TilesError::TypeNotDeclared)
                <==> !self.declared(k),
    {
        match self.find_col(k) {
            Some(i) => {
                proof {
                    self.lemma_key_index(i as int);
                }
                Ok(&self.columns[i])
            },
            None => Err(TilesError::TypeNotDeclared),
        }
    }

    /// Records that `post` differs from `pre` at most in the column of
    /// declared key `k`, which now holds `col`.
    pub closed spec fn only_column_changed(pre: Self, post: Self, k: u64, col: Seq<Option<C>>) -> bool {
        let i = pre.keys@.index_of(k);
        &&& post.size == pre.size
        &&& post.keys == pre.keys
        &&& post.columns@ == pre.columns@.update(i, post.columns@[i])
        &&& post.columns@[i]@ == col
    }

    /// What `only_column_changed` means for the view: the store after the
    /// write maps `k` to the new column and is otherwise unchanged, and is
    /// well formed again as soon as the column kept its length.
    pub proof fn lemma_only_column_changed(pre: Self, post: Self, k: u64, col: Seq<Option<C>>)
        requires
            pre.inv(),
            pre.declared(k),
            Self::only_column_changed(pre, post, k, col),
            col.len() == pre.size(),
        ensures
            post.inv(),
            post@ == pre@.insert(k, col),
            post@.dom() == pre@.dom(),
            post.size() == pre.size(),
    {
        let i = pre.keys@.index_of(k);
        assert(0 <= i < pre.keys@.len() && pre.keys@[i] == k);
        pre.lemma_key_index(i);
        Self::lemma_update_column(pre, post, i);
    }

    /// Borrows the whole column of key `k` mutably. The store afterwards is
    /// described by `only_column_changed` with whatever the caller left in
    /// the column; `lemma_only_column_changed` recovers the view, and
    /// well-formedness, provided the caller kept the column's length.
    pub fn get_components_mut(&mut self, k: u64) -> (r: Result<&mut Vec<Option<C>>, TilesError>)
        requires
            old(self).inv(),
        ensures
            r is Ok <==> old(self).declared(k),
            r is Err ==> *final(self) == *old(self) && final(self).inv() && r->Err_0
                == TilesError::TypeNotDeclared,
            r matches Ok(col) ==> (*col)@ == old(self)@[k] && (*col)@.len() == old(self).size()
                && Self::only_column_changed(*old(self), *final(self), k, (*final(col))@),
    {
        let i = match self.find_col(k) {
            Some(i) => i,
            None => { return Err(TilesError::TypeNotDeclared); },
        };
        proof {
            old(self).lemma_key_index(i as int);
        }
        Ok(&mut self.columns[i])
    }

    /// Borrows the value in the cell of key `k` at `slot` mutably, or
    /// returns `Ok(None)` if the cell is vacant.
    pub fn get_mut(&mut self, k: u64, slot: usize) -> (r: Result<Option<&mut C>, TilesError>)
        requires
            old(self).inv(),
        ensures
            r is Ok <==> (slot < old(self).size() && old(self).declared(k)),
            r is Err ==> *final(self) == *old(self) && final(self).inv(),
            r == Err::<Option<&mut C>, TilesError>(TilesError::SlotOutOfRange)
                <==> slot >= old(self).size(),
            r == Err::<Option<&mut C>, TilesError>(TilesError::TypeNotDeclared)
                <==> (slot < old(self).size() && !old(self).declared(k)),
            r matches Ok(v) ==> (v is Some <==> old(self)@[k][slot as int] is Some),
            r matches Ok(v) ==> (v is None ==> *final(self) == *old(self) && final(self).inv()),
            r matches Ok(v) ==> (v matches Some(c) ==> old(self)@[k][slot as int] == Some(*c)
                && Self::only_column_changed(
                    *old(self),
                    *final(self),
                    k,
                    old(self)@[k].update(slot as int, Some(*final(c))),
                )),
    {
        if slot >= self.size {
            return Err(TilesError::SlotOutOfRange);
        }
        let i = match self.find_col(k) {
            Some(i) => i,
            None => { return Err(TilesError::TypeNotDeclared); },
        };
        proof {
            self.lemma_key_index(i as int);
        }
        if self.columns[i][slot].is_none() {
            return Ok(None);
        }
        let cell = &mut self.columns[i][slot];
        Ok(cell.as_mut())
    }

    /// Builds a store with `size` slots and the whole component key list
    /// declared up front: the closed variant, whose type set is fixed at
    /// construction. Refused with `AlreadyDeclared` if the list repeats a
    /// key.
    pub fn with_types(size: usize, ks: &Vec<u64>) -> (r: Result<Tiles<C>, TilesError>)
        ensures
            r is Ok <==> (forall|a: int, b: int| 0 <= a < b < ks@.len() ==> ks@[a] != ks@[b]),
            r matches Err(e) ==> e == TilesError::AlreadyDeclared,
            r matches Ok(t) ==> t.inv() && t.size() == size && (forall|k: u64|
                #[trigger] t.declared(k) <==> ks@.contains(k)) && (forall|k: u64|
                #[trigger] t.declared(k) ==> t@[k] == Seq::new(
                    size as nat,
                    |i: int| Option::<C>::None,
                )),
    {
        let mut t: Tiles<C> = Tiles::new(size);
        let n = ks.len();
        let mut i: usize = 0;
        while i < n
            invariant
                n == ks@.len(),
                i <= n,
                t.inv(),
                t.size() == size as nat,
                forall|a: int, b: int| 0 <= a < b < i ==> ks@[a] != ks@[b],
                forall|k: u64| #[trigger] t.declared(k) <==> ks@.subrange(0, i as int).contains(k),
                forall|k: u64|
                    #[trigger] t.declared(k) ==> t@[k] == Seq::new(
                        size as nat,
                        |s: int| Option::<C>::None,
                    ),
            decreases n - i,
        {
            let ghost pre = t;
            match t.register(ks[i]) {
                Ok(()) => {},
                Err(_) => {
                    proof {
                        assert(pre.declared(ks@[i as int]));
                        let sub = ks@.subrange(0, i as int);
                        assert(sub.contains(ks@[i as int]));
                        let a = choose|a: int| 0 <= a < sub.len() && sub[a] == ks@[i as int];
                        assert(ks@[a] == ks@[i as int] && 0 <= a < i);
                    }
                    return Err(TilesError::AlreadyDeclared);
                },
            }
            proof {
                let sub1 = ks@.subrange(0, i + 1 as int);
                let sub0 = ks@.subrange(0, i as int);
                assert(sub1 =~= sub0.push(ks@[i as int]));
                assert forall|k: u64| #[trigger] t.declared(k) <==> sub1.contains(k) by {
                    if t.declared(k) {
                        if k == ks@[i as int] {
                            assert(sub1[i as int] == k);
                        } else {
                            assert(pre.declared(k));
                            let a = choose|a: int| 0 <= a < sub0.len() && sub0[a] == k;
                            assert(sub1[a] == k);
                        }
                    } else {
                        if sub1.contains(k) {
                            let a = choose|a: int| 0 <= a < sub1.len() && sub1[a] == k;
                            if a < i {
                                assert(sub0[a] == k);
                                assert(pre.declared(k));
                            } else {
                                assert(k == ks@[i as int]);
                            }
                            assert(false);
                        }
                    }
                }
                assert forall|k: u64| #[trigger] t.declared(k) implies t@[k] == Seq::new(
                    size as nat,
                    |s: int| Option::<C>::None,
                ) by {
                    if k != ks@[i as int] {
                        assert(pre.declared(k));
                        assert(t@[k] == pre@[k]);
                    }
                }
                assert forall|a: int, b: int| 0 <= a < b < i + 1 implies ks@[a] != ks@[b] by {
                    if b == i {
                        assert(!pre.declared(ks@[i as int]));
                        if ks@[a] == ks@[b] {
                            assert(sub0[a] == ks@[i as int]);
                            assert(sub0.contains(ks@[i as int]));
                            assert(false);
                        }
                    }
                }
            }
            i += 1;
        }
        proof {
            assert(ks@.subrange(0, n as int) =~= ks@);
        }
        Ok(t)
    }
}

} // verus!
