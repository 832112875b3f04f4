//! The sparse-set index: an O(1) associative map from an unsigned "sparse"
//! key to a packed "dense" slot, used wherever an identity has to be
//! translated to a position in a packed array (entity to row, component
//! type to column).

use vstd::prelude::*;

verus! {

/// A value that can serve as the key of a [`SparseSet`].
pub trait SparseIndex: Sized {
    /// The sparse key, as a mathematical number.
    spec fn key(&self) -> nat;

    /// The sparse key, as an index.
    fn sparse_index(&self) -> (r: usize)
        ensures
            r as nat == self.key(),
    ;
}

impl SparseIndex for usize {
    open spec fn key(&self) -> nat {
        *self as nat
    }

    fn sparse_index(&self) -> (r: usize) {
        *self
    }
}

/// An associative index from sparse keys to packed slots.
///
/// `sparse[k]` holds the dense slot of the value whose key is `k` (`None`
/// where no such value is present); `dense` holds the values themselves,
/// packed without gaps in insertion order. The sparse array only ever
/// grows. The primitive itself offers insertion and membership; removal
/// with compaction ([`SparseSet::swap_remove`]) is layered on top for the
/// containers that need it.
pub struct SparseSet<T> {
    sparse: Vec<Option<usize>>,
    dense: Vec<T>,
}

impl<T: SparseIndex> SparseSet<T> {
    /// The packed values, in dense order.
    pub closed spec fn dense_view(self) -> Seq<T> {
        self.dense@
    }

    /// How many values are present.
    pub open spec fn spec_len(self) -> nat {
        self.dense_view().len()
    }

    /// Whether a value with key `k` is present.
    pub closed spec fn spec_contains(self, k: nat) -> bool {
        k < self.sparse@.len() && self.sparse@[k as int] is Some
    }

    /// The dense slot of the value with key `k` (meaningful only when
    /// `spec_contains(k)`).
    pub closed spec fn slot_of(self, k: nat) -> nat {
        match self.sparse@[k as int] {
            Some(d) => d as nat,
            None => 0,
        }
    }

    /// The sparse and dense arrays describe a bijection: every occupied
    /// sparse entry points at a dense slot holding a value of that key, and
    /// every dense value's key points back at its slot.
    pub closed spec fn wf(self) -> bool {
        &&& forall|i: int|
            0 <= i < self.sparse@.len() ==> (#[trigger] self.sparse@[i] matches Some(d) ==> d
                < self.dense@.len() && self.dense@[d as int].key() == i)
        &&& forall|j: int|
            0 <= j < self.dense@.len() ==> (#[trigger] self.dense@[j].key() < self.sparse@.len()
                && self.sparse@[self.dense@[j].key() as int] == Some(j as usize))
    }

    /// What the bijection gives the callers: each present key names a slot
    /// below the length holding a value of that key, and each held value is
    /// found again under its own key.
    pub proof fn lemma_wf(self)
        requires
            self.wf(),
        ensures
            forall|k: nat|
                self.spec_contains(k) ==> #[trigger] self.slot_of(k) < self.spec_len()
                    && self.dense_view()[self.slot_of(k) as int].key() == k,
            forall|j: int|
                0 <= j < self.spec_len() ==> (self.spec_contains(
                    #[trigger] self.dense_view()[j].key(),
                ) && self.slot_of(self.dense_view()[j].key()) == j),
    {
        vstd::std_specs::vec::axiom_spec_len(&self.dense);
    }

    pub fn new() -> (r: Self)
        ensures
            r.wf(),
            r.dense_view() == Seq::<T>::empty(),
            forall|k: nat| !r.spec_contains(k),
    {
        Self { sparse: Vec::new(), dense: Vec::new() }
    }

    pub fn len(&self) -> (r: usize)
        ensures
            r as nat == self.spec_len(),
    {
        self.dense.len()
    }

    /// O(1) membership; safe for any key, including ones beyond the current
    /// sparse length (those are absent).
    pub fn contains(&self, value: &T) -> (r: bool)
        ensures
            r == self.spec_contains(value.key()),
    {
        let k = value.sparse_index();
        k < self.sparse.len() && self.sparse[k].is_some()
    }

    /// The dense slot of the value sharing `value`'s key, if present.
    pub fn index_of(&self, value: &T) -> (r: Option<usize>)
        requires
            self.wf(),
        ensures
            match r {
                Some(s) => self.spec_contains(value.key()) && s as nat == self.slot_of(value.key())
                    && (s as nat) < self.spec_len(),
                None => !self.spec_contains(value.key()),
            },
    {
        let k = value.sparse_index();
        if k < self.sparse.len() {
            self.sparse[k]
        } else {
            None
        }
    }

    /// The value at dense slot `slot`.
    pub fn at(&self, slot: usize) -> (r: &T)
        requires
            slot < self.spec_len(),
        ensures
            *r == self.dense_view()[slot as int],
    {
        &self.dense[slot]
    }

    /// O(1) amortized insertion. Returns `false` and performs no mutation
    /// if a value with the same key is already present; otherwise grows the
    /// sparse array to cover the new key (new entries absent), appends the
    /// value to the dense array, and records its slot.
    pub fn insert(&mut self, value: T) -> (r: bool)
        requires
            old(self).wf(),
            value.key() < usize::MAX,
        ensures
            final(self).wf(),
            r == !old(self).spec_contains(value.key()),
            !r ==> *final(self) == *old(self),
            r ==> final(self).dense_view() == old(self).dense_view().push(value),
            r ==> final(self).spec_contains(value.key()) && final(self).slot_of(value.key())
                == old(self).spec_len(),
            forall|k: nat|
                k != value.key() ==> final(self).spec_contains(k) == old(self).spec_contains(k),
            forall|k: nat|
                k != value.key() && old(self).spec_contains(k) ==> final(self).slot_of(k) == old(
                    self,
                ).slot_of(k),
    {
        if self.contains(&value) {
            return false;
        }
        let k = value.sparse_index();
        while self.sparse.len() <= k
            invariant
                k < usize::MAX,
                self.dense@ == old(self).dense@,
                self.sparse@.len() >= old(self).sparse@.len(),
                self.sparse@.subrange(0, old(self).sparse@.len() as int) == old(self).sparse@,
                forall|i: int|
                    old(self).sparse@.len() <= i < self.sparse@.len() ==> #[trigger] self.sparse@[i]
                        is None,
            decreases k + 1 - self.sparse@.len(),
        {
            self.sparse.push(None);
        }
        proof {
            assert(forall|i: int|
                0 <= i < old(self).sparse@.len() ==> self.sparse@[i] == old(self).sparse@[i]);
        }
        let slot = self.dense.len();
        self.sparse[k] = Some(slot);
        self.dense.push(value);
        proof {
            assert forall|j: int| 0 <= j < self.dense@.len() implies (#[trigger] self.dense@[j].key()
                < self.sparse@.len() && self.sparse@[self.dense@[j].key() as int] == Some(
                j as usize,
            )) by {
                if j < old(self).dense@.len() {
                    assert(old(self).dense@[j].key() < old(self).sparse@.len());
                }
            }
        }
        true
    }

    /// Removes the value sharing `value`'s key, compacting the dense array
    /// by moving the last value into the vacated slot and repointing that
    /// value's sparse entry. Returns the vacated slot, or `None` (and no
    /// mutation) if the key was absent.
    pub fn swap_remove(&mut self, value: &T) -> (r: Option<usize>)
        requires
            old(self).wf(),
        ensures
            final(self).wf(),
            match r {
                None => !old(self).spec_contains(value.key()) && *final(self) == *old(self),
                Some(s) => {
                    &&& old(self).spec_contains(value.key())
                    &&& s as nat == old(self).slot_of(value.key())
                    &&& (s as nat) < old(self).spec_len()
                    &&& final(self).dense_view() == old(self).dense_view().update(
                        s as int,
                        old(self).dense_view().last(),
                    ).drop_last()
                    &&& !final(self).spec_contains(value.key())
                    &&& forall|k: nat|
                        k != value.key() ==> final(self).spec_contains(k) == old(
                            self,
                        ).spec_contains(k)
                    &&& forall|k: nat|
                        k != value.key() && old(self).spec_contains(k) ==> final(self).slot_of(k)
                            == (if old(self).slot_of(k) == old(self).spec_len() - 1 {
                            s as nat
                        } else {
                            old(self).slot_of(k)
                        })
                },
            },
    {
        let k = value.sparse_index();
        if k >= self.sparse.len() {
            return None;
        }
        let slot = match self.sparse[k] {
            Some(s) => s,
            None => {
                return None;
            },
        };
        proof {
            self.lemma_wf();
        }
        let _removed = self.dense.swap_remove(slot);
        self.sparse[k] = None;
        if slot < self.dense.len() {
            let moved_key = self.dense[slot].sparse_index();
            proof {
                assert(old(self).dense@[old(self).dense@.len() - 1].key() == moved_key);
                assert(old(self).sparse@[moved_key as int] == Some(
                    (old(self).dense@.len() - 1) as usize,
                ));
                assert(moved_key != k as nat);
            }
            self.sparse[moved_key] = Some(slot);
        }
        proof {
            assert forall|j: int| 0 <= j < self.dense@.len() implies (#[trigger] self.dense@[
            j].key() < self.sparse@.len() && self.sparse@[self.dense@[j].key() as int] == Some(
                j as usize,
            )) by {
                assert(old(self).dense@[j].key() < old(self).sparse@.len());
                if j != slot {
                    assert(self.dense@[j] == old(self).dense@[j]);
                    assert(old(self).sparse@[old(self).dense@[j].key() as int] == Some(j as usize));
                    assert(old(self).dense@[j].key() != k as nat);
                    assert(old(self).dense@[j].key() != old(self).dense@[old(self).dense@.len()
                        - 1].key() || j == old(self).dense@.len() - 1);
                }
            }
        }
        Some(slot)
    }
}

} // verus!
