//! One component type's storage: a packed array of fixed-width byte cells,
//! one per row, built from a [`Descriptor`].
//!
//! A cell holds the raw bytes of one component value. The column records
//! whether its component type has a destructor and counts how many times
//! that destructor has been run, so that callers can state (and tests can
//! observe) the drop discipline: a row leaves a column through exactly one
//! of [`Column::swap_remove`] (its value moves out, no destructor) or
//! [`Column::drop_row`] (its value is discarded, destructor runs once).

use vstd::prelude::*;
use crate::component::Descriptor;

verus! {

/// A contiguous packed buffer of rows for one component type.
pub struct Column {
    cells: Vec<Vec<u8>>,
    size: usize,
    drop: bool,
    drops: u64,
}

impl Column {
    /// The rows, each as the byte string of one component value.
    pub closed spec fn rows(self) -> Seq<Seq<u8>> {
        Seq::new(self.cells@.len(), |i: int| self.cells@[i]@)
    }

    pub open spec fn spec_len(self) -> nat {
        self.rows().len()
    }

    /// Width of one cell, in bytes.
    pub closed spec fn spec_size(self) -> usize {
        self.size
    }

    /// Whether the component type has a destructor.
    pub closed spec fn spec_drop(self) -> bool {
        self.drop
    }

    /// How many times the destructor has been run.
    pub closed spec fn spec_drops(self) -> nat {
        self.drops as nat
    }

    /// Every row holds exactly one cell-width of bytes.
    pub open spec fn wf(self) -> bool {
        forall|i: int| 0 <= i < self.rows().len() ==> (#[trigger] self.rows()[i]).len()
            == self.spec_size()
    }

    /// An empty column laid out for `descriptor`'s component type.
    pub fn new(descriptor: &Descriptor) -> (r: Self)
        ensures
            r.wf(),
            r.rows() == Seq::<Seq<u8>>::empty(),
            r.spec_size() == descriptor.layout().size(),
            r.spec_drop() == descriptor.drop(),
            r.spec_drops() == 0,
    {
        let r = Self {
            cells: Vec::new(),
            size: descriptor.layout().size(),
            drop: descriptor.drop(),
            drops: 0,
        };
        proof {
            assert(r.rows() =~= Seq::<Seq<u8>>::empty());
        }
        r
    }

    pub fn len(&self) -> (r: usize)
        ensures
            r as nat == self.spec_len(),
    {
        self.cells.len()
    }

    pub fn size(&self) -> (r: usize)
        ensures
            r == self.spec_size(),
    {
        self.size
    }

    pub fn has_destructor(&self) -> (r: bool)
        ensures
            r == self.spec_drop(),
    {
        self.drop
    }

    pub fn destructor_runs(&self) -> (r: u64)
        ensures
            r as nat == self.spec_drops(),
    {
        self.drops
    }

    /// Appends one row, taking ownership of its bytes; no destructor runs.
    pub fn push_row(&mut self, bytes: Vec<u8>)
        requires
            old(self).wf(),
            bytes@.len() == old(self).spec_size(),
        ensures
            final(self).wf(),
            final(self).rows() == old(self).rows().push(bytes@),
            final(self).spec_size() == old(self).spec_size(),
            final(self).spec_drop() == old(self).spec_drop(),
            final(self).spec_drops() == old(self).spec_drops(),
    {
        self.cells.push(bytes);
        proof {
            assert(self.rows() =~= old(self).rows().push(bytes@));
        }
    }

    /// A copy of row `row`'s bytes.
    pub fn read_row(&self, row: usize) -> (r: Vec<u8>)
        requires
            row < self.spec_len(),
        ensures
            r@ == self.rows()[row as int],
    {
        let r = self.cells[row].clone();
        proof {
            assert(r@ =~= self.cells@[row as int]@);
        }
        r
    }

    /// Moves row `row`'s bytes out for relocation: the last row's bytes are
    /// moved into the vacated slot and the length shrinks by one. No
    /// destructor runs — ownership of the removed value transfers to the
    /// caller.
    pub fn swap_remove(&mut self, row: usize) -> (r: Vec<u8>)
        requires
            old(self).wf(),
            row < old(self).spec_len(),
        ensures
            final(self).wf(),
            r@ == old(self).rows()[row as int],
            final(self).rows() == old(self).rows().update(
                row as int,
                old(self).rows().last(),
            ).drop_last(),
            final(self).spec_size() == old(self).spec_size(),
            final(self).spec_drop() == old(self).spec_drop(),
            final(self).spec_drops() == old(self).spec_drops(),
    {
        let r = self.cells.swap_remove(row);
        proof {
            assert(self.rows() =~= old(self).rows().update(
                row as int,
                old(self).rows().last(),
            ).drop_last());
        }
        r
    }

    /// Discards row `row`: the destructor (if the type has one) runs once
    /// on the discarded value, then the row is swap-removed.
    pub fn drop_row(&mut self, row: usize)
        requires
            old(self).wf(),
            row < old(self).spec_len(),
            old(self).spec_drops() < u64::MAX,
        ensures
            final(self).wf(),
            final(self).rows() == old(self).rows().update(
                row as int,
                old(self).rows().last(),
            ).drop_last(),
            final(self).spec_size() == old(self).spec_size(),
            final(self).spec_drop() == old(self).spec_drop(),
            final(self).spec_drops() == old(self).spec_drops() + (if old(self).spec_drop() {
                1int
            } else {
                0int
            }),
    {
        let _discarded = self.cells.swap_remove(row);
        if self.drop {
            self.drops = self.drops + 1;
        }
        proof {
            assert(self.rows() =~= old(self).rows().update(
                row as int,
                old(self).rows().last(),
            ).drop_last());
        }
    }

    /// Runs the destructor (if the type has one) once on a value that was
    /// moved out of a column of this shape earlier and is now being
    /// discarded rather than transplanted. The rows are untouched.
    pub fn drop_value(&mut self, bytes: Vec<u8>)
        requires
            old(self).wf(),
            bytes@.len() == old(self).spec_size(),
            old(self).spec_drops() < u64::MAX,
        ensures
            final(self).wf(),
            final(self).rows() == old(self).rows(),
            final(self).spec_size() == old(self).spec_size(),
            final(self).spec_drop() == old(self).spec_drop(),
            final(self).spec_drops() == old(self).spec_drops() + (if old(self).spec_drop() {
                1int
            } else {
                0int
            }),
    {
        let _discarded = bytes;
        if self.drop {
            self.drops = self.drops + 1;
        }
        proof {
            assert(self.rows() =~= old(self).rows());
        }
    }

    /// Overwrites row `row` with a new value: the destructor (if any) runs
    /// once on the old value, then the new bytes take its place.
    pub fn replace(&mut self, row: usize, bytes: Vec<u8>)
        requires
            old(self).wf(),
            row < old(self).spec_len(),
            bytes@.len() == old(self).spec_size(),
            old(self).spec_drops() < u64::MAX,
        ensures
            final(self).wf(),
            final(self).rows() == old(self).rows().update(row as int, bytes@),
            final(self).spec_size() == old(self).spec_size(),
            final(self).spec_drop() == old(self).spec_drop(),
            final(self).spec_drops() == old(self).spec_drops() + (if old(self).spec_drop() {
                1int
            } else {
                0int
            }),
    {
        self.cells[row] = bytes;
        if self.drop {
            self.drops = self.drops + 1;
        }
        proof {
            assert(self.rows() =~= old(self).rows().update(row as int, bytes@));
        }
    }
}

} // verus!
