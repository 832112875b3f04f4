//! A group of entities sharing one component-type set.
//!
//! An archetype owns one [`Column`] per member component type, all columns
//! holding the same number of rows at all times, plus the bidirectional
//! entity-to-row index: a [`SparseSet`] keyed by entity whose dense order is
//! the row order. Removing an entity swap-removes its row from the index
//! and from every column in lockstep.

use vstd::prelude::*;
use crate::collections::{SparseIndex, SparseSet};
use crate::column::Column;
use crate::component;
use crate::component::Descriptor;
use crate::entity::EntityId;

verus! {

/// Identifier of one archetype inside a storage: the position of the
/// archetype in the storage's archetype table.
#[derive(Copy, Clone, Eq, PartialEq, Ord, PartialOrd, Hash, Debug, Structural)]
pub struct Id(usize);

impl View for Id {
    type V = nat;

    closed spec fn view(&self) -> nat {
        self.0 as nat
    }
}

impl Id {
    pub fn new(id: usize) -> (r: Self)
        ensures
            r@ == id as nat,
    {
        Self(id)
    }

    /// The raw index behind the id.
    pub fn index(&self) -> (r: usize)
        ensures
            r as nat == self@,
    {
        self.0
    }
}

impl From<Id> for usize {
    fn from(value: Id) -> (r: usize)
        ensures
            r as nat == value@,
    {
        value.0
    }
}

impl vstd::std_specs::convert::FromSpecImpl<Id> for usize {
    open spec fn obeys_from_spec() -> bool {
        true
    }

    open spec fn from_spec(value: Id) -> usize {
        value@ as usize
    }
}

/// Whether `s` is strictly increasing — the canonical form of a
/// component-type set.
pub open spec fn strictly_sorted(s: Seq<nat>) -> bool {
    forall|i: int, j: int| 0 <= i < j < s.len() ==> s[i] < s[j]
}

/// The position of `c` in `s` (meaningful when `s` contains `c` exactly
/// once, as a strictly sorted sequence does).
pub open spec fn position_of(s: Seq<nat>, c: nat) -> int {
    choose|i: int| 0 <= i < s.len() && s[i] == c
}

/// In a strictly sorted sequence, every element is found at its own index.
pub proof fn lemma_position_of(s: Seq<nat>, k: int)
    requires
        strictly_sorted(s),
        0 <= k < s.len(),
    ensures
        position_of(s, s[k]) == k,
{
    assert(0 <= k < s.len() && s[k] == s[k]);
    let i = position_of(s, s[k]);
    assert(0 <= i < s.len() && s[i] == s[k]);
    if i < k {
        assert(s[i] < s[k]);
    } else if k < i {
        assert(s[k] < s[i]);
    }
}

/// Whether index `p` splits `s` into elements below `c` and above `c`.
pub open spec fn splits_at(s: Seq<nat>, c: nat, p: int) -> bool {
    &&& 0 <= p <= s.len()
    &&& forall|i: int| 0 <= i < p ==> #[trigger] s[i] < c
    &&& forall|i: int| p <= i < s.len() ==> c < #[trigger] s[i]
}

/// The index at which `c` belongs in the strictly sorted sequence `s`
/// (meaningful when `s` is strictly sorted and lacks `c`).
pub open spec fn insert_point(s: Seq<nat>, c: nat) -> int {
    choose|p: int| splits_at(s, c, p)
}

/// `s` with `c` inserted at its sorted position.
pub open spec fn sorted_insert(s: Seq<nat>, c: nat) -> Seq<nat> {
    s.insert(insert_point(s, c), c)
}

/// A strictly sorted sequence that lacks `c` has a split point around `c`,
/// and the insertion point is one.
pub proof fn lemma_split_exists(s: Seq<nat>, c: nat)
    requires
        strictly_sorted(s),
        !s.contains(c),
    ensures
        splits_at(s, c, insert_point(s, c)),
    decreases s.len(),
{
    if s.len() == 0 {
        assert(splits_at(s, c, 0));
    } else if c < s[0] {
        assert forall|i: int| 0 <= i < s.len() implies c < #[trigger] s[i] by {
            if i > 0 {
                assert(s[0] < s[i]);
            }
        }
        assert(splits_at(s, c, 0));
    } else {
        assert(s[0] != c) by {
            if s[0] == c {
                assert(s.contains(c));
            }
        }
        assert(s[0] < c);
        let sub = s.subrange(1, s.len() as int);
        assert(strictly_sorted(sub)) by {
            assert forall|i: int, j: int| 0 <= i < j < sub.len() implies sub[i] < sub[j] by {
                assert(sub[i] == s[i + 1] && sub[j] == s[j + 1]);
            }
        }
        assert(!sub.contains(c)) by {
            if sub.contains(c) {
                let i = choose|i: int| 0 <= i < sub.len() && sub[i] == c;
                assert(s[i + 1] == c);
            }
        }
        lemma_split_exists(sub, c);
        let p = insert_point(sub, c);
        assert(splits_at(s, c, p + 1)) by {
            assert forall|i: int| 0 <= i < p + 1 implies #[trigger] s[i] < c by {
                if i > 0 {
                    assert(sub[i - 1] < c);
                }
            }
            assert forall|i: int| p + 1 <= i < s.len() implies c < #[trigger] s[i] by {
                assert(c < sub[i - 1]);
            }
        }
    }
    assert(exists|p: int| splits_at(s, c, p));
}

/// If `p` splits `s` around `c`, then `p` is the insertion point, and the
/// sorted insertion behaves as expected: the result is strictly sorted, it
/// holds `c` at `p` and the old elements around it, and its membership is
/// the old membership plus `c`.
pub proof fn lemma_sorted_insert(s: Seq<nat>, c: nat, p: int)
    requires
        strictly_sorted(s),
        !s.contains(c),
        splits_at(s, c, p),
    ensures
        insert_point(s, c) == p,
        sorted_insert(s, c) == s.insert(p, c),
        strictly_sorted(sorted_insert(s, c)),
        sorted_insert(s, c).len() == s.len() + 1,
        sorted_insert(s, c)[p] == c,
        forall|i: int| 0 <= i < p ==> #[trigger] sorted_insert(s, c)[i] == s[i],
        forall|i: int| p < i < s.len() + 1 ==> #[trigger] sorted_insert(s, c)[i] == s[i - 1],
        forall|x: nat| sorted_insert(s, c).contains(x) <==> (x == c || s.contains(x)),
        position_of(sorted_insert(s, c), c) == p,
        sorted_insert(s, c).remove(p) == s,
{
    let q = insert_point(s, c);
    assert(splits_at(s, c, q));
    if q < p {
        assert(s[q] < c && c < s[q]);
    } else if p < q {
        assert(s[p] < c && c < s[p]);
    }
    let t = sorted_insert(s, c);
    assert(t == s.insert(p, c));
    assert forall|i: int, j: int| 0 <= i < j < t.len() implies t[i] < t[j] by {
        if i < p && j < p {
        } else if i < p && j == p {
        } else if i < p && j > p {
            assert(t[j] == s[j - 1]);
        } else if i == p && j > p {
            assert(t[j] == s[j - 1]);
        } else {
            assert(t[i] == s[i - 1] && t[j] == s[j - 1]);
        }
    }
    assert forall|x: nat| t.contains(x) implies (x == c || s.contains(x)) by {
        let i = choose|i: int| 0 <= i < t.len() && t[i] == x;
        if i < p {
            assert(s[i] == x);
        } else if i > p {
            assert(s[i - 1] == x);
        }
    }
    assert forall|x: nat| (x == c || s.contains(x)) implies t.contains(x) by {
        if x == c {
            assert(t[p] == x);
        } else {
            let i = choose|i: int| 0 <= i < s.len() && s[i] == x;
            if i < p {
                assert(t[i] == x);
            } else {
                assert(t[i + 1] == x);
            }
        }
    }
    lemma_position_of(t, p);
    assert(t.remove(p) =~= s);
}

/// Removing the one occurrence of `c` from a strictly sorted sequence
/// keeps it strictly sorted and drops exactly `c` from its membership.
pub proof fn lemma_sorted_remove(s: Seq<nat>, c: nat)
    requires
        strictly_sorted(s),
        s.contains(c),
    ensures
        0 <= position_of(s, c) < s.len(),
        s[position_of(s, c)] == c,
        strictly_sorted(s.remove(position_of(s, c))),
        s.remove(position_of(s, c)).len() == s.len() - 1,
        forall|x: nat| s.remove(position_of(s, c)).contains(x) <==> (x != c && s.contains(x)),
        !s.remove(position_of(s, c)).contains(c),
{
    let p = position_of(s, c);
    assert(0 <= p < s.len() && s[p] == c);
    let t = s.remove(p);
    assert forall|i: int, j: int| 0 <= i < j < t.len() implies t[i] < t[j] by {
        if i < p && j < p {
        } else if i < p {
            assert(t[j] == s[j + 1]);
        } else {
            assert(t[i] == s[i + 1] && t[j] == s[j + 1]);
        }
    }
    assert forall|x: nat| t.contains(x) implies (x != c && s.contains(x)) by {
        let i = choose|i: int| 0 <= i < t.len() && t[i] == x;
        if i < p {
            assert(s[i] == x);
            lemma_position_of(s, i);
            assert(i != p);
        } else {
            assert(s[i + 1] == x);
            lemma_position_of(s, i + 1);
        }
    }
    assert forall|x: nat| (x != c && s.contains(x)) implies t.contains(x) by {
        let i = choose|i: int| 0 <= i < s.len() && s[i] == x;
        lemma_position_of(s, i);
        assert(i != p);
        if i < p {
            assert(t[i] == x);
        } else {
            assert(t[i - 1] == x);
        }
    }
}

/// Whether `post` has the same member types and column layout (sizes and
/// destructor flags) as `pre` — everything about an archetype that never
/// changes after construction.
pub open spec fn same_shape(pre: Archetype, post: Archetype) -> bool {
    &&& post.types_seq() == pre.types_seq()
    &&& forall|k: int|
        0 <= k < pre.width() ==> (#[trigger] post.col(k)).spec_size() == pre.col(k).spec_size()
            && post.col(k).spec_drop() == pre.col(k).spec_drop()
}

/// A fixed component-type set with one column per type and the
/// entity-to-row index.
pub struct Archetype {
    types: Vec<component::Id>,
    columns: Vec<Column>,
    entities: SparseSet<EntityId>,
}

impl Archetype {
    /// The member component types, strictly sorted by raw id.
    pub closed spec fn types_seq(self) -> Seq<nat> {
        Seq::new(self.types@.len(), |i: int| self.types@[i]@)
    }

    /// How many component types the archetype has.
    pub open spec fn width(self) -> nat {
        self.types_seq().len()
    }

    /// The column of the `k`-th member type.
    pub closed spec fn col(self, k: int) -> Column {
        self.columns@[k]
    }

    /// The entities, in row order.
    pub closed spec fn entity_seq(self) -> Seq<nat> {
        Seq::new(self.entities.dense_view().len(), |j: int| self.entities.dense_view()[j]@)
    }

    /// How many rows (entities) the archetype holds.
    pub open spec fn spec_len(self) -> nat {
        self.entity_seq().len()
    }

    pub closed spec fn spec_contains(self, e: nat) -> bool {
        self.entities.spec_contains(e)
    }

    /// The row of entity `e` (meaningful when `spec_contains(e)`).
    pub closed spec fn row_of(self, e: nat) -> nat {
        self.entities.slot_of(e)
    }

    pub open spec fn spec_has_type(self, c: nat) -> bool {
        self.types_seq().contains(c)
    }

    /// The column index of component type `c`.
    pub open spec fn col_of(self, c: nat) -> int {
        position_of(self.types_seq(), c)
    }

    /// The bytes of the `k`-th component of row `row`.
    pub open spec fn value_at(self, row: nat, k: int) -> Seq<u8> {
        self.col(k).rows()[row as int]
    }

    /// The bytes of entity `e`'s component of type `c`.
    pub open spec fn component_of(self, e: nat, c: nat) -> Seq<u8> {
        self.value_at(self.row_of(e), self.col_of(c))
    }

    /// How many destructor runs the column of type `c` has performed.
    pub open spec fn drops_of(self, c: nat) -> nat {
        self.col(self.col_of(c)).spec_drops()
    }

    /// Room left in every column's destructor-run counter.
    pub open spec fn drops_ok(self) -> bool {
        forall|k: int| 0 <= k < self.width() ==> (#[trigger] self.col(k)).spec_drops() < u64::MAX
    }

    /// Structural invariant: the index is well formed, the type set is
    /// strictly sorted with one column per type, and every column is well
    /// formed with exactly one row per entity.
    pub closed spec fn wf(self) -> bool {
        &&& self.entities.wf()
        &&& self.columns@.len() == self.types@.len()
        &&& strictly_sorted(self.types_seq())
        &&& forall|k: int|
            0 <= k < self.columns@.len() ==> (#[trigger] self.columns@[k]).wf()
                && self.columns@[k].spec_len() == self.entities.dense_view().len()
    }

    /// The consequences of `wf` that callers reason with: columns match the
    /// type set row for row, and the entity index is a bijection between
    /// held entities and rows.
    pub proof fn lemma_wf(self)
        requires
            self.wf(),
        ensures
            strictly_sorted(self.types_seq()),
            forall|k: int|
                0 <= k < self.width() ==> (#[trigger] self.col(k)).wf() && self.col(k).spec_len()
                    == self.spec_len(),
            forall|e: nat|
                self.spec_contains(e) ==> #[trigger] self.row_of(e) < self.spec_len()
                    && self.entity_seq()[self.row_of(e) as int] == e,
            forall|j: int|
                0 <= j < self.spec_len() ==> self.spec_contains(#[trigger] self.entity_seq()[j])
                    && self.row_of(self.entity_seq()[j]) == j,
            forall|k: int| 0 <= k < self.width() ==> self.col_of(#[trigger] self.types_seq()[k])
                == k,
    {
        self.entities.lemma_wf();
        assert forall|j: int| 0 <= j < self.spec_len() implies self.spec_contains(
            #[trigger] self.entity_seq()[j],
        ) && self.row_of(self.entity_seq()[j]) == j by {
            assert(self.entity_seq()[j] == self.entities.dense_view()[j].key());
        }
        assert forall|k: int| 0 <= k < self.width() implies self.col_of(
            #[trigger] self.types_seq()[k],
        ) == k by {
            lemma_position_of(self.types_seq(), k);
        }
    }

    /// An empty archetype for the given member types, one descriptor per
    /// type, strictly sorted by id.
    pub fn new(descriptors: &Vec<Descriptor>) -> (r: Self)
        requires
            forall|i: int, j: int|
                0 <= i < j < descriptors@.len() ==> (#[trigger] descriptors@[i]).id()@
                    < (#[trigger] descriptors@[j]).id()@,
        ensures
            r.wf(),
            r.spec_len() == 0,
            r.entity_seq() == Seq::<nat>::empty(),
            forall|e: nat| !r.spec_contains(e),
            r.width() == descriptors@.len(),
            forall|k: int|
                0 <= k < descriptors@.len() ==> r.types_seq()[k] == (
                #[trigger] descriptors@[k]).id()@,
            forall|k: int|
                0 <= k < descriptors@.len() ==> (#[trigger] r.col(k)).spec_size()
                    == descriptors@[k].layout().size() && r.col(k).spec_drop()
                    == descriptors@[k].drop() && r.col(k).spec_drops() == 0,
    {
        let mut types: Vec<component::Id> = Vec::new();
        let mut columns: Vec<Column> = Vec::new();
        let mut k: usize = 0;
        while k < descriptors.len()
            invariant
                k <= descriptors@.len(),
                types@.len() == k,
                columns@.len() == k,
                forall|i: int| 0 <= i < k ==> (#[trigger] types@[i])@ == descriptors@[i].id()@,
                forall|i: int|
                    0 <= i < k ==> (#[trigger] columns@[i]).wf() && columns@[i].spec_len() == 0
                        && columns@[i].spec_size() == descriptors@[i].layout().size()
                        && columns@[i].spec_drop() == descriptors@[i].drop()
                        && columns@[i].spec_drops() == 0,
            decreases descriptors@.len() - k,
        {
            let d = &descriptors[k];
            types.push(d.id());
            columns.push(Column::new(d));
            k = k + 1;
        }
        let r = Self { types, columns, entities: SparseSet::new() };
        proof {
            assert(r.entity_seq() =~= Seq::<nat>::empty());
        }
        r
    }

    pub fn len(&self) -> (r: usize)
        ensures
            r as nat == self.spec_len(),
    {
        self.entities.len()
    }

    pub fn contains_entity(&self, e: &EntityId) -> (r: bool)
        ensures
            r == self.spec_contains(e@),
    {
        self.entities.contains(e)
    }

    /// The row of entity `e`, if it lives here.
    pub fn row_index(&self, e: &EntityId) -> (r: Option<usize>)
        requires
            self.wf(),
        ensures
            match r {
                Some(row) => self.spec_contains(e@) && row as nat == self.row_of(e@) && (row as nat)
                    < self.spec_len(),
                None => !self.spec_contains(e@),
            },
    {
        self.entities.index_of(e)
    }

    /// The entity occupying row `row`.
    pub fn entity_at(&self, row: usize) -> (r: EntityId)
        requires
            row < self.spec_len(),
        ensures
            r@ == self.entity_seq()[row as int],
    {
        *self.entities.at(row)
    }

    pub fn has_type(&self, c: component::Id) -> (r: bool)
        requires
            self.wf(),
        ensures
            r == self.spec_has_type(c@),
    {
        self.col_index(c).is_some()
    }

    /// The column index of component type `c`, if it is a member type.
    pub fn col_index(&self, c: component::Id) -> (r: Option<usize>)
        requires
            self.wf(),
        ensures
            match r {
                Some(k) => self.spec_has_type(c@) && k as nat == self.col_of(c@) && (k as nat)
                    < self.width() && self.types_seq()[k as int] == c@,
                None => !self.spec_has_type(c@),
            },
    {
        let mut k: usize = 0;
        while k < self.types.len()
            invariant
                self.wf(),
                k <= self.types@.len(),
                forall|i: int| 0 <= i < k ==> self.types_seq()[i] != c@,
            decreases self.types@.len() - k,
        {
            if self.types[k].index() == c.index() {
                proof {
                    assert(self.types_seq()[k as int] == c@);
                    lemma_position_of(self.types_seq(), k as int);
                }
                return Some(k);
            }
            k = k + 1;
        }
        proof {
            assert(!self.types_seq().contains(c@));
        }
        None
    }

    /// The member component types, in column order.
    pub fn type_ids(&self) -> (r: &Vec<component::Id>)
        ensures
            r@.len() == self.width(),
            forall|k: int| 0 <= k < self.width() ==> (#[trigger] r@[k])@ == self.types_seq()[k],
    {
        &self.types
    }

    /// A copy of entity `e`'s component of type `c`, or `None` if `e` does
    /// not live here or `c` is not a member type.
    pub fn read_component(&self, e: &EntityId, c: component::Id) -> (r: Option<Vec<u8>>)
        requires
            self.wf(),
        ensures
            match r {
                Some(bytes) => self.spec_contains(e@) && self.spec_has_type(c@) && bytes@
                    == self.component_of(e@, c@),
                None => !self.spec_contains(e@) || !self.spec_has_type(c@),
            },
    {
        let row = match self.row_index(e) {
            Some(row) => row,
            None => {
                return None;
            },
        };
        let k = match self.col_index(c) {
            Some(k) => k,
            None => {
                return None;
            },
        };
        proof {
            self.lemma_wf();
        }
        Some(self.columns[k].read_row(row))
    }

    /// How many destructor runs the column of type `c` has performed, or
    /// `None` if `c` is not a member type.
    pub fn destructor_runs(&self, c: component::Id) -> (r: Option<u64>)
        requires
            self.wf(),
        ensures
            match r {
                Some(n) => self.spec_has_type(c@) && n as nat == self.drops_of(c@),
                None => !self.spec_has_type(c@),
            },
    {
        let k = match self.col_index(c) {
            Some(k) => k,
            None => {
                return None;
            },
        };
        proof {
            self.lemma_wf();
        }
        Some(self.columns[k].destructor_runs())
    }

    /// Adds entity `e` with one value per member type, in column order; the
    /// new row goes at the end of every column at once, so all columns keep
    /// one row per entity at every step. If `e` already lives here this is
    /// a no-op returning its existing row (the offered values are discarded
    /// unused).
    pub fn insert_entity(&mut self, e: EntityId, values: Vec<Vec<u8>>) -> (r: usize)
        requires
            old(self).wf(),
            e@ < usize::MAX,
            values@.len() == old(self).width(),
            forall|k: int|
                0 <= k < old(self).width() ==> (#[trigger] values@[k])@.len() == old(self).col(
                    k,
                ).spec_size(),
        ensures
            final(self).wf(),
            same_shape(*old(self), *final(self)),
            old(self).spec_contains(e@) ==> *final(self) == *old(self) && r as nat == old(
                self,
            ).row_of(e@),
            !old(self).spec_contains(e@) ==> {
                &&& r as nat == old(self).spec_len()
                &&& final(self).entity_seq() == old(self).entity_seq().push(e@)
                &&& final(self).spec_contains(e@)
                &&& final(self).row_of(e@) == old(self).spec_len()
                &&& forall|k: int|
                    0 <= k < old(self).width() ==> (#[trigger] final(self).col(k)).rows() == old(
                        self,
                    ).col(k).rows().push(values@[k]@) && final(self).col(k).spec_drops() == old(
                        self,
                    ).col(k).spec_drops()
                &&& forall|k: int|
                    0 <= k < old(self).width() ==> final(self).component_of(
                        e@,
                        #[trigger] old(self).types_seq()[k],
                    ) == values@[k]@
                &&& forall|e2: nat|
                    e2 != e@ ==> final(self).spec_contains(e2) == old(self).spec_contains(e2)
                &&& forall|e2: nat|
                    e2 != e@ && old(self).spec_contains(e2) ==> final(self).row_of(e2) == old(
                        self,
                    ).row_of(e2)
                &&& forall|e2: nat, c: nat|
                    e2 != e@ && old(self).spec_contains(e2) && old(self).spec_has_type(c)
                        ==> final(self).component_of(e2, c) == old(self).component_of(e2, c)
            },
    {
        let ghost pre = *old(self);
        match self.entities.index_of(&e) {
            Some(row) => {
                return row;
            },
            None => {},
        }
        let row = self.entities.len();
        let _ = self.entities.insert(e);
        let ghost mid = self.entities;
        let ghost vals0 = values@;
        let mut values = values;
        let mut k: usize = 0;
        while k < self.columns.len()
            invariant
                pre.wf(),
                k <= self.columns@.len(),
                self.columns@.len() == pre.columns@.len(),
                self.types@ == pre.types@,
                self.entities == mid,
                vals0.len() == pre.columns@.len(),
                values@ == vals0.subrange(k as int, vals0.len() as int),
                forall|i: int|
                    0 <= i < pre.width() ==> (#[trigger] vals0[i])@.len() == pre.col(
                        i,
                    ).spec_size(),
                forall|i: int|
                    0 <= i < k ==> (#[trigger] self.columns@[i]).rows() == pre.col(i).rows().push(
                        vals0[i]@,
                    ) && self.columns@[i].wf() && self.columns@[i].spec_size() == pre.col(
                        i,
                    ).spec_size() && self.columns@[i].spec_drop() == pre.col(i).spec_drop()
                        && self.columns@[i].spec_drops() == pre.col(i).spec_drops(),
                forall|i: int| k <= i < pre.width() ==> self.columns@[i] == pre.col(i),
            decreases self.columns@.len() - k,
        {
            proof {
                assert(values@[0] == vals0[k as int]);
            }
            let v = values.remove(0);
            self.columns[k].push_row(v);
            k = k + 1;
        }
        proof {
            pre.lemma_wf();
            assert(self.types_seq() =~= pre.types_seq());
            assert(self.entity_seq() =~= pre.entity_seq().push(e@));
            assert forall|i: int| 0 <= i < self.columns@.len() implies (
            #[trigger] self.columns@[i]).wf() && self.columns@[i].spec_len()
                == self.entities.dense_view().len() by {
                assert(self.columns@[i].rows() == pre.col(i).rows().push(vals0[i]@));
            }
            assert(self.wf());
            self.lemma_wf();
            assert forall|i: int| 0 <= i < pre.width() implies self.component_of(
                e@,
                #[trigger] pre.types_seq()[i],
            ) == vals0[i]@ by {
                lemma_position_of(pre.types_seq(), i);
                assert(self.col_of(pre.types_seq()[i]) == i);
                assert(self.col(i).rows()[pre.spec_len() as int] == vals0[i]@);
            }
            assert forall|e2: nat, c: nat|
                e2 != e@ && pre.spec_contains(e2) && pre.spec_has_type(c) implies self.component_of(
                e2,
                c,
            ) == pre.component_of(e2, c) by {
                let kc = pre.col_of(c);
                assert(pre.types_seq().contains(c));
                let wit = choose|i: int| 0 <= i < pre.types_seq().len() && pre.types_seq()[i] == c;
                assert(0 <= kc < pre.width() && pre.types_seq()[kc] == c);
                assert(pre.row_of(e2) < pre.spec_len());
                assert(self.col(kc).rows()[pre.row_of(e2) as int] == pre.col(kc).rows()[pre.row_of(
                    e2,
                ) as int]);
            }
        }
        row
    }

    /// Removes entity `e`, swap-removing its row from the index and from
    /// every column in lockstep: the last row moves into the vacated slot.
    /// The removed values are returned, one per member type in column
    /// order, so the caller can transplant them into another archetype; no
    /// destructor runs. Returns `None` (and performs no mutation) if `e`
    /// does not live here.
    pub fn remove_entity(&mut self, e: &EntityId) -> (r: Option<Vec<Vec<u8>>>)
        requires
            old(self).wf(),
        ensures
            final(self).wf(),
            same_shape(*old(self), *final(self)),
            match r {
                None => !old(self).spec_contains(e@) && *final(self) == *old(self),
                Some(vals) => {
                    &&& old(self).spec_contains(e@)
                    &&& vals@.len() == old(self).width()
                    &&& forall|k: int|
                        0 <= k < old(self).width() ==> (#[trigger] vals@[k])@ == old(self).value_at(
                            old(self).row_of(e@),
                            k,
                        )
                    &&& final(self).entity_seq() == old(self).entity_seq().update(
                        old(self).row_of(e@) as int,
                        old(self).entity_seq().last(),
                    ).drop_last()
                    &&& forall|k: int|
                        0 <= k < old(self).width() ==> (#[trigger] final(self).col(k)).rows()
                            == old(self).col(k).rows().update(
                            old(self).row_of(e@) as int,
                            old(self).col(k).rows().last(),
                        ).drop_last() && final(self).col(k).spec_drops() == old(self).col(
                            k,
                        ).spec_drops()
                    &&& !final(self).spec_contains(e@)
                    &&& forall|e2: nat|
                        e2 != e@ ==> final(self).spec_contains(e2) == old(self).spec_contains(e2)
                    &&& forall|e2: nat, c: nat|
                        e2 != e@ && old(self).spec_contains(e2) && old(self).spec_has_type(c)
                            ==> final(self).component_of(e2, c) == old(self).component_of(e2, c)
                },
            },
    {
        let ghost pre = *old(self);
        let row = match self.entities.index_of(e) {
            Some(r) => r,
            None => {
                return None;
            },
        };
        proof {
            pre.lemma_wf();
        }
        let _ = self.entities.swap_remove(e);
        let ghost mid = self.entities;
        let mut vals: Vec<Vec<u8>> = Vec::new();
        let mut k: usize = 0;
        while k < self.columns.len()
            invariant
                pre.wf(),
                row as nat == pre.row_of(e@),
                (row as nat) < pre.spec_len(),
                k <= self.columns@.len(),
                self.columns@.len() == pre.columns@.len(),
                self.types@ == pre.types@,
                self.entities == mid,
                vals@.len() == k,
                forall|i: int|
                    0 <= i < k ==> (#[trigger] vals@[i])@ == pre.col(i).rows()[row as int],
                forall|i: int|
                    0 <= i < k ==> (#[trigger] self.columns@[i]).rows() == pre.col(
                        i,
                    ).rows().update(row as int, pre.col(i).rows().last()).drop_last()
                        && self.columns@[i].wf() && self.columns@[i].spec_size() == pre.col(
                        i,
                    ).spec_size() && self.columns@[i].spec_drop() == pre.col(i).spec_drop()
                        && self.columns@[i].spec_drops() == pre.col(i).spec_drops(),
                forall|i: int| k <= i < pre.width() ==> self.columns@[i] == pre.col(i),
            decreases self.columns@.len() - k,
        {
            proof {
                assert(self.columns@[k as int] == pre.col(k as int));
                assert(pre.columns@[k as int].wf());
            }
            let bytes = self.columns[k].swap_remove(row);
            vals.push(bytes);
            k = k + 1;
        }
        proof {
            self.lemma_removal_shape(pre, mid, e@, row as nat);
        }
        Some(vals)
    }

    /// Destroys entity `e`'s row: the index and every column swap-remove
    /// the same row, and each column runs its destructor (if the type has
    /// one) once on the discarded value. Returns whether `e` lived here
    /// (`false` means no mutation).
    pub fn destroy_entity(&mut self, e: &EntityId) -> (r: bool)
        requires
            old(self).wf(),
            old(self).drops_ok(),
        ensures
            final(self).wf(),
            same_shape(*old(self), *final(self)),
            r == old(self).spec_contains(e@),
            !r ==> *final(self) == *old(self),
            r ==> {
                &&& final(self).entity_seq() == old(self).entity_seq().update(
                    old(self).row_of(e@) as int,
                    old(self).entity_seq().last(),
                ).drop_last()
                &&& forall|k: int|
                    0 <= k < old(self).width() ==> (#[trigger] final(self).col(k)).rows() == old(
                        self,
                    ).col(k).rows().update(
                        old(self).row_of(e@) as int,
                        old(self).col(k).rows().last(),
                    ).drop_last()
                &&& forall|k: int|
                    0 <= k < old(self).width() ==> (#[trigger] final(self).col(k)).spec_drops()
                        == old(self).col(k).spec_drops() + (if old(self).col(k).spec_drop() {
                        1int
                    } else {
                        0int
                    })
                &&& !final(self).spec_contains(e@)
                &&& forall|e2: nat|
                    e2 != e@ ==> final(self).spec_contains(e2) == old(self).spec_contains(e2)
                &&& forall|e2: nat, c: nat|
                    e2 != e@ && old(self).spec_contains(e2) && old(self).spec_has_type(c)
                        ==> final(self).component_of(e2, c) == old(self).component_of(e2, c)
            },
    {
        let ghost pre = *old(self);
        let row = match self.entities.index_of(e) {
            Some(r) => r,
            None => {
                return false;
            },
        };
        proof {
            pre.lemma_wf();
        }
        let _ = self.entities.swap_remove(e);
        let ghost mid = self.entities;
        let mut k: usize = 0;
        while k < self.columns.len()
            invariant
                pre.wf(),
                pre.drops_ok(),
                row as nat == pre.row_of(e@),
                (row as nat) < pre.spec_len(),
                k <= self.columns@.len(),
                self.columns@.len() == pre.columns@.len(),
                self.types@ == pre.types@,
                self.entities == mid,
                forall|i: int|
                    0 <= i < k ==> (#[trigger] self.columns@[i]).rows() == pre.col(
                        i,
                    ).rows().update(row as int, pre.col(i).rows().last()).drop_last()
                        && self.columns@[i].wf() && self.columns@[i].spec_size() == pre.col(
                        i,
                    ).spec_size() && self.columns@[i].spec_drop() == pre.col(i).spec_drop()
                        && self.columns@[i].spec_drops() == pre.col(i).spec_drops() + (
                    if pre.col(i).spec_drop() {
                        1int
                    } else {
                        0int
                    }),
                forall|i: int| k <= i < pre.width() ==> self.columns@[i] == pre.col(i),
            decreases self.columns@.len() - k,
        {
            proof {
                assert(self.columns@[k as int] == pre.col(k as int));
                assert(pre.columns@[k as int].wf());
                assert(pre.columns@[k as int].spec_drops() < u64::MAX);
            }
            self.columns[k].drop_row(row);
            k = k + 1;
        }
        proof {
            self.lemma_removal_shape(pre, mid, e@, row as nat);
        }
        true
    }

    /// The shared shape argument for the two removal operations: once the
    /// index has swap-removed `e` and every column has swap-removed `e`'s
    /// old row, the archetype is well formed again and every other entity
    /// keeps its component values.
    proof fn lemma_removal_shape(self, pre: Archetype, mid: SparseSet<EntityId>, e: nat, row: nat)
        requires
            pre.wf(),
            pre.spec_contains(e),
            row == pre.row_of(e),
            self.entities == mid,
            self.types@ == pre.types@,
            self.columns@.len() == pre.columns@.len(),
            mid.wf(),
            mid.dense_view() == pre.entities.dense_view().update(
                row as int,
                pre.entities.dense_view().last(),
            ).drop_last(),
            !mid.spec_contains(e),
            forall|e2: nat| e2 != e ==> mid.spec_contains(e2) == pre.entities.spec_contains(e2),
            forall|e2: nat|
                e2 != e && pre.entities.spec_contains(e2) ==> mid.slot_of(e2) == (
                if pre.entities.slot_of(e2) == pre.entities.dense_view().len() - 1 {
                    row
                } else {
                    pre.entities.slot_of(e2)
                }),
            forall|i: int|
                0 <= i < pre.width() ==> (#[trigger] self.columns@[i]).rows() == pre.col(
                    i,
                ).rows().update(row as int, pre.col(i).rows().last()).drop_last()
                    && self.columns@[i].wf() && self.columns@[i].spec_size() == pre.col(
                    i,
                ).spec_size() && self.columns@[i].spec_drop() == pre.col(i).spec_drop(),
        ensures
            self.wf(),
            same_shape(pre, self),
            self.entity_seq() == pre.entity_seq().update(
                row as int,
                pre.entity_seq().last(),
            ).drop_last(),
            !self.spec_contains(e),
            forall|e2: nat| e2 != e ==> self.spec_contains(e2) == pre.spec_contains(e2),
            forall|e2: nat, c: nat|
                e2 != e && pre.spec_contains(e2) && pre.spec_has_type(c) ==> self.component_of(
                    e2,
                    c,
                ) == pre.component_of(e2, c),
    {
        pre.lemma_wf();
        pre.entities.lemma_wf();
        assert(self.types_seq() =~= pre.types_seq());
        assert((row as nat) < pre.spec_len());
        assert(self.entity_seq() =~= pre.entity_seq().update(
            row as int,
            pre.entity_seq().last(),
        ).drop_last());
        assert forall|k: int| 0 <= k < self.columns@.len() implies (
        #[trigger] self.columns@[k]).wf() && self.columns@[k].spec_len()
            == self.entities.dense_view().len() by {
            assert(self.columns@[k].rows() == pre.col(k).rows().update(
                row as int,
                pre.col(k).rows().last(),
            ).drop_last());
        }
        assert(self.wf());
        assert forall|e2: nat, c: nat|
            e2 != e && pre.spec_contains(e2) && pre.spec_has_type(c) implies self.component_of(
            e2,
            c,
        ) == pre.component_of(e2, c) by {
            let kc = pre.col_of(c);
            assert(pre.types_seq().contains(c));
            assert(0 <= kc < pre.width() && pre.types_seq()[kc] == c);
            assert(self.col_of(c) == kc);
            let r2 = pre.row_of(e2);
            assert(r2 < pre.spec_len());
            assert(r2 != row);
            let nr2 = self.row_of(e2);
            assert(nr2 == (if r2 == pre.spec_len() - 1 {
                row
            } else {
                r2
            }));
            assert(self.col(kc).rows() == pre.col(kc).rows().update(
                row as int,
                pre.col(kc).rows().last(),
            ).drop_last());
            if r2 == pre.spec_len() - 1 {
                assert((row as int) < pre.col(kc).rows().len() - 1);
                assert(self.col(kc).rows()[row as int] == pre.col(kc).rows().last());
            } else {
                assert(self.col(kc).rows()[r2 as int] == pre.col(kc).rows()[r2 as int]);
            }
        }
    }

    /// Runs type `c`'s destructor (if it has one) once on a value that was
    /// moved out of this archetype's rows earlier and is now discarded
    /// rather than transplanted. No row changes. Returns whether `c` is a
    /// member type (`false` means no mutation).
    pub fn drop_value(&mut self, c: component::Id, bytes: Vec<u8>) -> (r: bool)
        requires
            old(self).wf(),
            old(self).spec_has_type(c@) ==> bytes@.len() == old(self).col(
                old(self).col_of(c@),
            ).spec_size() && old(self).col(old(self).col_of(c@)).spec_drops() < u64::MAX,
        ensures
            final(self).wf(),
            same_shape(*old(self), *final(self)),
            r == old(self).spec_has_type(c@),
            !r ==> *final(self) == *old(self),
            r ==> {
                &&& final(self).entity_seq() == old(self).entity_seq()
                &&& forall|e2: nat| final(self).spec_contains(e2) == old(self).spec_contains(e2)
                &&& forall|e2: nat|
                    old(self).spec_contains(e2) ==> final(self).row_of(e2) == old(self).row_of(e2)
                &&& forall|k: int|
                    0 <= k < old(self).width() ==> (#[trigger] final(self).col(k)).rows() == old(
                        self,
                    ).col(k).rows()
                &&& final(self).drops_of(c@) == old(self).drops_of(c@) + (if old(self).col(
                    old(self).col_of(c@),
                ).spec_drop() {
                    1int
                } else {
                    0int
                })
                &&& forall|k: int|
                    0 <= k < old(self).width() && k != old(self).col_of(c@)
                        ==> (#[trigger] final(self).col(k)) == old(self).col(k)
                &&& forall|e2: nat, c2: nat|
                    old(self).spec_contains(e2) && old(self).spec_has_type(c2)
                        ==> final(self).component_of(e2, c2) == old(self).component_of(e2, c2)
            },
    {
        let ghost pre = *old(self);
        let k = match self.col_index(c) {
            Some(k) => k,
            None => {
                return false;
            },
        };
        proof {
            pre.lemma_wf();
        }
        self.columns[k].drop_value(bytes);
        proof {
            assert(self.types_seq() =~= pre.types_seq());
            assert(self.entity_seq() =~= pre.entity_seq());
            assert(self.wf());
            assert forall|e2: nat, c2: nat|
                pre.spec_contains(e2) && pre.spec_has_type(c2) implies self.component_of(e2, c2)
                == pre.component_of(e2, c2) by {
                let kc = pre.col_of(c2);
                assert(pre.types_seq().contains(c2));
                assert(0 <= kc < pre.width() && pre.types_seq()[kc] == c2);
                if kc != k as int {
                    assert(self.col(kc) == pre.col(kc));
                } else {
                    assert(self.col(kc).rows() == pre.col(kc).rows());
                }
            }
        }
        true
    }

    /// Overwrites entity `e`'s component of type `c` with a new value; the
    /// destructor (if the type has one) runs once on the replaced value.
    /// Returns whether `e` lives here and `c` is a member type (`false`
    /// means no mutation).
    pub fn write_component(&mut self, e: &EntityId, c: component::Id, bytes: Vec<u8>) -> (r: bool)
        requires
            old(self).wf(),
            old(self).spec_has_type(c@) ==> bytes@.len() == old(self).col(
                old(self).col_of(c@),
            ).spec_size() && old(self).col(old(self).col_of(c@)).spec_drops() < u64::MAX,
        ensures
            final(self).wf(),
            same_shape(*old(self), *final(self)),
            r == (old(self).spec_contains(e@) && old(self).spec_has_type(c@)),
            !r ==> *final(self) == *old(self),
            r ==> {
                &&& final(self).entity_seq() == old(self).entity_seq()
                &&& forall|e2: nat| final(self).spec_contains(e2) == old(self).spec_contains(e2)
                &&& forall|e2: nat|
                    old(self).spec_contains(e2) ==> final(self).row_of(e2) == old(self).row_of(e2)
                &&& final(self).component_of(e@, c@) == bytes@
                &&& final(self).drops_of(c@) == old(self).drops_of(c@) + (if old(self).col(
                    old(self).col_of(c@),
                ).spec_drop() {
                    1int
                } else {
                    0int
                })
                &&& forall|k: int|
                    0 <= k < old(self).width() && k != old(self).col_of(c@)
                        ==> (#[trigger] final(self).col(k)) == old(self).col(k)
                &&& forall|e2: nat, c2: nat|
                    old(self).spec_contains(e2) && old(self).spec_has_type(c2) && (e2 != e@ || c2
                        != c@) ==> final(self).component_of(e2, c2) == old(self).component_of(
                        e2,
                        c2,
                    )
            },
    {
        let ghost pre = *old(self);
        let row = match self.entities.index_of(e) {
            Some(r) => r,
            None => {
                return false;
            },
        };
        let k = match self.col_index(c) {
            Some(k) => k,
            None => {
                return false;
            },
        };
        proof {
            pre.lemma_wf();
        }
        self.columns[k].replace(row, bytes);
        proof {
            assert(self.types_seq() =~= pre.types_seq());
            assert(self.entity_seq() =~= pre.entity_seq());
            assert(self.wf());
            self.lemma_wf();
            assert(self.col(k as int).rows()[row as int] == bytes@);
            assert forall|e2: nat, c2: nat|
                pre.spec_contains(e2) && pre.spec_has_type(c2) && (e2 != e@ || c2
                    != c@) implies self.component_of(e2, c2) == pre.component_of(e2, c2) by {
                let kc = pre.col_of(c2);
                assert(pre.types_seq().contains(c2));
                assert(0 <= kc < pre.width() && pre.types_seq()[kc] == c2);
                let r2 = pre.row_of(e2);
                assert(r2 < pre.spec_len());
                if kc != k as int {
                    assert(self.col(kc) == pre.col(kc));
                } else {
                    assert(c2 == c@);
                    assert(e2 != e@);
                    assert(row as nat == pre.row_of(e@));
                    assert(pre.entity_seq()[r2 as int] == e2);
                    assert(pre.entity_seq()[pre.row_of(e@) as int] == e@);
                    assert(r2 != row as nat);
                    assert(self.col(kc).rows()[r2 as int] == pre.col(kc).rows()[r2 as int]);
                }
            }
        }
        true
    }
}

} // verus!
