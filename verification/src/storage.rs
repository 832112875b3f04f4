//! The top-level registry: owns every archetype, maps each live entity to
//! its current archetype, maps each registered component type to its
//! descriptor, and orchestrates entity-level operations by moving an
//! entity's component bytes between archetype rows.

use vstd::prelude::*;
use crate::archetype;
use crate::archetype::{
    insert_point, lemma_position_of, lemma_sorted_insert, lemma_sorted_remove, lemma_split_exists,
    position_of, same_shape, sorted_insert, splits_at, strictly_sorted, Archetype,
};
use crate::component;
use crate::component::{Descriptor, Layout};
use crate::entity::EntityId;

verus! {

/// How destroying live entity `e` relates the storage after (`post`) to
/// the storage before (`pre`): `e` is gone, its archetype's row was
/// swap-removed, each of its components had its destructor run exactly
/// once (when the type has one) and never otherwise, and nothing else —
/// no other entity, type, archetype or counter — changed.
pub open spec fn destroy_ok(pre: Storage, post: Storage, e: nat) -> bool {
    let a = pre.arch_of(e) as int;
    &&& pre.live(e)
    &&& post.wf()
    &&& !post.live(e)
    &&& post.next_entity() == pre.next_entity()
    &&& post.type_count() == pre.type_count()
    &&& forall|c: nat|
        c < pre.type_count() ==> #[trigger] post.descriptor_of(c) == pre.descriptor_of(c)
    &&& post.arch_count() == pre.arch_count()
    &&& forall|a2: int|
        0 <= a2 < pre.arch_count() && a2 != a ==> #[trigger] post.arch(a2) == pre.arch(a2)
    &&& same_shape(pre.arch(a), post.arch(a))
    &&& post.arch(a).entity_seq() == pre.arch(a).entity_seq().update(
        pre.arch(a).row_of(e) as int,
        pre.arch(a).entity_seq().last(),
    ).drop_last()
    &&& forall|c: nat|
        pre.has_component(e, c) ==> #[trigger] post.drops_at(a, c) == pre.drops_at(a, c) + (
        if pre.drop_of(c) {
            1int
        } else {
            0int
        })
    &&& forall|a2: int, c: nat|
        0 <= a2 < pre.arch_count() && a2 != a && pre.arch(a2).spec_has_type(c)
            ==> #[trigger] post.drops_at(a2, c) == pre.drops_at(a2, c)
    &&& forall|e2: nat| e2 != e ==> post.live(e2) == pre.live(e2)
    &&& forall|e2: nat| e2 != e && pre.live(e2) ==> post.arch_of(e2) == pre.arch_of(e2)
    &&& forall|e2: nat, c: nat|
        e2 != e ==> #[trigger] post.has_component(e2, c) == pre.has_component(e2, c)
    &&& forall|e2: nat, c: nat|
        e2 != e && pre.has_component(e2, c) ==> #[trigger] post.component_bytes(e2, c)
            == pre.component_bytes(e2, c)
}

/// How overwriting live entity `e`'s existing component of type `c` with
/// value `v` relates `post` to `pre`: `e` stays where it is, the old value
/// had its destructor run exactly once (when the type has one), the new
/// bytes are readable, and nothing else changed.
pub open spec fn add_over_ok(pre: Storage, post: Storage, e: nat, c: nat, v: Seq<u8>) -> bool {
    let a = pre.arch_of(e) as int;
    &&& pre.has_component(e, c)
    &&& post.wf()
    &&& post.live(e)
    &&& post.arch_of(e) == pre.arch_of(e)
    &&& post.next_entity() == pre.next_entity()
    &&& post.type_count() == pre.type_count()
    &&& forall|c2: nat|
        c2 < pre.type_count() ==> #[trigger] post.descriptor_of(c2) == pre.descriptor_of(c2)
    &&& post.arch_count() == pre.arch_count()
    &&& forall|a2: int|
        0 <= a2 < pre.arch_count() && a2 != a ==> #[trigger] post.arch(a2) == pre.arch(a2)
    &&& same_shape(pre.arch(a), post.arch(a))
    &&& post.arch(a).entity_seq() == pre.arch(a).entity_seq()
    &&& post.has_component(e, c)
    &&& post.component_bytes(e, c) == v
    &&& post.drops_at(a, c) == pre.drops_at(a, c) + (if pre.drop_of(c) {
        1int
    } else {
        0int
    })
    &&& forall|a2: int, c2: nat|
        0 <= a2 < pre.arch_count() && pre.arch(a2).spec_has_type(c2) && (a2 != a || c2 != c)
            ==> #[trigger] post.drops_at(a2, c2) == pre.drops_at(a2, c2)
    &&& forall|e2: nat| post.live(e2) == pre.live(e2)
    &&& forall|e2: nat| pre.live(e2) ==> post.arch_of(e2) == pre.arch_of(e2)
    &&& forall|e2: nat, c2: nat|
        #[trigger] post.has_component(e2, c2) == pre.has_component(e2, c2)
    &&& forall|e2: nat, c2: nat|
        (e2 != e || c2 != c) && pre.has_component(e2, c2) ==> #[trigger] post.component_bytes(
            e2,
            c2,
        ) == pre.component_bytes(e2, c2)
}

/// How giving live entity `e` a brand-new component of type `c` with value
/// `v` relates `post` to `pre`: `e` migrates to the archetype whose type
/// set is its old set plus `c` (found if it existed, created at the end of
/// the table otherwise), carrying every old component value along; no
/// destructor runs anywhere.
pub open spec fn add_new_ok(pre: Storage, post: Storage, e: nat, c: nat, v: Seq<u8>) -> bool {
    let target = sorted_insert(pre.types_of(e), c);
    &&& pre.live(e)
    &&& !pre.has_component(e, c)
    &&& post.wf()
    &&& post.live(e)
    &&& post.next_entity() == pre.next_entity()
    &&& post.type_count() == pre.type_count()
    &&& forall|c2: nat|
        c2 < pre.type_count() ==> #[trigger] post.descriptor_of(c2) == pre.descriptor_of(c2)
    &&& post.types_of(e) == target
    &&& forall|x: nat| #[trigger] post.types_of(e).contains(x) <==> (x == c || pre.types_of(
        e,
    ).contains(x))
    &&& pre.has_arch(target) ==> post.arch_of(e) == pre.find_arch(target) && post.arch_count()
        == pre.arch_count()
    &&& !pre.has_arch(target) ==> post.arch_of(e) == pre.arch_count() && post.arch_count()
        == pre.arch_count() + 1
    &&& forall|a2: int|
        0 <= a2 < pre.arch_count() ==> same_shape(pre.arch(a2), #[trigger] post.arch(a2))
    &&& post.has_component(e, c)
    &&& post.component_bytes(e, c) == v
    &&& forall|c2: nat|
        c2 != c ==> (#[trigger] post.has_component(e, c2) == pre.has_component(e, c2))
    &&& forall|c2: nat|
        c2 != c && pre.has_component(e, c2) ==> #[trigger] post.component_bytes(e, c2)
            == pre.component_bytes(e, c2)
    &&& forall|a2: int, c2: nat|
        0 <= a2 < pre.arch_count() && pre.arch(a2).spec_has_type(c2) ==> #[trigger] post.drops_at(
            a2,
            c2,
        ) == pre.drops_at(a2, c2)
    &&& forall|e2: nat| e2 != e ==> post.live(e2) == pre.live(e2)
    &&& forall|e2: nat| e2 != e && pre.live(e2) ==> post.arch_of(e2) == pre.arch_of(e2)
    &&& forall|e2: nat, c2: nat|
        e2 != e ==> #[trigger] post.has_component(e2, c2) == pre.has_component(e2, c2)
    &&& forall|e2: nat, c2: nat|
        e2 != e && pre.has_component(e2, c2) ==> #[trigger] post.component_bytes(e2, c2)
            == pre.component_bytes(e2, c2)
}

/// How removing live entity `e`'s component of type `c` relates `post` to
/// `pre`: `e` migrates to the archetype whose type set is its old set
/// minus `c`, carrying every other component value along; the removed
/// value had its destructor run exactly once (when the type has one), in
/// the old archetype's column.
pub open spec fn remove_ok(pre: Storage, post: Storage, e: nat, c: nat) -> bool {
    let a = pre.arch_of(e) as int;
    let target = pre.types_of(e).remove(position_of(pre.types_of(e), c));
    &&& pre.has_component(e, c)
    &&& post.wf()
    &&& post.live(e)
    &&& post.next_entity() == pre.next_entity()
    &&& post.type_count() == pre.type_count()
    &&& forall|c2: nat|
        c2 < pre.type_count() ==> #[trigger] post.descriptor_of(c2) == pre.descriptor_of(c2)
    &&& post.types_of(e) == target
    &&& forall|x: nat| #[trigger] post.types_of(e).contains(x) <==> (x != c && pre.types_of(
        e,
    ).contains(x))
    &&& pre.has_arch(target) ==> post.arch_of(e) == pre.find_arch(target) && post.arch_count()
        == pre.arch_count()
    &&& !pre.has_arch(target) ==> post.arch_of(e) == pre.arch_count() && post.arch_count()
        == pre.arch_count() + 1
    &&& forall|a2: int|
        0 <= a2 < pre.arch_count() ==> same_shape(pre.arch(a2), #[trigger] post.arch(a2))
    &&& !post.has_component(e, c)
    &&& post.drops_at(a, c) == pre.drops_at(a, c) + (if pre.drop_of(c) {
        1int
    } else {
        0int
    })
    &&& forall|a2: int, c2: nat|
        0 <= a2 < pre.arch_count() && pre.arch(a2).spec_has_type(c2) && (a2 != a || c2 != c)
            ==> #[trigger] post.drops_at(a2, c2) == pre.drops_at(a2, c2)
    &&& forall|c2: nat|
        c2 != c ==> (#[trigger] post.has_component(e, c2) == pre.has_component(e, c2))
    &&& forall|c2: nat|
        c2 != c && pre.has_component(e, c2) ==> #[trigger] post.component_bytes(e, c2)
            == pre.component_bytes(e, c2)
    &&& forall|e2: nat| e2 != e ==> post.live(e2) == pre.live(e2)
    &&& forall|e2: nat| e2 != e && pre.live(e2) ==> post.arch_of(e2) == pre.arch_of(e2)
    &&& forall|e2: nat, c2: nat|
        e2 != e ==> #[trigger] post.has_component(e2, c2) == pre.has_component(e2, c2)
    &&& forall|e2: nat, c2: nat|
        e2 != e && pre.has_component(e2, c2) ==> #[trigger] post.component_bytes(e2, c2)
            == pre.component_bytes(e2, c2)
}

/// Why a structural operation was refused. The conditions are local and
/// non-retryable: they change only through another operation on the same
/// storage.
#[derive(Copy, Clone, Eq, PartialEq, Debug, Structural)]
pub enum Error {
    /// The operation referenced an entity that is not currently live.
    UnknownEntity,
    /// The entity's current archetype lacks the requested component type.
    MissingComponent,
}

/// The storage core: component-type registry, archetype table, and the
/// entity-to-archetype map.
///
/// Adding a component to an entity overwrites the old value when the type
/// is already present; only brand-new types migrate the entity to another
/// archetype.
pub struct Storage {
    types: Vec<Descriptor>,
    archetypes: Vec<Archetype>,
    locations: Vec<Option<usize>>,
}

impl Storage {
    /// How many component types are registered.
    pub closed spec fn type_count(self) -> nat {
        self.types@.len()
    }

    /// The descriptor of component type `c`.
    pub closed spec fn descriptor_of(self, c: nat) -> Descriptor {
        self.types@[c as int]
    }

    /// Byte width of one value of component type `c`.
    pub open spec fn size_of(self, c: nat) -> usize {
        self.descriptor_of(c).layout().size()
    }

    /// Whether component type `c` has a destructor.
    pub open spec fn drop_of(self, c: nat) -> bool {
        self.descriptor_of(c).drop()
    }

    /// The id the next created entity will get.
    pub closed spec fn next_entity(self) -> nat {
        self.locations@.len()
    }

    /// Whether entity `e` is currently live.
    pub closed spec fn live(self, e: nat) -> bool {
        e < self.locations@.len() && self.locations@[e as int] is Some
    }

    /// The archetype-table index entity `e` lives in (meaningful when
    /// `live(e)`).
    pub closed spec fn arch_of(self, e: nat) -> nat {
        match self.locations@[e as int] {
            Some(a) => a as nat,
            None => 0,
        }
    }

    /// How many archetypes exist.
    pub closed spec fn arch_count(self) -> nat {
        self.archetypes@.len()
    }

    /// The archetype at table index `a`.
    pub closed spec fn arch(self, a: int) -> Archetype {
        self.archetypes@[a]
    }

    /// The component-type set of `e`'s archetype, strictly sorted.
    pub open spec fn types_of(self, e: nat) -> Seq<nat> {
        self.arch(self.arch_of(e) as int).types_seq()
    }

    /// Whether live entity `e` currently holds a component of type `c`.
    pub open spec fn has_component(self, e: nat, c: nat) -> bool {
        self.live(e) && self.arch(self.arch_of(e) as int).spec_has_type(c)
    }

    /// The bytes of `e`'s component of type `c` (meaningful when
    /// `has_component(e, c)`).
    pub open spec fn component_bytes(self, e: nat, c: nat) -> Seq<u8> {
        self.arch(self.arch_of(e) as int).component_of(e, c)
    }

    /// Destructor runs performed by the column of type `c` in archetype `a`.
    pub open spec fn drops_at(self, a: int, c: nat) -> nat {
        self.arch(a).drops_of(c)
    }

    /// Room left in every destructor-run counter.
    pub open spec fn drops_ok(self) -> bool {
        forall|a: int| 0 <= a < self.arch_count() ==> (#[trigger] self.arch(a)).drops_ok()
    }

    /// Whether some archetype has exactly the type set `ts`.
    pub open spec fn has_arch(self, ts: Seq<nat>) -> bool {
        exists|a: int| 0 <= a < self.arch_count() && (#[trigger] self.arch(a)).types_seq() == ts
    }

    /// The table index of the archetype with type set `ts` (meaningful when
    /// `has_arch(ts)`; unique, because type sets are distinct).
    pub open spec fn find_arch(self, ts: Seq<nat>) -> int {
        choose|a: int| 0 <= a < self.arch_count() && (#[trigger] self.arch(a)).types_seq() == ts
    }

    /// Structural invariant.
    ///
    /// The registry is dense (the i-th descriptor carries id i) with
    /// distinct native-type keys; archetype 0 is the always-present
    /// zero-component archetype; archetypes are well formed with pairwise
    /// distinct type sets, and every column's layout agrees with the
    /// registry; an entity is live exactly when the location map points at
    /// an archetype that holds it, and every entity held by an archetype is
    /// mapped back to that archetype — each entity belongs to exactly one
    /// archetype at a time.
    pub closed spec fn wf(self) -> bool {
        &&& forall|i: int| 0 <= i < self.types@.len() ==> (#[trigger] self.types@[i]).id()@ == i
        &&& forall|i: int, j: int|
            0 <= i < j < self.types@.len() ==> self.types@[i].type_id() != self.types@[j].type_id()
        &&& self.archetypes@.len() >= 1
        &&& self.archetypes@[0].types_seq() == Seq::<nat>::empty()
        &&& forall|a: int| 0 <= a < self.archetypes@.len() ==> (#[trigger] self.archetypes@[a]).wf()
        &&& forall|a1: int, a2: int|
            0 <= a1 < a2 < self.archetypes@.len() ==> self.archetypes@[a1].types_seq()
                != self.archetypes@[a2].types_seq()
        &&& forall|a: int, k: int|
            0 <= a < self.archetypes@.len() && 0 <= k < self.archetypes@[a].width() ==> {
                let c = (#[trigger] self.archetypes@[a].types_seq()[k]);
                &&& c < self.types@.len()
                &&& self.archetypes@[a].col(k).spec_size() == self.types@[c as int].layout().size()
                &&& self.archetypes@[a].col(k).spec_drop() == self.types@[c as int].drop()
            }
        &&& forall|ei: int|
            0 <= ei < self.locations@.len() ==> (#[trigger] self.locations@[ei] matches Some(a)
                ==> a < self.archetypes@.len() && self.archetypes@[a as int].spec_contains(
                ei as nat,
            ))
        &&& forall|a: int, j: int|
            0 <= a < self.archetypes@.len() && 0 <= j < self.archetypes@[a].spec_len() ==> {
                let e = (#[trigger] self.archetypes@[a].entity_seq()[j]);
                &&& e < self.locations@.len()
                &&& self.locations@[e as int] == Some(a as usize)
            }
    }

    /// An empty storage: no types registered, no entities, and the
    /// zero-component archetype already present.
    pub fn new() -> (r: Self)
        ensures
            r.wf(),
            r.type_count() == 0,
            r.next_entity() == 0,
            r.arch_count() == 1,
            r.arch(0).types_seq() == Seq::<nat>::empty(),
            r.arch(0).spec_len() == 0,
            forall|e: nat| !r.live(e),
    {
        let empty: Vec<Descriptor> = Vec::new();
        let mut archetypes: Vec<Archetype> = Vec::new();
        archetypes.push(Archetype::new(&empty));
        let r = Self { types: Vec::new(), archetypes, locations: Vec::new() };
        proof {
            assert(r.archetypes@[0].types_seq() =~= Seq::<nat>::empty());
        }
        r
    }

    /// Looks up — or, on first use, creates — the component type with the
    /// native-type key `type_id`. Exactly one descriptor exists per key for
    /// the storage's lifetime: a repeated registration returns the original
    /// id and ignores the offered layout.
    pub fn register_component(&mut self, type_id: usize, layout: Layout, drop: bool) -> (r:
        component::Id)
        requires
            old(self).wf(),
        ensures
            final(self).wf(),
            (exists|i: int|
                0 <= i < old(self).type_count() && (#[trigger] old(self).descriptor_of(
                    i as nat,
                )).type_id() == type_id) ==> {
                &&& *final(self) == *old(self)
                &&& r@ < old(self).type_count()
                &&& old(self).descriptor_of(r@).type_id() == type_id
            },
            !(exists|i: int|
                0 <= i < old(self).type_count() && (#[trigger] old(self).descriptor_of(
                    i as nat,
                )).type_id() == type_id) ==> {
                &&& r@ == old(self).type_count()
                &&& final(self).type_count() == old(self).type_count() + 1
                &&& final(self).descriptor_of(r@).type_id() == type_id
                &&& final(self).descriptor_of(r@).layout() == layout
                &&& final(self).descriptor_of(r@).drop() == drop
                &&& final(self).descriptor_of(r@).id()@ == r@
                &&& forall|i: int|
                    0 <= i < old(self).type_count() ==> (#[trigger] final(self).descriptor_of(
                        i as nat,
                    )) == old(self).descriptor_of(i as nat)
                &&& final(self).arch_count() == old(self).arch_count()
                &&& forall|a: int| 0 <= a < old(self).arch_count() ==> final(self).arch(a) == old(
                    self,
                ).arch(a)
                &&& final(self).next_entity() == old(self).next_entity()
                &&& forall|e: nat| final(self).live(e) == old(self).live(e)
                &&& forall|e: nat| old(self).live(e) ==> final(self).arch_of(e) == old(self).arch_of(e)
            },
    {
        let mut i: usize = 0;
        while i < self.types.len()
            invariant
                *self == *old(self),
                self.wf(),
                i <= self.types@.len(),
                forall|j: int| 0 <= j < i ==> (#[trigger] self.types@[j]).type_id() != type_id,
            decreases self.types@.len() - i,
        {
            if self.types[i].type_id() == type_id {
                proof {
                    let j: int = i as int;
                    assert(0 <= j < old(self).type_count());
                    assert(old(self).descriptor_of(j as nat).type_id() == type_id);
                }
                return self.types[i].id();
            }
            i = i + 1;
        }
        let id = component::Id::new(self.types.len());
        self.types.push(Descriptor::new(id, type_id, layout, drop));
        id
    }

    /// Creates a fresh entity and places it in the zero-component
    /// archetype.
    pub fn create_entity(&mut self) -> (e: EntityId)
        requires
            old(self).wf(),
            old(self).next_entity() < usize::MAX,
        ensures
            final(self).wf(),
            e@ == old(self).next_entity(),
            final(self).next_entity() == old(self).next_entity() + 1,
            final(self).live(e@),
            final(self).arch_of(e@) == 0,
            forall|c: nat| !final(self).has_component(e@, c),
            final(self).type_count() == old(self).type_count(),
            forall|c: nat| c < old(self).type_count() ==> final(self).descriptor_of(c) == old(
                self,
            ).descriptor_of(c),
            final(self).arch_count() == old(self).arch_count(),
            forall|a: int| 1 <= a < old(self).arch_count() ==> final(self).arch(a) == old(
                self,
            ).arch(a),
            final(self).arch(0).entity_seq() == old(self).arch(0).entity_seq().push(e@),
            forall|e2: nat| e2 != e@ ==> final(self).live(e2) == old(self).live(e2),
            forall|e2: nat|
                e2 != e@ && old(self).live(e2) ==> final(self).arch_of(e2) == old(self).arch_of(e2),
            forall|e2: nat, c: nat|
                e2 != e@ ==> final(self).has_component(e2, c) == old(self).has_component(e2, c),
            forall|e2: nat, c: nat|
                e2 != e@ && old(self).has_component(e2, c) ==> final(self).component_bytes(e2, c)
                    == old(self).component_bytes(e2, c),
            forall|a: int, c: nat|
                0 <= a < old(self).arch_count() && old(self).arch(a).spec_has_type(c)
                    ==> final(self).drops_at(a, c) == old(self).drops_at(a, c),
    {
        let ghost pre = *old(self);
        let id = self.locations.len();
        let e = EntityId::new(id);
        proof {
            assert(pre.archetypes@[0].wf());
            if pre.archetypes@[0].spec_contains(e@) {
                pre.archetypes@[0].lemma_wf();
                let j = pre.archetypes@[0].row_of(e@);
                assert(pre.archetypes@[0].entity_seq()[j as int] == e@);
                assert(false);
            }
            vstd::std_specs::vec::axiom_spec_len(&self.locations);
        }
        let values: Vec<Vec<u8>> = Vec::new();
        let _row = self.archetypes[0].insert_entity(e, values);
        self.locations.push(Some(0));
        proof {
            self.lemma_after_create(pre, e@);
        }
        e
    }

    proof fn lemma_after_create(self, pre: Storage, e: nat)
        requires
            pre.wf(),
            e == pre.locations@.len(),
            self.types@ == pre.types@,
            self.locations@ == pre.locations@.push(Some(0usize)),
            self.archetypes@.len() == pre.archetypes@.len(),
            forall|a: int| 1 <= a < pre.archetypes@.len() ==> self.archetypes@[a]
                == pre.archetypes@[a],
            self.archetypes@[0].wf(),
            archetype::same_shape(pre.archetypes@[0], self.archetypes@[0]),
            self.archetypes@[0].entity_seq() == pre.archetypes@[0].entity_seq().push(e),
            self.archetypes@[0].spec_contains(e),
            forall|e2: nat|
                e2 != e ==> self.archetypes@[0].spec_contains(e2) == pre.archetypes@[0].spec_contains(
                    e2,
                ),
        ensures
            self.wf(),
            forall|e2: nat, c: nat|
                e2 != e ==> self.has_component(e2, c) == pre.has_component(e2, c),
            forall|e2: nat, c: nat|
                e2 != e && pre.has_component(e2, c) ==> self.component_bytes(e2, c)
                    == pre.component_bytes(e2, c),
            forall|c: nat| !self.has_component(e, c),
            forall|a: int, c: nat|
                0 <= a < pre.arch_count() && pre.arch(a).spec_has_type(c) ==> self.drops_at(a, c)
                    == pre.drops_at(a, c),
    {
        assert(self.archetypes@[0].types_seq() == pre.archetypes@[0].types_seq());
        assert(self.archetypes@[0].types_seq() =~= Seq::<nat>::empty());
        // archetype 0 has no columns, so its shape clauses are vacuous and
        // nothing with component values changed anywhere.
        assert forall|a: int, k: int|
            0 <= a < self.archetypes@.len() && 0 <= k
                < self.archetypes@[a].width() implies ((#[trigger] self.archetypes@[a].types_seq()[k])
            < self.types@.len() && self.archetypes@[a].col(k).spec_size()
            == self.types@[self.archetypes@[a].types_seq()[k] as int].layout().size()
            && self.archetypes@[a].col(k).spec_drop()
            == self.types@[self.archetypes@[a].types_seq()[k] as int].drop()) by {
            assert(a >= 1);
            assert(self.archetypes@[a] == pre.archetypes@[a]);
        }
        assert forall|ei: int|
            0 <= ei < self.locations@.len() implies (#[trigger] self.locations@[ei] matches Some(a)
            ==> a < self.archetypes@.len() && self.archetypes@[a as int].spec_contains(
            ei as nat,
        )) by {
            if ei < pre.locations@.len() {
                assert(self.locations@[ei] == pre.locations@[ei]);
                if pre.locations@[ei] is Some {
                    let a = pre.locations@[ei]->Some_0;
                    assert(pre.archetypes@[a as int].spec_contains(ei as nat));
                    if a as int != 0 {
                        assert(self.archetypes@[a as int] == pre.archetypes@[a as int]);
                    }
                }
            }
        }
        assert forall|a: int, j: int|
            0 <= a < self.archetypes@.len() && 0 <= j
                < self.archetypes@[a].spec_len() implies ((#[trigger] self.archetypes@[a].entity_seq()[j])
            < self.locations@.len() && self.locations@[self.archetypes@[a].entity_seq()[j] as int]
            == Some(a as usize)) by {
            if a == 0 {
                if j < pre.archetypes@[0].spec_len() {
                    assert(self.archetypes@[0].entity_seq()[j]
                        == pre.archetypes@[0].entity_seq()[j]);
                } else {
                    assert(self.archetypes@[0].entity_seq()[j] == e);
                }
            } else {
                assert(self.archetypes@[a] == pre.archetypes@[a]);
            }
        }
        assert(self.wf());
        assert forall|e2: nat, c: nat| e2 != e implies self.has_component(e2, c)
            == pre.has_component(e2, c) by {
            if pre.live(e2) {
                assert(self.locations@[e2 as int] == pre.locations@[e2 as int]);
                if pre.arch_of(e2) != 0 {
                    assert(self.arch(pre.arch_of(e2) as int) == pre.arch(pre.arch_of(e2) as int));
                }
            }
        }
        assert forall|e2: nat, c: nat|
            e2 != e && pre.has_component(e2, c) implies self.component_bytes(e2, c)
            == pre.component_bytes(e2, c) by {
            let a = pre.arch_of(e2);
            assert(pre.arch(a as int).spec_has_type(c));
            assert(a != 0);
            assert(self.arch(a as int) == pre.arch(a as int));
        }
        assert forall|a: int, c: nat|
            0 <= a < pre.arch_count() && pre.arch(a).spec_has_type(c) implies self.drops_at(a, c)
            == pre.drops_at(a, c) by {
            assert(a != 0);
            assert(self.arch(a) == pre.arch(a));
        }
    }

    /// Whether entity `e` is currently live.
    pub fn is_alive(&self, e: &EntityId) -> (r: bool)
        ensures
            r == self.live(e@),
    {
        let idx = e.index();
        idx < self.locations.len() && self.locations[idx].is_some()
    }

    /// The archetype entity `e` currently lives in.
    pub fn entity_archetype(&self, e: &EntityId) -> (r: Option<archetype::Id>)
        ensures
            match r {
                Some(a) => self.live(e@) && a@ == self.arch_of(e@),
                None => !self.live(e@),
            },
    {
        let idx = e.index();
        if idx < self.locations.len() {
            match self.locations[idx] {
                Some(a) => Some(archetype::Id::new(a)),
                None => None,
            }
        } else {
            None
        }
    }

    /// The descriptor registered for component type `c`.
    pub fn descriptor(&self, c: component::Id) -> (r: Option<Descriptor>)
        ensures
            match r {
                Some(d) => c@ < self.type_count() && d == self.descriptor_of(c@),
                None => c@ >= self.type_count(),
            },
    {
        let idx = c.index();
        if idx < self.types.len() {
            Some(self.types[idx])
        } else {
            None
        }
    }

    /// How many archetypes exist.
    pub fn archetype_count(&self) -> (r: usize)
        ensures
            r as nat == self.arch_count(),
    {
        self.archetypes.len()
    }

    /// How many entities (rows) archetype `a` holds.
    pub fn archetype_len(&self, a: archetype::Id) -> (r: Option<usize>)
        ensures
            match r {
                Some(n) => a@ < self.arch_count() && n as nat == self.arch(a@ as int).spec_len(),
                None => a@ >= self.arch_count(),
            },
    {
        let idx = a.index();
        if idx < self.archetypes.len() {
            Some(self.archetypes[idx].len())
        } else {
            None
        }
    }

    /// The entity occupying row `row` of archetype `a` — one half of the
    /// per-archetype iteration surface.
    pub fn archetype_entity(&self, a: archetype::Id, row: usize) -> (r: Option<EntityId>)
        ensures
            match r {
                Some(e) => a@ < self.arch_count() && row < self.arch(a@ as int).spec_len() && e@
                    == self.arch(a@ as int).entity_seq()[row as int],
                None => a@ >= self.arch_count() || row >= self.arch(a@ as int).spec_len(),
            },
    {
        let idx = a.index();
        if idx < self.archetypes.len() && row < self.archetypes[idx].len() {
            Some(self.archetypes[idx].entity_at(row))
        } else {
            None
        }
    }

    /// A copy of the component of type `c` in row `row` of archetype `a` —
    /// the other half of the per-archetype iteration surface.
    pub fn archetype_component(&self, a: archetype::Id, c: component::Id, row: usize) -> (r: Option<
        Vec<u8>,
    >)
        requires
            self.wf(),
        ensures
            match r {
                Some(bytes) => a@ < self.arch_count() && row < self.arch(a@ as int).spec_len()
                    && self.arch(a@ as int).spec_has_type(c@) && bytes@ == self.arch(
                    a@ as int,
                ).value_at(row as nat, self.arch(a@ as int).col_of(c@)),
                None => a@ >= self.arch_count() || row >= self.arch(a@ as int).spec_len()
                    || !self.arch(a@ as int).spec_has_type(c@),
            },
    {
        let idx = a.index();
        if idx >= self.archetypes.len() {
            return None;
        }
        if row >= self.archetypes[idx].len() {
            return None;
        }
        let e = self.archetypes[idx].entity_at(row);
        proof {
            self.archetypes@[idx as int].lemma_wf();
        }
        let r = self.archetypes[idx].read_component(&e, c);
        match r {
            Some(bytes) => Some(bytes),
            None => None,
        }
    }

    /// How many destructor runs the column of type `c` in archetype `a`
    /// has performed.
    pub fn destructor_runs(&self, a: archetype::Id, c: component::Id) -> (r: Option<u64>)
        requires
            self.wf(),
        ensures
            match r {
                Some(n) => a@ < self.arch_count() && self.arch(a@ as int).spec_has_type(c@)
                    && n as nat == self.drops_at(a@ as int, c@),
                None => a@ >= self.arch_count() || !self.arch(a@ as int).spec_has_type(c@),
            },
    {
        let idx = a.index();
        if idx >= self.archetypes.len() {
            return None;
        }
        self.archetypes[idx].destructor_runs(c)
    }

    /// A copy of entity `e`'s component of type `c`; absent (not an error)
    /// when `e` is unknown or its archetype lacks `c`.
    pub fn get_component(&self, e: &EntityId, c: component::Id) -> (r: Option<Vec<u8>>)
        requires
            self.wf(),
        ensures
            match r {
                Some(bytes) => self.has_component(e@, c@) && bytes@ == self.component_bytes(e@, c@),
                None => !self.has_component(e@, c@),
            },
    {
        let idx = e.index();
        if idx >= self.locations.len() {
            return None;
        }
        let a = match self.locations[idx] {
            Some(a) => a,
            None => {
                return None;
            },
        };
        self.archetypes[a].read_component(e, c)
    }

    /// The raw-id sequence of a list of component ids.
    pub open spec fn ids_seq(v: Seq<component::Id>) -> Seq<nat> {
        Seq::new(v.len(), |k: int| v[k]@)
    }

    /// Whether two id lists are the same.
    fn ids_equal(x: &Vec<component::Id>, y: &Vec<component::Id>) -> (r: bool)
        ensures
            r == (Self::ids_seq(x@) == Self::ids_seq(y@)),
    {
        if x.len() != y.len() {
            proof {
                assert(Self::ids_seq(x@).len() != Self::ids_seq(y@).len());
            }
            return false;
        }
        let mut k: usize = 0;
        while k < x.len()
            invariant
                x@.len() == y@.len(),
                k <= x@.len(),
                forall|i: int| 0 <= i < k ==> (#[trigger] x@[i])@ == y@[i]@,
            decreases x@.len() - k,
        {
            if x[k].index() != y[k].index() {
                proof {
                    assert(Self::ids_seq(x@)[k as int] != Self::ids_seq(y@)[k as int]);
                }
                return false;
            }
            k = k + 1;
        }
        proof {
            assert(Self::ids_seq(x@) =~= Self::ids_seq(y@));
        }
        true
    }

    /// The table index of the archetype with exactly `target`'s type set,
    /// creating an empty one (with columns laid out from the registry) on
    /// first need.
    fn find_or_create(&mut self, target: &Vec<component::Id>) -> (b: usize)
        requires
            old(self).wf(),
            strictly_sorted(Self::ids_seq(target@)),
            forall|k: int| 0 <= k < target@.len() ==> (#[trigger] target@[k])@ < old(
                self,
            ).type_count(),
        ensures
            final(self).wf(),
            final(self).types@ == old(self).types@,
            final(self).locations@ == old(self).locations@,
            (b as nat) < final(self).arch_count(),
            final(self).arch(b as int).types_seq() == Self::ids_seq(target@),
            final(self).type_count() == old(self).type_count(),
            forall|c: nat|
                c < old(self).type_count() ==> #[trigger] final(self).descriptor_of(c) == old(
                    self,
                ).descriptor_of(c),
            final(self).next_entity() == old(self).next_entity(),
            forall|e: nat| final(self).live(e) == old(self).live(e),
            forall|e: nat| old(self).live(e) ==> final(self).arch_of(e) == old(self).arch_of(e),
            old(self).has_arch(Self::ids_seq(target@)) ==> *final(self) == *old(self) && b as int
                == old(self).find_arch(Self::ids_seq(target@)),
            !old(self).has_arch(Self::ids_seq(target@)) ==> {
                &&& b as nat == old(self).arch_count()
                &&& final(self).arch_count() == old(self).arch_count() + 1
                &&& forall|a: int| 0 <= a < old(self).arch_count() ==> #[trigger] final(self).arch(
                    a,
                ) == old(self).arch(a)
                &&& final(self).arch(b as int).spec_len() == 0
                &&& forall|e: nat| !final(self).arch(b as int).spec_contains(e)
                &&& forall|k: int|
                    0 <= k < target@.len() ==> (#[trigger] final(self).arch(
                        b as int,
                    ).col(k)).spec_drops() == 0
            },
    {
        let ghost ts = Self::ids_seq(target@);
        let mut a: usize = 0;
        while a < self.archetypes.len()
            invariant
                *self == *old(self),
                self.wf(),
                a <= self.archetypes@.len(),
                ts == Self::ids_seq(target@),
                forall|a2: int| 0 <= a2 < a ==> (#[trigger] self.archetypes@[a2]).types_seq() != ts,
            decreases self.archetypes@.len() - a,
        {
            let ty = self.archetypes[a].type_ids();
            if Self::ids_equal(ty, target) {
                proof {
                    assert(Self::ids_seq(ty@) =~= self.archetypes@[a as int].types_seq());
                    assert(self.archetypes@[a as int].types_seq() == ts);
                    assert(self.has_arch(ts)) by {
                        assert(0 <= (a as int) && (a as int) < self.arch_count() && self.arch(
                            a as int,
                        ).types_seq() == ts);
                    }
                    let w = self.find_arch(ts);
                    assert(0 <= w < self.arch_count() && self.arch(w).types_seq() == ts);
                    if w < a as int {
                        assert(self.archetypes@[w].types_seq() != self.archetypes@[
                        a as int].types_seq());
                    } else if w > a as int {
                        assert(self.archetypes@[a as int].types_seq() != self.archetypes@[
                        w].types_seq());
                    }
                }
                return a;
            }
            proof {
                assert(Self::ids_seq(ty@) =~= self.archetypes@[a as int].types_seq());
            }
            a = a + 1;
        }
        proof {
            assert forall|a2: int|
                0 <= a2 < self.arch_count() implies (#[trigger] self.arch(a2)).types_seq()
                != ts by {}
            assert(!old(self).has_arch(ts));
        }
        let mut descs: Vec<Descriptor> = Vec::new();
        let mut k: usize = 0;
        while k < target.len()
            invariant
                *self == *old(self),
                self.wf(),
                k <= target@.len(),
                descs@.len() == k,
                forall|i: int| 0 <= i < target@.len() ==> (#[trigger] target@[i])@
                    < self.types@.len(),
                forall|i: int| 0 <= i < k ==> (#[trigger] descs@[i]) == self.types@[target@[i]@ as int],
            decreases target@.len() - k,
        {
            descs.push(self.types[target[k].index()]);
            k = k + 1;
        }
        proof {
            assert forall|i: int, j: int| 0 <= i < j < descs@.len() implies (
            #[trigger] descs@[i]).id()@ < (#[trigger] descs@[j]).id()@ by {
                assert(descs@[i].id()@ == target@[i]@);
                assert(descs@[j].id()@ == target@[j]@);
                assert(Self::ids_seq(target@)[i] < Self::ids_seq(target@)[j]);
            }
        }
        let fresh = Archetype::new(&descs);
        let b = self.archetypes.len();
        let ghost mid = *self;
        self.archetypes.push(fresh);
        proof {
            assert(self.archetypes@[b as int] == fresh);
            assert forall|k: int| 0 <= k < target@.len() implies fresh.types_seq()[k] == ts[k] by {
                assert(fresh.types_seq()[k] == descs@[k].id()@);
                assert(descs@[k] == mid.types@[target@[k]@ as int]);
                assert(descs@[k].id()@ == target@[k]@);
            }
            assert(self.arch(b as int).types_seq() =~= ts);
            assert forall|a1: int, a2: int|
                0 <= a1 < a2 < self.archetypes@.len() implies self.archetypes@[a1].types_seq()
                != self.archetypes@[a2].types_seq() by {
                if a2 == b as int {
                    assert(self.archetypes@[a1].types_seq() == mid.archetypes@[a1].types_seq());
                }
            }
            assert forall|aa: int, kk: int|
                0 <= aa < self.archetypes@.len() && 0 <= kk
                    < self.archetypes@[aa].width() implies ((
            #[trigger] self.archetypes@[aa].types_seq()[kk]) < self.types@.len()
                && self.archetypes@[aa].col(kk).spec_size()
                == self.types@[self.archetypes@[aa].types_seq()[kk] as int].layout().size()
                && self.archetypes@[aa].col(kk).spec_drop()
                == self.types@[self.archetypes@[aa].types_seq()[kk] as int].drop()) by {
                if aa == b as int {
                    assert(self.archetypes@[aa].types_seq()[kk] == descs@[kk].id()@);
                    assert(descs@[kk] == self.types@[target@[kk]@ as int]);
                    assert(descs@[kk].id()@ == target@[kk]@);
                    assert(self.archetypes@[aa].col(kk).spec_size() == descs@[kk].layout().size());
                } else {
                    assert(self.archetypes@[aa] == mid.archetypes@[aa]);
                }
            }
            assert forall|ei: int|
                0 <= ei < self.locations@.len() implies (#[trigger] self.locations@[ei] matches Some(
                av,
            ) ==> av < self.archetypes@.len() && self.archetypes@[av as int].spec_contains(
                ei as nat,
            )) by {
                if self.locations@[ei] is Some {
                    let av = self.locations@[ei]->Some_0;
                    assert(mid.archetypes@[av as int].spec_contains(ei as nat));
                    assert(self.archetypes@[av as int] == mid.archetypes@[av as int]);
                }
            }
            assert forall|aa: int, j: int|
                0 <= aa < self.archetypes@.len() && 0 <= j
                    < self.archetypes@[aa].spec_len() implies ((
            #[trigger] self.archetypes@[aa].entity_seq()[j]) < self.locations@.len()
                && self.locations@[self.archetypes@[aa].entity_seq()[j] as int] == Some(
                aa as usize,
            )) by {
                if aa != b as int {
                    assert(self.archetypes@[aa] == mid.archetypes@[aa]);
                }
            }
            assert(self.wf());
        }
        b
    }

    /// Destroys entity `e`: its row leaves its archetype by swap-remove and
    /// every component it held is discarded, with the destructor of each
    /// type that has one run exactly once. Fails with `UnknownEntity` (and
    /// no mutation) if `e` is not live.
    pub fn destroy_entity(&mut self, e: &EntityId) -> (r: Result<(), Error>)
        requires
            old(self).wf(),
            old(self).drops_ok(),
        ensures
            final(self).wf(),
            !old(self).live(e@) ==> r == Result::<(), Error>::Err(Error::UnknownEntity)
                && *final(self) == *old(self),
            old(self).live(e@) ==> r is Ok && destroy_ok(*old(self), *final(self), e@),
    {
        let ghost pre = *old(self);
        let idx = e.index();
        if idx >= self.locations.len() {
            return Err(Error::UnknownEntity);
        }
        let a = match self.locations[idx] {
            Some(a) => a,
            None => {
                return Err(Error::UnknownEntity);
            },
        };
        proof {
            assert(pre.archetypes@[a as int].spec_contains(e@));
            assert(pre.archetypes@[a as int].wf());
            assert(pre.arch(a as int).drops_ok());
            pre.archetypes@[a as int].lemma_wf();
        }
        let _ = self.archetypes[a].destroy_entity(e);
        self.locations[idx] = None;
        proof {
            self.lemma_after_leave(pre, e@, a as int);
            let aa = a as int;
            assert forall|c: nat| pre.has_component(e@, c) implies #[trigger] self.drops_at(aa, c)
                == pre.drops_at(aa, c) + (if pre.drop_of(c) {
                1int
            } else {
                0int
            }) by {
                let kc = pre.arch(aa).col_of(c);
                assert(pre.arch(aa).types_seq().contains(c));
                assert(0 <= kc < pre.arch(aa).width() && pre.arch(aa).types_seq()[kc] == c);
                assert(self.arch(aa).col(kc).spec_drops() == pre.arch(aa).col(kc).spec_drops() + (
                if pre.arch(aa).col(kc).spec_drop() {
                    1int
                } else {
                    0int
                }));
                assert(pre.arch(aa).col(kc).spec_drop() == pre.types@[c as int].drop());
                assert(self.arch(aa).col_of(c) == kc);
            }
            assert forall|a2: int, c: nat|
                0 <= a2 < pre.arch_count() && a2 != aa && pre.arch(a2).spec_has_type(
                    c,
                ) implies #[trigger] self.drops_at(a2, c) == pre.drops_at(a2, c) by {
                assert(self.arch(a2) == pre.arch(a2));
            }
            assert(destroy_ok(pre, *self, e@));
        }
        Ok(())
    }

    /// The shared consequence of entity `e` leaving archetype `a` (its row
    /// swap-removed there, its location cleared or not yet reassigned):
    /// every structural clause of `wf` except `e`'s own location is
    /// restored, and every other entity keeps its identity, archetype and
    /// component values.
    proof fn lemma_after_leave(self, pre: Storage, e: nat, a: int)
        requires
            pre.wf(),
            pre.live(e),
            pre.arch_of(e) == a,
            self.types@ == pre.types@,
            self.archetypes@.len() == pre.archetypes@.len(),
            forall|a2: int|
                0 <= a2 < pre.archetypes@.len() && a2 != a ==> #[trigger] self.archetypes@[a2]
                    == pre.archetypes@[a2],
            self.archetypes@[a].wf(),
            same_shape(pre.archetypes@[a], self.archetypes@[a]),
            !self.archetypes@[a].spec_contains(e),
            forall|e2: nat|
                e2 != e ==> self.archetypes@[a].spec_contains(e2) == pre.archetypes@[
                a].spec_contains(e2),
            forall|e2: nat, c: nat|
                e2 != e && pre.archetypes@[a].spec_contains(e2) && pre.archetypes@[
                a].spec_has_type(c) ==> self.archetypes@[a].component_of(e2, c) == pre.archetypes@[
                a].component_of(e2, c),
            self.locations@ == pre.locations@.update(e as int, None::<usize>),
        ensures
            self.wf(),
            !self.live(e),
            forall|e2: nat| e2 != e ==> self.live(e2) == pre.live(e2),
            forall|e2: nat| e2 != e && pre.live(e2) ==> self.arch_of(e2) == pre.arch_of(e2),
            forall|e2: nat, c: nat|
                e2 != e ==> #[trigger] self.has_component(e2, c) == pre.has_component(e2, c),
            forall|e2: nat, c: nat|
                e2 != e && pre.has_component(e2, c) ==> #[trigger] self.component_bytes(e2, c)
                    == pre.component_bytes(e2, c),
    {
        assert(0 <= a < pre.archetypes@.len());
        assert(self.archetypes@[a].types_seq() == pre.archetypes@[a].types_seq());
        assert(self.archetypes@[0].types_seq() == pre.archetypes@[0].types_seq());
        assert forall|a1: int, a2: int|
            0 <= a1 < a2 < self.archetypes@.len() implies self.archetypes@[a1].types_seq()
            != self.archetypes@[a2].types_seq() by {
            assert(self.archetypes@[a1].types_seq() == pre.archetypes@[a1].types_seq());
            assert(self.archetypes@[a2].types_seq() == pre.archetypes@[a2].types_seq());
        }
        assert forall|a2: int, k: int|
            0 <= a2 < self.archetypes@.len() && 0 <= k
                < self.archetypes@[a2].width() implies ((
        #[trigger] self.archetypes@[a2].types_seq()[k]) < self.types@.len()
            && self.archetypes@[a2].col(k).spec_size()
            == self.types@[self.archetypes@[a2].types_seq()[k] as int].layout().size()
            && self.archetypes@[a2].col(k).spec_drop()
            == self.types@[self.archetypes@[a2].types_seq()[k] as int].drop()) by {
            assert(self.archetypes@[a2].types_seq() == pre.archetypes@[a2].types_seq());
            if a2 == a {
                assert(self.archetypes@[a].col(k).spec_size() == pre.archetypes@[a].col(
                    k,
                ).spec_size());
            }
        }
        assert forall|ei: int|
            0 <= ei < self.locations@.len() implies (#[trigger] self.locations@[ei] matches Some(
            av,
        ) ==> av < self.archetypes@.len() && self.archetypes@[av as int].spec_contains(
            ei as nat,
        )) by {
            if ei != e && self.locations@[ei] is Some {
                let av = self.locations@[ei]->Some_0;
                assert(pre.locations@[ei] == self.locations@[ei]);
                assert(pre.archetypes@[av as int].spec_contains(ei as nat));
                if av as int != a {
                    assert(self.archetypes@[av as int] == pre.archetypes@[av as int]);
                }
            }
        }
        assert forall|a2: int, j: int|
            0 <= a2 < self.archetypes@.len() && 0 <= j
                < self.archetypes@[a2].spec_len() implies ((
        #[trigger] self.archetypes@[a2].entity_seq()[j]) < self.locations@.len()
            && self.locations@[self.archetypes@[a2].entity_seq()[j] as int] == Some(
            a2 as usize,
        )) by {
            let x = self.archetypes@[a2].entity_seq()[j];
            self.archetypes@[a2].lemma_wf();
            assert(self.archetypes@[a2].spec_contains(x));
            if a2 == a {
                assert(x != e);
                assert(pre.archetypes@[a].spec_contains(x));
                pre.archetypes@[a].lemma_wf();
                let jp = pre.archetypes@[a].row_of(x);
                assert(pre.archetypes@[a].entity_seq()[jp as int] == x);
                assert(x < pre.locations@.len() && pre.locations@[x as int] == Some(a as usize));
            } else {
                assert(self.archetypes@[a2] == pre.archetypes@[a2]);
                assert(x < pre.locations@.len() && pre.locations@[x as int] == Some(a2 as usize));
                assert(pre.locations@[e as int] is Some);
                assert(pre.locations@[e as int]->Some_0 as nat == a as nat);
                vstd::std_specs::vec::axiom_spec_len(&pre.archetypes);
                assert(0 <= a2 <= usize::MAX);
                if x == e {
                    assert(pre.locations@[x as int] == pre.locations@[e as int]);
                    assert((a2 as usize) as nat == a as nat);
                    assert(a2 != a);
                    assert(false);
                }
            }
        }
        assert(self.wf());
        assert forall|e2: nat, c: nat| e2 != e implies #[trigger] self.has_component(e2, c)
            == pre.has_component(e2, c) by {
            if pre.live(e2) {
                let av = pre.arch_of(e2) as int;
                assert(self.arch_of(e2) == pre.arch_of(e2));
                assert(self.archetypes@[av].types_seq() == pre.archetypes@[av].types_seq());
            }
        }
        assert forall|e2: nat, c: nat|
            e2 != e && pre.has_component(e2, c) implies #[trigger] self.component_bytes(e2, c)
            == pre.component_bytes(e2, c) by {
            let av = pre.arch_of(e2) as int;
            assert(pre.archetypes@[av].spec_contains(e2));
            if av != a {
                assert(self.archetypes@[av] == pre.archetypes@[av]);
            }
        }
    }

    /// Attaches a component of type `c` with value bytes `value` to entity
    /// `e`. If `e` already holds a `c` component the value is overwritten
    /// in place (the old value's destructor runs once); otherwise `e`
    /// migrates to the archetype for its old type set plus `c` — found by
    /// exact set match or created on first need — carrying every existing
    /// component value along without any destructor running. Fails with
    /// `UnknownEntity` (and no mutation) if `e` is not live.
    #[verifier::rlimit(100)]
    pub fn add_component(&mut self, e: &EntityId, c: component::Id, value: Vec<u8>) -> (r: Result<
        (),
        Error,
    >)
        requires
            old(self).wf(),
            old(self).drops_ok(),
            c@ < old(self).type_count(),
            value@.len() == old(self).size_of(c@),
        ensures
            final(self).wf(),
            !old(self).live(e@) ==> r == Result::<(), Error>::Err(Error::UnknownEntity)
                && *final(self) == *old(self),
            old(self).live(e@) ==> r is Ok,
            old(self).live(e@) && old(self).has_component(e@, c@) ==> add_over_ok(
                *old(self),
                *final(self),
                e@,
                c@,
                value@,
            ),
            old(self).live(e@) && !old(self).has_component(e@, c@) ==> add_new_ok(
                *old(self),
                *final(self),
                e@,
                c@,
                value@,
            ),
    {
        let ghost pre = *old(self);
        let idx = e.index();
        if idx >= self.locations.len() {
            return Err(Error::UnknownEntity);
        }
        let a = match self.locations[idx] {
            Some(a) => a,
            None => {
                return Err(Error::UnknownEntity);
            },
        };
        proof {
            assert(pre.archetypes@[a as int].spec_contains(e@));
            assert(pre.archetypes@[a as int].wf());
            assert(pre.arch(a as int).drops_ok());
            pre.archetypes@[a as int].lemma_wf();
            vstd::std_specs::vec::axiom_spec_len(&pre.locations);
        }
        if self.archetypes[a].has_type(c) {
            proof {
                let aa = a as int;
                let kc = pre.arch(aa).col_of(c@);
                assert(pre.arch(aa).types_seq().contains(c@));
                assert(0 <= kc < pre.arch(aa).width() && pre.arch(aa).types_seq()[kc] == c@);
                assert(pre.arch(aa).col(kc).spec_size() == pre.types@[c@ as int].layout().size());
                assert(pre.arch(aa).col(kc).spec_drops() < u64::MAX);
            }
            let _ = self.archetypes[a].write_component(e, c, value);
            proof {
                let aa = a as int;
                let kc = pre.arch(aa).col_of(c@);
                self.lemma_after_write(pre, e@, aa);
                assert(self.drops_at(aa, c@) == pre.drops_at(aa, c@) + (if pre.drop_of(c@) {
                    1int
                } else {
                    0int
                })) by {
                    assert(pre.arch(aa).col(kc).spec_drop() == pre.types@[c@ as int].drop());
                }
                assert forall|a2: int, c2: nat|
                    0 <= a2 < pre.arch_count() && pre.arch(a2).spec_has_type(c2) && (a2 != aa || c2
                        != c@) implies #[trigger] self.drops_at(a2, c2) == pre.drops_at(
                    a2,
                    c2,
                ) by {
                    if a2 == aa {
                        let k2 = pre.arch(aa).col_of(c2);
                        assert(pre.arch(aa).types_seq().contains(c2));
                        assert(0 <= k2 < pre.arch(aa).width() && pre.arch(aa).types_seq()[k2]
                            == c2);
                        assert(k2 != kc);
                        assert(self.arch(aa).col(k2) == pre.arch(aa).col(k2));
                        assert(self.arch(aa).col_of(c2) == k2);
                    } else {
                        assert(self.arch(a2) == pre.arch(a2));
                    }
                }
                assert(self.component_bytes(e@, c@) == value@);
                assert(add_over_ok(pre, *self, e@, c@, value@));
            }
            return Ok(());
        }
        self.add_migrate(e, c, value, a);
        Ok(())
    }

    /// The migration half of `add_component`: entity `e`, live in
    /// archetype `a` whose type set lacks `c`, moves to the archetype for
    /// that set plus `c`, carrying its values.
    #[verifier::rlimit(100)]
    fn add_migrate(&mut self, e: &EntityId, c: component::Id, value: Vec<u8>, a: usize)
        requires
            old(self).wf(),
            old(self).drops_ok(),
            c@ < old(self).type_count(),
            value@.len() == old(self).size_of(c@),
            old(self).live(e@),
            old(self).arch_of(e@) == a as nat,
            !old(self).has_component(e@, c@),
        ensures
            final(self).wf(),
            add_new_ok(*old(self), *final(self), e@, c@, value@),
    {
        let ghost pre = *old(self);
        proof {
            assert(pre.archetypes@[a as int].spec_contains(e@));
            assert(pre.archetypes@[a as int].wf());
            pre.archetypes@[a as int].lemma_wf();
        }
        // the entity migrates: build the target type list, sorted insert of
        // `c` into the current type set
        let ghost ts_a = pre.arch(a as int).types_seq();
        let mut target: Vec<component::Id> = Vec::new();
        let mut k: usize = 0;
        let width = self.archetypes[a].type_ids().len();
        while k < width && self.archetypes[a].type_ids()[k].index() < c.index()
            invariant
                *self == *old(self),
                self.wf(),
                pre == *old(self),
                (a as nat) < pre.arch_count(),
                ts_a == pre.arch(a as int).types_seq(),
                width == ts_a.len(),
                k <= width,
                target@.len() == k,
                forall|i: int| 0 <= i < k ==> (#[trigger] target@[i])@ == ts_a[i],
                forall|i: int| 0 <= i < k ==> #[trigger] ts_a[i] < c@,
            decreases width - k,
        {
            let t = self.archetypes[a].type_ids()[k];
            target.push(t);
            k = k + 1;
        }
        let p = k;
        target.push(c);
        let mut k2 = p;
        while k2 < width
            invariant
                *self == *old(self),
                self.wf(),
                pre == *old(self),
                (a as nat) < pre.arch_count(),
                ts_a == pre.arch(a as int).types_seq(),
                width == ts_a.len(),
                p <= k2 <= width,
                target@.len() == k2 + 1,
                target@[p as int]@ == c@,
                forall|i: int| 0 <= i < p ==> (#[trigger] target@[i])@ == ts_a[i],
                forall|i: int| p < i <= k2 ==> (#[trigger] target@[i])@ == ts_a[i - 1],
            decreases width - k2,
        {
            let t = self.archetypes[a].type_ids()[k2];
            target.push(t);
            k2 = k2 + 1;
        }
        proof {
            pre.archetypes@[a as int].lemma_wf();
            assert(strictly_sorted(ts_a));
            assert(!ts_a.contains(c@)) by {
                if ts_a.contains(c@) {
                    assert(pre.arch(a as int).spec_has_type(c@));
                }
            }
            assert(splits_at(ts_a, c@, p as int)) by {
                if (p as int) < ts_a.len() {
                    assert(!(ts_a[p as int] < c@));
                    assert(ts_a[p as int] != c@);
                    assert forall|i: int| p as int <= i < ts_a.len() implies c@ < #[trigger] ts_a[i] by {
                        if i > p as int {
                            assert(ts_a[p as int] < ts_a[i]);
                        }
                    }
                }
            }
            lemma_sorted_insert(ts_a, c@, p as int);
            assert(Self::ids_seq(target@) =~= sorted_insert(ts_a, c@));
            assert(strictly_sorted(Self::ids_seq(target@)));
            assert forall|i: int| 0 <= i < target@.len() implies (#[trigger] target@[i])@
                < pre.type_count() by {
                let ts = Self::ids_seq(target@);
                assert(ts[i] == target@[i]@);
                if i < p as int {
                    assert(ts[i] == ts_a[i]);
                } else if i > p as int {
                    assert(ts[i] == ts_a[i - 1]);
                }
            }
        }
        let ghost ts = Self::ids_seq(target@);
        let b = self.find_or_create(&target);
        let ghost s1 = *self;
        proof {
            // the source archetype is untouched by find_or_create, and the
            // target archetype differs from it
            assert(s1.arch(a as int) == pre.arch(a as int)) by {
                if pre.has_arch(ts) {
                } else {
                    assert((a as int) < pre.arch_count());
                }
            }
            assert(s1.arch(b as int).types_seq() == ts);
            assert(ts.contains(c@));
            assert(b as int != a as int) by {
                if b as int == a as int {
                    assert(ts_a.contains(c@));
                }
            }
            assert(s1.live(e@) && s1.arch_of(e@) == a as nat);
            assert(!s1.arch(b as int).spec_contains(e@)) by {
                if s1.arch(b as int).spec_contains(e@) {
                    s1.archetypes@[b as int].lemma_wf();
                    let jp = s1.archetypes@[b as int].row_of(e@);
                    assert(s1.archetypes@[b as int].entity_seq()[jp as int] == e@);
                    assert(s1.locations@[e@ as int] == Some(b));
                    assert(s1.locations@[e@ as int] == pre.locations@[e@ as int]);
                }
            }
        }
        let vals = match self.archetypes[a].remove_entity(e) {
            Some(v) => v,
            None => {
                proof {
                    assert(false);
                }
                Vec::new()
            },
        };
        let ghost s2 = *self;
        let mut vals = vals;
        let ghost pre_vals = vals@;
        vals.insert(p, value);
        proof {
            assert(vals@.len() == pre_vals.len() + 1);
            assert forall|i: int| 0 <= i < vals@.len() implies #[trigger] vals@[i] == (if i
                < p as int {
                pre_vals[i]
            } else if i == p as int {
                value
            } else {
                pre_vals[i - 1]
            }) by {
                assert(vals@ == pre_vals.insert(p as int, value));
            }
            // each offered value has its column's width in the target
            assert(s2.archetypes@[b as int] == s1.archetypes@[b as int]);
            assert(s2.archetypes@[b as int].wf());
            assert(vals@.len() == s2.arch(b as int).width());
            s1.archetypes@[b as int].lemma_wf();
            assert forall|i: int| 0 <= i < vals@.len() implies (#[trigger] vals@[i])@.len()
                == s2.arch(b as int).col(i).spec_size() by {
                assert(s1.arch(b as int).types_seq()[i] == ts[i]);
                assert(s1.arch(b as int).col(i).spec_size() == s1.types@[ts[i] as int].layout().size());
                pre.archetypes@[a as int].lemma_wf();
                if i < p as int {
                    assert(vals@[i]@ == pre.arch(a as int).value_at(
                        pre.arch(a as int).row_of(e@),
                        i,
                    ));
                    assert(pre.arch(a as int).col(i).wf());
                    assert(pre.arch(a as int).col(i).rows()[pre.arch(a as int).row_of(e@) as int].len()
                        == pre.arch(a as int).col(i).spec_size());
                    assert(ts[i] == ts_a[i]);
                    assert(pre.arch(a as int).col(i).spec_size() == pre.types@[ts_a[i] as int].layout().size());
                } else if i == p as int {
                    assert(vals@[i]@ == value@);
                    assert(ts[i] == c@);
                } else {
                    assert(vals@[i]@ == pre.arch(a as int).value_at(
                        pre.arch(a as int).row_of(e@),
                        i - 1,
                    ));
                    assert(pre.arch(a as int).col(i - 1).wf());
                    assert(pre.arch(a as int).col(i - 1).rows()[pre.arch(a as int).row_of(e@) as int].len()
                        == pre.arch(a as int).col(i - 1).spec_size());
                    assert(ts[i] == ts_a[i - 1]);
                    assert(pre.arch(a as int).col(i - 1).spec_size() == pre.types@[ts_a[i - 1] as int].layout().size());
                }
            }
            vstd::std_specs::vec::axiom_spec_len(&pre.locations);
            assert(e@ < usize::MAX);
        }
        let ghost vals_snap = vals@;
        let _row = self.archetypes[b].insert_entity(*e, vals);
        let idx = e.index();
        self.locations[idx] = Some(b);
        proof {
            let aa = a as int;
            let bb = b as int;
            self.lemma_after_move(s1, e@, aa, bb);
            assert(self.arch(bb).types_seq() == ts);
            assert(self.types_of(e@) == ts);
            // the new value and every carried value are readable
            assert(self.component_bytes(e@, c@) == value@) by {
                assert(self.arch(bb).component_of(e@, s1.arch(bb).types_seq()[p as int])
                    == vals_snap[p as int]@);
            }
            assert(self.has_component(e@, c@));
            assert forall|c2: nat| c2 != c@ implies (#[trigger] self.has_component(e@, c2)
                == pre.has_component(e@, c2)) by {}
            assert forall|c2: nat|
                c2 != c@ && pre.has_component(e@, c2) implies #[trigger] self.component_bytes(
                e@,
                c2,
            ) == pre.component_bytes(e@, c2) by {
                pre.archetypes@[aa].lemma_wf();
                let j = pre.arch(aa).col_of(c2);
                assert(pre.arch(aa).types_seq().contains(c2));
                assert(0 <= j < ts_a.len() && ts_a[j] == c2);
                let i = if j < p as int { j } else { j + 1 };
                assert(ts[i] == c2);
                assert(self.arch(bb).component_of(e@, s1.arch(bb).types_seq()[i])
                    == vals_snap[i]@);
                assert(vals_snap[i]@ == pre.arch(aa).value_at(pre.arch(aa).row_of(e@), j));
                assert(pre.arch(aa).col_of(c2) == j);
                assert(pre.component_bytes(e@, c2) == pre.arch(aa).value_at(
                    pre.arch(aa).row_of(e@),
                    j,
                ));
            }
            // membership of the new type set
            assert forall|x: nat| #[trigger] self.types_of(e@).contains(x) <==> (x == c@
                || pre.types_of(e@).contains(x)) by {}
            // archetype bookkeeping
            assert(pre.has_arch(ts) ==> self.arch_of(e@) == pre.find_arch(ts) && self.arch_count()
                == pre.arch_count());
            assert(!pre.has_arch(ts) ==> self.arch_of(e@) == pre.arch_count() && self.arch_count()
                == pre.arch_count() + 1);
            assert forall|a2: int|
                0 <= a2 < pre.arch_count() implies same_shape(pre.arch(a2), #[trigger] self.arch(
                a2,
            )) by {
                assert(s1.arch(a2).types_seq() == pre.arch(a2).types_seq());
                if a2 == aa {
                } else if a2 == bb {
                    assert(s1.arch(a2) == s2.arch(a2));
                } else {
                    assert(self.arch(a2) == s1.arch(a2));
                    if pre.has_arch(ts) {
                    } else {
                        assert(s1.arch(a2) == pre.arch(a2));
                    }
                }
            }
            // no destructor ran anywhere
            assert forall|a2: int, c2: nat|
                0 <= a2 < pre.arch_count() && pre.arch(a2).spec_has_type(
                    c2,
                ) implies #[trigger] self.drops_at(a2, c2) == pre.drops_at(a2, c2) by {
                let j = pre.arch(a2).col_of(c2);
                assert(pre.arch(a2).types_seq().contains(c2));
                assert(0 <= j < pre.arch(a2).width() && pre.arch(a2).types_seq()[j] == c2);
                assert(self.arch(a2).types_seq() == pre.arch(a2).types_seq());
                assert(self.arch(a2).col_of(c2) == j);
                if a2 == aa {
                    assert(s2.arch(aa).col(j).spec_drops() == pre.arch(aa).col(j).spec_drops());
                    assert(self.arch(aa).col(j).spec_drops() == s2.arch(aa).col(j).spec_drops());
                } else if a2 == bb {
                    assert(s1.arch(a2) == s2.arch(a2));
                    assert(self.arch(bb).col(j).spec_drops() == s2.arch(bb).col(j).spec_drops());
                    if pre.has_arch(ts) {
                        assert(s1.arch(bb) == pre.arch(bb));
                    }
                } else {
                    assert(self.arch(a2) == s1.arch(a2));
                    if !pre.has_arch(ts) {
                        assert(s1.arch(a2) == pre.arch(a2));
                    }
                }
            }
            assert(add_new_ok(pre, *self, e@, c@, value@));
        }
    }

    /// Detaches the component of type `c` from entity `e`: `e` migrates to
    /// the archetype for its old type set minus `c` — found by exact set
    /// match or created on first need — carrying every other component
    /// value along, while the removed value's destructor (if the type has
    /// one) runs exactly once, in the old archetype's column. Fails with
    /// `UnknownEntity` if `e` is not live and with `MissingComponent` if
    /// `e` does not hold a `c` component (no mutation either way).
    #[verifier::rlimit(100)]
    pub fn remove_component(&mut self, e: &EntityId, c: component::Id) -> (r: Result<(), Error>)
        requires
            old(self).wf(),
            old(self).drops_ok(),
        ensures
            final(self).wf(),
            !old(self).live(e@) ==> r == Result::<(), Error>::Err(Error::UnknownEntity)
                && *final(self) == *old(self),
            old(self).live(e@) && !old(self).has_component(e@, c@) ==> r == Result::<
                (),
                Error,
            >::Err(Error::MissingComponent) && *final(self) == *old(self),
            old(self).live(e@) && old(self).has_component(e@, c@) ==> r is Ok && remove_ok(
                *old(self),
                *final(self),
                e@,
                c@,
            ),
    {
        let ghost pre = *old(self);
        let idx = e.index();
        if idx >= self.locations.len() {
            return Err(Error::UnknownEntity);
        }
        let a = match self.locations[idx] {
            Some(a) => a,
            None => {
                return Err(Error::UnknownEntity);
            },
        };
        proof {
            assert(pre.archetypes@[a as int].spec_contains(e@));
            assert(pre.archetypes@[a as int].wf());
            assert(pre.arch(a as int).drops_ok());
            pre.archetypes@[a as int].lemma_wf();
            vstd::std_specs::vec::axiom_spec_len(&pre.locations);
        }
        let p = match self.archetypes[a].col_index(c) {
            Some(p) => p,
            None => {
                return Err(Error::MissingComponent);
            },
        };
        let ghost ts_a = pre.arch(a as int).types_seq();
        proof {
            assert(ts_a[p as int] == c@);
            assert(p as int == pre.arch(a as int).col_of(c@));
        }
        let mut target: Vec<component::Id> = Vec::new();
        let mut k: usize = 0;
        let width = self.archetypes[a].type_ids().len();
        while k < width
            invariant
                *self == *old(self),
                self.wf(),
                pre == *old(self),
                (a as nat) < pre.arch_count(),
                ts_a == pre.arch(a as int).types_seq(),
                width == ts_a.len(),
                (p as int) < width,
                k <= width,
                target@.len() == (if k <= p {
                    k as int
                } else {
                    k - 1
                }),
                forall|i: int|
                    0 <= i < target@.len() ==> (#[trigger] target@[i])@ == (if i < p as int {
                        ts_a[i]
                    } else {
                        ts_a[i + 1]
                    }),
            decreases width - k,
        {
            if k != p {
                let t = self.archetypes[a].type_ids()[k];
                target.push(t);
            }
            k = k + 1;
        }
        proof {
            assert(strictly_sorted(ts_a));
            assert(ts_a.contains(c@)) by {
                assert(pre.arch(a as int).spec_has_type(c@));
            }
            assert(position_of(ts_a, c@) == p as int) by {
                lemma_position_of(ts_a, p as int);
            }
            lemma_sorted_remove(ts_a, c@);
            assert(Self::ids_seq(target@) =~= ts_a.remove(p as int));
            assert(strictly_sorted(Self::ids_seq(target@)));
            assert forall|i: int| 0 <= i < target@.len() implies (#[trigger] target@[i])@
                < pre.type_count() by {
                if i < p as int {
                    assert(ts_a[i] < pre.type_count());
                } else {
                    assert(ts_a[i + 1] < pre.type_count());
                }
            }
        }
        let ghost ts = Self::ids_seq(target@);
        let b = self.find_or_create(&target);
        let ghost s1 = *self;
        proof {
            assert(s1.arch(a as int) == pre.arch(a as int)) by {
                if pre.has_arch(ts) {
                } else {
                    assert((a as int) < pre.arch_count());
                }
            }
            assert(s1.arch(b as int).types_seq() == ts);
            assert(!ts.contains(c@));
            assert(b as int != a as int) by {
                if b as int == a as int {
                    assert(ts.contains(c@));
                }
            }
            assert(s1.live(e@) && s1.arch_of(e@) == a as nat);
            assert(!s1.arch(b as int).spec_contains(e@)) by {
                if s1.arch(b as int).spec_contains(e@) {
                    s1.archetypes@[b as int].lemma_wf();
                    let jp = s1.archetypes@[b as int].row_of(e@);
                    assert(s1.archetypes@[b as int].entity_seq()[jp as int] == e@);
                    assert(s1.locations@[e@ as int] == Some(b));
                    assert(s1.locations@[e@ as int] == pre.locations@[e@ as int]);
                }
            }
        }
        let vals = match self.archetypes[a].remove_entity(e) {
            Some(v) => v,
            None => {
                proof {
                    assert(false);
                }
                Vec::new()
            },
        };
        let ghost s2 = *self;
        let mut vals = vals;
        let ghost pre_vals = vals@;
        let removed = vals.remove(p);
        proof {
            assert(vals@ == pre_vals.remove(p as int));
            assert forall|i: int| 0 <= i < vals@.len() implies #[trigger] vals@[i] == (if i
                < p as int {
                pre_vals[i]
            } else {
                pre_vals[i + 1]
            }) by {}
            assert(removed == pre_vals[p as int]);
            assert(removed@ == pre.arch(a as int).value_at(pre.arch(a as int).row_of(e@), p as int));
            // drop_value on the old archetype is allowed: the bytes have the
            // column's width and the counter has room
            assert(s2.archetypes@[a as int].wf());
            assert(s2.arch(a as int).spec_has_type(c@)) by {
                assert(s2.arch(a as int).types_seq() == ts_a);
            }
            assert(s2.arch(a as int).col_of(c@) == p as int) by {
                assert(s2.arch(a as int).types_seq() == ts_a);
            }
            assert(pre.arch(a as int).col(p as int).wf());
            assert(removed@.len() == pre.arch(a as int).col(p as int).spec_size());
            assert(s2.arch(a as int).col(p as int).spec_size() == pre.arch(a as int).col(
                p as int,
            ).spec_size());
            assert(s2.arch(a as int).col(p as int).spec_drops() == pre.arch(a as int).col(
                p as int,
            ).spec_drops());
            assert(pre.arch(a as int).col(p as int).spec_drops() < u64::MAX);
        }
        let _ = self.archetypes[a].drop_value(c, removed);
        let ghost s3 = *self;
        proof {
            // the source archetype after removal and destructor run: same
            // shape, same rows as after removal, counter bumped at column p
            assert(s3.archetypes@[a as int].wf());
            assert(same_shape(s1.archetypes@[a as int], s3.archetypes@[a as int]));
            assert(!s3.archetypes@[a as int].spec_contains(e@));
            // the target archetype is untouched by the removal and the drop
            assert(s3.archetypes@[b as int] == s1.archetypes@[b as int]);
            assert(vals@.len() == s3.arch(b as int).width());
            s1.archetypes@[b as int].lemma_wf();
            assert forall|i: int| 0 <= i < vals@.len() implies (#[trigger] vals@[i])@.len()
                == s3.arch(b as int).col(i).spec_size() by {
                assert(s1.arch(b as int).types_seq()[i] == ts[i]);
                assert(s1.arch(b as int).col(i).spec_size() == s1.types@[ts[i] as int].layout().size());
                let j = if i < p as int {
                    i
                } else {
                    i + 1
                };
                assert(vals@[i]@ == pre.arch(a as int).value_at(
                    pre.arch(a as int).row_of(e@),
                    j,
                ));
                assert(pre.arch(a as int).col(j).wf());
                assert(pre.arch(a as int).col(j).rows()[pre.arch(a as int).row_of(e@) as int].len()
                    == pre.arch(a as int).col(j).spec_size());
                assert(ts[i] == ts_a[j]);
                assert(pre.arch(a as int).col(j).spec_size() == pre.types@[ts_a[j] as int].layout().size());
            }
            vstd::std_specs::vec::axiom_spec_len(&pre.locations);
            assert(e@ < usize::MAX);
        }
        let ghost vals_snap = vals@;
        let _row = self.archetypes[b].insert_entity(*e, vals);
        self.locations[idx] = Some(b);
        proof {
            let aa = a as int;
            let bb = b as int;
            self.lemma_after_move(s1, e@, aa, bb);
            assert(self.arch(bb).types_seq() == ts);
            assert(self.types_of(e@) == ts);
            assert(!self.has_component(e@, c@)) by {
                assert(!ts.contains(c@));
            }
            assert forall|c2: nat|
                c2 != c@ && pre.has_component(e@, c2) implies #[trigger] self.component_bytes(
                e@,
                c2,
            ) == pre.component_bytes(e@, c2) by {
                pre.archetypes@[aa].lemma_wf();
                let j = pre.arch(aa).col_of(c2);
                assert(pre.arch(aa).types_seq().contains(c2));
                assert(0 <= j < ts_a.len() && ts_a[j] == c2);
                assert(j != p as int);
                let i = if j < p as int {
                    j
                } else {
                    j - 1
                };
                assert(ts[i] == c2);
                assert(self.arch(bb).component_of(e@, s1.arch(bb).types_seq()[i])
                    == vals_snap[i]@);
                assert(vals_snap[i]@ == pre.arch(aa).value_at(pre.arch(aa).row_of(e@), j));
                assert(pre.arch(aa).col_of(c2) == j);
                assert(pre.component_bytes(e@, c2) == pre.arch(aa).value_at(
                    pre.arch(aa).row_of(e@),
                    j,
                ));
            }
            assert forall|x: nat| #[trigger] self.types_of(e@).contains(x) <==> (x != c@
                && pre.types_of(e@).contains(x)) by {}
            assert(pre.has_arch(ts) ==> self.arch_of(e@) == pre.find_arch(ts) && self.arch_count()
                == pre.arch_count());
            assert(!pre.has_arch(ts) ==> self.arch_of(e@) == pre.arch_count() && self.arch_count()
                == pre.arch_count() + 1);
            assert forall|a2: int|
                0 <= a2 < pre.arch_count() implies same_shape(pre.arch(a2), #[trigger] self.arch(
                a2,
            )) by {
                assert(s1.arch(a2).types_seq() == pre.arch(a2).types_seq());
                if a2 == aa {
                } else if a2 == bb {
                    assert(s1.arch(a2) == s3.arch(a2));
                } else {
                    assert(self.arch(a2) == s1.arch(a2));
                    if pre.has_arch(ts) {
                    } else {
                        assert(s1.arch(a2) == pre.arch(a2));
                    }
                }
            }
            // the destructor ran exactly once, in the old archetype's column
            assert(self.drops_at(aa, c@) == pre.drops_at(aa, c@) + (if pre.drop_of(c@) {
                1int
            } else {
                0int
            })) by {
                assert(self.arch(aa).types_seq() == ts_a);
                assert(self.arch(aa).col_of(c@) == p as int);
                assert(self.arch(aa).col(p as int).spec_drops() == s3.arch(aa).col(
                    p as int,
                ).spec_drops());
                assert(s3.arch(aa).drops_of(c@) == s2.arch(aa).drops_of(c@) + (if s2.arch(aa).col(
                    s2.arch(aa).col_of(c@),
                ).spec_drop() {
                    1int
                } else {
                    0int
                }));
                assert(s2.arch(aa).col(p as int).spec_drop() == pre.arch(aa).col(
                    p as int,
                ).spec_drop());
                assert(pre.arch(aa).col(p as int).spec_drop() == pre.types@[c@ as int].drop());
            }
            assert forall|a2: int, c2: nat|
                0 <= a2 < pre.arch_count() && pre.arch(a2).spec_has_type(c2) && (a2 != aa || c2
                    != c@) implies #[trigger] self.drops_at(a2, c2) == pre.drops_at(a2, c2) by {
                let j = pre.arch(a2).col_of(c2);
                assert(pre.arch(a2).types_seq().contains(c2));
                assert(0 <= j < pre.arch(a2).width() && pre.arch(a2).types_seq()[j] == c2);
                assert(self.arch(a2).types_seq() == pre.arch(a2).types_seq());
                assert(self.arch(a2).col_of(c2) == j);
                if a2 == aa {
                    assert(j != p as int);
                    assert(s3.arch(aa).col(j) == s2.arch(aa).col(j));
                    assert(s2.arch(aa).col(j).spec_drops() == pre.arch(aa).col(j).spec_drops());
                    assert(self.arch(aa).col(j).spec_drops() == s3.arch(aa).col(j).spec_drops());
                } else if a2 == bb {
                    assert(s1.arch(a2) == s3.arch(a2));
                    assert(self.arch(bb).col(j).spec_drops() == s3.arch(bb).col(j).spec_drops());
                    if pre.has_arch(ts) {
                        assert(s1.arch(bb) == pre.arch(bb));
                    }
                } else {
                    assert(self.arch(a2) == s1.arch(a2));
                    if !pre.has_arch(ts) {
                        assert(s1.arch(a2) == pre.arch(a2));
                    }
                }
            }
            assert(remove_ok(pre, *self, e@, c@));
        }
        Ok(())
    }

    /// The shared consequence of an in-place component overwrite in
    /// archetype `a`: the storage stays well formed, no entity moves, and
    /// every other component value is untouched.
    proof fn lemma_after_write(self, pre: Storage, e: nat, a: int)
        requires
            pre.wf(),
            pre.live(e),
            pre.arch_of(e) == a,
            self.types@ == pre.types@,
            self.locations@ == pre.locations@,
            self.archetypes@.len() == pre.archetypes@.len(),
            forall|a2: int|
                0 <= a2 < pre.archetypes@.len() && a2 != a ==> #[trigger] self.archetypes@[a2]
                    == pre.archetypes@[a2],
            self.archetypes@[a].wf(),
            same_shape(pre.archetypes@[a], self.archetypes@[a]),
            self.archetypes@[a].entity_seq() == pre.archetypes@[a].entity_seq(),
            forall|e2: nat|
                self.archetypes@[a].spec_contains(e2) == pre.archetypes@[a].spec_contains(e2),
            forall|e2: nat, c: nat|
                e2 != e && pre.archetypes@[a].spec_contains(e2) && pre.archetypes@[a].spec_has_type(
                    c,
                ) ==> self.archetypes@[a].component_of(e2, c) == pre.archetypes@[a].component_of(
                    e2,
                    c,
                ),
        ensures
            self.wf(),
            self.live(e),
            self.arch_of(e) == a,
            self.next_entity() == pre.next_entity(),
            self.arch_count() == pre.arch_count(),
            forall|e2: nat| self.live(e2) == pre.live(e2),
            forall|e2: nat| pre.live(e2) ==> self.arch_of(e2) == pre.arch_of(e2),
            forall|e2: nat, c: nat|
                #[trigger] self.has_component(e2, c) == pre.has_component(e2, c),
            forall|e2: nat, c: nat|
                e2 != e && pre.has_component(e2, c) ==> #[trigger] self.component_bytes(e2, c)
                    == pre.component_bytes(e2, c),
    {
        assert(self.archetypes@[a].types_seq() == pre.archetypes@[a].types_seq());
        assert(0 <= a < pre.archetypes@.len());
        assert forall|a1: int, a2: int|
            0 <= a1 < a2 < self.archetypes@.len() implies self.archetypes@[a1].types_seq()
            != self.archetypes@[a2].types_seq() by {
            assert(self.archetypes@[a1].types_seq() == pre.archetypes@[a1].types_seq());
            assert(self.archetypes@[a2].types_seq() == pre.archetypes@[a2].types_seq());
        }
        assert forall|a2: int, k: int|
            0 <= a2 < self.archetypes@.len() && 0 <= k
                < self.archetypes@[a2].width() implies ((
        #[trigger] self.archetypes@[a2].types_seq()[k]) < self.types@.len()
            && self.archetypes@[a2].col(k).spec_size()
            == self.types@[self.archetypes@[a2].types_seq()[k] as int].layout().size()
            && self.archetypes@[a2].col(k).spec_drop()
            == self.types@[self.archetypes@[a2].types_seq()[k] as int].drop()) by {
            assert(self.archetypes@[a2].types_seq() == pre.archetypes@[a2].types_seq());
            if a2 != a {
                assert(self.archetypes@[a2] == pre.archetypes@[a2]);
            }
        }
        assert forall|ei: int|
            0 <= ei < self.locations@.len() implies (#[trigger] self.locations@[ei] matches Some(
            av,
        ) ==> av < self.archetypes@.len() && self.archetypes@[av as int].spec_contains(
            ei as nat,
        )) by {
            if self.locations@[ei] is Some {
                let av = self.locations@[ei]->Some_0;
                assert(pre.archetypes@[av as int].spec_contains(ei as nat));
                if av as int != a {
                    assert(self.archetypes@[av as int] == pre.archetypes@[av as int]);
                }
            }
        }
        assert forall|a2: int, j: int|
            0 <= a2 < self.archetypes@.len() && 0 <= j
                < self.archetypes@[a2].spec_len() implies ((
        #[trigger] self.archetypes@[a2].entity_seq()[j]) < self.locations@.len()
            && self.locations@[self.archetypes@[a2].entity_seq()[j] as int] == Some(
            a2 as usize,
        )) by {
            if a2 == a {
                assert(self.archetypes@[a2].entity_seq()[j] == pre.archetypes@[a2].entity_seq()[j]);
            } else {
                assert(self.archetypes@[a2] == pre.archetypes@[a2]);
            }
        }
        assert(self.wf());
        assert forall|e2: nat, c: nat| #[trigger] self.has_component(e2, c) == pre.has_component(
            e2,
            c,
        ) by {
            if pre.live(e2) {
                let av = pre.arch_of(e2) as int;
                assert(self.archetypes@[av].types_seq() == pre.archetypes@[av].types_seq());
            }
        }
        assert forall|e2: nat, c: nat|
            e2 != e && pre.has_component(e2, c) implies #[trigger] self.component_bytes(e2, c)
            == pre.component_bytes(e2, c) by {
            let av = pre.arch_of(e2) as int;
            assert(pre.archetypes@[av].spec_contains(e2));
            if av != a {
                assert(self.archetypes@[av] == pre.archetypes@[av]);
            }
        }
    }

    /// The shared consequence of entity `e` migrating from archetype `a`
    /// to a different archetype `b` (its row swap-removed from `a`, a row
    /// for it appended to `b`, its location remapped): the storage is well
    /// formed again and every other entity keeps its identity, archetype
    /// and component values.
    proof fn lemma_after_move(self, s1: Storage, e: nat, a: int, b: int)
        requires
            s1.wf(),
            s1.live(e),
            s1.arch_of(e) == a,
            0 <= a < s1.archetypes@.len(),
            0 <= b < s1.archetypes@.len(),
            b != a,
            self.types@ == s1.types@,
            self.archetypes@.len() == s1.archetypes@.len(),
            forall|a2: int|
                0 <= a2 < s1.archetypes@.len() && a2 != a && a2 != b
                    ==> #[trigger] self.archetypes@[a2] == s1.archetypes@[a2],
            self.archetypes@[a].wf(),
            same_shape(s1.archetypes@[a], self.archetypes@[a]),
            !self.archetypes@[a].spec_contains(e),
            forall|e2: nat|
                e2 != e ==> self.archetypes@[a].spec_contains(e2) == s1.archetypes@[
                a].spec_contains(e2),
            forall|e2: nat, c: nat|
                e2 != e && s1.archetypes@[a].spec_contains(e2) && s1.archetypes@[a].spec_has_type(
                    c,
                ) ==> self.archetypes@[a].component_of(e2, c) == s1.archetypes@[a].component_of(
                    e2,
                    c,
                ),
            self.archetypes@[b].wf(),
            same_shape(s1.archetypes@[b], self.archetypes@[b]),
            self.archetypes@[b].spec_contains(e),
            forall|e2: nat|
                e2 != e ==> self.archetypes@[b].spec_contains(e2) == s1.archetypes@[
                b].spec_contains(e2),
            forall|e2: nat, c: nat|
                e2 != e && s1.archetypes@[b].spec_contains(e2) && s1.archetypes@[b].spec_has_type(
                    c,
                ) ==> self.archetypes@[b].component_of(e2, c) == s1.archetypes@[b].component_of(
                    e2,
                    c,
                ),
            self.locations@ == s1.locations@.update(e as int, Some(b as usize)),
        ensures
            self.wf(),
            self.live(e),
            self.arch_of(e) == b,
            self.next_entity() == s1.next_entity(),
            forall|e2: nat| e2 != e ==> self.live(e2) == s1.live(e2),
            forall|e2: nat| e2 != e && s1.live(e2) ==> self.arch_of(e2) == s1.arch_of(e2),
            forall|e2: nat, c: nat|
                e2 != e ==> #[trigger] self.has_component(e2, c) == s1.has_component(e2, c),
            forall|e2: nat, c: nat|
                e2 != e && s1.has_component(e2, c) ==> #[trigger] self.component_bytes(e2, c)
                    == s1.component_bytes(e2, c),
    {
        vstd::std_specs::vec::axiom_spec_len(&s1.archetypes);
        vstd::std_specs::vec::axiom_spec_len(&s1.locations);
        assert(e < s1.locations@.len());
        assert(s1.locations@[e as int] is Some);
        assert(s1.locations@[e as int]->Some_0 as nat == a as nat);
        assert forall|a2: int|
            0 <= a2 < self.archetypes@.len() implies #[trigger] self.archetypes@[a2].types_seq()
            == s1.archetypes@[a2].types_seq() by {
            if a2 != a && a2 != b {
                assert(self.archetypes@[a2] == s1.archetypes@[a2]);
            }
        }
        assert forall|a1: int, a2: int|
            0 <= a1 < a2 < self.archetypes@.len() implies self.archetypes@[a1].types_seq()
            != self.archetypes@[a2].types_seq() by {
            assert(self.archetypes@[a1].types_seq() == s1.archetypes@[a1].types_seq());
            assert(self.archetypes@[a2].types_seq() == s1.archetypes@[a2].types_seq());
        }
        assert forall|a2: int|
            0 <= a2 < self.archetypes@.len() implies (#[trigger] self.archetypes@[a2]).wf() by {
            if a2 != a && a2 != b {
                assert(self.archetypes@[a2] == s1.archetypes@[a2]);
            }
        }
        assert forall|a2: int, k: int|
            0 <= a2 < self.archetypes@.len() && 0 <= k
                < self.archetypes@[a2].width() implies ((
        #[trigger] self.archetypes@[a2].types_seq()[k]) < self.types@.len()
            && self.archetypes@[a2].col(k).spec_size()
            == self.types@[self.archetypes@[a2].types_seq()[k] as int].layout().size()
            && self.archetypes@[a2].col(k).spec_drop()
            == self.types@[self.archetypes@[a2].types_seq()[k] as int].drop()) by {
            assert(self.archetypes@[a2].types_seq() == s1.archetypes@[a2].types_seq());
            if a2 == a {
                assert(same_shape(s1.archetypes@[a], self.archetypes@[a]));
            } else if a2 == b {
                assert(same_shape(s1.archetypes@[b], self.archetypes@[b]));
            } else {
                assert(self.archetypes@[a2] == s1.archetypes@[a2]);
            }
        }
        assert forall|ei: int|
            0 <= ei < self.locations@.len() implies (#[trigger] self.locations@[ei] matches Some(
            av,
        ) ==> av < self.archetypes@.len() && self.archetypes@[av as int].spec_contains(
            ei as nat,
        )) by {
            if ei == e {
                assert(self.locations@[ei] == Some(b as usize));
                assert(self.archetypes@[b].spec_contains(e));
            } else if self.locations@[ei] is Some {
                let av = self.locations@[ei]->Some_0;
                assert(s1.locations@[ei] == self.locations@[ei]);
                assert(s1.archetypes@[av as int].spec_contains(ei as nat));
                if av as int == a {
                    assert(self.archetypes@[a].spec_contains(ei as nat));
                } else if av as int == b {
                    assert(self.archetypes@[b].spec_contains(ei as nat));
                } else {
                    assert(self.archetypes@[av as int] == s1.archetypes@[av as int]);
                }
            }
        }
        assert forall|a2: int, j: int|
            0 <= a2 < self.archetypes@.len() && 0 <= j
                < self.archetypes@[a2].spec_len() implies ((
        #[trigger] self.archetypes@[a2].entity_seq()[j]) < self.locations@.len()
            && self.locations@[self.archetypes@[a2].entity_seq()[j] as int] == Some(
            a2 as usize,
        )) by {
            let x = self.archetypes@[a2].entity_seq()[j];
            self.archetypes@[a2].lemma_wf();
            assert(self.archetypes@[a2].spec_contains(x));
            assert(0 <= a2 <= usize::MAX);
            if a2 == b {
                if x == e {
                    assert(self.locations@[e as int] == Some(b as usize));
                } else {
                    assert(s1.archetypes@[b].spec_contains(x));
                    s1.archetypes@[b].lemma_wf();
                    let jp = s1.archetypes@[b].row_of(x);
                    assert(s1.archetypes@[b].entity_seq()[jp as int] == x);
                    assert(x < s1.locations@.len() && s1.locations@[x as int] == Some(b as usize));
                }
            } else if a2 == a {
                assert(x != e);
                assert(s1.archetypes@[a].spec_contains(x));
                s1.archetypes@[a].lemma_wf();
                let jp = s1.archetypes@[a].row_of(x);
                assert(s1.archetypes@[a].entity_seq()[jp as int] == x);
                assert(x < s1.locations@.len() && s1.locations@[x as int] == Some(a as usize));
            } else {
                assert(self.archetypes@[a2] == s1.archetypes@[a2]);
                assert(x < s1.locations@.len() && s1.locations@[x as int] == Some(a2 as usize));
                if x == e {
                    assert(s1.locations@[x as int] == s1.locations@[e as int]);
                    assert((a2 as usize) as nat == a as nat);
                    assert(false);
                }
            }
        }
        assert(self.wf());
        assert forall|e2: nat, c: nat| e2 != e implies #[trigger] self.has_component(e2, c)
            == s1.has_component(e2, c) by {
            if s1.live(e2) {
                let av = s1.arch_of(e2) as int;
                assert(self.arch_of(e2) == s1.arch_of(e2));
                assert(self.archetypes@[av].types_seq() == s1.archetypes@[av].types_seq());
            }
        }
        assert forall|e2: nat, c: nat|
            e2 != e && s1.has_component(e2, c) implies #[trigger] self.component_bytes(e2, c)
            == s1.component_bytes(e2, c) by {
            let av = s1.arch_of(e2) as int;
            assert(s1.archetypes@[av].spec_contains(e2));
            if av != a && av != b {
                assert(self.archetypes@[av] == s1.archetypes@[av]);
            }
        }
    }
}

/// Round trip: attaching a brand-new component to a live entity and then
/// removing that same component returns the entity to the archetype it
/// started in, with its type set restored and every other component of
/// every entity unaffected.
pub proof fn lemma_add_remove_round_trip(
    s0: Storage,
    s1: Storage,
    s2: Storage,
    e: nat,
    c: nat,
    v: Seq<u8>,
)
    requires
        s0.wf(),
        s0.live(e),
        !s0.has_component(e, c),
        add_new_ok(s0, s1, e, c, v),
        remove_ok(s1, s2, e, c),
    ensures
        s2.live(e),
        s2.arch_of(e) == s0.arch_of(e),
        s2.types_of(e) == s0.types_of(e),
        forall|c2: nat| c2 != c ==> #[trigger] s2.has_component(e, c2) == s0.has_component(e, c2),
        !s2.has_component(e, c),
        forall|c2: nat|
            c2 != c && s0.has_component(e, c2) ==> #[trigger] s2.component_bytes(e, c2)
                == s0.component_bytes(e, c2),
        forall|e2: nat| e2 != e ==> s2.live(e2) == s0.live(e2),
        forall|e2: nat, c2: nat|
            e2 != e ==> #[trigger] s2.has_component(e2, c2) == s0.has_component(e2, c2),
        forall|e2: nat, c2: nat|
            e2 != e && s0.has_component(e2, c2) ==> #[trigger] s2.component_bytes(e2, c2)
                == s0.component_bytes(e2, c2),
{
    let a0 = s0.arch_of(e) as int;
    assert(s0.locations@[e as int] is Some);
    assert(0 <= a0 < s0.archetypes@.len());
    assert(s0.archetypes@[a0].wf());
    s0.archetypes@[a0].lemma_wf();
    let ts0 = s0.types_of(e);
    assert(strictly_sorted(ts0));
    assert(!ts0.contains(c)) by {
        if ts0.contains(c) {
            assert(s0.has_component(e, c));
        }
    }
    lemma_split_exists(ts0, c);
    let q = insert_point(ts0, c);
    lemma_sorted_insert(ts0, c, q);
    let ts1 = s1.types_of(e);
    assert(ts1 == sorted_insert(ts0, c));
    assert(position_of(ts1, c) == q);
    assert(s2.types_of(e) == ts1.remove(q));
    assert(s2.types_of(e) == ts0);
    // the original archetype still exists in s1 with the same type set, so
    // the removal finds it rather than creating a new one
    assert(same_shape(s0.arch(a0), s1.arch(a0)));
    assert(s1.arch(a0).types_seq() == ts0);
    assert(s1.arch_count() >= s0.arch_count());
    assert(s1.has_arch(ts0)) by {
        assert(0 <= a0 < s1.arch_count() && s1.arch(a0).types_seq() == ts0);
    }
    let w = s1.find_arch(ts0);
    assert(0 <= w < s1.arch_count() && s1.arch(w).types_seq() == ts0);
    assert(w == a0) by {
        if w < a0 {
            assert(s1.archetypes@[w].types_seq() != s1.archetypes@[a0].types_seq());
        } else if a0 < w {
            assert(s1.archetypes@[a0].types_seq() != s1.archetypes@[w].types_seq());
        }
    }
    assert(s2.arch_of(e) == a0 as nat);
    assert forall|c2: nat| c2 != c implies #[trigger] s2.has_component(e, c2) == s0.has_component(
        e,
        c2,
    ) by {
        assert(s2.has_component(e, c2) == s2.types_of(e).contains(c2));
        assert(s0.has_component(e, c2) == ts0.contains(c2));
    }
}

/// Destructor discipline over whole runs: destroying, one after another,
/// any number of entities that each hold a component of type `c` in
/// archetype `a` runs `c`'s destructor there exactly once per entity when
/// the type has a destructor — and never when it has none. No double-drop,
/// no leak.
pub proof fn lemma_destroy_chain(states: Seq<Storage>, es: Seq<nat>, a: int, c: nat)
    requires
        states.len() == es.len() + 1,
        c < states[0].type_count(),
        0 <= a < states[0].arch_count(),
        forall|i: int| 0 <= i < es.len() ==> destroy_ok(states[i], states[i + 1], #[trigger] es[i]),
        forall|i: int|
            0 <= i < es.len() ==> states[i].has_component(#[trigger] es[i], c) && states[
                i
            ].arch_of(es[i]) == a,
    ensures
        states.last().drops_at(a, c) == states[0].drops_at(a, c) + (if states[0].drop_of(c) {
            es.len() as int
        } else {
            0int
        }),
    decreases es.len(),
{
    if es.len() == 0 {
        assert(states.last() == states[0]);
    } else {
        assert(destroy_ok(states[0], states[1], es[0]));
        assert(states[0].has_component(es[0], c) && states[0].arch_of(es[0]) == a);
        assert(states[1].drops_at(a, c) == states[0].drops_at(a, c) + (if states[0].drop_of(c) {
            1int
        } else {
            0int
        }));
        assert(states[1].drop_of(c) == states[0].drop_of(c)) by {
            assert(states[1].descriptor_of(c) == states[0].descriptor_of(c));
        }
        assert(states[1].type_count() == states[0].type_count());
        assert(states[1].arch_count() == states[0].arch_count());
        let tail_states = states.subrange(1, states.len() as int);
        let tail_es = es.subrange(1, es.len() as int);
        assert(tail_states.len() == tail_es.len() + 1);
        assert forall|i: int|
            0 <= i < tail_es.len() implies destroy_ok(
            tail_states[i],
            tail_states[i + 1],
            #[trigger] tail_es[i],
        ) by {
            assert(tail_es[i] == es[i + 1]);
            assert(tail_states[i] == states[i + 1] && tail_states[i + 1] == states[i + 2]);
        }
        assert forall|i: int|
            0 <= i < tail_es.len() implies tail_states[i].has_component(#[trigger] tail_es[i], c)
            && tail_states[i].arch_of(tail_es[i]) == a by {
            assert(tail_es[i] == es[i + 1]);
            assert(tail_states[i] == states[i + 1]);
        }
        lemma_destroy_chain(tail_states, tail_es, a, c);
        assert(tail_states.last() == states.last());
        assert(tail_states[0] == states[1]);
    }
}

} // verus!
