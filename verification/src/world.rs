use vstd::prelude::*;

use crate::component_array::CACell;
use crate::entity::Entity;
use crate::query::{acquired_flag, can_acquire, FetchItem, Query};

verus! {

/// The store itself: the entity counter and one component array per
/// registered component tag.
///
/// A component type is identified by a caller-chosen stable tag (a plain
/// integer, the runtime stand-in for a type identity token). The map from
/// tag to array is kept as an association list in registration order, with
/// tags unique; it is a closed internal mechanism, reached from outside only
/// through the tag-keyed operations below.
///
/// Well-formedness ties everything together: tags are distinct, every guard
/// holds a legal value, and every array has exactly one slot per allocated
/// entity — arrays are extended whenever an entity is created and back-filled
/// whenever a component is registered late.
pub struct World<V> {
    entities_count: usize,
    component_arrays: Vec<(u64, CACell<V>)>,
}

impl<V> World<V> {
    /// The registered arrays with their tags, in registration order.
    pub closed spec fn pairs(&self) -> Seq<(u64, CACell<V>)> {
        self.component_arrays@
    }

    /// How many entities have been created.
    pub closed spec fn entity_count(&self) -> int {
        self.entities_count as int
    }

    /// Whether a component tag has been registered.
    pub open spec fn registered(&self, tag: u64) -> bool {
        exists|i: int| 0 <= i < self.pairs().len() && (#[trigger] self.pairs()[i]).0 == tag
    }

    /// The position of a registered tag's array in registration order.
    pub open spec fn index_of(&self, tag: u64) -> int {
        choose|i: int| 0 <= i < self.pairs().len() && (#[trigger] self.pairs()[i]).0 == tag
    }

    /// The component array registered under a tag.
    pub open spec fn arr(&self, tag: u64) -> CACell<V> {
        self.pairs()[self.index_of(tag)].1
    }

    /// The slots of the array registered under a tag.
    pub open spec fn slots_of(&self, tag: u64) -> Seq<Option<V>> {
        self.arr(tag).slots()
    }

    /// The guard counter of the array registered under a tag.
    pub open spec fn flag_of(&self, tag: u64) -> int {
        self.arr(tag).flag()
    }

    /// The registered tags in registration order.
    pub open spec fn tags(&self) -> Seq<u64> {
        Seq::new(self.pairs().len(), |i: int| self.pairs()[i].0)
    }

    pub open spec fn wf(&self) -> bool {
        &&& 0 <= self.entity_count() <= usize::MAX
        &&& forall|i: int, j: int|
            0 <= i < j < self.pairs().len() ==> (#[trigger] self.pairs()[i]).0 != (
            #[trigger] self.pairs()[j]).0
        &&& forall|i: int|
            0 <= i < self.pairs().len() ==> (#[trigger] self.pairs()[i]).1.wf() && self.pairs()[i].1.slots().len()
                == self.entity_count()
    }

    /// No accessor is live on any registered array.
    pub open spec fn guards_unused(&self) -> bool {
        forall|i: int| 0 <= i < self.pairs().len() ==> (#[trigger] self.pairs()[i]).1.flag() == 0
    }

    /// With distinct tags, any position holding a tag is the position the
    /// tag-keyed spec functions speak of.
    pub proof fn lemma_index_of_unique(&self, tag: u64, i: int)
        requires
            self.wf(),
            0 <= i < self.pairs().len(),
            self.pairs()[i].0 == tag,
        ensures
            self.registered(tag),
            self.index_of(tag) == i,
    {
        assert(self.registered(tag));
        let j = self.index_of(tag);
        if i < j {
            assert(self.pairs()[i].0 != self.pairs()[j].0);
        } else if j < i {
            assert(self.pairs()[j].0 != self.pairs()[i].0);
        }
    }

    /// A registered array always has one slot per allocated entity.
    pub proof fn lemma_registered_len(&self, tag: u64)
        requires
            self.wf(),
            self.registered(tag),
        ensures
            0 <= self.index_of(tag) < self.pairs().len(),
            self.pairs()[self.index_of(tag)].0 == tag,
            self.slots_of(tag).len() == self.entity_count(),
            self.arr(tag).wf(),
    {
        let i = self.index_of(tag);
        assert(0 <= i < self.pairs().len() && self.pairs()[i].0 == tag);
    }

    pub fn new() -> (w: World<V>)
        ensures
            w.wf(),
            w.guards_unused(),
            w.entity_count() == 0,
            w.pairs() == Seq::<(u64, CACell<V>)>::empty(),
    {
        World { entities_count: 0, component_arrays: Vec::new() }
    }

    /// Looks a tag up in the association list.
    fn find(&self, tag: u64) -> (r: Option<usize>)
        requires
            self.wf(),
        ensures
            match r {
                Some(i) => 0 <= i < self.pairs().len() && self.pairs()[i as int].0 == tag
                    && self.index_of(tag) == i && self.registered(tag),
                None => !self.registered(tag),
            },
    {
        let n = self.component_arrays.len();
        let mut k: usize = 0;
        while k < n
            invariant
                self.wf(),
                n == self.pairs().len(),
                0 <= k <= n,
                forall|j: int| 0 <= j < k ==> (#[trigger] self.pairs()[j]).0 != tag,
            decreases n - k,
        {
            if self.component_arrays[k].0 == tag {
                proof {
                    self.lemma_index_of_unique(tag, k as int);
                }
                return Some(k);
            }
            k = k + 1;
        }
        None
    }

    /// Allocates a fresh, never-before-issued entity identifier and extends
    /// every registered array by one empty slot, so that assignment against
    /// the new entity is always valid. Requires structural stability: no
    /// accessor may be live on any array.
    pub fn create_entity(&mut self) -> (e: Entity)
        requires
            old(self).wf(),
            old(self).guards_unused(),
            old(self).entity_count() < usize::MAX,
        ensures
            final(self).wf(),
            final(self).guards_unused(),
            e.id() == old(self).entity_count(),
            final(self).entity_count() == old(self).entity_count() + 1,
            final(self).tags() == old(self).tags(),
            forall|t: u64| final(self).registered(t) <==> old(self).registered(t),
            forall|t: u64|
                old(self).registered(t) ==> final(self).slots_of(t) == old(self).slots_of(
                    t,
                ).push(None::<V>) && final(self).flag_of(t) == old(self).flag_of(t),
    {
        let ghost prev = *self;
        let entity = Entity::from_num(self.entities_count);
        self.entities_count = self.entities_count + 1;
        proof {
            assert(prev == *old(self));
        }
        let n = self.component_arrays.len();
        let mut k: usize = 0;
        while k < n
            invariant
                n == self.pairs().len(),
                prev.pairs().len() == n,
                0 <= k <= n,
                self.entity_count() == prev.entity_count() + 1,
                prev.entity_count() < usize::MAX,
                forall|j: int| 0 <= j < n ==> (#[trigger] prev.pairs()[j]).1.flag() == 0,
                forall|i: int, j: int|
                    0 <= i < j < n ==> (#[trigger] prev.pairs()[i]).0 != (
                    #[trigger] prev.pairs()[j]).0,
                forall|j: int|
                    0 <= j < n ==> (#[trigger] prev.pairs()[j]).1.wf()
                        && prev.pairs()[j].1.slots().len() == prev.entity_count(),
                forall|j: int| 0 <= j < n ==> (#[trigger] self.pairs()[j]).0 == prev.pairs()[j].0,
                forall|j: int| 0 <= j < n ==> (#[trigger] self.pairs()[j]).1.flag() == 0,
                forall|j: int|
                    0 <= j < k ==> (#[trigger] self.pairs()[j]).1.slots() == prev.pairs()[j].1.slots().push(
                        None::<V>,
                    ),
                forall|j: int|
                    k <= j < n ==> (#[trigger] self.pairs()[j]).1 == prev.pairs()[j].1,
            decreases n - k,
        {
            let pair = &mut self.component_arrays[k];
            pair.1.push_none();
            k = k + 1;
        }
        proof {
            self.lemma_tag_ops_frame(prev);
            assert forall|t: u64| prev.registered(t) implies #[trigger] self.slots_of(t)
                == prev.slots_of(t).push(None::<V>) && self.flag_of(t) == prev.flag_of(t) by {
                let i = prev.index_of(t);
                assert(0 <= i < prev.pairs().len() && prev.pairs()[i].0 == t);
            }
            assert(self.tags() == prev.tags());
        }
        entity
    }

    /// From pairwise facts about positions to facts about the tag-keyed view:
    /// after an operation that keeps every tag in place, registration, slots
    /// and guards are related position by position.
    proof fn lemma_tag_ops_frame(&self, prev: World<V>)
        requires
            self.pairs().len() == prev.pairs().len(),
            forall|i: int, j: int|
                0 <= i < j < prev.pairs().len() ==> (#[trigger] prev.pairs()[i]).0 != (
                #[trigger] prev.pairs()[j]).0,
            forall|j: int|
                0 <= j < prev.pairs().len() ==> (#[trigger] self.pairs()[j]).0
                    == prev.pairs()[j].0,
        ensures
            forall|t: u64| self.registered(t) <==> prev.registered(t),
            forall|t: u64|
                prev.registered(t) ==> #[trigger] self.index_of(t) == prev.index_of(t)
                    && self.arr(t) == self.pairs()[prev.index_of(t)].1,
            self.tags() == prev.tags(),
    {
        assert forall|t: u64| self.registered(t) implies prev.registered(t) by {
            let i = choose|i: int|
                0 <= i < self.pairs().len() && (#[trigger] self.pairs()[i]).0 == t;
            assert(prev.pairs()[i].0 == t);
        }
        assert forall|t: u64| prev.registered(t) implies self.registered(t) by {
            let i = choose|i: int|
                0 <= i < prev.pairs().len() && (#[trigger] prev.pairs()[i]).0 == t;
            assert(self.pairs()[i].0 == t);
        }
        assert forall|t: u64| prev.registered(t) implies #[trigger] self.index_of(t)
            == prev.index_of(t) && self.arr(t) == self.pairs()[prev.index_of(t)].1 by {
            let i = prev.index_of(t);
            assert(0 <= i < prev.pairs().len() && prev.pairs()[i].0 == t);
            assert(self.pairs()[i].0 == t);
            let j = self.index_of(t);
            assert(0 <= j < self.pairs().len() && self.pairs()[j].0 == t);
            assert(prev.pairs()[j].0 == t);
            if i < j {
                assert(prev.pairs()[i].0 != prev.pairs()[j].0);
            } else if j < i {
                assert(prev.pairs()[j].0 != prev.pairs()[i].0);
            }
        }
        assert(self.tags() =~= prev.tags());
    }

    /// Creates an empty component array for a fresh tag, back-filled with one
    /// empty slot per already-allocated entity. Registering a tag twice is a
    /// logic error in the caller and is ruled out by the precondition.
    pub fn register_component(&mut self, tag: u64)
        requires
            old(self).wf(),
            !old(self).registered(tag),
            old(self).pairs().len() < usize::MAX,
        ensures
            final(self).wf(),
            final(self).entity_count() == old(self).entity_count(),
            final(self).registered(tag),
            final(self).tags() == old(self).tags().push(tag),
            forall|t: u64| final(self).registered(t) <==> (old(self).registered(t) || t == tag),
            forall|t: u64|
                old(self).registered(t) ==> final(self).arr(t) == old(self).arr(t),
            final(self).flag_of(tag) == 0,
            final(self).slots_of(tag).len() == final(self).entity_count(),
            forall|k: int|
                0 <= k < final(self).entity_count() ==> final(self).slots_of(tag)[k] is None,
            old(self).guards_unused() ==> final(self).guards_unused(),
    {
        let ghost prev = *self;
        let mut component_array = CACell::<V>::new();
        let n = self.entities_count;
        let mut k: usize = 0;
        while k < n
            invariant
                0 <= k <= n,
                component_array.flag() == 0,
                component_array.slots().len() == k,
                forall|j: int| 0 <= j < k ==> component_array.slots()[j] is None,
            decreases n - k,
        {
            component_array.push_none();
            k = k + 1;
        }
        self.component_arrays.push((tag, component_array));
        proof {
            let m = prev.pairs().len() as int;
            assert(self.pairs() == prev.pairs().push((tag, component_array)));
            assert forall|i: int, j: int|
                0 <= i < j < self.pairs().len() implies (#[trigger] self.pairs()[i]).0 != (
                #[trigger] self.pairs()[j]).0 by {
                if j < m {
                    assert(prev.pairs()[i].0 != prev.pairs()[j].0);
                } else {
                    assert(self.pairs()[j].0 == tag);
                    assert(self.pairs()[i] == prev.pairs()[i]);
                    assert(prev.pairs()[i].0 != tag) by {
                        if prev.pairs()[i].0 == tag {
                            assert(prev.registered(tag));
                        }
                    }
                }
            }
            self.lemma_index_of_unique(tag, m);
            assert forall|t: u64| prev.registered(t) implies self.registered(t) && (
            #[trigger] self.arr(t)) == prev.arr(t) by {
                let i = prev.index_of(t);
                assert(0 <= i < m && prev.pairs()[i].0 == t);
                assert(self.pairs()[i].0 == t);
                self.lemma_index_of_unique(t, i);
                prev.lemma_index_of_unique(t, i);
            }
            assert forall|t: u64| (#[trigger] self.registered(t)) <==> (prev.registered(t) || t
                == tag) by {
                if self.registered(t) {
                    let i = choose|i: int|
                        0 <= i < self.pairs().len() && (#[trigger] self.pairs()[i]).0 == t;
                    if i < m {
                        assert(prev.pairs()[i].0 == t);
                        assert(prev.registered(t));
                    }
                }
                if prev.registered(t) {
                    let i = choose|i: int|
                        0 <= i < prev.pairs().len() && (#[trigger] prev.pairs()[i]).0 == t;
                    assert(self.pairs()[i].0 == t);
                }
                if t == tag {
                    assert(self.pairs()[m].0 == tag);
                }
            }
            assert(self.tags() =~= prev.tags().push(tag));
        }
    }

    /// Writes `Some(component)` into the tagged array at the entity's slot,
    /// overwriting any prior value. The stored guard is respected: the
    /// operation is ruled out while any accessor is live on that array.
    pub fn set_component(&mut self, tag: u64, component: V, entity: Entity)
        requires
            old(self).wf(),
            old(self).registered(tag),
            0 <= entity.id() < old(self).entity_count(),
            old(self).flag_of(tag) == 0,
        ensures
            final(self).wf(),
            final(self).entity_count() == old(self).entity_count(),
            final(self).tags() == old(self).tags(),
            forall|t: u64| final(self).registered(t) <==> old(self).registered(t),
            final(self).slots_of(tag) == old(self).slots_of(tag).update(
                entity.id(),
                Some(component),
            ),
            final(self).slots_of(tag)[entity.id()] == Some(component),
            final(self).flag_of(tag) == 0,
            forall|t: u64|
                old(self).registered(t) && t != tag ==> final(self).arr(t) == old(self).arr(t),
            forall|t: u64|
                old(self).registered(t) && t != tag ==> (#[trigger] final(self).slots_of(t)) == old(
                    self,
                ).slots_of(t),
            forall|t: u64|
                old(self).registered(t) ==> (#[trigger] final(self).flag_of(t)) == old(
                    self,
                ).flag_of(t),
    {
        proof {
            old(self).lemma_registered_len(tag);
        }
        let i = match self.find(tag) {
            Some(i) => i,
            None => unreached(),
        };
        let ghost prev = *self;
        let pair = &mut self.component_arrays[i];
        pair.1.set_component(component, entity);
        proof {
            self.lemma_tag_ops_frame(prev);
            assert(self.slots_of(tag) == prev.slots_of(tag).update(entity.id(), Some(component)));
            assert forall|t: u64| prev.registered(t) && t != tag implies self.arr(t)
                == prev.arr(t) by {
                let j = prev.index_of(t);
                assert(self.pairs()[j] == prev.pairs()[j]);
            }
            assert forall|t: u64| prev.registered(t) && t != tag implies (
            #[trigger] self.slots_of(t)) == prev.slots_of(t) by {
                assert(self.arr(t) == prev.arr(t));
            }
            assert forall|t: u64| prev.registered(t) implies (#[trigger] self.flag_of(t))
                == prev.flag_of(t) by {
                if t != tag {
                    assert(self.arr(t) == prev.arr(t));
                }
            }
        }
    }

    /// Writes `None` into the tagged array at the entity's slot. Same access
    /// discipline as `set_component`.
    pub fn remove_component(&mut self, tag: u64, entity: Entity)
        requires
            old(self).wf(),
            old(self).registered(tag),
            0 <= entity.id() < old(self).entity_count(),
            old(self).flag_of(tag) == 0,
        ensures
            final(self).wf(),
            final(self).entity_count() == old(self).entity_count(),
            final(self).tags() == old(self).tags(),
            forall|t: u64| final(self).registered(t) <==> old(self).registered(t),
            final(self).slots_of(tag) == old(self).slots_of(tag).update(entity.id(), None::<V>),
            final(self).slots_of(tag)[entity.id()] is None,
            final(self).flag_of(tag) == 0,
            forall|t: u64|
                old(self).registered(t) && t != tag ==> final(self).arr(t) == old(self).arr(t),
            forall|t: u64|
                old(self).registered(t) && t != tag ==> (#[trigger] final(self).slots_of(t)) == old(
                    self,
                ).slots_of(t),
            forall|t: u64|
                old(self).registered(t) ==> (#[trigger] final(self).flag_of(t)) == old(
                    self,
                ).flag_of(t),
    {
        proof {
            old(self).lemma_registered_len(tag);
        }
        let i = match self.find(tag) {
            Some(i) => i,
            None => unreached(),
        };
        let ghost prev = *self;
        let pair = &mut self.component_arrays[i];
        pair.1.remove_component(entity);
        proof {
            self.lemma_tag_ops_frame(prev);
            assert(self.slots_of(tag) == prev.slots_of(tag).update(entity.id(), None::<V>));
            assert forall|t: u64| prev.registered(t) && t != tag implies self.arr(t)
                == prev.arr(t) by {
                let j = prev.index_of(t);
                assert(self.pairs()[j] == prev.pairs()[j]);
            }
            assert forall|t: u64| prev.registered(t) && t != tag implies (
            #[trigger] self.slots_of(t)) == prev.slots_of(t) by {
                assert(self.arr(t) == prev.arr(t));
            }
            assert forall|t: u64| prev.registered(t) implies (#[trigger] self.flag_of(t))
                == prev.flag_of(t) by {
                if t != tag {
                    assert(self.arr(t) == prev.arr(t));
                }
            }
        }
    }

    /// Reads the component stored for an entity under a tag; `Some` exactly
    /// when the tag is registered, the entity's slot exists, and the slot
    /// holds a component.
    pub fn get_component(&self, tag: u64, entity: Entity) -> (r: Option<&V>)
        requires
            self.wf(),
        ensures
            (r is Some) <==> (self.registered(tag) && 0 <= entity.id() < self.slots_of(
                tag,
            ).len() && self.slots_of(tag)[entity.id()] is Some),
            r matches Some(v) ==> self.slots_of(tag)[entity.id()] == Some(*v),
    {
        match self.find(tag) {
            Some(i) => self.component_arrays[i].1.get(entity),
            None => None,
        }
    }

    /// Type-tag lookup of a component array; absent if the tag was never
    /// registered. This is the sole means by which the fetch layer reaches
    /// storage for reading.
    pub fn get_component_array(&self, tag: u64) -> (r: Option<&CACell<V>>)
        requires
            self.wf(),
        ensures
            (r is Some) <==> self.registered(tag),
            r matches Some(c) ==> *c == self.arr(tag),
    {
        match self.find(tag) {
            Some(i) => Some(&self.component_arrays[i].1),
            None => None,
        }
    }

    /// Acquires a shared (read) accessor on the tagged array.
    pub(crate) fn acquire_read(&mut self, tag: u64)
        requires
            old(self).wf(),
            old(self).registered(tag),
            crate::component_array::read_grant_ok(old(self).flag_of(tag)),
        ensures
            final(self).wf(),
            final(self).entity_count() == old(self).entity_count(),
            final(self).tags() == old(self).tags(),
            forall|t: u64| final(self).registered(t) <==> old(self).registered(t),
            final(self).slots_of(tag) == old(self).slots_of(tag),
            final(self).flag_of(tag) == old(self).flag_of(tag) + 1,
            forall|t: u64|
                old(self).registered(t) && t != tag ==> final(self).arr(t) == old(self).arr(t),
            forall|t: u64|
                old(self).registered(t) ==> (#[trigger] final(self).slots_of(t)) == old(
                    self,
                ).slots_of(t),
            forall|t: u64|
                old(self).registered(t) && t != tag ==> (#[trigger] final(self).flag_of(t)) == old(
                    self,
                ).flag_of(t),
    {
        proof {
            old(self).lemma_registered_len(tag);
        }
        let i = match self.find(tag) {
            Some(i) => i,
            None => unreached(),
        };
        let ghost prev = *self;
        let pair = &mut self.component_arrays[i];
        pair.1.borrow();
        proof {
            self.lemma_tag_ops_frame(prev);
            assert forall|t: u64| prev.registered(t) && t != tag implies self.arr(t)
                == prev.arr(t) by {
                let j = prev.index_of(t);
                assert(self.pairs()[j] == prev.pairs()[j]);
            }
            assert forall|t: u64| prev.registered(t) implies (#[trigger] self.slots_of(t))
                == prev.slots_of(t) by {
                if t != tag {
                    assert(self.arr(t) == prev.arr(t));
                }
            }
            assert forall|t: u64| prev.registered(t) && t != tag implies (
            #[trigger] self.flag_of(t)) == prev.flag_of(t) by {
                assert(self.arr(t) == prev.arr(t));
            }
        }
    }

    /// Acquires the exclusive (write) accessor on the tagged array.
    pub(crate) fn acquire_write(&mut self, tag: u64)
        requires
            old(self).wf(),
            old(self).registered(tag),
            old(self).flag_of(tag) == 0,
        ensures
            final(self).wf(),
            final(self).entity_count() == old(self).entity_count(),
            final(self).tags() == old(self).tags(),
            forall|t: u64| final(self).registered(t) <==> old(self).registered(t),
            final(self).slots_of(tag) == old(self).slots_of(tag),
            final(self).flag_of(tag) == -1,
            forall|t: u64|
                old(self).registered(t) && t != tag ==> final(self).arr(t) == old(self).arr(t),
            forall|t: u64|
                old(self).registered(t) ==> (#[trigger] final(self).slots_of(t)) == old(
                    self,
                ).slots_of(t),
            forall|t: u64|
                old(self).registered(t) && t != tag ==> (#[trigger] final(self).flag_of(t)) == old(
                    self,
                ).flag_of(t),
    {
        proof {
            old(self).lemma_registered_len(tag);
        }
        let i = match self.find(tag) {
            Some(i) => i,
            None => unreached(),
        };
        let ghost prev = *self;
        let pair = &mut self.component_arrays[i];
        pair.1.borrow_mut();
        proof {
            self.lemma_tag_ops_frame(prev);
            assert forall|t: u64| prev.registered(t) && t != tag implies self.arr(t)
                == prev.arr(t) by {
                let j = prev.index_of(t);
                assert(self.pairs()[j] == prev.pairs()[j]);
            }
            assert forall|t: u64| prev.registered(t) implies (#[trigger] self.slots_of(t))
                == prev.slots_of(t) by {
                if t != tag {
                    assert(self.arr(t) == prev.arr(t));
                }
            }
            assert forall|t: u64| prev.registered(t) && t != tag implies (
            #[trigger] self.flag_of(t)) == prev.flag_of(t) by {
                assert(self.arr(t) == prev.arr(t));
            }
        }
    }

    /// Releases one shared accessor on the tagged array.
    pub(crate) fn release_read(&mut self, tag: u64)
        requires
            old(self).wf(),
            old(self).registered(tag),
            old(self).flag_of(tag) > 0,
        ensures
            final(self).wf(),
            final(self).entity_count() == old(self).entity_count(),
            final(self).tags() == old(self).tags(),
            forall|t: u64| final(self).registered(t) <==> old(self).registered(t),
            final(self).slots_of(tag) == old(self).slots_of(tag),
            final(self).flag_of(tag) == old(self).flag_of(tag) - 1,
            forall|t: u64|
                old(self).registered(t) && t != tag ==> final(self).arr(t) == old(self).arr(t),
            forall|t: u64|
                old(self).registered(t) ==> (#[trigger] final(self).slots_of(t)) == old(
                    self,
                ).slots_of(t),
            forall|t: u64|
                old(self).registered(t) && t != tag ==> (#[trigger] final(self).flag_of(t)) == old(
                    self,
                ).flag_of(t),
    {
        proof {
            old(self).lemma_registered_len(tag);
        }
        let i = match self.find(tag) {
            Some(i) => i,
            None => unreached(),
        };
        let ghost prev = *self;
        let pair = &mut self.component_arrays[i];
        pair.1.release_read();
        proof {
            self.lemma_tag_ops_frame(prev);
            assert forall|t: u64| prev.registered(t) && t != tag implies self.arr(t)
                == prev.arr(t) by {
                let j = prev.index_of(t);
                assert(self.pairs()[j] == prev.pairs()[j]);
            }
            assert forall|t: u64| prev.registered(t) implies (#[trigger] self.slots_of(t))
                == prev.slots_of(t) by {
                if t != tag {
                    assert(self.arr(t) == prev.arr(t));
                }
            }
            assert forall|t: u64| prev.registered(t) && t != tag implies (
            #[trigger] self.flag_of(t)) == prev.flag_of(t) by {
                assert(self.arr(t) == prev.arr(t));
            }
        }
    }

    /// Releases the exclusive accessor on the tagged array.
    pub(crate) fn release_write(&mut self, tag: u64)
        requires
            old(self).wf(),
            old(self).registered(tag),
            old(self).flag_of(tag) == -1,
        ensures
            final(self).wf(),
            final(self).entity_count() == old(self).entity_count(),
            final(self).tags() == old(self).tags(),
            forall|t: u64| final(self).registered(t) <==> old(self).registered(t),
            final(self).slots_of(tag) == old(self).slots_of(tag),
            final(self).flag_of(tag) == 0,
            forall|t: u64|
                old(self).registered(t) && t != tag ==> final(self).arr(t) == old(self).arr(t),
            forall|t: u64|
                old(self).registered(t) ==> (#[trigger] final(self).slots_of(t)) == old(
                    self,
                ).slots_of(t),
            forall|t: u64|
                old(self).registered(t) && t != tag ==> (#[trigger] final(self).flag_of(t)) == old(
                    self,
                ).flag_of(t),
    {
        proof {
            old(self).lemma_registered_len(tag);
        }
        let i = match self.find(tag) {
            Some(i) => i,
            None => unreached(),
        };
        let ghost prev = *self;
        let pair = &mut self.component_arrays[i];
        pair.1.release_write();
        proof {
            self.lemma_tag_ops_frame(prev);
            assert forall|t: u64| prev.registered(t) && t != tag implies self.arr(t)
                == prev.arr(t) by {
                let j = prev.index_of(t);
                assert(self.pairs()[j] == prev.pairs()[j]);
            }
            assert forall|t: u64| prev.registered(t) implies (#[trigger] self.slots_of(t))
                == prev.slots_of(t) by {
                if t != tag {
                    assert(self.arr(t) == prev.arr(t));
                }
            }
            assert forall|t: u64| prev.registered(t) && t != tag implies (
            #[trigger] self.flag_of(t)) == prev.flag_of(t) by {
                assert(self.arr(t) == prev.arr(t));
            }
        }
    }

    /// Overwrites an entity's slot through a held write accessor: the one
    /// path that writes storage while the guard is not unused, justified by
    /// the holder's exclusivity.
    pub(crate) fn write_slot(&mut self, tag: u64, component: V, entity: Entity)
        requires
            old(self).wf(),
            old(self).registered(tag),
            0 <= entity.id() < old(self).entity_count(),
            old(self).flag_of(tag) <= 0,
        ensures
            final(self).wf(),
            final(self).entity_count() == old(self).entity_count(),
            final(self).tags() == old(self).tags(),
            forall|t: u64| final(self).registered(t) <==> old(self).registered(t),
            final(self).slots_of(tag) == old(self).slots_of(tag).update(
                entity.id(),
                Some(component),
            ),
            final(self).flag_of(tag) == old(self).flag_of(tag),
            forall|t: u64|
                old(self).registered(t) && t != tag ==> final(self).arr(t) == old(self).arr(t),
            forall|t: u64|
                old(self).registered(t) ==> (#[trigger] final(self).flag_of(t)) == old(
                    self,
                ).flag_of(t),
            forall|t: u64|
                old(self).registered(t) && t != tag ==> (#[trigger] final(self).slots_of(t)) == old(
                    self,
                ).slots_of(t),
    {
        proof {
            old(self).lemma_registered_len(tag);
        }
        let i = match self.find(tag) {
            Some(i) => i,
            None => unreached(),
        };
        let ghost prev = *self;
        let pair = &mut self.component_arrays[i];
        pair.1.set_component(component, entity);
        proof {
            self.lemma_tag_ops_frame(prev);
            assert(self.slots_of(tag) == prev.slots_of(tag).update(entity.id(), Some(component)));
            assert forall|t: u64| prev.registered(t) && t != tag implies self.arr(t)
                == prev.arr(t) by {
                let j = prev.index_of(t);
                assert(self.pairs()[j] == prev.pairs()[j]);
            }
            assert forall|t: u64| prev.registered(t) && t != tag implies (
            #[trigger] self.slots_of(t)) == prev.slots_of(t) by {
                assert(self.arr(t) == prev.arr(t));
            }
            assert forall|t: u64| prev.registered(t) implies (#[trigger] self.flag_of(t))
                == prev.flag_of(t) by {
                if t != tag {
                    assert(self.arr(t) == prev.arr(t));
                }
            }
        }
    }

    /// Builds a query from a fetch specification: acquires the necessary
    /// accessors, left to right, up front. The query stays valid until it is
    /// released and reaches storage through this world.
    pub fn query(&mut self, items: Vec<FetchItem>) -> (q: Query)
        requires
            old(self).wf(),
            items@.len() >= 1,
            can_acquire(old(self), items@),
        ensures
            final(self).wf(),
            q.wf(),
            q.items() == items@,
            q.valid_for(final(self)),
            q.holds_on(final(self)),
            final(self).entity_count() == old(self).entity_count(),
            final(self).tags() == old(self).tags(),
            forall|t: u64| final(self).registered(t) <==> old(self).registered(t),
            forall|t: u64|
                old(self).registered(t) ==> final(self).slots_of(t) == old(self).slots_of(t)
                    && final(self).flag_of(t) == acquired_flag(old(self).flag_of(t), items@, t),
    {
        Query::new(self, items)
    }

    /// Mutable type-tag lookup of a component array, for a caller that owns
    /// the world; absent if the tag was never registered. The returned array
    /// replaces the stored one when the borrow ends; everything else is
    /// untouched.
    pub fn get_component_array_mut(&mut self, tag: u64) -> (r: Option<&mut CACell<V>>)
        requires
            old(self).wf(),
        ensures
            (r is Some) <==> old(self).registered(tag),
            r matches Some(c) ==> *c == old(self).arr(tag)
                && final(self).pairs() == old(self).pairs().update(
                old(self).index_of(tag),
                (tag, *final(c)),
            ) && final(self).entity_count() == old(self).entity_count(),
            r is None ==> *final(self) == *old(self),
    {
        match self.find(tag) {
            Some(i) => {
                let pair = &mut self.component_arrays[i];
                Some(&mut pair.1)
            },
            None => None,
        }
    }
}

} // verus!
