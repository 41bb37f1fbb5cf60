use vstd::prelude::*;

use crate::component_array::read_grant_ok;
use crate::entity::Entity;
use crate::world::World;

verus! {

/// The kind of access an atomic fetch specification asks for.
#[derive(PartialEq, Eq, Structural, Copy, Clone, Debug)]
pub enum Access {
    Read,
    Write,
}

/// An atomic fetch specification: one component tag together with the kind
/// of access requested on its array.
#[derive(PartialEq, Eq, Structural, Copy, Clone, Debug)]
pub struct FetchItem {
    pub tag: u64,
    pub access: Access,
}

/// The three-way outcome of a per-entity fetch. `Found` carries the
/// components; `Missing` means the entity exists but lacks at least one of
/// the requested components, so a scan should keep going; `End` means the
/// identifier lies past the slots of at least one requested array, so a scan
/// has exhausted all known entities. Collapsing `Missing` and `End` would
/// make those two situations indistinguishable.
#[derive(Debug)]
pub enum FetchResult<T> {
    Found(T),
    Missing,
    End,
}

/// How many atomic specifications in `items` request read access on `tag`.
pub open spec fn reads_of(items: Seq<FetchItem>, tag: u64) -> int
    decreases items.len(),
{
    if items.len() == 0 {
        0
    } else {
        reads_of(items.drop_last(), tag) + if items.last().tag == tag && items.last().access
            is Read {
            1int
        } else {
            0int
        }
    }
}

/// How many atomic specifications in `items` request write access on `tag`.
pub open spec fn writes_of(items: Seq<FetchItem>, tag: u64) -> int
    decreases items.len(),
{
    if items.len() == 0 {
        0
    } else {
        writes_of(items.drop_last(), tag) + if items.last().tag == tag && items.last().access
            is Write {
            1int
        } else {
            0int
        }
    }
}

proof fn lemma_counts_nonneg(items: Seq<FetchItem>, tag: u64)
    ensures
        reads_of(items, tag) >= 0,
        writes_of(items, tag) >= 0,
    decreases items.len(),
{
    if items.len() > 0 {
        lemma_counts_nonneg(items.drop_last(), tag);
    }
}

/// Appending one specification moves the counts by exactly that
/// specification's contribution — the step a caller needs to work the counts
/// out for a concrete specification list, one element at a time.
pub proof fn lemma_counts_push(items: Seq<FetchItem>, x: FetchItem, tag: u64)
    ensures
        reads_of(items.push(x), tag) == reads_of(items, tag) + if x.tag == tag && x.access
            is Read {
            1int
        } else {
            0int
        },
        writes_of(items.push(x), tag) == writes_of(items, tag) + if x.tag == tag && x.access
            is Write {
            1int
        } else {
            0int
        },
{
    assert(items.push(x).drop_last() =~= items);
    assert(items.push(x).last() == x);
}

/// Extending a prefix by one specification moves the counts by that
/// specification's contribution.
proof fn lemma_counts_take_step(items: Seq<FetchItem>, tag: u64, k: int)
    requires
        0 <= k < items.len(),
    ensures
        reads_of(items.take(k + 1), tag) == reads_of(items.take(k), tag) + if items[k].tag == tag
            && items[k].access is Read {
            1int
        } else {
            0int
        },
        writes_of(items.take(k + 1), tag) == writes_of(items.take(k), tag) + if items[k].tag == tag
            && items[k].access is Write {
            1int
        } else {
            0int
        },
{
    assert(items.take(k + 1) =~= items.take(k).push(items[k]));
    lemma_counts_push(items.take(k), items[k], tag);
}

/// A prefix never counts more than the whole sequence.
proof fn lemma_counts_take_le(items: Seq<FetchItem>, tag: u64, k: int)
    requires
        0 <= k <= items.len(),
    ensures
        0 <= reads_of(items.take(k), tag) <= reads_of(items, tag),
        0 <= writes_of(items.take(k), tag) <= writes_of(items, tag),
    decreases items.len() - k,
{
    lemma_counts_nonneg(items.take(k), tag);
    if k == items.len() {
        assert(items.take(k) =~= items);
    } else {
        lemma_counts_take_step(items, tag, k);
        lemma_counts_take_le(items, tag, k + 1);
    }
}

/// Whether acquiring every accessor named by `items`, left to right, is
/// permitted by the guards of `world`: every tag must be registered; a tag
/// asked for writing may be asked exactly once, for nothing else, and its
/// guard must be unused; a tag asked only for reading must have no live
/// writer and room in its counter for every requested reader.
pub open spec fn can_acquire<V>(world: &World<V>, items: Seq<FetchItem>) -> bool {
    &&& forall|k: int| 0 <= k < items.len() ==> world.registered((#[trigger] items[k]).tag)
    &&& forall|t: u64|
        #![trigger writes_of(items, t)]
        writes_of(items, t) > 0 ==> writes_of(items, t) == 1 && reads_of(items, t) == 0
            && world.flag_of(t) == 0
    &&& forall|t: u64|
        #![trigger reads_of(items, t)]
        reads_of(items, t) > 0 && writes_of(items, t) == 0 ==> 0 <= world.flag_of(t)
            && world.flag_of(t) + reads_of(items, t) <= isize::MAX
}

/// The guard counter of `tag` after the accessors named by `items` have been
/// acquired on a world whose counter held `flag`.
pub open spec fn acquired_flag(flag: int, items: Seq<FetchItem>, tag: u64) -> int {
    if writes_of(items, tag) > 0 {
        -1
    } else {
        flag + reads_of(items, tag)
    }
}

/// The guard counter of `tag` after the accessors named by `items` have been
/// released from a world whose counter held `flag`.
pub open spec fn released_flag(flag: int, items: Seq<FetchItem>, tag: u64) -> int {
    if writes_of(items, tag) > 0 {
        0
    } else {
        flag - reads_of(items, tag)
    }
}

/// Acquisition and release are exact inverses: however often a query's
/// accessors are acquired and then released, every guard returns to
/// precisely the counter value it held before — there is no drift.
pub proof fn lemma_acquire_release_round_trip<V>(world: &World<V>, items: Seq<FetchItem>, tag: u64)
    requires
        can_acquire(world, items),
    ensures
        released_flag(acquired_flag(world.flag_of(tag), items, tag), items, tag) == world.flag_of(
            tag,
        ),
{
    lemma_counts_nonneg(items, tag);
}

/// A live fetch state: the ordered atomic specifications whose accessors
/// were acquired when the query was built and stay held until `release`.
///
/// A query is built against a world and remains meaningful for it; its
/// accessors are released exactly once, by consuming the query.
pub struct Query {
    items: Vec<FetchItem>,
}

impl Query {
    /// The atomic fetch specifications, in acquisition order.
    pub closed spec fn items(&self) -> Seq<FetchItem> {
        self.items@
    }

    /// A specification describes at least one component.
    pub open spec fn wf(&self) -> bool {
        self.items().len() >= 1
    }

    /// Every tag the query speaks of is registered in `world`.
    pub open spec fn valid_for<V>(&self, world: &World<V>) -> bool {
        forall|k: int|
            0 <= k < self.items().len() ==> world.registered((#[trigger] self.items()[k]).tag)
    }

    /// The accessors the query acquired are still held on `world`: each
    /// write tag still shows the write sentinel, and each read tag still
    /// counts at least this query's readers.
    pub open spec fn holds_on<V>(&self, world: &World<V>) -> bool {
        &&& forall|t: u64|
            #![trigger writes_of(self.items(), t)]
            writes_of(self.items(), t) > 0 ==> writes_of(self.items(), t) == 1 && reads_of(
                self.items(),
                t,
            ) == 0 && world.flag_of(t) == -1
        &&& forall|t: u64|
            #![trigger reads_of(self.items(), t)]
            reads_of(self.items(), t) > 0 && writes_of(self.items(), t) == 0 ==> world.flag_of(t)
                >= reads_of(self.items(), t)
    }

    /// Builds the live fetch state for `items` against `world`, acquiring
    /// the accessors left to right. A specification that the guards do not
    /// permit is a logic error in the caller and is ruled out by the
    /// precondition; `try_new` is the probing counterpart.
    pub fn new<V>(world: &mut World<V>, items: Vec<FetchItem>) -> (q: Query)
        requires
            old(world).wf(),
            items@.len() >= 1,
            can_acquire(old(world), items@),
        ensures
            final(world).wf(),
            q.wf(),
            q.items() == items@,
            q.valid_for(final(world)),
            q.holds_on(final(world)),
            final(world).entity_count() == old(world).entity_count(),
            final(world).tags() == old(world).tags(),
            forall|t: u64| final(world).registered(t) <==> old(world).registered(t),
            forall|t: u64|
                old(world).registered(t) ==> final(world).slots_of(t) == old(world).slots_of(t)
                    && final(world).flag_of(t) == acquired_flag(
                    old(world).flag_of(t),
                    items@,
                    t,
                ),
    {
        let ghost prev = *world;
        let n = items.len();
        let mut k: usize = 0;
        while k < n
            invariant
                0 <= k <= n,
                n == items@.len(),
                world.wf(),
                can_acquire(&prev, items@),
                world.entity_count() == prev.entity_count(),
                world.tags() == prev.tags(),
                forall|t: u64| world.registered(t) <==> prev.registered(t),
                forall|t: u64|
                    prev.registered(t) ==> (#[trigger] world.slots_of(t)) == prev.slots_of(t),
                forall|t: u64|
                    prev.registered(t) ==> (#[trigger] world.flag_of(t)) == acquired_flag(
                        prev.flag_of(t),
                        items@.take(k as int),
                        t,
                    ),
            decreases n - k,
        {
            let item = items[k];
            let ghost t0 = item.tag;
            proof {
                assert(prev.registered(t0));
                lemma_counts_take_step(items@, t0, k as int);
                lemma_counts_take_le(items@, t0, k as int);
                lemma_counts_take_le(items@, t0, k as int + 1);
                if item.access is Read {
                    assert(reads_of(items@, t0) > 0);
                    assert(writes_of(items@, t0) == 0) by {
                        if writes_of(items@, t0) > 0 {
                            assert(reads_of(items@, t0) == 0);
                        }
                    }
                    assert(writes_of(items@.take(k as int), t0) == 0);
                    assert(world.flag_of(t0) == prev.flag_of(t0) + reads_of(
                        items@.take(k as int),
                        t0,
                    ));
                    assert(reads_of(items@.take(k as int), t0) < reads_of(items@, t0));
                    assert(read_grant_ok(world.flag_of(t0)));
                } else {
                    assert(writes_of(items@, t0) > 0);
                    assert(writes_of(items@, t0) == 1 && reads_of(items@, t0) == 0);
                    assert(writes_of(items@.take(k as int), t0) == 0);
                    assert(reads_of(items@.take(k as int), t0) == 0);
                    assert(world.flag_of(t0) == prev.flag_of(t0));
                    assert(world.flag_of(t0) == 0);
                }
            }
            let ghost mid = *world;
            match item.access {
                Access::Read => world.acquire_read(item.tag),
                Access::Write => world.acquire_write(item.tag),
            }
            proof {
                assert forall|t: u64| prev.registered(t) implies (#[trigger] world.slots_of(t))
                    == prev.slots_of(t) by {
                    assert(world.slots_of(t) == mid.slots_of(t));
                    assert(mid.slots_of(t) == prev.slots_of(t));
                }
                assert forall|t: u64| prev.registered(t) implies (#[trigger] world.flag_of(t))
                    == acquired_flag(prev.flag_of(t), items@.take(k as int + 1), t) by {
                    lemma_counts_take_step(items@, t, k as int);
                    assert(mid.flag_of(t) == acquired_flag(
                        prev.flag_of(t),
                        items@.take(k as int),
                        t,
                    ));
                    if t != t0 {
                        assert(world.flag_of(t) == mid.flag_of(t));
                    }
                }
            }
            k = k + 1;
        }
        proof {
            assert(items@.take(n as int) =~= items@);
            lemma_holds_after_acquire(prev, *world, items@);
        }
        Query { items }
    }

    /// Whether the identifier lies past the slots of at least one requested
    /// array — the scan-exhausted condition.
    pub open spec fn spec_ends<V>(&self, world: &World<V>, e: int) -> bool {
        exists|k: int|
            0 <= k < self.items().len() && e >= world.slots_of(
                (#[trigger] self.items()[k]).tag,
            ).len()
    }

    /// Whether the entity owns every requested component.
    pub open spec fn spec_matches<V>(&self, world: &World<V>, e: int) -> bool {
        forall|k: int|
            0 <= k < self.items().len() ==> e < world.slots_of(
                (#[trigger] self.items()[k]).tag,
            ).len() && world.slots_of(self.items()[k].tag)[e] is Some
    }

    /// The entity's requested components, in specification order.
    pub open spec fn comps_at<V>(&self, world: &World<V>, e: int) -> Seq<V> {
        Seq::new(self.items().len(), |k: int| world.slots_of(self.items()[k].tag)[e]->0)
    }

    /// Per-entity fetch: `End` exactly when the identifier lies past the
    /// slots of any requested array, wherever that array ends; `Found`, with
    /// the components in specification order, exactly when the entity owns
    /// every requested component; `Missing` otherwise, meaning this entity
    /// lacks something but the scan may go on.
    pub fn fetch_entity<V: Copy>(&self, world: &World<V>, entity: Entity) -> (r: FetchResult<
        Vec<V>,
    >)
        requires
            world.wf(),
            self.valid_for(world),
        ensures
            (r is End) <==> self.spec_ends(world, entity.id()),
            (r is Found) <==> self.spec_matches(world, entity.id()),
            r matches FetchResult::Found(vals) ==> vals@ == self.comps_at(world, entity.id()),
    {
        let n = self.items.len();
        let mut vals: Vec<V> = Vec::new();
        let mut missing = false;
        let mut k: usize = 0;
        while k < n
            invariant
                0 <= k <= n,
                n == self.items().len(),
                world.wf(),
                self.valid_for(world),
                forall|j: int|
                    0 <= j < k ==> entity.id() < world.slots_of(
                        (#[trigger] self.items()[j]).tag,
                    ).len(),
                !missing ==> vals@.len() == k,
                !missing ==> forall|j: int|
                    0 <= j < k ==> world.slots_of((#[trigger] self.items()[j]).tag)[entity.id()]
                        is Some && vals@[j] == world.slots_of(self.items()[j].tag)[entity.id()]->0,
                missing ==> exists|j: int|
                    0 <= j < k && world.slots_of((#[trigger] self.items()[j]).tag)[entity.id()]
                        is None,
            decreases n - k,
        {
            let item = self.items[k];
            let cell = match world.get_component_array(item.tag) {
                Some(cell) => cell,
                None => unreached(),
            };
            if entity.to_num() >= cell.len() {
                return FetchResult::End;
            }
            match cell.get(entity) {
                None => {
                    missing = true;
                },
                Some(v) => {
                    if !missing {
                        vals.push(*v);
                    }
                },
            }
            k = k + 1;
        }
        if missing {
            FetchResult::Missing
        } else {
            proof {
                assert(vals@ =~= self.comps_at(world, entity.id()));
            }
            FetchResult::Found(vals)
        }
    }

    /// Per-entity fetch through a mutable query position; the outcome is the
    /// same three-way result as `fetch_entity`.
    pub fn fetch_entity_mut<V: Copy>(&self, world: &World<V>, entity: Entity) -> (r: FetchResult<
        Vec<V>,
    >)
        requires
            world.wf(),
            self.valid_for(world),
        ensures
            (r is End) <==> self.spec_ends(world, entity.id()),
            (r is Found) <==> self.spec_matches(world, entity.id()),
            r matches FetchResult::Found(vals) ==> vals@ == self.comps_at(world, entity.id()),
    {
        self.fetch_entity(world, entity)
    }

    /// Overwrites, through this query's held write accessor, the component
    /// at specification position `k` of an entity that already owns it. This
    /// is the one write path that runs while a guard is not unused; it is
    /// justified by the exclusivity the write sentinel records.
    pub fn store<V>(&self, world: &mut World<V>, k: usize, component: V, entity: Entity)
        requires
            old(world).wf(),
            self.valid_for(old(world)),
            k < self.items().len(),
            self.items()[k as int].access is Write,
            old(world).flag_of(self.items()[k as int].tag) == -1,
            0 <= entity.id() < old(world).entity_count(),
            old(world).slots_of(self.items()[k as int].tag)[entity.id()] is Some,
        ensures
            final(world).wf(),
            final(world).entity_count() == old(world).entity_count(),
            final(world).tags() == old(world).tags(),
            forall|t: u64| final(world).registered(t) <==> old(world).registered(t),
            final(world).slots_of(self.items()[k as int].tag) == old(world).slots_of(
                self.items()[k as int].tag,
            ).update(entity.id(), Some(component)),
            forall|t: u64|
                old(world).registered(t) ==> final(world).flag_of(t) == old(world).flag_of(t),
            forall|t: u64|
                old(world).registered(t) && t != self.items()[k as int].tag
                    ==> final(world).slots_of(t) == old(world).slots_of(t),
    {
        let item = self.items[k];
        world.write_slot(item.tag, component, entity);
        proof {
            assert forall|t: u64|
                old(world).registered(t) implies #[trigger] world.flag_of(t)
                == old(world).flag_of(t) by {
                if t != item.tag {
                    assert(world.arr(t) == old(world).arr(t));
                }
            }
        }
    }

    /// Releases every accessor the query holds, exactly once, by consuming
    /// the query — the analogue of discarding a scoped accessor on every
    /// exit path. Each guard moves back by exactly this query's
    /// contribution.
    pub fn release<V>(self, world: &mut World<V>)
        requires
            old(world).wf(),
            self.valid_for(old(world)),
            self.holds_on(old(world)),
        ensures
            final(world).wf(),
            final(world).entity_count() == old(world).entity_count(),
            final(world).tags() == old(world).tags(),
            forall|t: u64| final(world).registered(t) <==> old(world).registered(t),
            forall|t: u64|
                old(world).registered(t) ==> final(world).slots_of(t) == old(world).slots_of(t)
                    && final(world).flag_of(t) == released_flag(
                    old(world).flag_of(t),
                    self.items(),
                    t,
                ),
    {
        let ghost prev = *world;
        let ghost items_g = self.items@;
        let n = self.items.len();
        let mut k: usize = 0;
        while k < n
            invariant
                0 <= k <= n,
                n == items_g.len(),
                items_g == self.items@,
                world.wf(),
                self.valid_for(&prev),
                self.holds_on(&prev),
                world.entity_count() == prev.entity_count(),
                world.tags() == prev.tags(),
                forall|t: u64| world.registered(t) <==> prev.registered(t),
                forall|t: u64|
                    prev.registered(t) ==> (#[trigger] world.slots_of(t)) == prev.slots_of(t),
                forall|t: u64|
                    prev.registered(t) ==> (#[trigger] world.flag_of(t)) == if writes_of(
                        items_g.take(k as int),
                        t,
                    ) > 0 {
                        0int
                    } else {
                        prev.flag_of(t) - reads_of(items_g.take(k as int), t)
                    },
            decreases n - k,
        {
            let item = self.items[k];
            let ghost t0 = item.tag;
            proof {
                assert(prev.registered(t0));
                lemma_counts_take_step(items_g, t0, k as int);
                lemma_counts_take_le(items_g, t0, k as int);
                lemma_counts_take_le(items_g, t0, k as int + 1);
                if item.access is Read {
                    assert(reads_of(items_g, t0) > 0);
                    assert(writes_of(items_g, t0) == 0) by {
                        if writes_of(items_g, t0) > 0 {
                            assert(reads_of(items_g, t0) == 0);
                        }
                    }
                    assert(writes_of(items_g.take(k as int), t0) == 0);
                    assert(world.flag_of(t0) == prev.flag_of(t0) - reads_of(
                        items_g.take(k as int),
                        t0,
                    ));
                    assert(reads_of(items_g.take(k as int), t0) < reads_of(items_g, t0));
                    assert(world.flag_of(t0) > 0);
                } else {
                    assert(writes_of(items_g, t0) > 0);
                    assert(writes_of(items_g, t0) == 1 && reads_of(items_g, t0) == 0);
                    assert(writes_of(items_g.take(k as int), t0) == 0);
                    assert(reads_of(items_g.take(k as int), t0) == 0);
                    assert(world.flag_of(t0) == prev.flag_of(t0));
                    assert(world.flag_of(t0) == -1);
                }
            }
            let ghost mid = *world;
            match item.access {
                Access::Read => world.release_read(item.tag),
                Access::Write => world.release_write(item.tag),
            }
            proof {
                assert forall|t: u64| prev.registered(t) implies (#[trigger] world.slots_of(t))
                    == prev.slots_of(t) by {
                    assert(world.slots_of(t) == mid.slots_of(t));
                    assert(mid.slots_of(t) == prev.slots_of(t));
                }
                assert forall|t: u64| prev.registered(t) implies (#[trigger] world.flag_of(t))
                    == if writes_of(items_g.take(k as int + 1), t) > 0 {
                    0int
                } else {
                    prev.flag_of(t) - reads_of(items_g.take(k as int + 1), t)
                } by {
                    lemma_counts_take_step(items_g, t, k as int);
                    assert(mid.flag_of(t) == if writes_of(items_g.take(k as int), t) > 0 {
                        0int
                    } else {
                        prev.flag_of(t) - reads_of(items_g.take(k as int), t)
                    });
                    if t != t0 {
                        assert(world.flag_of(t) == mid.flag_of(t));
                    }
                }
            }
            k = k + 1;
        }
        proof {
            assert(items_g.take(n as int) =~= items_g);
        }
    }

    /// The probing counterpart of `new`: builds the query exactly when the
    /// guards permit the whole specification, and otherwise reports failure
    /// with every guard and every slot as it was.
    pub fn try_new<V>(world: &mut World<V>, items: Vec<FetchItem>) -> (r: Option<Query>)
        requires
            old(world).wf(),
            items@.len() >= 1,
        ensures
            final(world).wf(),
            (r is Some) <==> can_acquire(old(world), items@),
            final(world).entity_count() == old(world).entity_count(),
            final(world).tags() == old(world).tags(),
            forall|t: u64| final(world).registered(t) <==> old(world).registered(t),
            r matches Some(q) ==> q.wf() && q.items() == items@ && q.valid_for(final(world))
                && q.holds_on(final(world)) && (forall|t: u64|
                old(world).registered(t) ==> final(world).slots_of(t) == old(world).slots_of(t)
                    && final(world).flag_of(t) == acquired_flag(old(world).flag_of(t), items@, t)),
            r is None ==> forall|t: u64|
                old(world).registered(t) ==> final(world).slots_of(t) == old(world).slots_of(t)
                    && final(world).flag_of(t) == old(world).flag_of(t),
    {
        let ghost prev = *world;
        let n = items.len();
        let mut k: usize = 0;
        let mut ok = true;
        while ok && k < n
            invariant
                0 <= k <= n,
                n == items@.len(),
                world.wf(),
                can_acquire(&prev, items@.take(k as int)),
                world.entity_count() == prev.entity_count(),
                world.tags() == prev.tags(),
                forall|t: u64| world.registered(t) <==> prev.registered(t),
                forall|t: u64|
                    prev.registered(t) ==> (#[trigger] world.slots_of(t)) == prev.slots_of(t),
                forall|t: u64|
                    prev.registered(t) ==> (#[trigger] world.flag_of(t)) == acquired_flag(
                        prev.flag_of(t),
                        items@.take(k as int),
                        t,
                    ),
                !ok ==> !can_acquire(&prev, items@),
            decreases n - k + if ok {
                1int
            } else {
                0int
            },
        {
            let item = items[k];
            let ghost t0 = item.tag;
            let granted = match world.get_component_array(item.tag) {
                None => false,
                Some(cell) => {
                    let flag = cell.borrow_flag();
                    match item.access {
                        Access::Read => flag >= 0 && flag < isize::MAX,
                        Access::Write => flag == 0,
                    }
                },
            };
            if !granted {
                proof {
                    assert(!can_acquire(&prev, items@)) by {
                        if can_acquire(&prev, items@) {
                            lemma_step_grantable(prev, *world, items@, k as int);
                        }
                    }
                }
                ok = false;
            } else {
                proof {
                    lemma_can_acquire_extend(prev, *world, items@, k as int);
                }
                let ghost mid = *world;
                match item.access {
                    Access::Read => world.acquire_read(item.tag),
                    Access::Write => world.acquire_write(item.tag),
                }
                proof {
                    assert forall|t: u64| prev.registered(t) implies (
                    #[trigger] world.slots_of(t)) == prev.slots_of(t) by {
                        assert(world.slots_of(t) == mid.slots_of(t));
                        assert(mid.slots_of(t) == prev.slots_of(t));
                    }
                    assert forall|t: u64| prev.registered(t) implies (#[trigger] world.flag_of(t))
                        == acquired_flag(prev.flag_of(t), items@.take(k as int + 1), t) by {
                        lemma_counts_take_step(items@, t, k as int);
                        assert(mid.flag_of(t) == acquired_flag(
                            prev.flag_of(t),
                            items@.take(k as int),
                            t,
                        ));
                        if t != t0 {
                            assert(world.flag_of(t) == mid.flag_of(t));
                        } else {
                            lemma_counts_nonneg(items@.take(k as int), t);
                            if item.access is Read {
                                assert(writes_of(items@.take(k as int + 1), t) == 0) by {
                                    lemma_counts_take_step(items@, t, k as int);
                                    lemma_counts_nonneg(items@.take(k as int), t);
                                    if writes_of(items@.take(k as int + 1), t) > 0 {
                                        assert(reads_of(items@.take(k as int + 1), t) == 0);
                                    }
                                }
                                assert(writes_of(items@.take(k as int), t) == 0);
                                assert(mid.flag_of(t) == prev.flag_of(t) + reads_of(
                                    items@.take(k as int),
                                    t,
                                ));
                            }
                        }
                    }
                }
                k = k + 1;
            }
        }
        if ok {
            proof {
                assert(items@.take(n as int) =~= items@);
                lemma_holds_after_acquire(prev, *world, items@);
            }
            Some(Query { items })
        } else {
            let rollback = Query { items: partial_clone(&items, k) };
            proof {
                assert(rollback.items@ =~= items@.take(k as int));
                assert forall|t: u64|
                    #![trigger writes_of(rollback.items(), t)]
                    #![trigger reads_of(rollback.items(), t)]
                    prev.registered(t) implies world.flag_of(t) == acquired_flag(
                    prev.flag_of(t),
                    rollback.items(),
                    t,
                ) by {}
                lemma_holds_after_acquire(prev, *world, rollback.items@);
                assert forall|j: int|
                    0 <= j < rollback.items().len() implies world.registered(
                    (#[trigger] rollback.items()[j]).tag,
                ) by {
                    assert(rollback.items()[j] == items@.take(k as int)[j]);
                }
            }
            rollback.release(world);
            proof {
                assert forall|t: u64| prev.registered(t) implies world.slots_of(t)
                    == prev.slots_of(t) && world.flag_of(t) == prev.flag_of(t) by {
                    lemma_counts_nonneg(items@.take(k as int), t);
                }
            }
            None
        }
    }
    /// Runs a self-excluding scan to completion: the result holds exactly
    /// the entities other than `skip` that own every requested component, in
    /// increasing identifier order, each with its components.
    pub fn collect_matches_skipping<V: Copy>(&self, world: &World<V>, skip: Entity) -> (r: Vec<
        QueryIterItem<V>,
    >)
        requires
            world.wf(),
            self.wf(),
            self.valid_for(world),
        ensures
            forall|i: int|
                0 <= i < r@.len() ==> 0 <= (#[trigger] r@[i]).ent.id() < world.entity_count()
                    && r@[i].ent.id() != skip.id() && self.spec_matches(world, r@[i].ent.id())
                    && r@[i].comps@ == self.comps_at(world, r@[i].ent.id()),
            forall|i: int, j: int| 0 <= i < j < r@.len() ==> r@[i].ent.id() < r@[j].ent.id(),
            forall|e: int|
                0 <= e < world.entity_count() && e != skip.id() && #[trigger] self.spec_matches(
                    world,
                    e,
                ) ==> exists|i: int| 0 <= i < r@.len() && (#[trigger] r@[i]).ent.id() == e,
    {
        let mut it = QueryIterSkip::new(skip);
        let mut r: Vec<QueryIterItem<V>> = Vec::new();
        loop
            invariant
                world.wf(),
                self.wf(),
                self.valid_for(world),
                it.skip() == skip.id(),
                0 <= it.cur() <= world.entity_count(),
                forall|i: int|
                    0 <= i < r@.len() ==> 0 <= (#[trigger] r@[i]).ent.id() < it.cur()
                        && r@[i].ent.id() != skip.id() && self.spec_matches(world, r@[i].ent.id())
                        && r@[i].comps@ == self.comps_at(world, r@[i].ent.id()),
                forall|i: int, j: int| 0 <= i < j < r@.len() ==> r@[i].ent.id() < r@[j].ent.id(),
                forall|e: int|
                    0 <= e < it.cur() && e != skip.id() && #[trigger] self.spec_matches(world, e)
                        ==> exists|i: int| 0 <= i < r@.len() && (#[trigger] r@[i]).ent.id() == e,
            decreases world.entity_count() - it.cur(),
        {
            let ghost prev_cur = it.cur();
            let stepped = it.next(self, world);
            match stepped {
                Some(item) => {
                    let ghost eid = item.ent.id();
                    let ghost prev_r = r@;
                    r.push(item);
                    proof {
                        assert(r@[r@.len() - 1].ent.id() == eid);
                        assert forall|e: int|
                            0 <= e < it.cur() && e != skip.id() && #[trigger] self.spec_matches(
                                world,
                                e,
                            ) implies exists|i: int|
                            0 <= i < r@.len() && (#[trigger] r@[i]).ent.id() == e by {
                            if e < prev_cur {
                                let i = choose|i: int|
                                    0 <= i < prev_r.len() && (#[trigger] prev_r[i]).ent.id() == e;
                                assert(r@[i].ent.id() == e);
                            } else if e == eid {
                                assert(r@[r@.len() - 1].ent.id() == e);
                            }
                        }
                    }
                },
                None => {
                    return r;
                },
            }
        }
    }

    /// With every requested tag registered, the scan-exhausted condition is
    /// exactly "the identifier lies past the entity count": every array has
    /// one slot per allocated entity.
    pub proof fn lemma_ends_at_count<V>(&self, world: &World<V>, e: int)
        requires
            world.wf(),
            self.wf(),
            self.valid_for(world),
        ensures
            self.spec_ends(world, e) <==> e >= world.entity_count(),
    {
        if self.spec_ends(world, e) {
            let k = choose|k: int|
                0 <= k < self.items().len() && e >= world.slots_of(
                    (#[trigger] self.items()[k]).tag,
                ).len();
            world.lemma_registered_len(self.items()[k].tag);
        }
        if e >= world.entity_count() {
            assert(world.registered(self.items()[0].tag));
            world.lemma_registered_len(self.items()[0].tag);
            assert(e >= world.slots_of(self.items()[0].tag).len());
        }
    }

    /// A fresh forward iterator over this query, starting at entity zero.
    pub fn iter(&self) -> (it: QueryIter)
        ensures
            it.cur() == 0,
    {
        QueryIter::new()
    }

    /// A fresh mutable forward iterator over this query, starting at entity
    /// zero with no current entity yet.
    pub fn iter_mut(&self) -> (it: QueryIterMut)
        ensures
            it.cur() == 0,
            it.last_given() is None,
    {
        QueryIterMut::new()
    }

    /// Runs a forward scan to completion: the result holds exactly the
    /// entities that own every requested component, in increasing identifier
    /// order, each with its components — and nothing else.
    pub fn collect_matches<V: Copy>(&self, world: &World<V>) -> (r: Vec<QueryIterItem<V>>)
        requires
            world.wf(),
            self.wf(),
            self.valid_for(world),
        ensures
            forall|i: int|
                0 <= i < r@.len() ==> 0 <= (#[trigger] r@[i]).ent.id() < world.entity_count()
                    && self.spec_matches(world, r@[i].ent.id()) && r@[i].comps@ == self.comps_at(
                    world,
                    r@[i].ent.id(),
                ),
            forall|i: int, j: int| 0 <= i < j < r@.len() ==> r@[i].ent.id() < r@[j].ent.id(),
            forall|e: int|
                0 <= e < world.entity_count() && #[trigger] self.spec_matches(world, e)
                    ==> exists|i: int| 0 <= i < r@.len() && (#[trigger] r@[i]).ent.id() == e,
    {
        let mut it = QueryIter::new();
        let mut r: Vec<QueryIterItem<V>> = Vec::new();
        loop
            invariant
                world.wf(),
                self.wf(),
                self.valid_for(world),
                0 <= it.cur() <= world.entity_count(),
                forall|i: int|
                    0 <= i < r@.len() ==> 0 <= (#[trigger] r@[i]).ent.id() < it.cur()
                        && self.spec_matches(world, r@[i].ent.id()) && r@[i].comps@
                        == self.comps_at(world, r@[i].ent.id()),
                forall|i: int, j: int| 0 <= i < j < r@.len() ==> r@[i].ent.id() < r@[j].ent.id(),
                forall|e: int|
                    0 <= e < it.cur() && #[trigger] self.spec_matches(world, e) ==> exists|i: int|
                        0 <= i < r@.len() && (#[trigger] r@[i]).ent.id() == e,
                r@.len() <= it.cur(),
            decreases world.entity_count() - it.cur(),
        {
            let ghost prev_cur = it.cur();
            let stepped = it.next(self, world);
            match stepped {
                Some(item) => {
                    let ghost eid = item.ent.id();
                    let ghost prev_r = r@;
                    r.push(item);
                    proof {
                        assert(r@[r@.len() - 1].ent.id() == eid);
                        assert forall|e: int|
                            0 <= e < it.cur() && #[trigger] self.spec_matches(world, e)
                            implies exists|i: int|
                            0 <= i < r@.len() && (#[trigger] r@[i]).ent.id() == e by {
                            if e < prev_cur {
                                let i = choose|i: int|
                                    0 <= i < prev_r.len() && (#[trigger] prev_r[i]).ent.id() == e;
                                assert(r@[i].ent.id() == e);
                            } else if e == eid {
                                assert(r@[r@.len() - 1].ent.id() == e);
                            }
                        }
                    }
                },
                None => {
                    return r;
                },
            }
        }
    }
}

/// One yield of a forward query scan: an entity together with its requested
/// components, in specification order.
pub struct QueryIterItem<V> {
    pub ent: Entity,
    pub comps: Vec<V>,
}

/// One yield of a mutable forward query scan.
pub struct QueryIterMutItem<V> {
    pub ent: Entity,
    pub comps: Vec<V>,
}

/// A forward scan over a query: walks entity identifiers from zero upward,
/// skips entities that lack a requested component, yields matches, and stops
/// once the identifiers are exhausted.
pub struct QueryIter {
    cur_entity: Entity,
}

impl QueryIter {
    /// The next identifier the scan will look at; everything before it has
    /// been dealt with.
    pub closed spec fn cur(&self) -> int {
        self.cur_entity.id()
    }

    pub fn new() -> (it: QueryIter)
        ensures
            it.cur() == 0,
    {
        QueryIter { cur_entity: Entity::from_num(0) }
    }

    /// Yields the first entity at or past the cursor that owns every
    /// requested component, with its components, and moves the cursor past
    /// it; yields nothing once no such entity exists, the cursor then
    /// standing at the entity count.
    pub fn next<V: Copy>(&mut self, query: &Query, world: &World<V>) -> (r: Option<
        QueryIterItem<V>,
    >)
        requires
            world.wf(),
            query.wf(),
            query.valid_for(world),
        ensures
            match r {
                Some(item) => old(self).cur() <= item.ent.id() < world.entity_count()
                    && query.spec_matches(world, item.ent.id()) && item.comps@ == query.comps_at(
                    world,
                    item.ent.id(),
                ) && (forall|j: int|
                    old(self).cur() <= j < item.ent.id() ==> !query.spec_matches(world, j))
                    && final(self).cur() == item.ent.id() + 1,
                None => (forall|j: int|
                    old(self).cur() <= j < world.entity_count() ==> !query.spec_matches(world, j))
                    && final(self).cur() == if old(self).cur() >= world.entity_count() {
                    old(self).cur()
                } else {
                    world.entity_count()
                },
            },
    {
        let ghost c0 = self.cur_entity.id();
        loop
            invariant
                world.wf(),
                query.wf(),
                query.valid_for(world),
                old(self).cur() == c0,
                c0 <= self.cur(),
                self.cur() == c0 || self.cur() <= world.entity_count(),
                forall|j: int| c0 <= j < self.cur() ==> !query.spec_matches(world, j),
            decreases world.entity_count() - self.cur(),
        {
            let e = self.cur_entity;
            match query.fetch_entity(world, e) {
                FetchResult::Found(comps) => {
                    proof {
                        query.lemma_ends_at_count(world, e.id());
                    }
                    self.cur_entity = Entity::from_num(e.to_num() + 1);
                    return Some(QueryIterItem { ent: e, comps });
                },
                FetchResult::Missing => {
                    proof {
                        query.lemma_ends_at_count(world, e.id());
                    }
                    self.cur_entity = Entity::from_num(e.to_num() + 1);
                },
                FetchResult::End => {
                    proof {
                        query.lemma_ends_at_count(world, e.id());
                    }
                    return None;
                },
            }
        }
    }
}

/// A mutable forward scan over a query: the same walk as `QueryIter`, for a
/// caller that will write components back through the query's write
/// accessor. It remembers the entity it yielded last, so that a
/// self-excluding inner scan can be derived from it.
pub struct QueryIterMut {
    cur_entity: Entity,
    last_given_entity: Option<Entity>,
}

impl QueryIterMut {
    /// The next identifier the scan will look at.
    pub closed spec fn cur(&self) -> int {
        self.cur_entity.id()
    }

    /// The entity yielded last, if the scan is positioned on one.
    pub closed spec fn last_given(&self) -> Option<Entity> {
        self.last_given_entity
    }

    pub fn new() -> (it: QueryIterMut)
        ensures
            it.cur() == 0,
            it.last_given() is None,
    {
        QueryIterMut { cur_entity: Entity::from_num(0), last_given_entity: None }
    }

    /// Yields the first entity at or past the cursor that owns every
    /// requested component, remembering it as the current entity; once no
    /// such entity exists, yields nothing and forgets the current entity.
    pub fn next<V: Copy>(&mut self, query: &Query, world: &World<V>) -> (r: Option<
        QueryIterMutItem<V>,
    >)
        requires
            world.wf(),
            query.wf(),
            query.valid_for(world),
        ensures
            match r {
                Some(item) => old(self).cur() <= item.ent.id() < world.entity_count()
                    && query.spec_matches(world, item.ent.id()) && item.comps@ == query.comps_at(
                    world,
                    item.ent.id(),
                ) && (forall|j: int|
                    old(self).cur() <= j < item.ent.id() ==> !query.spec_matches(world, j))
                    && final(self).cur() == item.ent.id() + 1 && final(self).last_given() == Some(
                    item.ent,
                ),
                None => (forall|j: int|
                    old(self).cur() <= j < world.entity_count() ==> !query.spec_matches(world, j))
                    && final(self).last_given() is None && final(self).cur() == if old(self).cur()
                    >= world.entity_count() {
                    old(self).cur()
                } else {
                    world.entity_count()
                },
            },
    {
        let ghost c0 = self.cur_entity.id();
        loop
            invariant
                world.wf(),
                query.wf(),
                query.valid_for(world),
                old(self).cur() == c0,
                c0 <= self.cur(),
                self.cur() == c0 || self.cur() <= world.entity_count(),
                forall|j: int| c0 <= j < self.cur() ==> !query.spec_matches(world, j),
            decreases world.entity_count() - self.cur(),
        {
            let e = self.cur_entity;
            match query.fetch_entity_mut(world, e) {
                FetchResult::Found(comps) => {
                    proof {
                        query.lemma_ends_at_count(world, e.id());
                    }
                    self.last_given_entity = Some(e);
                    self.cur_entity = Entity::from_num(e.to_num() + 1);
                    return Some(QueryIterMutItem { ent: e, comps });
                },
                FetchResult::Missing => {
                    proof {
                        query.lemma_ends_at_count(world, e.id());
                    }
                    self.cur_entity = Entity::from_num(e.to_num() + 1);
                },
                FetchResult::End => {
                    proof {
                        query.lemma_ends_at_count(world, e.id());
                    }
                    self.last_given_entity = None;
                    return None;
                },
            }
        }
    }

    /// An independent read-only scan from entity zero that skips exactly the
    /// entity this iterator is positioned on, for pairwise interaction
    /// algorithms. Calling it before anything has been yielded, or after the
    /// scan has ended, is a usage error: there is then no current entity to
    /// skip, and the precondition rules it out.
    pub fn iter_skipping_current(&self) -> (it: QueryIterSkip)
        requires
            self.last_given() is Some,
        ensures
            it.cur() == 0,
            it.skip() == self.last_given()->0.id(),
    {
        let skip_entity = match self.last_given_entity {
            Some(e) => e,
            None => unreached(),
        };
        QueryIterSkip::new(skip_entity)
    }
}

/// A forward scan that leaves out one designated entity: it yields, in
/// increasing identifier order, every entity owning the requested components
/// except the one to skip.
pub struct QueryIterSkip {
    cur_entity: Entity,
    skip_entity: Entity,
}

impl QueryIterSkip {
    /// The next identifier the scan will look at.
    pub closed spec fn cur(&self) -> int {
        self.cur_entity.id()
    }

    /// The identifier of the entity this scan leaves out.
    pub closed spec fn skip(&self) -> int {
        self.skip_entity.id()
    }

    pub fn new(skip_entity: Entity) -> (it: QueryIterSkip)
        ensures
            it.cur() == 0,
            it.skip() == skip_entity.id(),
    {
        QueryIterSkip { cur_entity: Entity::from_num(0), skip_entity }
    }

    /// Yields the first entity at or past the cursor, other than the skipped
    /// one, that owns every requested component; yields nothing once no such
    /// entity exists.
    pub fn next<V: Copy>(&mut self, query: &Query, world: &World<V>) -> (r: Option<
        QueryIterItem<V>,
    >)
        requires
            world.wf(),
            query.wf(),
            query.valid_for(world),
        ensures
            final(self).skip() == old(self).skip(),
            match r {
                Some(item) => old(self).cur() <= item.ent.id() < world.entity_count()
                    && item.ent.id() != old(self).skip() && query.spec_matches(world, item.ent.id())
                    && item.comps@ == query.comps_at(world, item.ent.id()) && (forall|j: int|
                    old(self).cur() <= j < item.ent.id() ==> !(query.spec_matches(world, j) && j
                        != old(self).skip())) && final(self).cur() == item.ent.id() + 1,
                None => (forall|j: int|
                    old(self).cur() <= j < world.entity_count() ==> !(query.spec_matches(world, j)
                        && j != old(self).skip())) && final(self).cur() == if old(self).cur()
                    >= world.entity_count() {
                    old(self).cur()
                } else {
                    world.entity_count()
                },
            },
    {
        let ghost c0 = self.cur_entity.id();
        let ghost s0 = self.skip_entity.id();
        loop
            invariant
                world.wf(),
                query.wf(),
                query.valid_for(world),
                self.skip() == s0,
                old(self).skip() == s0,
                old(self).cur() == c0,
                c0 <= self.cur(),
                self.cur() == c0 || self.cur() <= world.entity_count(),
                forall|j: int|
                    c0 <= j < self.cur() ==> !(query.spec_matches(world, j) && j != self.skip()),
            decreases world.entity_count() - self.cur(),
        {
            let e = self.cur_entity;
            match query.fetch_entity(world, e) {
                FetchResult::Found(comps) => {
                    proof {
                        query.lemma_ends_at_count(world, e.id());
                    }
                    self.cur_entity = Entity::from_num(e.to_num() + 1);
                    if e.to_num() != self.skip_entity.to_num() {
                        return Some(QueryIterItem { ent: e, comps });
                    }
                },
                FetchResult::Missing => {
                    proof {
                        query.lemma_ends_at_count(world, e.id());
                    }
                    self.cur_entity = Entity::from_num(e.to_num() + 1);
                },
                FetchResult::End => {
                    proof {
                        query.lemma_ends_at_count(world, e.id());
                    }
                    return None;
                },
            }
        }
    }
}

/// Copies the first `k` items of a fetch specification.
fn partial_clone(items: &Vec<FetchItem>, k: usize) -> (r: Vec<FetchItem>)
    requires
        k <= items@.len(),
    ensures
        r@ == items@.take(k as int),
{
    let mut r: Vec<FetchItem> = Vec::new();
    let mut j: usize = 0;
    while j < k
        invariant
            0 <= j <= k,
            k <= items@.len(),
            r@ == items@.take(j as int),
        decreases k - j,
    {
        r.push(items[j]);
        proof {
            assert(r@ =~= items@.take(j as int + 1));
        }
        j = j + 1;
    }
    r
}

/// When guards already show the acquisition of `items` over `prev` and the
/// acquisition was permitted, the accessors are held in the sense of
/// `holds_on`.
proof fn lemma_holds_after_acquire<V>(prev: World<V>, cur: World<V>, items: Seq<FetchItem>)
    requires
        can_acquire(&prev, items),
        forall|t: u64|
            prev.registered(t) ==> #[trigger] cur.flag_of(t) == acquired_flag(
                prev.flag_of(t),
                items,
                t,
            ),
        forall|t: u64| cur.registered(t) <==> prev.registered(t),
    ensures
        forall|t: u64|
            #![trigger writes_of(items, t)]
            writes_of(items, t) > 0 ==> writes_of(items, t) == 1 && reads_of(items, t) == 0
                && cur.flag_of(t) == -1,
        forall|t: u64|
            #![trigger reads_of(items, t)]
            reads_of(items, t) > 0 && writes_of(items, t) == 0 ==> cur.flag_of(t) >= reads_of(
                items,
                t,
            ),
{
    assert forall|t: u64|
        #![trigger writes_of(items, t)]
        #![trigger reads_of(items, t)]
        (writes_of(items, t) > 0 ==> writes_of(items, t) == 1 && reads_of(items, t) == 0
            && cur.flag_of(t) == -1) && (reads_of(items, t) > 0 && writes_of(items, t) == 0
            ==> cur.flag_of(t) >= reads_of(items, t)) by {
        if writes_of(items, t) > 0 || reads_of(items, t) > 0 {
            lemma_some_item_has_tag(items, t);
        }
    }
}

/// A tag with a positive count is named by some specification in the list.
proof fn lemma_some_item_has_tag(items: Seq<FetchItem>, tag: u64)
    requires
        reads_of(items, tag) > 0 || writes_of(items, tag) > 0,
    ensures
        exists|k: int| 0 <= k < items.len() && (#[trigger] items[k]).tag == tag,
    decreases items.len(),
{
    lemma_counts_nonneg(items.drop_last(), tag);
    if items.last().tag == tag {
        assert(items[items.len() - 1].tag == tag);
    } else {
        lemma_some_item_has_tag(items.drop_last(), tag);
        let k = choose|k: int|
            0 <= k < items.drop_last().len() && (#[trigger] items.drop_last()[k]).tag == tag;
        assert(items[k].tag == tag);
    }
}

/// With the whole specification acquirable from `prev` and the first `k`
/// accessors acquired, the guard of position `k`'s tag permits its grant.
proof fn lemma_step_grantable<V>(prev: World<V>, cur: World<V>, items: Seq<FetchItem>, k: int)
    requires
        0 <= k < items.len(),
        can_acquire(&prev, items),
        forall|t: u64|
            prev.registered(t) ==> #[trigger] cur.flag_of(t) == acquired_flag(
                prev.flag_of(t),
                items.take(k),
                t,
            ),
    ensures
        items[k].access is Read ==> read_grant_ok(cur.flag_of(items[k].tag)),
        items[k].access is Write ==> cur.flag_of(items[k].tag) == 0,
{
    let t0 = items[k].tag;
    assert(prev.registered(t0));
    lemma_counts_take_step(items, t0, k);
    lemma_counts_take_le(items, t0, k);
    lemma_counts_take_le(items, t0, k + 1);
    if items[k].access is Read {
        assert(reads_of(items, t0) > 0);
        assert(writes_of(items, t0) == 0) by {
            if writes_of(items, t0) > 0 {
                assert(reads_of(items, t0) == 0);
            }
        }
        assert(writes_of(items.take(k), t0) == 0);
        assert(reads_of(items.take(k), t0) < reads_of(items, t0));
    } else {
        assert(writes_of(items, t0) > 0);
        assert(writes_of(items.take(k), t0) == 0);
        assert(reads_of(items.take(k), t0) == 0);
    }
}

/// A permitted prefix extended by one grantable accessor is still a
/// permitted prefix.
proof fn lemma_can_acquire_extend<V>(prev: World<V>, cur: World<V>, items: Seq<FetchItem>, k: int)
    requires
        0 <= k < items.len(),
        can_acquire(&prev, items.take(k)),
        prev.registered(items[k].tag),
        forall|t: u64|
            prev.registered(t) ==> #[trigger] cur.flag_of(t) == acquired_flag(
                prev.flag_of(t),
                items.take(k),
                t,
            ),
        items[k].access is Read ==> read_grant_ok(cur.flag_of(items[k].tag)),
        items[k].access is Write ==> cur.flag_of(items[k].tag) == 0,
    ensures
        can_acquire(&prev, items.take(k + 1)),
{
    let t0 = items[k].tag;
    let pre = items.take(k);
    let post = items.take(k + 1);
    assert forall|j: int| 0 <= j < post.len() implies prev.registered(
        (#[trigger] post[j]).tag,
    ) by {
        if j < k {
            assert(post[j] == pre[j]);
            assert(prev.registered(pre[j].tag));
        }
    }
    assert forall|t: u64|
        #![trigger writes_of(post, t)]
        #![trigger reads_of(post, t)]
        (writes_of(post, t) > 0 ==> writes_of(post, t) == 1 && reads_of(post, t) == 0
            && prev.flag_of(t) == 0) && (reads_of(post, t) > 0 && writes_of(post, t) == 0 ==> 0
            <= prev.flag_of(t) && prev.flag_of(t) + reads_of(post, t) <= isize::MAX) by {
        lemma_counts_take_step(items, t, k);
        lemma_counts_nonneg(pre, t);
        if t == t0 {
            if items[k].access is Read {
                assert(writes_of(post, t0) == writes_of(pre, t0));
                assert(reads_of(post, t0) == reads_of(pre, t0) + 1);
                assert(read_grant_ok(cur.flag_of(t0)));
                if writes_of(pre, t0) > 0 {
                    assert(cur.flag_of(t0) == -1);
                } else {
                    assert(cur.flag_of(t0) == prev.flag_of(t0) + reads_of(pre, t0));
                    if reads_of(pre, t0) > 0 {
                        assert(0 <= prev.flag_of(t0));
                    } else {
                        assert(cur.flag_of(t0) == prev.flag_of(t0));
                    }
                }
            } else {
                assert(writes_of(post, t0) == writes_of(pre, t0) + 1);
                assert(reads_of(post, t0) == reads_of(pre, t0));
                assert(cur.flag_of(t0) == 0);
                if writes_of(pre, t0) > 0 {
                    assert(cur.flag_of(t0) == -1);
                }
                assert(writes_of(pre, t0) == 0);
                assert(cur.flag_of(t0) == prev.flag_of(t0) + reads_of(pre, t0));
                if reads_of(pre, t0) > 0 {
                    assert(0 <= prev.flag_of(t0));
                    assert(prev.flag_of(t0) + reads_of(pre, t0) > 0);
                }
                assert(reads_of(pre, t0) == 0);
                assert(prev.flag_of(t0) == 0);
            }
        }
    }
}

} // verus!
