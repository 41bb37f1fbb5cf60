use vstd::prelude::*;

use crate::entity::Entity;

verus! {

/// The guard counter of a component array.
///
/// `UNUSED` (zero) means no accessor is live; a positive value counts the
/// live shared (read) accessors; the single negative sentinel `WRITING`
/// marks the one live exclusive (write) accessor. Only these values ever
/// occur: an exclusive accessor is recorded as the sentinel, not as a
/// magnitude, because at most one writer is ever permitted.
pub type BorrowFlag = isize;

pub const UNUSED: BorrowFlag = 0;

pub const WRITING: BorrowFlag = -1;

pub fn is_writing(x: BorrowFlag) -> (r: bool)
    ensures
        r == (x < 0),
{
    x < UNUSED
}

pub fn is_reading(x: BorrowFlag) -> (r: bool)
    ensures
        r == (x > 0),
{
    x > UNUSED
}

/// A shared (read) accessor may be granted while no writer is live and the
/// counter can still grow.
pub open spec fn read_grant_ok(flag: int) -> bool {
    0 <= flag < isize::MAX
}

/// An exclusive (write) accessor may be granted only on a fully unused guard.
pub open spec fn write_grant_ok(flag: int) -> bool {
    flag == 0
}

/// The permission matrix of the aliasing guard: on an unused guard both kinds
/// of accessor may be granted; while readers are live, further readers may be
/// granted (until the counter is saturated) but no writer; while the writer
/// is live, nothing may be granted.
pub proof fn lemma_permission_matrix(flag: int)
    ensures
        flag == 0 ==> read_grant_ok(flag) && write_grant_ok(flag),
        0 < flag < isize::MAX ==> read_grant_ok(flag) && !write_grant_ok(flag),
        flag < 0 ==> !read_grant_ok(flag) && !write_grant_ok(flag),
{
}

/// Dense per-type component storage: one slot of `Option<V>` per allocated
/// entity, indexed directly by entity identifier, together with the aliasing
/// guard that arbitrates access to the slots.
///
/// The guard is a plain counter mutated by explicit acquire and release
/// operations; every operation states exactly how it moves the counter, so
/// that a caller that acquires and releases in a balanced way provably
/// returns the guard to the unused state.
pub struct CACell<V> {
    borrow: BorrowFlag,
    components: Vec<Option<V>>,
}

impl<V> CACell<V> {
    /// The current value of the aliasing guard counter.
    pub closed spec fn flag(&self) -> int {
        self.borrow as int
    }

    /// The stored slots, one per allocated entity; `None` means the entity
    /// lacks this component.
    pub closed spec fn slots(&self) -> Seq<Option<V>> {
        self.components@
    }

    /// The guard only ever holds the write sentinel or a reader count.
    pub open spec fn wf(&self) -> bool {
        self.flag() >= WRITING as int
    }

    pub fn new() -> (c: CACell<V>)
        ensures
            c.flag() == 0,
            c.slots() == Seq::<Option<V>>::empty(),
            c.wf(),
    {
        CACell { borrow: UNUSED, components: Vec::new() }
    }

    /// The number of slots, equal to the number of entities allocated while
    /// this array has been registered.
    pub fn len(&self) -> (n: usize)
        ensures
            n == self.slots().len(),
    {
        self.components.len()
    }

    /// The current guard counter as a plain value.
    pub fn borrow_flag(&self) -> (r: BorrowFlag)
        ensures
            r as int == self.flag(),
    {
        self.borrow
    }

    /// Appends one empty slot, making room for a newly allocated entity.
    /// Requires structural stability: no accessor may be live.
    pub fn push_none(&mut self)
        requires
            old(self).flag() == 0,
            old(self).slots().len() < usize::MAX,
        ensures
            final(self).flag() == 0,
            final(self).slots() == old(self).slots().push(None::<V>),
    {
        self.components.push(None);
    }

    /// Writes `Some(component)` into the entity's slot, overwriting any prior
    /// value. Permitted to the exclusive owner (guard unused) and through a
    /// held write accessor (guard at the write sentinel), never while readers
    /// are live.
    pub fn set_component(&mut self, component: V, e: Entity)
        requires
            old(self).flag() <= 0,
            0 <= e.id() < old(self).slots().len(),
        ensures
            final(self).flag() == old(self).flag(),
            final(self).slots() == old(self).slots().update(e.id(), Some(component)),
    {
        self.components.set(e.to_num(), Some(component));
    }

    /// Writes `None` into the entity's slot. Same access discipline as
    /// `set_component`.
    pub fn remove_component(&mut self, entity: Entity)
        requires
            old(self).flag() <= 0,
            0 <= entity.id() < old(self).slots().len(),
        ensures
            final(self).flag() == old(self).flag(),
            final(self).slots() == old(self).slots().update(entity.id(), None::<V>),
    {
        self.components.set(entity.to_num(), None);
    }

    /// Reads the entity's slot; `Some` exactly when the slot exists and holds
    /// a component.
    pub fn get(&self, entity: Entity) -> (r: Option<&V>)
        ensures
            (r is Some) <==> (0 <= entity.id() < self.slots().len()
                && self.slots()[entity.id()] is Some),
            r matches Some(v) ==> self.slots()[entity.id()] == Some(*v),
    {
        match self.components.get(entity.to_num()) {
            Some(slot) => match slot {
                Some(v) => Some(v),
                None => None,
            },
            None => None,
        }
    }

    /// Acquires a shared (read) accessor: increments the reader count.
    /// A disallowed transition is a logic error in the caller and is ruled
    /// out by the precondition; `try_borrow` is the probing counterpart.
    pub fn borrow(&mut self)
        requires
            read_grant_ok(old(self).flag()),
        ensures
            final(self).flag() == old(self).flag() + 1,
            final(self).slots() == old(self).slots(),
    {
        self.borrow = self.borrow + 1;
    }

    /// Acquires the exclusive (write) accessor: moves the guard from unused
    /// to the write sentinel.
    pub fn borrow_mut(&mut self)
        requires
            write_grant_ok(old(self).flag()),
        ensures
            final(self).flag() == WRITING as int,
            final(self).slots() == old(self).slots(),
    {
        self.borrow = WRITING;
    }

    /// Probes for a shared accessor: grants and reports success exactly when
    /// the permission matrix allows a new reader.
    pub fn try_borrow(&mut self) -> (granted: bool)
        ensures
            final(self).slots() == old(self).slots(),
            granted == read_grant_ok(old(self).flag()),
            granted ==> final(self).flag() == old(self).flag() + 1,
            !granted ==> final(self).flag() == old(self).flag(),
    {
        if self.borrow >= UNUSED && self.borrow < BorrowFlag::MAX {
            self.borrow = self.borrow + 1;
            true
        } else {
            false
        }
    }

    /// Probes for the exclusive accessor: grants and reports success exactly
    /// when the guard is unused.
    pub fn try_borrow_mut(&mut self) -> (granted: bool)
        ensures
            final(self).slots() == old(self).slots(),
            granted == write_grant_ok(old(self).flag()),
            granted ==> final(self).flag() == WRITING as int,
            !granted ==> final(self).flag() == old(self).flag(),
    {
        if self.borrow == UNUSED {
            self.borrow = WRITING;
            true
        } else {
            false
        }
    }

    /// Releases one shared accessor: decrements the reader count.
    pub fn release_read(&mut self)
        requires
            old(self).flag() > 0,
        ensures
            final(self).flag() == old(self).flag() - 1,
            final(self).slots() == old(self).slots(),
    {
        self.borrow = self.borrow - 1;
    }

    /// Releases the exclusive accessor: restores the guard to unused.
    pub fn release_write(&mut self)
        requires
            old(self).flag() == WRITING as int,
        ensures
            final(self).flag() == 0,
            final(self).slots() == old(self).slots(),
    {
        self.borrow = UNUSED;
    }

    /// Unconditional owning access to the slots, for a caller that holds the
    /// array exclusively and has no accessor live.
    pub fn get_mut(&mut self) -> (r: &mut Vec<Option<V>>)
        requires
            old(self).flag() == 0,
        ensures
            r@ == old(self).slots(),
            final(self).slots() == final(r)@,
            final(self).flag() == 0,
    {
        &mut self.components
    }
}

} // verus!
