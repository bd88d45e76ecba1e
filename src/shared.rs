use std::collections::HashMap;
use vstd::prelude::*;

use crate::error::{DeserializeError, SerializeError};

verus! {

broadcast use vstd::std_specs::hash::group_hash_axioms;

/// Write side of shared ownership: for each shared value (by its handle in the
/// value's pool), the archive position of its first emission, once there is one.
pub struct SharedWriteTable {
    slots: Vec<Option<usize>>,
}

impl View for SharedWriteTable {
    type V = Map<nat, nat>;

    closed spec fn view(&self) -> Map<nat, nat> {
        Map::new(
            |h: nat| h < self.slots@.len() && self.slots@[h as int] is Some,
            |h: nat| self.slots@[h as int]->0 as nat,
        )
    }
}

impl SharedWriteTable {
    /// The number of handles the table can hold.
    pub closed spec fn capacity(&self) -> nat {
        self.slots@.len()
    }

    /// A table for a pool of `n` shared values, none of them emitted yet.
    pub fn new(n: usize) -> (r: Self)
        ensures
            r@ == Map::<nat, nat>::empty(),
            r.capacity() == n,
    {
        let mut slots: Vec<Option<usize>> = Vec::new();
        let mut i: usize = 0;
        while i < n
            invariant
                i <= n,
                slots@.len() == i,
                forall|j: int| 0 <= j < i ==> slots@[j] is None,
            decreases n - i,
        {
            slots.push(None);
            i = i + 1;
        }
        let r = SharedWriteTable { slots };
        assert(r@ =~= Map::<nat, nat>::empty());
        r
    }

    /// Where the shared value `handle` was first emitted, if it was.
    pub fn get_shared_ptr(&self, handle: usize) -> (r: Option<usize>)
        ensures
            self@.contains_key(handle as nat) ==> r is Some && r->0 as nat == self@[handle as nat],
            !self@.contains_key(handle as nat) ==> r is None,
    {
        if handle < self.slots.len() {
            self.slots[handle]
        } else {
            None
        }
    }

    /// Records that the shared value `handle` was emitted at `pos`. A handle
    /// outside the pool, or one recorded before, is refused.
    pub fn add_shared_ptr(&mut self, handle: usize, pos: usize) -> (r: Result<(), SerializeError>)
        ensures
            final(self).capacity() == old(self).capacity(),
            (handle < old(self).capacity() && !old(self)@.contains_key(handle as nat)) ==> {
                &&& r == Ok::<(), SerializeError>(())
                &&& final(self)@ == old(self)@.insert(handle as nat, pos as nat)
            },
            !(handle < old(self).capacity() && !old(self)@.contains_key(handle as nat)) ==> {
                &&& r == Err::<(), SerializeError>(SerializeError::SharedError)
                &&& final(self)@ == old(self)@
            },
    {
        if handle >= self.slots.len() {
            return Err(SerializeError::SharedError);
        }
        if self.slots[handle].is_some() {
            return Err(SerializeError::SharedError);
        }
        self.slots.set(handle, Some(pos));
        assert(self@ =~= old(self)@.insert(handle as nat, pos as nat));
        Ok(())
    }
}

/// Read side of shared ownership: for each archive offset at which a shared
/// value was materialized, that value's index in the restored pool.
pub struct SharedReadTable {
    map: HashMap<usize, usize>,
}

impl View for SharedReadTable {
    type V = Map<nat, nat>;

    closed spec fn view(&self) -> Map<nat, nat> {
        Map::new(
            |off: nat| off <= usize::MAX && self.map@.contains_key(off as usize),
            |off: nat| self.map@[off as usize] as nat,
        )
    }
}

impl SharedReadTable {
    pub fn new() -> (r: Self)
        ensures
            r@ == Map::<nat, nat>::empty(),
    {
        let r = SharedReadTable { map: HashMap::new() };
        assert(r@ =~= Map::<nat, nat>::empty());
        r
    }

    /// The pool index materialized from `offset`, if any.
    pub fn get_shared_ptr(&self, offset: usize) -> (r: Option<usize>)
        ensures
            self@.contains_key(offset as nat) ==> r is Some && r->0 as nat == self@[offset as nat],
            !self@.contains_key(offset as nat) ==> r is None,
    {
        match self.map.get(&offset) {
            Some(v) => Some(*v),
            None => None,
        }
    }

    /// Registers `offset` as materialized into pool index `index`; an offset
    /// registered before is refused.
    pub fn add_shared_ptr(&mut self, offset: usize, index: usize) -> (r: Result<
        (),
        DeserializeError,
    >)
        ensures
            !old(self)@.contains_key(offset as nat) ==> {
                &&& r == Ok::<(), DeserializeError>(())
                &&& final(self)@ == old(self)@.insert(offset as nat, index as nat)
            },
            old(self)@.contains_key(offset as nat) ==> {
                &&& r == Err::<(), DeserializeError>(DeserializeError::DuplicateSharedPointer)
                &&& final(self)@ == old(self)@
            },
    {
        if self.map.contains_key(&offset) {
            return Err(DeserializeError::DuplicateSharedPointer);
        }
        self.map.insert(offset, index);
        assert(self@ =~= old(self)@.insert(offset as nat, index as nat));
        Ok(())
    }
}

} // verus!
