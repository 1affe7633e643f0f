//! Mathematical model of the entity/component store.
//!
//! A world is modelled as an entity counter together with a map from
//! component-type tags to column models.  Every executable operation on
//! `World` is specified as a transition on this model, and the laws in
//! `laws` are proved about the transitions alone.

use vstd::prelude::*;

verus! {

/// Dynamic borrow status of one column: free, shared by a positive number of
/// readers, or held exclusively by a single writer.
#[derive(Clone, Copy, PartialEq, Eq, Structural, Debug)]
pub enum BorrowState {
    Free,
    Shared(usize),
    Exclusive,
}

/// Error value for a borrow request that conflicts with an outstanding
/// borrow on the same column.  It is a programming-contract violation, not a
/// data condition, so the offending operation aborts and reports it.
#[derive(Clone, Copy, PartialEq, Eq, Structural, Debug)]
pub struct AliasingViolation;

/// Outcome of resolving the columns of a query, in the caller's key order:
/// every key resolved (`Proceed`), a key with no column was met first
/// (`Empty`), or a key whose column cannot be borrowed was met first
/// (`Conflict`).
#[derive(Clone, Copy, PartialEq, Eq, Structural, Debug)]
pub enum ScanOutcome {
    Proceed,
    Empty,
    Conflict,
}

/// Model of one column: its borrow status and one optional component value
/// per entity that has ever existed.
pub ghost struct ColModel<C> {
    pub state: BorrowState,
    pub slots: Seq<Option<C>>,
}

/// Model of a world: the entity counter and the columns, keyed by the
/// caller's component-type tag.
pub ghost struct WorldModel<C> {
    pub entities: nat,
    pub cols: Map<u64, ColModel<C>>,
}

impl<C> WorldModel<C> {
    /// Every column is exactly as long as the entity counter, and a shared
    /// borrow always counts at least one reader.
    pub open spec fn wf(self) -> bool {
        forall|k: u64| #[trigger] self.cols.contains_key(k) ==> {
            &&& self.cols[k].slots.len() == self.entities
            &&& (self.cols[k].state matches BorrowState::Shared(c) ==> c >= 1)
        }
    }

    /// A column for this component-type tag exists.
    pub open spec fn has_col(self, key: u64) -> bool {
        self.cols.contains_key(key)
    }

    /// The slot of entity `e` in the column tagged `key`.
    pub open spec fn slot(self, key: u64, e: int) -> Option<C> {
        self.cols[key].slots[e]
    }

    /// No borrow is outstanding on any column.
    pub open spec fn all_free(self) -> bool {
        forall|k: u64| #[trigger] self.cols.contains_key(k) ==> self.cols[k].state
            == BorrowState::Free
    }

    /// A fresh column for the current entity count: every slot empty.
    pub open spec fn backfilled(self) -> Seq<Option<C>> {
        Seq::new(self.entities, |i: int| None)
    }

    /// Creating an entity: the counter grows by one and every column gains
    /// one empty slot.
    pub open spec fn step_new_entity(self) -> WorldModel<C> {
        WorldModel {
            entities: self.entities + 1,
            cols: Map::new(
                |k: u64| self.cols.contains_key(k),
                |k: u64|
                    ColModel {
                        state: self.cols[k].state,
                        slots: self.cols[k].slots.push(None),
                    },
            ),
        }
    }

    /// Inserting a component: the column tagged `key` is created backfilled
    /// if it did not exist, and slot `e` is set to the value.
    pub open spec fn step_add(self, key: u64, e: int, v: C) -> WorldModel<C> {
        let base: Seq<Option<C>> = if self.has_col(key) {
            self.cols[key].slots
        } else {
            self.backfilled()
        };
        WorldModel {
            entities: self.entities,
            cols: self.cols.insert(
                key,
                ColModel { state: BorrowState::Free, slots: base.update(e, Some(v)) },
            ),
        }
    }

    /// Removing a component: slot `e` of the column tagged `key` is cleared;
    /// nothing happens when no such column exists.
    pub open spec fn step_remove(self, key: u64, e: int) -> WorldModel<C> {
        if self.has_col(key) {
            WorldModel {
                entities: self.entities,
                cols: self.cols.insert(
                    key,
                    ColModel {
                        state: self.cols[key].state,
                        slots: self.cols[key].slots.update(e, None),
                    },
                ),
            }
        } else {
            self
        }
    }

    /// Deleting an entity: slot `e` of every column is cleared; the counter
    /// is unchanged and the identifier stays allocated.
    pub open spec fn step_delete(self, e: int) -> WorldModel<C> {
        WorldModel {
            entities: self.entities,
            cols: Map::new(
                |k: u64| self.cols.contains_key(k),
                |k: u64|
                    ColModel {
                        state: self.cols[k].state,
                        slots: self.cols[k].slots.update(e, None),
                    },
            ),
        }
    }

    /// Overwriting one slot of an existing column with the given contents.
    pub open spec fn step_write(self, key: u64, e: int, s: Option<C>) -> WorldModel<C> {
        WorldModel {
            entities: self.entities,
            cols: self.cols.insert(
                key,
                ColModel {
                    state: self.cols[key].state,
                    slots: self.cols[key].slots.update(e, s),
                },
            ),
        }
    }

    /// A shared borrow can be granted: the column exists and no exclusive
    /// borrow is outstanding (and the reader count does not overflow).
    pub open spec fn can_grant_shared(self, key: u64) -> bool {
        self.has_col(key) && match self.cols[key].state {
            BorrowState::Free => true,
            BorrowState::Shared(c) => c < usize::MAX,
            BorrowState::Exclusive => false,
        }
    }

    /// Granting a shared borrow: the reader count of the column grows by one.
    pub open spec fn grant_shared(self, key: u64) -> WorldModel<C> {
        let readers: usize = match self.cols[key].state {
            BorrowState::Shared(c) => (c + 1) as usize,
            _ => 1usize,
        };
        WorldModel {
            entities: self.entities,
            cols: self.cols.insert(
                key,
                ColModel { state: BorrowState::Shared(readers), slots: self.cols[key].slots },
            ),
        }
    }

    /// An exclusive borrow can be granted: the column exists and no borrow
    /// at all is outstanding.
    pub open spec fn can_grant_excl(self, key: u64) -> bool {
        self.has_col(key) && self.cols[key].state == BorrowState::Free
    }

    /// Granting an exclusive borrow.
    pub open spec fn grant_excl(self, key: u64) -> WorldModel<C> {
        WorldModel {
            entities: self.entities,
            cols: self.cols.insert(
                key,
                ColModel { state: BorrowState::Exclusive, slots: self.cols[key].slots },
            ),
        }
    }

    /// Releasing one shared borrow: the reader count shrinks by one, back to
    /// free when the last reader leaves.
    pub open spec fn release_shared(self, key: u64) -> WorldModel<C> {
        let st: BorrowState = match self.cols[key].state {
            BorrowState::Shared(c) => if c <= 1 {
                BorrowState::Free
            } else {
                BorrowState::Shared((c - 1) as usize)
            },
            _ => BorrowState::Free,
        };
        WorldModel {
            entities: self.entities,
            cols: self.cols.insert(key, ColModel { state: st, slots: self.cols[key].slots }),
        }
    }

    /// Releasing an exclusive borrow: the column is free again.
    pub open spec fn release_excl(self, key: u64) -> WorldModel<C> {
        WorldModel {
            entities: self.entities,
            cols: self.cols.insert(
                key,
                ColModel { state: BorrowState::Free, slots: self.cols[key].slots },
            ),
        }
    }

    /// Entity `i` carries every requested component type: each key has a
    /// column and the slot at `i` is present.
    pub open spec fn matches_at(self, keys: Seq<u64>, i: int) -> bool {
        forall|j: int| 0 <= j < keys.len() ==> {
            &&& self.cols.contains_key(#[trigger] keys[j])
            &&& self.cols[keys[j]].slots[i] is Some
        }
    }

    /// The matching entity identifiers below `i`, in ascending order.
    pub open spec fn matching_upto(self, keys: Seq<u64>, i: int) -> Seq<usize>
        decreases i,
    {
        if i <= 0 {
            Seq::empty()
        } else if self.matches_at(keys, i - 1) {
            self.matching_upto(keys, i - 1).push((i - 1) as usize)
        } else {
            self.matching_upto(keys, i - 1)
        }
    }

    /// All matching entity identifiers, in ascending order: the entities a
    /// conjunctive query over `keys` visits.
    pub open spec fn matching_ids(self, keys: Seq<u64>) -> Seq<usize> {
        self.matching_upto(keys, self.entities as int)
    }

    /// Resolving the columns of a read-only query from position `j` on: the
    /// first key without a column ends the query empty, the first key whose
    /// column is exclusively borrowed aborts it.
    pub open spec fn scan_shared(self, keys: Seq<u64>, j: int) -> ScanOutcome
        decreases keys.len() - j,
    {
        if j < 0 || j >= keys.len() {
            ScanOutcome::Proceed
        } else if !self.cols.contains_key(keys[j]) {
            ScanOutcome::Empty
        } else if self.cols[keys[j]].state is Exclusive {
            ScanOutcome::Conflict
        } else {
            self.scan_shared(keys, j + 1)
        }
    }
}

} // verus!
