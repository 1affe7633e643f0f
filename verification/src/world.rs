//! The entity/component registry: a counter of entities and one column per
//! component-type tag, each column guarded by a dynamic borrow state.
//!
//! Component types are identified by a caller-chosen `u64` tag, and all
//! component values share one carrier type `C` (typically an enum of the
//! caller's component types).  Every operation is specified as a transition
//! on the model in `model`.

use crate::model::AliasingViolation;
use crate::model::BorrowState;
use crate::model::ColModel;
use crate::model::WorldModel;
use vstd::prelude::*;

verus! {

/// One column: its component-type tag, its dynamic borrow status, and one
/// optional component value per entity that has ever existed.
pub(crate) struct Column<C> {
    pub(crate) key: u64,
    pub(crate) state: BorrowState,
    pub(crate) slots: Vec<Option<C>>,
}

/// Token witnessing one shared (read-only) borrow of the column tagged
/// `key`; it is given back through `World::release_components`.
pub struct SharedBorrow {
    pub key: u64,
}

/// Token witnessing the exclusive (read-write) borrow of the column tagged
/// `key`; it is given back through `World::release_components_mut`.
pub struct ExclusiveBorrow {
    pub key: u64,
}

/// The model of one stored column.
pub(crate) open spec fn col_model<C>(c: Column<C>) -> ColModel<C> {
    ColModel { state: c.state, slots: c.slots@ }
}

/// Some stored column carries this tag.
pub(crate) open spec fn has_key<C>(s: Seq<Column<C>>, key: u64) -> bool {
    exists|i: int| 0 <= i < s.len() && (#[trigger] s[i]).key == key
}

/// The position of the column carrying this tag.
pub(crate) open spec fn key_at<C>(s: Seq<Column<C>>, key: u64) -> int {
    choose|i: int| 0 <= i < s.len() && (#[trigger] s[i]).key == key
}

/// The stored columns as a map from tag to column model.
pub(crate) open spec fn cols_of<C>(s: Seq<Column<C>>) -> Map<u64, ColModel<C>> {
    Map::new(|k: u64| has_key(s, k), |k: u64| col_model(s[key_at(s, k)]))
}

/// No two stored columns carry the same tag.
pub(crate) open spec fn keys_distinct<C>(s: Seq<Column<C>>) -> bool {
    forall|i: int, j: int|
        0 <= i < j < s.len() ==> (#[trigger] s[i]).key != (#[trigger] s[j]).key
}

/// A tag found at a position is found by `key_at` at that very position.
pub(crate) proof fn lemma_key_at<C>(s: Seq<Column<C>>, i: int)
    requires
        keys_distinct(s),
        0 <= i < s.len(),
    ensures
        has_key(s, s[i].key),
        key_at(s, s[i].key) == i,
{
    assert(has_key(s, s[i].key));
    let j = key_at(s, s[i].key);
    assert(0 <= j < s.len() && s[j].key == s[i].key);
    if i < j {
        assert(s[i].key != s[j].key);
    } else if j < i {
        assert(s[j].key != s[i].key);
    }
}

/// Rewriting every column in place, keys unchanged, rewrites the map
/// pointwise.
pub(crate) proof fn lemma_cols_of_pointwise<C>(
    s1: Seq<Column<C>>,
    s2: Seq<Column<C>>,
    f: spec_fn(ColModel<C>) -> ColModel<C>,
)
    requires
        keys_distinct(s1),
        s2.len() == s1.len(),
        forall|j: int|
            0 <= j < s1.len() ==> (#[trigger] s2[j]).key == s1[j].key && col_model(s2[j]) == f(
                col_model(s1[j]),
            ),
    ensures
        keys_distinct(s2),
        cols_of(s2) == Map::new(
            |k: u64| cols_of(s1).contains_key(k),
            |k: u64| f(cols_of(s1)[k]),
        ),
{
    assert forall|k: u64| has_key(s2, k) implies has_key(s1, k) by {
        let i = choose|i: int| 0 <= i < s2.len() && (#[trigger] s2[i]).key == k;
        assert(s1[i].key == k);
    }
    assert forall|k: u64| has_key(s1, k) implies has_key(s2, k) by {
        let i = choose|i: int| 0 <= i < s1.len() && (#[trigger] s1[i]).key == k;
        assert(s2[i].key == k);
    }
    assert forall|k: u64| #[trigger] has_key(s1, k) implies col_model(s2[key_at(s2, k)]) == f(
        col_model(s1[key_at(s1, k)]),
    ) by {
        let i1 = key_at(s1, k);
        assert(0 <= i1 < s1.len() && s1[i1].key == k);
        let i2 = key_at(s2, k);
        assert(0 <= i2 < s2.len() && s2[i2].key == k);
        assert(s1[i2].key == k);
        if i1 < i2 {
            assert(s1[i1].key != s1[i2].key);
        } else if i2 < i1 {
            assert(s1[i2].key != s1[i1].key);
        }
    }
    assert(cols_of(s2) =~= Map::new(
        |k: u64| cols_of(s1).contains_key(k),
        |k: u64| f(cols_of(s1)[k]),
    ));
}

/// Replacing one column, tag unchanged, replaces one entry of the map.
pub(crate) proof fn lemma_cols_of_update_at<C>(s1: Seq<Column<C>>, s2: Seq<Column<C>>, i: int)
    requires
        keys_distinct(s1),
        s2.len() == s1.len(),
        0 <= i < s1.len(),
        forall|j: int| 0 <= j < s1.len() && j != i ==> s2[j] == s1[j],
        s2[i].key == s1[i].key,
    ensures
        keys_distinct(s2),
        cols_of(s2) == cols_of(s1).insert(s1[i].key, col_model(s2[i])),
{
    assert forall|j: int| 0 <= j < s2.len() implies (#[trigger] s2[j]).key == s1[j].key by {}
    assert forall|k: u64| has_key(s2, k) implies has_key(s1, k) by {
        let j = choose|j: int| 0 <= j < s2.len() && (#[trigger] s2[j]).key == k;
        assert(s1[j].key == k);
    }
    assert forall|k: u64| has_key(s1, k) implies has_key(s2, k) by {
        let j = choose|j: int| 0 <= j < s1.len() && (#[trigger] s1[j]).key == k;
        assert(s2[j].key == k);
    }
    assert forall|k: u64| #[trigger] has_key(s2, k) implies 0 <= key_at(s2, k) < s2.len()
        && s2[key_at(s2, k)].key == k && key_at(s2, k) == key_at(s1, k) by {
        let j2 = key_at(s2, k);
        assert(0 <= j2 < s2.len() && s2[j2].key == k);
        let j1 = key_at(s1, k);
        assert(0 <= j1 < s1.len() && s1[j1].key == k);
        assert(s1[j2].key == k);
        if j1 < j2 {
            assert(s1[j1].key != s1[j2].key);
        } else if j2 < j1 {
            assert(s1[j2].key != s1[j1].key);
        }
    }
    lemma_key_at(s1, i);
    assert(cols_of(s2) =~= cols_of(s1).insert(s1[i].key, col_model(s2[i])));
}

/// Appending a column with a fresh tag adds one entry to the map.
pub(crate) proof fn lemma_cols_of_push_new<C>(s1: Seq<Column<C>>, c: Column<C>)
    requires
        keys_distinct(s1),
        forall|j: int| 0 <= j < s1.len() ==> (#[trigger] s1[j]).key != c.key,
    ensures
        keys_distinct(s1.push(c)),
        cols_of(s1.push(c)) == cols_of(s1).insert(c.key, col_model(c)),
{
    let s2 = s1.push(c);
    assert(s2.len() == s1.len() + 1);
    assert(s2[s1.len() as int] == c);
    assert forall|j: int| 0 <= j < s1.len() implies #[trigger] s2[j] == s1[j] by {}
    assert(keys_distinct(s2));
    assert forall|k: u64| has_key(s2, k) && k != c.key implies has_key(s1, k) by {
        let j = choose|j: int| 0 <= j < s2.len() && (#[trigger] s2[j]).key == k;
        assert(j != s1.len());
        assert(s1[j].key == k);
    }
    assert forall|k: u64| has_key(s1, k) implies has_key(s2, k) by {
        let j = choose|j: int| 0 <= j < s1.len() && (#[trigger] s1[j]).key == k;
        assert(s2[j].key == k);
    }
    assert(has_key(s2, c.key));
    assert forall|k: u64| #[trigger] has_key(s2, k) implies s2[key_at(s2, k)].key == k && (k
        != c.key ==> key_at(s2, k) == key_at(s1, k)) && (k == c.key ==> key_at(s2, k)
        == s1.len()) by {
        let j2 = key_at(s2, k);
        assert(0 <= j2 < s2.len() && s2[j2].key == k);
        if k != c.key {
            assert(j2 != s1.len());
            let j1 = key_at(s1, k);
            assert(0 <= j1 < s1.len() && s1[j1].key == k);
            assert(s2[j1].key == k);
            if j1 < j2 {
                assert(s2[j1].key != s2[j2].key);
            } else if j2 < j1 {
                assert(s2[j2].key != s2[j1].key);
            }
        } else {
            if j2 != s1.len() {
                assert(s1[j2].key == c.key);
                assert(false);
            }
        }
    }
    assert(cols_of(s2) =~= cols_of(s1).insert(c.key, col_model(c)));
}

/// The registry itself.  `C` is the shared carrier of all component values.
pub struct World<C> {
    pub(crate) entities_count: usize,
    pub(crate) columns: Vec<Column<C>>,
}

impl<C> View for World<C> {
    type V = WorldModel<C>;

    closed spec fn view(&self) -> WorldModel<C> {
        WorldModel { entities: self.entities_count as nat, cols: cols_of(self.columns@) }
    }
}

impl<C> World<C> {
    /// The registry's internal invariant: tags are unique and the model is
    /// well formed (every column as long as the entity counter).
    pub closed spec fn inv(&self) -> bool {
        keys_distinct(self.columns@) && self@.wf()
    }

    /// The invariant gives the model-level invariant.
    pub proof fn lemma_inv_wf(&self)
        requires
            self.inv(),
        ensures
            self@.wf(),
    {
    }

    /// Crate-internal bridge between the representation and the model.
    pub(crate) proof fn lemma_repr(&self)
        ensures
            self@ == (WorldModel {
                entities: self.entities_count as nat,
                cols: cols_of(self.columns@),
            }),
            self.inv() <==> keys_distinct(self.columns@) && self@.wf(),
    {
    }

    /// Representation-level consequences of the invariant: every stored
    /// column is registered in the model and is as long as the counter.
    pub(crate) proof fn lemma_repr_facts(&self)
        requires
            self.inv(),
        ensures
            forall|j: int|
                0 <= j < self.columns@.len() ==> {
                    &&& self@.cols.contains_key((#[trigger] self.columns@[j]).key)
                    &&& self@.cols[self.columns@[j].key] == col_model(self.columns@[j])
                    &&& self.columns@[j].slots@.len() == self@.entities
                },
            self@.all_free() ==> forall|j: int|
                0 <= j < self.columns@.len() ==> (#[trigger] self.columns@[j]).state
                    == BorrowState::Free,
    {
        assert forall|j: int| 0 <= j < self.columns@.len() implies {
            &&& self@.cols.contains_key((#[trigger] self.columns@[j]).key)
            &&& self@.cols[self.columns@[j].key] == col_model(self.columns@[j])
            &&& self.columns@[j].slots@.len() == self@.entities
        } by {
            lemma_key_at(self.columns@, j);
        }
        if self@.all_free() {
            assert forall|j: int|
                0 <= j < self.columns@.len() implies (#[trigger] self.columns@[j]).state
                == BorrowState::Free by {
                lemma_key_at(self.columns@, j);
            }
        }
    }

    /// A fresh world: no entities and no columns.
    pub fn new() -> (w: World<C>)
        ensures
            w.inv(),
            w@.entities == 0,
            w@.cols == Map::<u64, ColModel<C>>::empty(),
    {
        let w = World { entities_count: 0, columns: Vec::new() };
        proof {
            assert(w@.cols =~= Map::<u64, ColModel<C>>::empty());
        }
        w
    }

    /// How many entities have ever been created.
    pub fn entity_count(&self) -> (n: usize)
        ensures
            n == self@.entities,
    {
        self.entities_count
    }

    /// The position of the column tagged `key`, when one exists.
    pub(crate) fn find_col(&self, key: u64) -> (r: Option<usize>)
        requires
            self.inv(),
        ensures
            match r {
                Some(ci) => {
                    &&& ci < self.columns@.len()
                    &&& self.columns@[ci as int].key == key
                    &&& self@.has_col(key)
                    &&& self@.cols[key] == col_model(self.columns@[ci as int])
                },
                None => !self@.has_col(key),
            },
    {
        let n = self.columns.len();
        let mut ci: usize = 0;
        while ci < n
            invariant
                self.inv(),
                n == self.columns@.len(),
                ci <= n,
                forall|j: int| 0 <= j < ci ==> (#[trigger] self.columns@[j]).key != key,
            decreases n - ci,
        {
            if self.columns[ci].key == key {
                proof {
                    lemma_key_at(self.columns@, ci as int);
                }
                return Some(ci);
            }
            ci += 1;
        }
        proof {
            if has_key(self.columns@, key) {
                let i = choose|i: int|
                    0 <= i < self.columns@.len() && (#[trigger] self.columns@[i]).key == key;
                assert(false);
            }
        }
        None
    }

    /// Creates an entity: appends an empty slot to every existing column,
    /// advances the counter, and returns the fresh identifier.
    pub fn new_entity(&mut self) -> (id: usize)
        requires
            old(self).inv(),
            old(self)@.all_free(),
            old(self)@.entities < usize::MAX,
        ensures
            final(self).inv(),
            id == old(self)@.entities,
            final(self)@ == old(self)@.step_new_entity(),
    {
        let id = self.entities_count;
        let n = self.columns.len();
        let mut ci: usize = 0;
        while ci < n
            invariant
                n == self.columns@.len(),
                self.columns@.len() == old(self).columns@.len(),
                ci <= n,
                self.entities_count == old(self).entities_count,
                forall|j: int|
                    0 <= j < ci ==> (#[trigger] self.columns@[j]).key == old(self).columns@[j].key
                        && self.columns@[j].state == old(self).columns@[j].state
                        && self.columns@[j].slots@ == old(self).columns@[j].slots@.push(None),
                forall|j: int| ci <= j < n ==> #[trigger] self.columns@[j] == old(self).columns@[j],
            decreases n - ci,
        {
            let col = &mut self.columns[ci];
            col.slots.push(None);
            ci += 1;
        }
        self.entities_count = self.entities_count + 1;
        proof {
            let f = |c: ColModel<C>| ColModel { state: c.state, slots: c.slots.push(None) };
            assert forall|j: int| 0 <= j < old(self).columns@.len() implies (
            #[trigger] self.columns@[j]).key == old(self).columns@[j].key && col_model(
                self.columns@[j],
            ) == f(col_model(old(self).columns@[j])) by {}
            lemma_cols_of_pointwise(old(self).columns@, self.columns@, f);
            assert(self@.cols =~= old(self)@.step_new_entity().cols);
            assert(self@ == old(self)@.step_new_entity());
            assert forall|k: u64| #[trigger] self@.cols.contains_key(k) implies {
                &&& self@.cols[k].slots.len() == self@.entities
                &&& (self@.cols[k].state matches BorrowState::Shared(c) ==> c >= 1)
            } by {
                assert(old(self)@.cols.contains_key(k));
            }
        }
        id
    }

    /// Inserts (or overwrites) the component tagged `key` for an entity.
    /// The column is created, backfilled with empty slots, on the first use
    /// of a tag.
    pub fn add_component_to_entity(&mut self, key: u64, entity: usize, component: C)
        requires
            old(self).inv(),
            old(self)@.all_free(),
            entity < old(self)@.entities,
        ensures
            final(self).inv(),
            final(self)@ == old(self)@.step_add(key, entity as int, component),
    {
        proof {
            self.lemma_repr_facts();
        }
        match self.find_col(key) {
            Some(ci) => {
                let m = &mut self.columns[ci].slots[entity];
                *m = Some(component);
                proof {
                    lemma_cols_of_update_at(old(self).columns@, self.columns@, ci as int);
                    assert(self@.cols =~= old(self)@.step_add(
                        key,
                        entity as int,
                        component,
                    ).cols);
                    assert(self@ == old(self)@.step_add(key, entity as int, component));
                    assert forall|k: u64| #[trigger] self@.cols.contains_key(k) implies {
                        &&& self@.cols[k].slots.len() == self@.entities
                        &&& (self@.cols[k].state matches BorrowState::Shared(c) ==> c >= 1)
                    } by {
                        assert(old(self)@.cols.contains_key(k));
                    }
                }
            },
            None => {
                let n = self.entities_count;
                let mut fresh: Vec<Option<C>> = Vec::new();
                let mut i: usize = 0;
                while i < n
                    invariant
                        i <= n,
                        fresh@.len() == i,
                        forall|j: int| 0 <= j < i ==> (#[trigger] fresh@[j]) is None,
                    decreases n - i,
                {
                    fresh.push(None);
                    i += 1;
                }
                let m = &mut fresh[entity];
                *m = Some(component);
                let fresh_col = Column { key, state: BorrowState::Free, slots: fresh };
                proof {
                    assert forall|j: int|
                        0 <= j < old(self).columns@.len() implies (
                    #[trigger] old(self).columns@[j]).key != key by {
                        lemma_key_at(old(self).columns@, j);
                    }
                }
                self.columns.push(fresh_col);
                proof {
                    lemma_cols_of_push_new(
                        old(self).columns@,
                        self.columns@[old(self).columns@.len() as int],
                    );
                    assert(self.columns@ =~= old(self).columns@.push(
                        self.columns@[old(self).columns@.len() as int],
                    ));
                    assert(self.columns@[old(self).columns@.len() as int].slots@
                        =~= old(self)@.backfilled().update(entity as int, Some(component)));
                    assert(self@.cols =~= old(self)@.step_add(
                        key,
                        entity as int,
                        component,
                    ).cols);
                    assert(self@ == old(self)@.step_add(key, entity as int, component));
                    assert forall|k: u64| #[trigger] self@.cols.contains_key(k) implies {
                        &&& self@.cols[k].slots.len() == self@.entities
                        &&& (self@.cols[k].state matches BorrowState::Shared(c) ==> c >= 1)
                    } by {
                        if k != key {
                            assert(old(self)@.cols.contains_key(k));
                        }
                    }
                }
            },
        }
    }

    /// Clears the component tagged `key` for an entity.  Nothing happens
    /// when no column for the tag exists; the column never shrinks.
    pub fn remove_component_from_entity(&mut self, key: u64, entity: usize)
        requires
            old(self).inv(),
            old(self)@.all_free(),
            entity < old(self)@.entities,
        ensures
            final(self).inv(),
            final(self)@ == old(self)@.step_remove(key, entity as int),
    {
        proof {
            self.lemma_repr_facts();
        }
        match self.find_col(key) {
            Some(ci) => {
                let m = &mut self.columns[ci].slots[entity];
                *m = None;
                proof {
                    lemma_cols_of_update_at(old(self).columns@, self.columns@, ci as int);
                    assert(self@.cols =~= old(self)@.step_remove(key, entity as int).cols);
                    assert(self@ == old(self)@.step_remove(key, entity as int));
                    assert forall|k: u64| #[trigger] self@.cols.contains_key(k) implies {
                        &&& self@.cols[k].slots.len() == self@.entities
                        &&& (self@.cols[k].state matches BorrowState::Shared(c) ==> c >= 1)
                    } by {
                        assert(old(self)@.cols.contains_key(k));
                    }
                }
            },
            None => {},
        }
    }

    /// Clears every component of an entity.  The identifier stays allocated
    /// and the counter is unchanged.
    pub fn delete_entity(&mut self, entity: usize)
        requires
            old(self).inv(),
            old(self)@.all_free(),
            entity < old(self)@.entities,
        ensures
            final(self).inv(),
            final(self)@ == old(self)@.step_delete(entity as int),
    {
        proof {
            self.lemma_repr_facts();
        }
        let n = self.columns.len();
        let mut ci: usize = 0;
        while ci < n
            invariant
                n == self.columns@.len(),
                self.columns@.len() == old(self).columns@.len(),
                entity < old(self)@.entities,
                self.entities_count == old(self).entities_count,
                forall|j: int|
                    0 <= j < old(self).columns@.len() ==> (#[trigger] old(self).columns@[j]).slots@.len()
                        == old(self)@.entities,
                ci <= n,
                forall|j: int|
                    0 <= j < ci ==> (#[trigger] self.columns@[j]).key == old(self).columns@[j].key
                        && self.columns@[j].state == old(self).columns@[j].state
                        && self.columns@[j].slots@ == old(self).columns@[j].slots@.update(
                        entity as int,
                        None,
                    ),
                forall|j: int| ci <= j < n ==> #[trigger] self.columns@[j] == old(self).columns@[j],
            decreases n - ci,
        {
            let m = &mut self.columns[ci].slots[entity];
            *m = None;
            ci += 1;
        }
        proof {
            let f = |c: ColModel<C>| ColModel {
                state: c.state,
                slots: c.slots.update(entity as int, None),
            };
            assert forall|j: int| 0 <= j < old(self).columns@.len() implies (
            #[trigger] self.columns@[j]).key == old(self).columns@[j].key && col_model(
                self.columns@[j],
            ) == f(col_model(old(self).columns@[j])) by {}
            lemma_cols_of_pointwise(old(self).columns@, self.columns@, f);
            assert(self@.cols =~= old(self)@.step_delete(entity as int).cols);
            assert(self@ == old(self)@.step_delete(entity as int));
            assert forall|k: u64| #[trigger] self@.cols.contains_key(k) implies {
                &&& self@.cols[k].slots.len() == self@.entities
                &&& (self@.cols[k].state matches BorrowState::Shared(c) ==> c >= 1)
            } by {
                assert(old(self)@.cols.contains_key(k));
            }
        }
    }

    /// Returns a mutable handle to the slot of `entity` in the column
    /// tagged `key`, or nothing when no column for the tag was ever created.
    /// A handle to an empty slot is still a handle: "no column" and "column
    /// exists, slot empty" are distinguished.
    pub fn get_component_from_entity_mut(&mut self, key: u64, entity: usize) -> (r: Option<
        &mut Option<C>,
    >)
        requires
            old(self).inv(),
            old(self)@.all_free(),
            entity < old(self)@.entities,
        ensures
            match r {
                Some(m) => {
                    &&& old(self)@.has_col(key)
                    &&& *m == old(self)@.slot(key, entity as int)
                    &&& final(self)@ == old(self)@.step_write(key, entity as int, *final(m))
                    &&& final(self).inv()
                },
                None => {
                    &&& !old(self)@.has_col(key)
                    &&& final(self)@ == old(self)@
                    &&& final(self).inv()
                },
            },
    {
        proof {
            self.lemma_repr_facts();
        }
        match self.find_col(key) {
            Some(ci) => {
                let m = &mut self.columns[ci].slots[entity];
                proof {
                    lemma_cols_of_update_at(
                        old(self).columns@,
                        after_borrow(self).columns@,
                        ci as int,
                    );
                }
                Some(m)
            },
            None => None,
        }
    }

    /// Acquires a shared (read-only) borrow of the column tagged `key`:
    /// `Ok(None)` when no column for the tag exists, the aliasing error when
    /// an exclusive borrow is outstanding (or the reader count would
    /// overflow), and a token otherwise.
    pub fn borrow_components(&mut self, key: u64) -> (r: Result<
        Option<SharedBorrow>,
        AliasingViolation,
    >)
        requires
            old(self).inv(),
        ensures
            final(self).inv(),
            !old(self)@.has_col(key) ==> r == Ok::<Option<SharedBorrow>, AliasingViolation>(None)
                && final(self)@ == old(self)@,
            old(self)@.has_col(key) && !old(self)@.can_grant_shared(key) ==> r == Err::<
                Option<SharedBorrow>,
                AliasingViolation,
            >(AliasingViolation) && final(self)@ == old(self)@,
            old(self)@.can_grant_shared(key) ==> (r matches Ok(o) && o matches Some(g) && g.key
                == key) && final(self)@ == old(self)@.grant_shared(key),
    {
        proof {
            self.lemma_repr_facts();
        }
        match self.find_col(key) {
            None => Ok(None),
            Some(ci) => {
                let next = match self.columns[ci].state {
                    BorrowState::Free => 1usize,
                    BorrowState::Shared(c) => {
                        if c == usize::MAX {
                            return Err(AliasingViolation);
                        }
                        c + 1
                    },
                    BorrowState::Exclusive => {
                        return Err(AliasingViolation);
                    },
                };
                let colref = &mut self.columns[ci];
                colref.state = BorrowState::Shared(next);
                proof {
                    lemma_cols_of_update_at(old(self).columns@, self.columns@, ci as int);
                    assert(self@.cols =~= old(self)@.grant_shared(key).cols);
                    assert(self@ == old(self)@.grant_shared(key));
                    assert forall|k: u64| #[trigger] self@.cols.contains_key(k) implies {
                        &&& self@.cols[k].slots.len() == self@.entities
                        &&& (self@.cols[k].state matches BorrowState::Shared(c) ==> c >= 1)
                    } by {
                        assert(old(self)@.cols.contains_key(k));
                    }
                }
                Ok(Some(SharedBorrow { key }))
            },
        }
    }

    /// Acquires the exclusive (read-write) borrow of the column tagged
    /// `key`: `Ok(None)` when no column for the tag exists, the aliasing
    /// error when any borrow is outstanding, and a token otherwise.
    pub fn borrow_components_mut(&mut self, key: u64) -> (r: Result<
        Option<ExclusiveBorrow>,
        AliasingViolation,
    >)
        requires
            old(self).inv(),
        ensures
            final(self).inv(),
            !old(self)@.has_col(key) ==> r == Ok::<Option<ExclusiveBorrow>, AliasingViolation>(
                None,
            ) && final(self)@ == old(self)@,
            old(self)@.has_col(key) && !old(self)@.can_grant_excl(key) ==> r == Err::<
                Option<ExclusiveBorrow>,
                AliasingViolation,
            >(AliasingViolation) && final(self)@ == old(self)@,
            old(self)@.can_grant_excl(key) ==> (r matches Ok(o) && o matches Some(g) && g.key
                == key) && final(self)@ == old(self)@.grant_excl(key),
    {
        proof {
            self.lemma_repr_facts();
        }
        match self.find_col(key) {
            None => Ok(None),
            Some(ci) => {
                match self.columns[ci].state {
                    BorrowState::Free => {},
                    _ => {
                        return Err(AliasingViolation);
                    },
                }
                let colref = &mut self.columns[ci];
                colref.state = BorrowState::Exclusive;
                proof {
                    lemma_cols_of_update_at(old(self).columns@, self.columns@, ci as int);
                    assert(self@.cols =~= old(self)@.grant_excl(key).cols);
                    assert(self@ == old(self)@.grant_excl(key));
                    assert forall|k: u64| #[trigger] self@.cols.contains_key(k) implies {
                        &&& self@.cols[k].slots.len() == self@.entities
                        &&& (self@.cols[k].state matches BorrowState::Shared(c) ==> c >= 1)
                    } by {
                        assert(old(self)@.cols.contains_key(k));
                    }
                }
                Ok(Some(ExclusiveBorrow { key }))
            },
        }
    }

    /// Gives back one shared borrow: the reader count shrinks by one, back
    /// to free when the last reader leaves.
    pub fn release_components(&mut self, g: SharedBorrow)
        requires
            old(self).inv(),
            old(self)@.has_col(g.key),
            old(self)@.cols[g.key].state matches BorrowState::Shared(_),
        ensures
            final(self).inv(),
            final(self)@ == old(self)@.release_shared(g.key),
    {
        proof {
            self.lemma_repr_facts();
        }
        match self.find_col(g.key) {
            Some(ci) => {
                let next = match self.columns[ci].state {
                    BorrowState::Shared(c) => {
                        if c <= 1 {
                            BorrowState::Free
                        } else {
                            BorrowState::Shared(c - 1)
                        }
                    },
                    _ => {
                        proof {
                            assert(false);
                        }
                        BorrowState::Free
                    },
                };
                let colref = &mut self.columns[ci];
                colref.state = next;
                proof {
                    lemma_cols_of_update_at(old(self).columns@, self.columns@, ci as int);
                    assert(self@.cols =~= old(self)@.release_shared(g.key).cols);
                    assert(self@ == old(self)@.release_shared(g.key));
                    assert forall|k: u64| #[trigger] self@.cols.contains_key(k) implies {
                        &&& self@.cols[k].slots.len() == self@.entities
                        &&& (self@.cols[k].state matches BorrowState::Shared(c) ==> c >= 1)
                    } by {
                        assert(old(self)@.cols.contains_key(k));
                    }
                }
            },
            None => {
                proof {
                    assert(false);
                }
            },
        }
    }

    /// Gives back the exclusive borrow: the column is free again.
    pub fn release_components_mut(&mut self, g: ExclusiveBorrow)
        requires
            old(self).inv(),
            old(self)@.has_col(g.key),
            old(self)@.cols[g.key].state is Exclusive,
        ensures
            final(self).inv(),
            final(self)@ == old(self)@.release_excl(g.key),
    {
        proof {
            self.lemma_repr_facts();
        }
        match self.find_col(g.key) {
            Some(ci) => {
                let colref = &mut self.columns[ci];
                colref.state = BorrowState::Free;
                proof {
                    lemma_cols_of_update_at(old(self).columns@, self.columns@, ci as int);
                    assert(self@.cols =~= old(self)@.release_excl(g.key).cols);
                    assert(self@ == old(self)@.release_excl(g.key));
                    assert forall|k: u64| #[trigger] self@.cols.contains_key(k) implies {
                        &&& self@.cols[k].slots.len() == self@.entities
                        &&& (self@.cols[k].state matches BorrowState::Shared(c) ==> c >= 1)
                    } by {
                        assert(old(self)@.cols.contains_key(k));
                    }
                }
            },
            None => {
                proof {
                    assert(false);
                }
            },
        }
    }

    /// Reads the slot of `entity` through an outstanding shared borrow.
    pub fn read_component(&self, g: &SharedBorrow, entity: usize) -> (r: &Option<C>)
        requires
            self.inv(),
            self@.has_col(g.key),
            self@.cols[g.key].state matches BorrowState::Shared(_),
            entity < self@.entities,
        ensures
            *r == self@.slot(g.key, entity as int),
    {
        proof {
            self.lemma_repr_facts();
        }
        match self.find_col(g.key) {
            Some(ci) => &self.columns[ci].slots[entity],
            None => {
                proof {
                    assert(false);
                }
                vstd::pervasive::unreached()
            },
        }
    }

    /// Reads the slot of `entity` through the outstanding exclusive borrow:
    /// the holder of the exclusive borrow may read as well as write.
    pub fn read_component_mut(&self, g: &ExclusiveBorrow, entity: usize) -> (r: &Option<C>)
        requires
            self.inv(),
            self@.has_col(g.key),
            self@.cols[g.key].state is Exclusive,
            entity < self@.entities,
        ensures
            *r == self@.slot(g.key, entity as int),
    {
        proof {
            self.lemma_repr_facts();
        }
        match self.find_col(g.key) {
            Some(ci) => &self.columns[ci].slots[entity],
            None => {
                proof {
                    assert(false);
                }
                vstd::pervasive::unreached()
            },
        }
    }

    /// Overwrites the slot of `entity` through the outstanding exclusive
    /// borrow.
    pub fn write_component(&mut self, g: &ExclusiveBorrow, entity: usize, slot_value: Option<C>)
        requires
            old(self).inv(),
            old(self)@.has_col(g.key),
            old(self)@.cols[g.key].state is Exclusive,
            entity < old(self)@.entities,
        ensures
            final(self).inv(),
            final(self)@ == old(self)@.step_write(g.key, entity as int, slot_value),
    {
        proof {
            self.lemma_repr_facts();
        }
        match self.find_col(g.key) {
            Some(ci) => {
                let m = &mut self.columns[ci].slots[entity];
                *m = slot_value;
                proof {
                    lemma_cols_of_update_at(old(self).columns@, self.columns@, ci as int);
                    assert(self@.cols =~= old(self)@.step_write(
                        g.key,
                        entity as int,
                        slot_value,
                    ).cols);
                    assert(self@ == old(self)@.step_write(g.key, entity as int, slot_value));
                    assert forall|k: u64| #[trigger] self@.cols.contains_key(k) implies {
                        &&& self@.cols[k].slots.len() == self@.entities
                        &&& (self@.cols[k].state matches BorrowState::Shared(c) ==> c >= 1)
                    } by {
                        assert(old(self)@.cols.contains_key(k));
                    }
                }
            },
            None => {
                proof {
                    assert(false);
                }
            },
        }
    }

    /// The length of the column tagged `key`, when one exists.
    pub fn column_len(&self, key: u64) -> (r: Option<usize>)
        requires
            self.inv(),
        ensures
            match r {
                Some(n) => self@.has_col(key) && n == self@.cols[key].slots.len(),
                None => !self@.has_col(key),
            },
    {
        match self.find_col(key) {
            Some(ci) => Some(self.columns[ci].slots.len()),
            None => None,
        }
    }
}

} // verus!
