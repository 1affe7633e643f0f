//! The store's laws, stated and proved once and for all over the model in
//! `model`.  Every executable operation of `world` ensures that its result
//! is the corresponding model transition, so these laws carry over to the
//! running code.

use crate::model::BorrowState;
use crate::model::WorldModel;
use vstd::prelude::*;

verus! {

/// Entity creation keeps every column in step with the counter: the counter
/// grows by one, no column appears or disappears, and every column's length
/// is the new counter value.
pub proof fn lemma_new_entity_keeps_columns_synced<C>(m: WorldModel<C>)
    requires
        m.wf(),
    ensures
        m.step_new_entity().wf(),
        m.step_new_entity().entities == m.entities + 1,
        forall|k: u64|
            #[trigger] m.step_new_entity().cols.contains_key(k) <==> m.cols.contains_key(k),
        forall|k: u64|
            #[trigger] m.cols.contains_key(k) ==> m.step_new_entity().cols[k].slots.len()
                == m.entities + 1,
{
}

/// Insert/read round trip: after inserting a component, the slot of that
/// entity in that column holds exactly the inserted value.
pub proof fn lemma_insert_then_read<C>(m: WorldModel<C>, key: u64, e: int, v: C)
    requires
        m.wf(),
        0 <= e < m.entities,
    ensures
        m.step_add(key, e, v).wf(),
        m.step_add(key, e, v).has_col(key),
        m.step_add(key, e, v).slot(key, e) == Some(v),
{
}

/// Removal clears the slot but never shrinks the column.
pub proof fn lemma_remove_clears_not_shrinks<C>(m: WorldModel<C>, key: u64, e: int)
    requires
        m.wf(),
        m.has_col(key),
        0 <= e < m.entities,
    ensures
        m.step_remove(key, e).wf(),
        m.step_remove(key, e).slot(key, e) is None,
        m.step_remove(key, e).cols[key].slots.len() == m.cols[key].slots.len(),
{
}

/// Lazy backfill: the first-ever insertion for a tag creates a column as
/// long as the entity counter, empty everywhere except the inserted slot.
pub proof fn lemma_lazy_backfill<C>(m: WorldModel<C>, key: u64, e: int, v: C)
    requires
        m.wf(),
        !m.has_col(key),
        0 <= e < m.entities,
    ensures
        m.step_add(key, e, v).cols[key].slots.len() == m.entities,
        m.step_add(key, e, v).slot(key, e) == Some(v),
        forall|j: int| 0 <= j < m.entities && j != e ==> m.step_add(key, e, v).slot(key, j) is None,
{
}

/// Deleting an entity empties its slot in every column while the counter
/// and every column length stay put.
pub proof fn lemma_delete_clears_everywhere<C>(m: WorldModel<C>, e: int)
    requires
        m.wf(),
        0 <= e < m.entities,
    ensures
        m.step_delete(e).wf(),
        m.step_delete(e).entities == m.entities,
        forall|k: u64| #[trigger] m.step_delete(e).cols.contains_key(k) <==> m.cols.contains_key(k),
        forall|k: u64| #[trigger] m.cols.contains_key(k) ==> m.step_delete(e).slot(k, e) is None,
{
}

/// A query is conjunctive: it selects exactly the entities carrying every
/// requested component type, and visits them in strictly ascending
/// identifier order.
pub proof fn lemma_query_conjunctive<C>(m: WorldModel<C>, keys: Seq<u64>)
    requires
        m.entities <= usize::MAX,
    ensures
        forall|e: usize|
            #[trigger] m.matching_ids(keys).contains(e) <==> e < m.entities && m.matches_at(
                keys,
                e as int,
            ),
        forall|p: int, q: int|
            0 <= p < q < m.matching_ids(keys).len() ==> m.matching_ids(keys)[p] < m.matching_ids(
                keys,
            )[q],
{
    lemma_matching_upto_props(m, keys, m.entities as int);
}

proof fn lemma_matching_upto_props<C>(m: WorldModel<C>, keys: Seq<u64>, i: int)
    requires
        i <= usize::MAX,
    ensures
        forall|p: int|
            0 <= p < m.matching_upto(keys, i).len() ==> (#[trigger] m.matching_upto(keys, i)[p])
                < i && m.matches_at(keys, m.matching_upto(keys, i)[p] as int),
        forall|e: usize|
            #[trigger] m.matching_upto(keys, i).contains(e) ==> e < i && m.matches_at(
                keys,
                e as int,
            ),
        forall|e: usize|
            e < i && m.matches_at(keys, e as int) ==> m.matching_upto(keys, i).contains(e),
        forall|p: int, q: int|
            0 <= p < q < m.matching_upto(keys, i).len() ==> m.matching_upto(keys, i)[p]
                < m.matching_upto(keys, i)[q],
    decreases (if i <= 0 { 0int } else { i }),
{
    if i <= 0 {
    } else {
        lemma_matching_upto_props(m, keys, i - 1);
        let prev = m.matching_upto(keys, i - 1);
        let cur = m.matching_upto(keys, i);
        if m.matches_at(keys, i - 1) {
            assert(cur == prev.push((i - 1) as usize));
            assert forall|p: int|
                0 <= p < cur.len() implies (#[trigger] cur[p]) < i && m.matches_at(
                keys,
                cur[p] as int,
            ) by {
                if p < prev.len() {
                    assert(cur[p] == prev[p]);
                } else {
                    assert(cur[p] == (i - 1) as usize);
                }
            }
            assert forall|e: usize| #[trigger] cur.contains(e) implies e < i && m.matches_at(
                keys,
                e as int,
            ) by {
                let p = choose|p: int| 0 <= p < cur.len() && cur[p] == e;
                if p < prev.len() {
                    assert(prev[p] == e);
                    assert(prev.contains(e));
                } else {
                    assert(e == (i - 1) as usize);
                }
            }
            assert forall|e: usize| e < i && m.matches_at(keys, e as int) implies cur.contains(
                e,
            ) by {
                if e < i - 1 {
                    assert(prev.contains(e));
                    let p = choose|p: int| 0 <= p < prev.len() && prev[p] == e;
                    assert(cur[p] == e);
                } else {
                    assert(cur[cur.len() - 1] == e);
                }
            }
        } else {
            assert(cur == prev);
            assert forall|e: usize| e < i && m.matches_at(keys, e as int) implies cur.contains(
                e,
            ) by {
                if e == i - 1 {
                    assert(m.matches_at(keys, (i - 1) as int));
                    assert(false);
                }
            }
        }
    }
}

/// A type never inserted anywhere yields an empty query, not an error: with
/// a column missing for one requested key, no entity matches at all.
pub proof fn lemma_unregistered_type_empty<C>(m: WorldModel<C>, keys: Seq<u64>, j0: int)
    requires
        0 <= j0 < keys.len(),
        !m.has_col(keys[j0]),
    ensures
        m.matching_ids(keys) == Seq::<usize>::empty(),
{
    lemma_matching_upto_absent(m, keys, j0, m.entities as int);
}

proof fn lemma_matching_upto_absent<C>(m: WorldModel<C>, keys: Seq<u64>, j0: int, i: int)
    requires
        0 <= j0 < keys.len(),
        !m.has_col(keys[j0]),
    ensures
        m.matching_upto(keys, i) == Seq::<usize>::empty(),
    decreases (if i <= 0 { 0int } else { i }),
{
    if i <= 0 {
    } else {
        lemma_matching_upto_absent(m, keys, j0, i - 1);
        assert(!m.matches_at(keys, i - 1));
    }
}

/// Resolving a single never-registered key ends the query empty, never with
/// a conflict.
pub proof fn lemma_unregistered_type_no_error<C>(m: WorldModel<C>, key: u64)
    requires
        !m.has_col(key),
    ensures
        m.scan_shared(seq![key], 0) is Empty,
{
    assert(seq![key][0] == key);
}

/// Two shared borrows on a free column both succeed.
pub proof fn lemma_shared_then_shared<C>(m: WorldModel<C>, key: u64)
    requires
        m.has_col(key),
        m.cols[key].state == BorrowState::Free,
    ensures
        m.can_grant_shared(key),
        m.grant_shared(key).can_grant_shared(key),
{
}

/// An exclusive borrow fails while any borrow, shared or exclusive, is
/// outstanding on the same column.
pub proof fn lemma_exclusive_blocked<C>(m: WorldModel<C>, key: u64)
    requires
        m.has_col(key),
        m.cols[key].state != BorrowState::Free,
    ensures
        !m.can_grant_excl(key),
{
}

/// A shared borrow fails while the exclusive borrow is outstanding.
pub proof fn lemma_shared_blocked_by_exclusive<C>(m: WorldModel<C>, key: u64)
    requires
        m.has_col(key),
        m.cols[key].state is Exclusive,
    ensures
        !m.can_grant_shared(key),
        !m.can_grant_excl(key),
{
}

/// Borrows are scoped: granting a borrow on a free column and giving it
/// back restores the world exactly.
pub proof fn lemma_borrow_roundtrip<C>(m: WorldModel<C>, key: u64)
    requires
        m.has_col(key),
        m.cols[key].state == BorrowState::Free,
    ensures
        m.grant_shared(key).release_shared(key) == m,
        m.grant_excl(key).release_excl(key) == m,
{
    assert(m.grant_shared(key).release_shared(key).cols =~= m.cols);
    assert(m.grant_excl(key).release_excl(key).cols =~= m.cols);
}

} // verus!
