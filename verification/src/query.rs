//! The query engine: an index-wise conjunctive join over columns.
//!
//! A query resolves each requested tag to its column, walks all columns in
//! lockstep over the entity indices, keeps exactly the indices whose slot is
//! present in every requested column, and yields them in ascending order.
//! A tag without a column makes the whole query empty; a tag whose column
//! cannot be borrowed in the requested mode aborts it with the aliasing
//! error.  Read-write queries take the visitor as a function value and
//! rewrite each visited slot with its result.

use crate::model::AliasingViolation;
use crate::model::BorrowState;
use crate::world::col_model;
use crate::world::World;
use vstd::prelude::*;

verus! {

/// The first `upto` requested tags are resolved: position `p` of `idxs`
/// names the stored column carrying tag `keys[p]`.
spec fn resolved_upto<C>(w: &World<C>, keys: Seq<u64>, idxs: Seq<usize>, upto: int) -> bool {
    forall|p: int|
        0 <= p < upto ==> {
            &&& (#[trigger] idxs[p]) < w.columns@.len()
            &&& w.columns@[idxs[p] as int].key == keys[p]
            &&& w@.cols.contains_key(keys[p])
            &&& w@.cols[keys[p]] == col_model(w.columns@[idxs[p] as int])
            &&& !(w@.cols[keys[p]].state is Exclusive)
        }
}

impl<C> World<C> {
    /// The conjunctive join over any number of tags: the identifiers of the
    /// entities carrying every requested component type, in ascending
    /// order.  A tag without a column yields the empty answer; a tag whose
    /// column is exclusively borrowed aborts with the aliasing error, in
    /// the caller's key order.
    pub fn query_ids(&self, keys: &Vec<u64>) -> (r: Result<Vec<usize>, AliasingViolation>)
        requires
            self.inv(),
        ensures
            self@.scan_shared(keys@, 0) is Conflict ==> r == Err::<Vec<usize>, AliasingViolation>(
                AliasingViolation,
            ),
            !(self@.scan_shared(keys@, 0) is Conflict) ==> (r matches Ok(v) && v@
                == self@.matching_ids(keys@)),
    {
        proof {
            self.lemma_inv_wf();
            self.lemma_repr();
        }
        let kn = keys.len();
        let mut idxs: Vec<usize> = Vec::new();
        let mut j: usize = 0;
        while j < kn
            invariant
                self.inv(),
                kn == keys@.len(),
                j <= kn,
                idxs@.len() == j,
                resolved_upto(self, keys@, idxs@, j as int),
                self@.scan_shared(keys@, 0) == self@.scan_shared(keys@, j as int),
            decreases kn - j,
        {
            let key = keys[j];
            match self.find_col(key) {
                None => {
                    proof {
                        crate::laws::lemma_unregistered_type_empty(self@, keys@, j as int);
                    }
                    return Ok(Vec::new());
                },
                Some(ci) => {
                    match self.columns[ci].state {
                        BorrowState::Exclusive => {
                            return Err(AliasingViolation);
                        },
                        _ => {},
                    }
                    idxs.push(ci);
                },
            }
            j += 1;
        }
        let n = self.entity_count();
        let mut out: Vec<usize> = Vec::new();
        let mut i: usize = 0;
        while i < n
            invariant
                self.inv(),
                kn == keys@.len(),
                idxs@.len() == kn,
                resolved_upto(self, keys@, idxs@, kn as int),
                n == self@.entities,
                i <= n,
                out@ == self@.matching_upto(keys@, i as int),
            decreases n - i,
        {
            let mut all: bool = true;
            let mut j2: usize = 0;
            while j2 < kn
                invariant
                    self.inv(),
                    kn == keys@.len(),
                    idxs@.len() == kn,
                    resolved_upto(self, keys@, idxs@, kn as int),
                    n == self@.entities,
                    i < n,
                    j2 <= kn,
                    all ==> forall|p: int|
                        0 <= p < j2 ==> self@.cols[#[trigger] keys@[p]].slots[i as int] is Some,
                    !all ==> !self@.matches_at(keys@, i as int),
                decreases kn - j2,
            {
                let ci = idxs[j2];
                proof {
                    self.lemma_inv_wf();
                    self.lemma_repr();
                    assert(self@.cols.contains_key(keys@[j2 as int]));
                    assert(self.columns@[ci as int].slots@.len() == self@.entities);
                }
                if !self.columns[ci].slots[i].is_some() {
                    proof {
                        if self@.matches_at(keys@, i as int) {
                            assert(self@.cols[keys@[j2 as int]].slots[i as int] is Some);
                        }
                    }
                    all = false;
                }
                j2 += 1;
            }
            if all {
                proof {
                    self.lemma_inv_wf();
                    assert forall|jq: int|
                        0 <= jq < keys@.len() implies self@.cols.contains_key(
                        #[trigger] keys@[jq],
                    ) && self@.cols[keys@[jq]].slots[i as int] is Some by {
                        assert(idxs@[jq] < self.columns@.len());
                    }
                    assert(self@.matches_at(keys@, i as int));
                    assert(self@.matching_upto(keys@, i as int + 1) == self@.matching_upto(
                        keys@,
                        i as int,
                    ).push(i));
                }
                out.push(i);
            } else {
                proof {
                    assert(self@.matching_upto(keys@, i as int + 1) == self@.matching_upto(
                        keys@,
                        i as int,
                    ));
                }
            }
            i += 1;
        }
        Ok(out)
    }

    /// The read-only query over one tag: the matching identifiers with a
    /// reference to each present component value, in ascending order.
    pub fn query1(&self, key_a: u64) -> (r: Result<Vec<(usize, &C)>, AliasingViolation>)
        requires
            self.inv(),
        ensures
            !self@.has_col(key_a) ==> (r matches Ok(v) && v@.len() == 0),
            self@.has_col(key_a) && self@.cols[key_a].state is Exclusive ==> r == Err::<
                Vec<(usize, &C)>,
                AliasingViolation,
            >(AliasingViolation),
            self@.has_col(key_a) && !(self@.cols[key_a].state is Exclusive) ==> (r matches Ok(v)
                && ({
                let ids = self@.matching_ids(seq![key_a]);
                &&& v@.len() == ids.len()
                &&& forall|p: int|
                    0 <= p < v@.len() ==> (#[trigger] v@[p]).0 == ids[p] && self@.cols[key_a].slots[v@[p].0 as int] == Some(*v@[p].1)
            })),
    {
        proof {
            self.lemma_inv_wf();
            self.lemma_repr();
        }
        let found = match self.find_col(key_a) {
            None => {
                return Ok(Vec::new());
            },
            Some(ci) => ci,
        };
        match self.columns[found].state {
            BorrowState::Exclusive => {
                return Err(AliasingViolation);
            },
            _ => {},
        }
        let n = self.entity_count();
        let mut out: Vec<(usize, &C)> = Vec::new();
        let mut i: usize = 0;
        while i < n
            invariant
                self.inv(),
                found < self.columns@.len(),
                self.columns@[found as int].key == key_a,
                self@.cols.contains_key(key_a),
                self@.cols[key_a] == col_model(self.columns@[found as int]),
                n == self@.entities,
                i <= n,
                out@.len() == self@.matching_upto(seq![key_a], i as int).len(),
                forall|p: int|
                    0 <= p < out@.len() ==> (#[trigger] out@[p]).0 == self@.matching_upto(
                        seq![key_a],
                        i as int,
                    )[p] && self@.cols[key_a].slots[out@[p].0 as int] == Some(*out@[p].1),
            decreases n - i,
        {
            proof {
                self.lemma_inv_wf();
                self.lemma_repr();
                assert(self.columns@[found as int].slots@.len() == self@.entities);
                assert(seq![key_a][0] == key_a);
            }
            match &self.columns[found].slots[i] {
                Some(c) => {
                    proof {
                        assert(self@.matches_at(seq![key_a], i as int));
                        assert(self@.matching_upto(seq![key_a], i as int + 1)
                            == self@.matching_upto(seq![key_a], i as int).push(i));
                    }
                    out.push((i, c));
                },
                None => {
                    proof {
                        if self@.matches_at(seq![key_a], i as int) {
                            assert(self@.cols[seq![key_a][0]].slots[i as int] is Some);
                        }
                        assert(self@.matching_upto(seq![key_a], i as int + 1)
                            == self@.matching_upto(seq![key_a], i as int));
                    }
                },
            }
            i += 1;
        }
        Ok(out)
    }

    /// The read-only query over two tags: the identifiers of the entities
    /// carrying both component types, each with references to the two
    /// values, in ascending order.  The tags are resolved in the caller's
    /// order, the first one decides.
    pub fn query2(&self, key_a: u64, key_b: u64) -> (r: Result<
        Vec<(usize, &C, &C)>,
        AliasingViolation,
    >)
        requires
            self.inv(),
        ensures
            !self@.has_col(key_a) ==> (r matches Ok(v) && v@.len() == 0),
            self@.has_col(key_a) && self@.cols[key_a].state is Exclusive ==> r == Err::<
                Vec<(usize, &C, &C)>,
                AliasingViolation,
            >(AliasingViolation),
            self@.has_col(key_a) && !(self@.cols[key_a].state is Exclusive) && !self@.has_col(
                key_b,
            ) ==> (r matches Ok(v) && v@.len() == 0),
            self@.has_col(key_a) && !(self@.cols[key_a].state is Exclusive) && self@.has_col(key_b)
                && self@.cols[key_b].state is Exclusive ==> r == Err::<
                Vec<(usize, &C, &C)>,
                AliasingViolation,
            >(AliasingViolation),
            self@.has_col(key_a) && !(self@.cols[key_a].state is Exclusive) && self@.has_col(key_b)
                && !(self@.cols[key_b].state is Exclusive) ==> (r matches Ok(v) && ({
                let ids = self@.matching_ids(seq![key_a, key_b]);
                &&& v@.len() == ids.len()
                &&& forall|p: int|
                    0 <= p < v@.len() ==> (#[trigger] v@[p]).0 == ids[p] && self@.cols[key_a].slots[v@[p].0 as int] == Some(*v@[p].1) && self@.cols[key_b].slots[v@[p].0 as int]
                        == Some(*v@[p].2)
            })),
    {
        proof {
            self.lemma_inv_wf();
            self.lemma_repr();
        }
        let ca = match self.find_col(key_a) {
            None => {
                return Ok(Vec::new());
            },
            Some(ci) => ci,
        };
        match self.columns[ca].state {
            BorrowState::Exclusive => {
                return Err(AliasingViolation);
            },
            _ => {},
        }
        let cb = match self.find_col(key_b) {
            None => {
                return Ok(Vec::new());
            },
            Some(ci) => ci,
        };
        match self.columns[cb].state {
            BorrowState::Exclusive => {
                return Err(AliasingViolation);
            },
            _ => {},
        }
        let n = self.entity_count();
        let mut out: Vec<(usize, &C, &C)> = Vec::new();
        let mut i: usize = 0;
        while i < n
            invariant
                self.inv(),
                ca < self.columns@.len(),
                self.columns@[ca as int].key == key_a,
                self@.cols.contains_key(key_a),
                self@.cols[key_a] == col_model(self.columns@[ca as int]),
                cb < self.columns@.len(),
                self.columns@[cb as int].key == key_b,
                self@.cols.contains_key(key_b),
                self@.cols[key_b] == col_model(self.columns@[cb as int]),
                n == self@.entities,
                i <= n,
                out@.len() == self@.matching_upto(seq![key_a, key_b], i as int).len(),
                forall|p: int|
                    0 <= p < out@.len() ==> (#[trigger] out@[p]).0 == self@.matching_upto(
                        seq![key_a, key_b],
                        i as int,
                    )[p] && self@.cols[key_a].slots[out@[p].0 as int] == Some(*out@[p].1)
                        && self@.cols[key_b].slots[out@[p].0 as int] == Some(*out@[p].2),
            decreases n - i,
        {
            proof {
                self.lemma_inv_wf();
                self.lemma_repr();
                assert(self.columns@[ca as int].slots@.len() == self@.entities);
                assert(self.columns@[cb as int].slots@.len() == self@.entities);
                assert(seq![key_a, key_b][0] == key_a);
                assert(seq![key_a, key_b][1] == key_b);
            }
            let slot_a = &self.columns[ca].slots[i];
            let slot_b = &self.columns[cb].slots[i];
            match (slot_a, slot_b) {
                (Some(va), Some(vb)) => {
                    proof {
                        let ks = seq![key_a, key_b];
                        assert forall|jq: int|
                            0 <= jq < ks.len() implies self@.cols.contains_key(
                            #[trigger] ks[jq],
                        ) && self@.cols[ks[jq]].slots[i as int] is Some by {
                            if jq == 0 {
                            } else {
                                assert(jq == 1);
                            }
                        }
                        assert(self@.matches_at(ks, i as int));
                        assert(self@.matching_upto(seq![key_a, key_b], i as int + 1)
                            == self@.matching_upto(seq![key_a, key_b], i as int).push(i));
                    }
                    out.push((i, va, vb));
                },
                _ => {
                    proof {
                        if self@.matches_at(seq![key_a, key_b], i as int) {
                            assert(self@.cols[seq![key_a, key_b][0]].slots[i as int] is Some);
                            assert(self@.cols[seq![key_a, key_b][1]].slots[i as int] is Some);
                        }
                        assert(self@.matching_upto(seq![key_a, key_b], i as int + 1)
                            == self@.matching_upto(seq![key_a, key_b], i as int));
                    }
                },
            }
            i += 1;
        }
        Ok(out)
    }
}

impl<C: Copy> World<C> {
    /// The read-write query over one tag: every present slot of the column
    /// is rewritten with the visitor's result for it, in ascending
    /// identifier order.  A tag without a column does nothing; a column
    /// with any outstanding borrow aborts with the aliasing error.
    pub fn query_mut1<F: Fn(usize, C) -> C>(&mut self, key: u64, f: F) -> (r: Result<
        (),
        AliasingViolation,
    >)
        requires
            old(self).inv(),
            forall|i: usize, c: C|
                i < old(self)@.entities && old(self)@.has_col(key) && old(self)@.cols[key].slots[i as int]
                    == Some(c) ==> call_requires(f, (i, c)),
        ensures
            final(self).inv(),
            !old(self)@.has_col(key) ==> r == Ok::<(), AliasingViolation>(()) && final(self)@
                == old(self)@,
            old(self)@.has_col(key) && old(self)@.cols[key].state != BorrowState::Free ==> r
                == Err::<(), AliasingViolation>(AliasingViolation) && final(self)@ == old(self)@,
            old(self)@.has_col(key) && old(self)@.cols[key].state == BorrowState::Free ==> r
                == Ok::<(), AliasingViolation>(()) && ({
                &&& final(self)@.entities == old(self)@.entities
                &&& final(self)@.has_col(key)
                &&& final(self)@.cols[key].state == BorrowState::Free
                &&& final(self)@.cols[key].slots.len() == old(self)@.cols[key].slots.len()
                &&& (forall|i: int|
                    #![trigger old(self)@.cols[key].slots[i]]
                    0 <= i < old(self)@.cols[key].slots.len() ==> match old(self)@.cols[key].slots[i] {
                        None => final(self)@.cols[key].slots[i] is None,
                        Some(c) => (final(self)@.cols[key].slots[i] matches Some(rr)
                            && call_ensures(f, (i as usize, c), rr)),
                    })
                &&& final(self)@.cols.remove(key) == old(self)@.cols.remove(key)
            }),
    {
        proof {
            self.lemma_inv_wf();
            self.lemma_repr();
        }
        let ci = match self.find_col(key) {
            None => {
                return Ok(());
            },
            Some(ci) => ci,
        };
        match self.columns[ci].state {
            BorrowState::Free => {},
            _ => {
                return Err(AliasingViolation);
            },
        }
        let n = self.entity_count();
        proof {
            assert(self.columns@[ci as int].slots@.len() == self@.entities);
        }
        let mut i: usize = 0;
        while i < n
            invariant
                old(self).inv(),
                forall|ii: usize, c: C|
                    ii < old(self)@.entities && old(self)@.has_col(key) && old(self)@.cols[key].slots[ii as int]
                        == Some(c) ==> call_requires(f, (ii, c)),
                ci < self.columns@.len(),
                self.columns@.len() == old(self).columns@.len(),
                forall|j: int|
                    0 <= j < self.columns@.len() && j != ci ==> self.columns@[j] == old(self).columns@[j],
                self.entities_count == old(self).entities_count,
                old(self)@.has_col(key),
                old(self)@.cols[key] == col_model(old(self).columns@[ci as int]),
                old(self)@.cols[key].state == BorrowState::Free,
                self.columns@[ci as int].key == old(self).columns@[ci as int].key,
                self.columns@[ci as int].key == key,
                self.columns@[ci as int].state == old(self).columns@[ci as int].state,
                self.columns@[ci as int].slots@.len() == old(self).columns@[ci as int].slots@.len(),
                n == old(self)@.entities,
                old(self).columns@[ci as int].slots@.len() == n,
                i <= n,
                forall|ii: int|
                    #![trigger old(self).columns@[ci as int].slots@[ii]]
                    0 <= ii < i ==> match old(self).columns@[ci as int].slots@[ii] {
                        None => self.columns@[ci as int].slots@[ii] is None,
                        Some(c) => (self.columns@[ci as int].slots@[ii] matches Some(rr)
                            && call_ensures(f, (ii as usize, c), rr)),
                    },
                forall|ii: int|
                    i <= ii < n ==> self.columns@[ci as int].slots@[ii] == old(self).columns@[ci as int].slots@[ii],
            decreases n - i,
        {
            let cur: Option<C> = *(&self.columns[ci].slots[i]);
            match cur {
                Some(c) => {
                    let rr = f(i, c);
                    let m = &mut self.columns[ci].slots[i];
                    *m = Some(rr);
                },
                None => {},
            }
            i += 1;
        }
        proof {
            old(self).lemma_repr();
            old(self).lemma_inv_wf();
            self.lemma_repr();
            crate::world::lemma_cols_of_update_at(old(self).columns@, self.columns@, ci as int);
            assert(self@.cols == old(self)@.cols.insert(
                key,
                crate::world::col_model(self.columns@[ci as int]),
            ));
            assert(self@.cols.remove(key) =~= old(self)@.cols.remove(key));
            assert forall|k: u64| #[trigger] self@.cols.contains_key(k) implies {
                &&& self@.cols[k].slots.len() == self@.entities
                &&& (self@.cols[k].state matches BorrowState::Shared(c) ==> c >= 1)
            } by {
                assert(old(self)@.cols.contains_key(k));
            }
            assert(self@.wf());
        }
        Ok(())
    }

    /// The mixed query over one read-only tag and one read-write tag: for
    /// every entity carrying both component types, the writable slot is
    /// rewritten with the visitor's result for the pair, in ascending
    /// identifier order.  Requesting the same tag for reading and writing
    /// is an aliasing violation: the shared borrow for reading is already
    /// outstanding when the exclusive one is requested.
    pub fn query_mut_rw<F: Fn(usize, C, C) -> C>(&mut self, key_r: u64, key_w: u64, f: F) -> (r:
        Result<(), AliasingViolation>)
        requires
            old(self).inv(),
            forall|i: usize, av: C, bv: C|
                i < old(self)@.entities && old(self)@.has_col(key_r) && old(self)@.has_col(key_w)
                    && old(self)@.cols[key_r].slots[i as int] == Some(av) && old(self)@.cols[key_w].slots[i as int] == Some(bv) ==> call_requires(f, (i, av, bv)),
        ensures
            final(self).inv(),
            !old(self)@.has_col(key_r) ==> r == Ok::<(), AliasingViolation>(()) && final(self)@
                == old(self)@,
            old(self)@.has_col(key_r) && old(self)@.cols[key_r].state is Exclusive ==> r == Err::<
                (),
                AliasingViolation,
            >(AliasingViolation) && final(self)@ == old(self)@,
            old(self)@.has_col(key_r) && !(old(self)@.cols[key_r].state is Exclusive)
                && !old(self)@.has_col(key_w) ==> r == Ok::<(), AliasingViolation>(()) && final(self)@ == old(self)@,
            old(self)@.has_col(key_r) && !(old(self)@.cols[key_r].state is Exclusive) && old(self)@.has_col(key_w) && (key_w == key_r || old(self)@.cols[key_w].state
                != BorrowState::Free) ==> r == Err::<(), AliasingViolation>(AliasingViolation)
                && final(self)@ == old(self)@,
            old(self)@.has_col(key_r) && !(old(self)@.cols[key_r].state is Exclusive) && old(self)@.has_col(key_w) && key_w != key_r && old(self)@.cols[key_w].state
                == BorrowState::Free ==> r == Ok::<(), AliasingViolation>(()) && ({
                &&& final(self)@.entities == old(self)@.entities
                &&& final(self)@.has_col(key_w)
                &&& final(self)@.cols[key_w].state == BorrowState::Free
                &&& final(self)@.cols[key_w].slots.len() == old(self)@.cols[key_w].slots.len()
                &&& (forall|i: int|
                    #![trigger old(self)@.cols[key_w].slots[i]]
                    0 <= i < old(self)@.cols[key_w].slots.len() ==> {
                        &&& (old(self)@.cols[key_r].slots[i] matches Some(av) ==> (old(self)@.cols[key_w].slots[i] matches Some(bv) ==> (final(self)@.cols[key_w].slots[i]
                            matches Some(rr) && call_ensures(f, (i as usize, av, bv), rr))))
                        &&& (!(old(self)@.cols[key_r].slots[i] is Some && old(self)@.cols[key_w].slots[i] is Some) ==> final(self)@.cols[key_w].slots[i]
                            == old(self)@.cols[key_w].slots[i])
                    })
                &&& final(self)@.cols.remove(key_w) == old(self)@.cols.remove(key_w)
            }),
    {
        proof {
            self.lemma_inv_wf();
            self.lemma_repr();
        }
        let ca = match self.find_col(key_r) {
            None => {
                return Ok(());
            },
            Some(ci) => ci,
        };
        match self.columns[ca].state {
            BorrowState::Exclusive => {
                return Err(AliasingViolation);
            },
            _ => {},
        }
        let cb = match self.find_col(key_w) {
            None => {
                return Ok(());
            },
            Some(ci) => ci,
        };
        if key_w == key_r {
            return Err(AliasingViolation);
        }
        match self.columns[cb].state {
            BorrowState::Free => {},
            _ => {
                return Err(AliasingViolation);
            },
        }
        let n = self.entity_count();
        proof {
            assert(self.columns@[ca as int].slots@.len() == self@.entities);
            assert(self.columns@[cb as int].slots@.len() == self@.entities);
            assert(ca != cb);
        }
        let mut i: usize = 0;
        while i < n
            invariant
                old(self).inv(),
                forall|ii: usize, av: C, bv: C|
                    ii < old(self)@.entities && old(self)@.has_col(key_r) && old(self)@.has_col(
                        key_w,
                    ) && old(self)@.cols[key_r].slots[ii as int] == Some(av) && old(self)@.cols[key_w].slots[ii as int] == Some(bv) ==> call_requires(f, (ii, av, bv)),
                ca < self.columns@.len(),
                cb < self.columns@.len(),
                ca != cb,
                key_w != key_r,
                self.columns@.len() == old(self).columns@.len(),
                forall|j: int|
                    0 <= j < self.columns@.len() && j != cb ==> self.columns@[j] == old(self).columns@[j],
                self.entities_count == old(self).entities_count,
                old(self)@.has_col(key_r),
                old(self)@.cols[key_r] == col_model(old(self).columns@[ca as int]),
                old(self)@.has_col(key_w),
                old(self)@.cols[key_w] == col_model(old(self).columns@[cb as int]),
                old(self)@.cols[key_w].state == BorrowState::Free,
                self.columns@[ca as int].key == key_r,
                self.columns@[cb as int].key == key_w,
                self.columns@[cb as int].key == old(self).columns@[cb as int].key,
                self.columns@[cb as int].state == old(self).columns@[cb as int].state,
                self.columns@[cb as int].slots@.len() == old(self).columns@[cb as int].slots@.len(),
                n == old(self)@.entities,
                old(self).columns@[ca as int].slots@.len() == n,
                old(self).columns@[cb as int].slots@.len() == n,
                i <= n,
                forall|ii: int|
                    #![trigger old(self).columns@[cb as int].slots@[ii]]
                    0 <= ii < i ==> {
                        &&& (old(self).columns@[ca as int].slots@[ii] matches Some(av) ==> (old(self).columns@[cb as int].slots@[ii] matches Some(bv) ==> (
                        self.columns@[cb as int].slots@[ii] matches Some(rr) && call_ensures(
                            f,
                            (ii as usize, av, bv),
                            rr,
                        ))))
                        &&& (!(old(self).columns@[ca as int].slots@[ii] is Some && old(self).columns@[cb as int].slots@[ii] is Some) ==> self.columns@[cb as int].slots@[ii]
                            == old(self).columns@[cb as int].slots@[ii])
                    },
                forall|ii: int|
                    i <= ii < n ==> self.columns@[cb as int].slots@[ii] == old(self).columns@[cb as int].slots@[ii],
            decreases n - i,
        {
            let cur_a: Option<C> = *(&self.columns[ca].slots[i]);
            let cur_b: Option<C> = *(&self.columns[cb].slots[i]);
            match (cur_a, cur_b) {
                (Some(av), Some(bv)) => {
                    let rr = f(i, av, bv);
                    let m = &mut self.columns[cb].slots[i];
                    *m = Some(rr);
                },
                _ => {},
            }
            i += 1;
        }
        proof {
            old(self).lemma_repr();
            old(self).lemma_inv_wf();
            self.lemma_repr();
            crate::world::lemma_cols_of_update_at(old(self).columns@, self.columns@, cb as int);
            assert(self@.cols == old(self)@.cols.insert(
                key_w,
                crate::world::col_model(self.columns@[cb as int]),
            ));
            assert(self@.cols.remove(key_w) =~= old(self)@.cols.remove(key_w));
            assert forall|k: u64| #[trigger] self@.cols.contains_key(k) implies {
                &&& self@.cols[k].slots.len() == self@.entities
                &&& (self@.cols[k].state matches BorrowState::Shared(c) ==> c >= 1)
            } by {
                assert(old(self)@.cols.contains_key(k));
            }
            assert(self@.wf());
        }
        Ok(())
    }
}

} // verus!
