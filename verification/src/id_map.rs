//! Stable ids on top of the positional index.
//!
//! Every vector has an id of its own, which it keeps when other vectors are
//! added or removed.
use crate::blocks::holds_blocks;
use crate::error::{AddError, LoadError};
use crate::history::{stepped, Step};
use crate::index::{
    flags_of, law_codes_take_all_bits, law_searches_that_fit, law_vectors_lie_in_a_row, lemma_len_fits, swap_removed,
    valid_dim, vector_bytes, Encoded, IndexParts, SearchResults, Stored, TurboQuantIndex,
};
use crate::lut::{byte_groups, valid_bits};
use crate::mask::{count_true, lemma_count_all};
use crate::rank::{law_ranking_sorts, ranked};
use crate::score::{allowed_nan_free, is_nan, law_rank_keys_order_scores, rank_key, score_gt, score_key};
use crate::search::{hit_scores, hit_slots, least, lemma_result_hits_len, result_hits};
use crate::selection::{has_slot, law_no_filling, law_selects_best, lemma_result_at, lemma_result_slots};
use crate::topk::{select, Hit};
use std::collections::{HashMap, HashSet};
use vstd::prelude::*;

verus! {

broadcast use vstd::std_specs::hash::group_hash_axioms;

/// What an id-addressed index is stored as: its positional index and the id of
/// each slot.
pub struct IdMapParts {
    pub index: IndexParts,
    pub ids: Vec<u64>,
}

impl IdMapParts {
    /// True iff the index fits together and every slot has an id.
    pub open spec fn consistent(&self) -> bool {
        &&& self.index.consistent()
        &&& self.ids@.len() == self.index.n_vectors
    }

    /// Whether the index fits together and every slot has an id.
    pub fn is_consistent(&self) -> (b: bool)
        ensures
            b == self.consistent(),
    {
        self.index.is_consistent() && self.ids.len() == self.index.n_vectors
    }
}

/// True iff the `i`-th of `ids` is taken already: by a vector that is present or
/// by an earlier one of `ids`.
pub open spec fn taken(present: Set<u64>, ids: Seq<u64>, i: int) -> bool {
    present.contains(ids[i]) || exists|j: int| 0 <= j < i && #[trigger] ids[j] == ids[i]
}

/// The first of `ids`, from position `from` on, that is taken already.
pub open spec fn first_taken(present: Set<u64>, ids: Seq<u64>, from: int) -> Option<u64>
    decreases ids.len() - from,
{
    if from >= ids.len() {
        None
    } else if taken(present, ids, from) {
        Some(ids[from])
    } else {
        first_taken(present, ids, from + 1)
    }
}

/// A vector index addressed by id.
pub struct IdMapIndex {
    inner: TurboQuantIndex,
    slot_to_id: Vec<u64>,
    id_to_slot: HashMap<u64, usize>,
}

impl IdMapIndex {
    /// The positional index that holds the vectors.
    pub closed spec fn slots(&self) -> TurboQuantIndex {
        self.inner
    }

    /// The id of each slot.
    pub closed spec fn ids(&self) -> Seq<u64> {
        self.slot_to_id@
    }

    /// The slot of each id.
    pub closed spec fn slot_of(&self) -> Map<u64, usize> {
        self.id_to_slot@
    }

    /// The stored vectors by id.
    pub open spec fn view(&self) -> Map<u64, Stored> {
        Map::new(|id: u64| self.slot_of().contains_key(id), |id: u64| self.slots()@[self.slot_of()[id] as int])
    }

    /// Every slot has an id of its own, and the two tables are inverse to each
    /// other.
    pub open spec fn wf(&self) -> bool {
        &&& self.slots().wf()
        &&& self.ids().len() == self.slots()@.len()
        &&& forall|slot: int|
            0 <= slot < self.ids().len() ==> self.slot_of().contains_key(#[trigger] self.ids()[slot]) && self.slot_of()[
            self.ids()[slot]] == slot
        &&& forall|id: u64| #[trigger]
            self.slot_of().contains_key(id) ==> {
                &&& self.slot_of()[id] < self.ids().len()
                &&& self.ids()[self.slot_of()[id] as int] == id
            }
    }

    /// Dimensionality of the vectors, once committed.
    pub open spec fn dimension(&self) -> Option<usize> {
        self.slots().dimension()
    }

    /// Bits per coordinate.
    pub open spec fn width(&self) -> usize {
        self.slots().width()
    }

    /// An empty index for vectors of a known dimensionality.
    pub fn new(dim: usize, bit_width: usize) -> (index: IdMapIndex)
        requires
            valid_bits(bit_width as int),
            valid_dim(dim as int),
        ensures
            index.wf(),
            index.dimension() == Some(dim),
            index.width() == bit_width,
            index@ == Map::<u64, Stored>::empty(),
            index.ids() == Seq::<u64>::empty(),
            index.slots().cache() is None,
    {
        IdMapIndex { inner: TurboQuantIndex::new(dim, bit_width), slot_to_id: Vec::new(), id_to_slot: HashMap::new() }
    }

    /// An empty index that takes its dimensionality from the first vectors that
    /// are added with one.
    pub fn new_lazy(bit_width: usize) -> (index: IdMapIndex)
        requires
            valid_bits(bit_width as int),
        ensures
            index.wf(),
            index.dimension() is None,
            index.width() == bit_width,
            index@ == Map::<u64, Stored>::empty(),
            index.ids() == Seq::<u64>::empty(),
            index.slots().cache() is None,
    {
        IdMapIndex { inner: TurboQuantIndex::new_lazy(bit_width), slot_to_id: Vec::new(), id_to_slot: HashMap::new() }
    }

    /// What adding vectors with ids returns.
    pub open spec fn add_result(&self, vectors_len: usize, dim: usize, ids: Seq<u64>) -> Result<(), AddError> {
        if dim == 0 || vectors_len % dim != 0 {
            Err(AddError::VectorBufferNotMultipleOfDim { vectors_len, dim })
        } else if ids.len() != vectors_len / dim {
            Err(AddError::IdsCountMismatch { expected: (vectors_len / dim) as usize, got: ids.len() as usize })
        } else {
            match first_taken(self@.dom(), ids, 0) {
                Some(id) => Err(AddError::IdAlreadyPresent(id)),
                None => self.slots().add_2d_result(vectors_len, dim),
            }
        }
    }

    /// Whether vectors with these ids can be added.
    pub fn check_add_with_ids_2d(&self, vectors_len: usize, dim: usize, ids: &[u64]) -> (r: Result<(), AddError>)
        requires
            self.wf(),
        ensures
            r == self.add_result(vectors_len, dim, ids@),
    {
        if dim == 0 || vectors_len % dim != 0 {
            return Err(AddError::VectorBufferNotMultipleOfDim { vectors_len, dim });
        }
        let n: usize = vectors_len / dim;
        if ids.len() != n {
            return Err(AddError::IdsCountMismatch { expected: n, got: ids.len() });
        }
        let mut seen: HashSet<u64> = HashSet::with_capacity(n);
        let mut i: usize = 0;
        while i < ids.len()
            invariant
                self.wf(),
                dim != 0,
                vectors_len % dim == 0,
                ids@.len() == vectors_len / dim,
                i <= ids@.len(),
                first_taken(self@.dom(), ids@, 0) == first_taken(self@.dom(), ids@, i as int),
                forall|id: u64| #[trigger] seen@.contains(id) <==> exists|j: int| 0 <= j < i && #[trigger] ids@[j] == id,
            decreases ids@.len() - i,
        {
            let id: u64 = ids[i];
            let ghost before = seen@;
            assert(self@.dom().contains(id) == self.slot_of().contains_key(id));
            if self.id_to_slot.contains_key(&id) {
                return Err(AddError::IdAlreadyPresent(id));
            }
            if !seen.insert(id) {
                assert(before.contains(id));
                return Err(AddError::IdAlreadyPresent(id));
            }
            assert(!before.contains(id));
            assert forall|x: u64| #[trigger] seen@.contains(x) <==> exists|j: int|
                0 <= j < i + 1 && #[trigger] ids@[j] == x by {
                if before.contains(x) {
                    let j = choose|j: int| 0 <= j < i && #[trigger] ids@[j] == x;
                    assert(ids@[j] == x);
                }
                assert(ids@[i as int] == id);
            }
            i += 1;
        }
        self.inner.check_add_2d(vectors_len, dim)
    }

    /// Adds encoded vectors with the given ids to an index that has a
    /// dimensionality.
    pub fn add_with_ids(&mut self, vectors_len: usize, ids: &[u64], encoded: Encoded) -> (r: Result<(), AddError>)
        requires
            old(self).wf(),
            old(self).dimension() is Some,
            old(self).add_result(vectors_len, old(self).dimension()->0, ids@) is Ok ==> encoded.holds(
                ids@.len() as int,
                vector_bytes(old(self).dimension()->0 as int, old(self).width() as int),
            ),
        ensures
            final(self).wf(),
            r == old(self).add_result(vectors_len, old(self).dimension()->0, ids@),
            r is Err ==> *final(self) == *old(self),
            r is Ok ==> old(self).added(old(self).dimension()->0, ids@, encoded, *final(self)),
    {
        let dim: usize = self.inner.dim();
        self.add_with_ids_2d(vectors_len, dim, ids, encoded)
    }

    /// True iff `after` is the index with the encoded vectors added: every
    /// vector that was present is still present under its id, and each new
    /// vector is present under its own.
    pub open spec fn added(&self, dim: usize, ids: Seq<u64>, encoded: Encoded, after: IdMapIndex) -> bool {
        let vectors = encoded.vectors(vector_bytes(dim as int, self.width() as int));
        &&& after.dimension() == Some(dim)
        &&& after.width() == self.width()
        &&& after.ids() == self.ids() + ids
        &&& after.slots()@ == self.slots()@ + vectors
        &&& after.slots().cache() is None
        &&& forall|id: u64| #[trigger] after@.contains_key(id) == (self@.contains_key(id) || ids.contains(id))
        &&& forall|id: u64| self@.contains_key(id) ==> #[trigger] after@[id] == self@[id]
        &&& forall|i: int| 0 <= i < ids.len() ==> after@[#[trigger] ids[i]] == vectors[i]
    }

    /// Adds encoded vectors of dimensionality `dim` with the given ids. Either
    /// all of them are added or the index stays as it is.
    pub fn add_with_ids_2d(&mut self, vectors_len: usize, dim: usize, ids: &[u64], encoded: Encoded) -> (r: Result<
        (),
        AddError,
    >)
        requires
            old(self).wf(),
            old(self).add_result(vectors_len, dim, ids@) is Ok ==> encoded.holds(
                ids@.len() as int,
                vector_bytes(dim as int, old(self).width() as int),
            ),
        ensures
            final(self).wf(),
            r == old(self).add_result(vectors_len, dim, ids@),
            r is Err ==> *final(self) == *old(self),
            old(self).dimension() is Some ==> final(self).dimension() == old(self).dimension(),
            r is Ok ==> old(self).added(dim, ids@, encoded, *final(self)),
    {
        let r: Result<(), AddError> = self.check_add_with_ids_2d(vectors_len, dim, ids);
        if r.is_err() {
            return r;
        }
        let ghost old_ids = self.slot_to_id@;
        let ghost old_map = self.id_to_slot@;
        let ghost size = vector_bytes(dim as int, self.width() as int);
        let ghost vectors = encoded.vectors(size);
        let base_slot: usize = self.inner.len();
        proof {
            lemma_none_taken(self@.dom(), ids@, 0);
            assert(forall|id: u64| self@.dom().contains(id) == old_map.contains_key(id));
        }
        let added: Result<(), AddError> = self.inner.add_2d(vectors_len, dim, encoded);
        self.id_to_slot.reserve(ids.len());
        self.slot_to_id.reserve(ids.len());
        let total: usize = self.inner.len();
        let ghost inner = self.inner;
        let mut i: usize = 0;
        while i < ids.len()
            invariant
                i <= ids@.len(),
                base_slot == old_ids.len(),
                total == base_slot + ids@.len(),
                self.inner == inner,
                self.slot_to_id@ == old_ids + ids@.take(i as int),
                forall|p: int| 0 <= p < ids@.len() ==> !old_map.contains_key(#[trigger] ids@[p]),
                forall|p: int, q: int| 0 <= p < q < ids@.len() ==> #[trigger] ids@[p] != #[trigger] ids@[q],
                forall|id: u64| #[trigger] old_map.contains_key(id) ==> self.id_to_slot@.contains_key(id)
                    && self.id_to_slot@[id] == old_map[id],
                forall|p: int|
                    0 <= p < i ==> {
                        &&& self.id_to_slot@.contains_key(#[trigger] ids@[p])
                        &&& self.id_to_slot@[ids@[p]] == base_slot + p
                    },
                forall|id: u64| #[trigger]
                    self.id_to_slot@.contains_key(id) ==> old_map.contains_key(id) || exists|p: int|
                        0 <= p < i && #[trigger] ids@[p] == id,
            decreases ids@.len() - i,
        {
            let id: u64 = ids[i];
            let ghost before = self.id_to_slot@;
            self.id_to_slot.insert(id, base_slot + i);
            self.slot_to_id.push(id);
            proof {
                assert(ids@.take(i + 1) == ids@.take(i as int).push(id));
                assert(self.id_to_slot@ == before.insert(id, (base_slot + i) as usize));
                assert(ids@[i as int] == id);
                assert forall|x: u64| #[trigger] self.id_to_slot@.contains_key(x) implies old_map.contains_key(x)
                    || exists|p: int| 0 <= p < i + 1 && #[trigger] ids@[p] == x by {
                    if x != id && !old_map.contains_key(x) {
                        assert(before.contains_key(x));
                        let p = choose|p: int| 0 <= p < i && #[trigger] ids@[p] == x;
                        assert(ids@[p] == x);
                    }
                }
            }
            i += 1;
        }
        proof {
            assert(ids@.take(i as int) == ids@);
            assert(self.ids() == old_ids + ids@);
            assert forall|slot: int| 0 <= slot < self.ids().len() implies self.slot_of().contains_key(
                #[trigger] self.ids()[slot],
            ) && self.slot_of()[self.ids()[slot]] == slot by {
                if slot < base_slot {
                    assert(self.ids()[slot] == old(self).ids()[slot]);
                    assert(old_map.contains_key(old(self).ids()[slot]));
                } else {
                    assert(self.ids()[slot] == ids@[slot - base_slot]);
                }
            }
            assert forall|id: u64| #[trigger] self.slot_of().contains_key(id) implies self.slot_of()[id]
                < self.ids().len() && self.ids()[self.slot_of()[id] as int] == id by {
                if !old_map.contains_key(id) {
                    let p = choose|p: int| 0 <= p < i && #[trigger] ids@[p] == id;
                    assert(self.ids()[base_slot + p] == id);
                }
            }
            assert forall|id: u64| #[trigger] self@.contains_key(id) == (old(self)@.contains_key(id) || ids@.contains(
                id,
            )) by {
                if ids@.contains(id) {
                    let p = choose|p: int| 0 <= p < ids@.len() && ids@[p] == id;
                    assert(self.id_to_slot@.contains_key(ids@[p]));
                }
            }
            assert forall|id: u64| old(self)@.contains_key(id) implies #[trigger] self@[id] == old(self)@[id] by {
                assert(old_map.contains_key(id));
            }
            assert forall|p: int| 0 <= p < ids@.len() implies self@[#[trigger] ids@[p]] == vectors[p] by {
                assert(self.id_to_slot@.contains_key(ids@[p]));
                assert(self.slots()@[base_slot + p] == vectors[p]);
            }
        }
        added
    }

    /// Removes the vector with this id. Returns whether there was one.
    pub fn remove(&mut self, id: u64) -> (removed: bool)
        requires
            old(self).wf(),
        ensures
            final(self).wf(),
            removed == old(self)@.contains_key(id),
            !removed ==> *final(self) == *old(self),
            removed ==> {
                &&& final(self)@ == old(self)@.remove(id)
                &&& final(self).ids() == old(self).ids().update(
                    old(self).slot_of()[id] as int,
                    old(self).ids().last(),
                ).drop_last()
                &&& final(self).slots()@ == swap_removed(old(self).slots()@, old(self).slot_of()[id] as int)
                &&& final(self).slots().cache() is None
            },
            final(self).dimension() == old(self).dimension(),
            final(self).width() == old(self).width(),
    {
        let slot: usize = match self.id_to_slot.get(&id) {
            None => {
                return false;
            },
            Some(slot) => *slot,
        };
        let ghost ids = self.slot_to_id@;
        let ghost map = self.id_to_slot@;
        proof {
            assert(self.slot_of().contains_key(id) && map[id] == slot);
            assert(ids[slot as int] == id);
        }
        self.id_to_slot.remove(&id);
        let last: usize = self.slot_to_id.len() - 1;
        self.inner.swap_remove(slot);
        if slot != last {
            let moved_id: u64 = self.slot_to_id[last];
            self.slot_to_id[slot] = moved_id;
            self.id_to_slot.insert(moved_id, slot);
        }
        self.slot_to_id.pop();
        proof {
            let moved = ids[last as int];
            assert(map.contains_key(ids[last as int]) && map[ids[last as int]] == last);
            assert(self.ids() =~= ids.update(slot as int, ids.last()).drop_last());
            assert(self.slot_of() =~= if slot == last {
                map.remove(id)
            } else {
                map.remove(id).insert(moved, slot)
            });
            assert forall|s: int| 0 <= s < self.ids().len() implies self.slot_of().contains_key(
                #[trigger] self.ids()[s],
            ) && self.slot_of()[self.ids()[s]] == s by {
                if s != slot {
                    assert(self.ids()[s] == ids[s]);
                    assert(map.contains_key(ids[s]) && map[ids[s]] == s);
                }
            }
            assert forall|x: u64| #[trigger] self.slot_of().contains_key(x) implies self.slot_of()[x] < self.ids().len()
                && self.ids()[self.slot_of()[x] as int] == x by {
                assert(map.contains_key(x));
                assert(ids[map[x] as int] == x);
            }
            assert forall|x: u64| self@.contains_key(x) == old(self)@.remove(id).contains_key(x) by {}
            assert forall|x: u64| #[trigger] self@.contains_key(x) implies self@[x] == old(self)@.remove(id)[x] by {
                assert(map.contains_key(x));
                assert(ids[map[x] as int] == x);
            }
            assert(self@ =~= old(self)@.remove(id));
        }
        true
    }

    /// True iff there is a row of scores for each query, and the allowlist is not
    /// empty and lists only ids that are present.
    pub open spec fn searchable(&self, queries_len: usize, rows: Seq<Vec<u32>>, allowlist: Option<&[u64]>) -> bool {
        &&& self.dimension() is Some ==> self.slots().searchable(queries_len, rows, None)
        &&& match allowlist {
            None => true,
            Some(list) => {
                &&& list@.len() > 0
                &&& forall|i: int| 0 <= i < list@.len() ==> self@.contains_key(#[trigger] list@[i])
            },
        }
    }

    /// Which slots an optional allowlist leaves; without one, all of them.
    pub open spec fn allowed(&self, allowlist: Option<&[u64]>) -> Seq<bool> {
        match allowlist {
            None => Seq::new(self.ids().len(), |slot: int| true),
            Some(list) => Seq::new(self.ids().len(), |slot: int| list@.contains(self.ids()[slot])),
        }
    }

    /// True iff `res` is what a search has to return: nothing while the
    /// dimensionality is open; else for each query the scores and ids of the
    /// best `k` allowed vectors, where `k` is cut down to their number.
    pub open spec fn found(
        &self,
        rows: Seq<Vec<u32>>,
        k: usize,
        allowlist: Option<&[u64]>,
        res: (Vec<u32>, Vec<u64>),
    ) -> bool {
        if self.dimension() is None {
            res.0@ == Seq::<u32>::empty() && res.1@ == Seq::<u64>::empty()
        } else {
            let allowed = self.allowed(allowlist);
            let hits = result_hits(rows, allowed, least(k as nat, count_true(allowed)));
            &&& res.0@ == hit_scores(hits)
            &&& res.1@ == hit_ids(hits, self.ids())
        }
    }

    /// Finds the best ids of every query, given the scores of all slots.
    pub fn search(&self, queries_len: usize, rows: &Vec<Vec<u32>>, k: usize) -> (res: (Vec<u32>, Vec<u64>))
        requires
            self.wf(),
            self.searchable(queries_len, rows@, None),
        ensures
            self.found(rows@, k, None, res),
    {
        self.search_with_allowlist(queries_len, rows, k, None)
    }

    /// The flags of the slots that an allowlist leaves.
    pub fn allowlist_flags(&self, list: &[u64]) -> (flags: Vec<bool>)
        requires
            self.wf(),
            forall|i: int| 0 <= i < list@.len() ==> self@.contains_key(#[trigger] list@[i]),
        ensures
            flags@ == self.allowed(Some(list)),
    {
        let mut flags: Vec<bool> = vec![false; self.slot_to_id.len()];
        let mut i: usize = 0;
        while i < list.len()
            invariant
                self.wf(),
                i <= list@.len(),
                forall|i: int| 0 <= i < list@.len() ==> self@.contains_key(#[trigger] list@[i]),
                flags@.len() == self.ids().len(),
                forall|slot: int|
                    0 <= slot < flags@.len() ==> #[trigger] flags@[slot] == list@.take(i as int).contains(self.ids()[slot]),
            decreases list@.len() - i,
        {
            let id: u64 = list[i];
            assert(self@.contains_key(list@[i as int]));
            let ghost before = flags@;
            proof {
                assert(list@.take(i + 1) == list@.take(i as int).push(id));
            }
            match self.id_to_slot.get(&id) {
                Some(slot) => {
                    flags[*slot] = true;
                    proof {
                        let slot = self.slot_of()[id] as int;
                        let listed = list@.take(i + 1);
                        assert forall|s: int| 0 <= s < flags@.len() implies #[trigger] flags@[s] == listed.contains(
                            self.ids()[s],
                        ) by {
                            lemma_contains_push(list@.take(i as int), id, self.ids()[s]);
                            if s != slot {
                                assert(flags@[s] == before[s]);
                                assert(self.slot_of()[self.ids()[s]] == s);
                            }
                        }
                    }
                },
                None => {},
            }
            i += 1;
        }
        assert(list@.take(i as int) == list@);
        assert(flags@ =~= self.allowed(Some(list)));
        flags
    }

    /// As [`IdMapIndex::search`], restricted to the ids of the allowlist.
    pub fn search_with_allowlist(
        &self,
        queries_len: usize,
        rows: &Vec<Vec<u32>>,
        k: usize,
        allowlist: Option<&[u64]>,
    ) -> (res: (Vec<u32>, Vec<u64>))
        requires
            self.wf(),
            self.searchable(queries_len, rows@, allowlist),
        ensures
            self.found(rows@, k, allowlist, res),
    {
        let res: SearchResults = match allowlist {
            None => {
                assert(flags_of(None, self.slots()@.len()) =~= self.allowed(allowlist));
                self.inner.search_with_mask(queries_len, rows, k, None)
            },
            Some(list) => {
                let flags: Vec<bool> = self.allowlist_flags(list);
                self.inner.search_with_mask(queries_len, rows, k, Some(flags.as_slice()))
            },
        };
        let n: usize = self.slot_to_id.len();
        let ghost allowed = self.allowed(allowlist);
        let ghost hits = result_hits(rows@, allowed, res.k as nat);
        proof {
            if self.dimension() is Some {
                lemma_result_slots(rows@, allowed, res.k as nat);
            }
        }
        let mut ids: Vec<u64> = Vec::new();
        let mut i: usize = 0;
        while i < res.indices.len()
            invariant
                self.wf(),
                i <= res.indices@.len(),
                self.dimension() is Some ==> res.indices@ == hit_slots(hits),
                self.dimension() is None ==> res.indices@.len() == 0,
                forall|j: int|
                    0 <= j < hits.len() && self.dimension() is Some ==> (#[trigger] hits[j]).slot < self.ids().len(),
                self.ids().len() <= i64::MAX || self.dimension() is None,
                self.dimension() is Some ==> ids@ == hit_ids(hits, self.ids()).take(i as int),
                ids@.len() == i,
            decreases res.indices@.len() - i,
        {
            assert(hits[i as int].slot < self.ids().len());
            let slot: usize = res.indices[i] as usize;
            ids.push(self.slot_to_id[slot]);
            assert(hit_ids(hits, self.ids()).take(i + 1) == hit_ids(hits, self.ids()).take(i as int).push(
                self.ids()[slot as int],
            ));
            i += 1;
        }
        proof {
            if self.dimension() is Some {
                assert(hit_ids(hits, self.ids()).take(i as int) == hit_ids(hits, self.ids()));
            } else {
                assert(ids@ =~= Seq::<u64>::empty());
            }
        }
        (res.scores, ids)
    }

    /// Whether there is a vector with this id.
    pub fn contains(&self, id: u64) -> (b: bool)
        requires
            self.wf(),
        ensures
            b == self@.contains_key(id),
    {
        self.id_to_slot.contains_key(&id)
    }

    /// Number of vectors.
    pub fn len(&self) -> (n: usize)
        requires
            self.wf(),
        ensures
            n == self@.len(),
            n == self.ids().len(),
    {
        proof {
            law_one_id_per_vector(*self);
        }
        self.slot_to_id.len()
    }

    /// Whether there is no vector.
    pub fn is_empty(&self) -> (b: bool)
        requires
            self.wf(),
        ensures
            b == (self@.len() == 0),
    {
        proof {
            law_one_id_per_vector(*self);
        }
        self.slot_to_id.len() == 0
    }

    /// Dimensionality of the vectors, zero while it is open.
    pub fn dim(&self) -> (dim: usize)
        ensures
            dim == match self.dimension() {
                Some(d) => d,
                None => 0,
            },
    {
        self.inner.dim()
    }

    /// Dimensionality of the vectors, if it is committed.
    pub fn dim_opt(&self) -> (dim: Option<usize>)
        ensures
            dim == self.dimension(),
    {
        self.inner.dim_opt()
    }

    /// Bits per coordinate.
    pub fn bit_width(&self) -> (bits: usize)
        ensures
            bits == self.width(),
    {
        self.inner.bit_width()
    }

    /// The positional index that holds the vectors.
    pub fn index(&self) -> (index: &TurboQuantIndex)
        ensures
            *index == self.slots(),
    {
        &self.inner
    }

    /// Caches the blocked layout of the codes, as [`TurboQuantIndex::prepare`].
    pub fn prepare(&mut self, data: Vec<u8>)
        requires
            old(self).wf(),
            old(self).dimension() is Some && old(self).slots().cache() is None ==> holds_blocks(
                data@,
                old(self).ids().len() as int,
                byte_groups(old(self).dimension()->0 as int, old(self).width() as int),
            ),
        ensures
            final(self).wf(),
            final(self)@ == old(self)@,
            final(self).ids() == old(self).ids(),
            final(self).slots()@ == old(self).slots()@,
            final(self).slots().state() == stepped(old(self).slots().state(), Step::Cache(data@)),
            final(self).dimension() == old(self).dimension(),
            final(self).width() == old(self).width(),
            old(self).dimension() is None || old(self).slots().cache() is Some ==> *final(self) == *old(self),
            old(self).dimension() is Some && old(self).slots().cache() is None ==> final(self).slots().cache() == Some(
                data@,
            ),
    {
        self.inner.prepare(data);
        assert(self@ =~= old(self)@);
    }

    /// The parts to store the index as.
    pub fn write(&self) -> (parts: IdMapParts)
        requires
            self.wf(),
        ensures
            parts.consistent(),
            self.has_parts(parts),
    {
        let ids: Vec<u64> = self.slot_to_id.clone();
        assert(ids@ =~= self.slot_to_id@);
        IdMapParts { index: self.inner.write(), ids }
    }

    /// True iff `parts` are what the index is stored as.
    pub open spec fn has_parts(&self, parts: IdMapParts) -> bool {
        &&& self.slots().has_parts(parts.index)
        &&& parts.ids@ == self.ids()
    }

    /// The index that `parts` were stored from; an error if an id occurs twice.
    pub fn load(parts: IdMapParts) -> (r: Result<IdMapIndex, LoadError>)
        requires
            parts.consistent(),
        ensures
            match r {
                Ok(index) => {
                    &&& parts.ids@.no_duplicates()
                    &&& index.wf()
                    &&& index.has_parts(parts)
                    &&& index.slots().cache() is None
                },
                Err(e) => !parts.ids@.no_duplicates() && e == LoadError::DuplicateIds,
            },
    {
        let inner: TurboQuantIndex = TurboQuantIndex::load(parts.index);
        let slot_to_id: Vec<u64> = parts.ids;
        let mut id_to_slot: HashMap<u64, usize> = HashMap::new();
        let mut slot: usize = 0;
        while slot < slot_to_id.len()
            invariant
                slot <= slot_to_id@.len(),
                slot_to_id@ == parts.ids@,
                forall|s: int|
                    0 <= s < slot ==> {
                        &&& id_to_slot@.contains_key(#[trigger] slot_to_id@[s])
                        &&& id_to_slot@[slot_to_id@[s]] == s
                    },
                forall|id: u64| #[trigger]
                    id_to_slot@.contains_key(id) ==> id_to_slot@[id] < slot && slot_to_id@[id_to_slot@[id] as int] == id,
            decreases slot_to_id@.len() - slot,
        {
            let id: u64 = slot_to_id[slot];
            if id_to_slot.contains_key(&id) {
                proof {
                    let s = id_to_slot@[id] as int;
                    assert(parts.ids@[s] == parts.ids@[slot as int] && s != slot);
                }
                return Err(LoadError::DuplicateIds);
            }
            let ghost before = id_to_slot@;
            id_to_slot.insert(id, slot);
            assert(id_to_slot@ == before.insert(id, slot));
            slot += 1;
        }
        proof {
            assert forall|s: int, t: int|
                0 <= s < slot_to_id@.len() && 0 <= t < slot_to_id@.len() && s != t implies slot_to_id@[s] != slot_to_id@[t] by {
                assert(id_to_slot@[slot_to_id@[s]] == s && id_to_slot@[slot_to_id@[t]] == t);
            }
            assert(parts.ids@.no_duplicates());
        }
        Ok(IdMapIndex { inner, slot_to_id, id_to_slot })
    }
}

/// What the last push added to the members of a sequence.
proof fn lemma_contains_push(s: Seq<u64>, x: u64, y: u64)
    ensures
        s.push(x).contains(y) == (s.contains(y) || y == x),
{
    if s.contains(y) {
        let i = choose|i: int| 0 <= i < s.len() && s[i] == y;
        assert(s.push(x)[i] == y);
    }
    if y == x {
        assert(s.push(x)[s.len() as int] == y);
    }
    if s.push(x).contains(y) && y != x {
        let i = choose|i: int| 0 <= i < s.push(x).len() && s.push(x)[i] == y;
        assert(s[i] == y);
    }
}

/// The ids of a sequence of hits.
pub open spec fn hit_ids(hits: Seq<Hit>, ids: Seq<u64>) -> Seq<u64> {
    hits.map_values(|h: Hit| ids[h.slot as int])
}

/// There are as many vectors as there are ids, and no two slots have the same id.
pub proof fn law_one_id_per_vector(index: IdMapIndex)
    requires
        index.wf(),
    ensures
        index.ids().no_duplicates(),
        index@.dom() == index.ids().to_set(),
        index@.dom().finite(),
        index@.len() == index.ids().len(),
        index@.len() == index.slots()@.len(),
{
    let ids = index.ids();
    assert forall|s: int, t: int| 0 <= s < ids.len() && 0 <= t < ids.len() && s != t implies ids[s] != ids[t] by {
        assert(index.slot_of()[ids[s]] == s && index.slot_of()[ids[t]] == t);
    }
    ids.unique_seq_to_set();
    assert forall|id: u64| index@.dom().contains(id) == ids.to_set().contains(id) by {
        if index@.dom().contains(id) {
            assert(index.slot_of().contains_key(id));
            assert(ids[index.slot_of()[id] as int] == id);
        }
    }
    assert(index@.dom() =~= ids.to_set());
    vstd::seq_lib::seq_to_set_is_finite(ids);
}

/// Where none of the ids is taken, none is present and no two are equal.
proof fn lemma_none_taken(present: Set<u64>, ids: Seq<u64>, from: int)
    requires
        0 <= from <= ids.len(),
        first_taken(present, ids, from) is None,
    ensures
        forall|i: int| from <= i < ids.len() ==> !present.contains(#[trigger] ids[i]),
        forall|i: int, j: int| 0 <= i < j && from <= j < ids.len() ==> #[trigger] ids[i] != #[trigger] ids[j],
    decreases ids.len() - from,
{
    if from < ids.len() {
        lemma_none_taken(present, ids, from + 1);
        assert(!taken(present, ids, from));
    }
}

/// A search returns only ids that are present and, with an allowlist, listed;
/// each with the score that the query gives its slot.
pub proof fn law_found_ids_are_allowed(
    index: IdMapIndex,
    queries_len: usize,
    rows: Seq<Vec<u32>>,
    k: usize,
    allowlist: Option<&[u64]>,
    res: (Vec<u32>, Vec<u64>),
    i: int,
)
    requires
        index.wf(),
        index.searchable(queries_len, rows, allowlist),
        index.found(rows, k, allowlist, res),
        0 <= i < res.1@.len(),
    ensures
        index@.contains_key(res.1@[i]),
        allowlist is Some ==> allowlist->0@.contains(res.1@[i]),
{
    let allowed = index.allowed(allowlist);
    let kk = least(k as nat, count_true(allowed));
    let hits = result_hits(rows, allowed, kk);
    lemma_len_fits(index.slots());
    lemma_result_slots(rows, allowed, kk);
    assert(hits[i].slot < allowed.len() && allowed[hits[i].slot as int]);
    assert(res.1@[i] == index.ids()[hits[i].slot as int]);
}

/// Of a query every id comes with the score that the query gives its slot, no id
/// comes twice, and scores never rise.
pub proof fn law_found_ids_differ(
    index: IdMapIndex,
    queries_len: usize,
    rows: Seq<Vec<u32>>,
    k: usize,
    allowlist: Option<&[u64]>,
    res: (Vec<u32>, Vec<u64>),
    kk: nat,
    q: int,
    i: int,
    j: int,
)
    requires
        index.wf(),
        index.dimension() is Some,
        index.searchable(queries_len, rows, allowlist),
        index.found(rows, k, allowlist, res),
        kk == least(k as nat, count_true(index.allowed(allowlist))),
        0 <= q < rows.len(),
        0 <= i < kk,
        0 <= j < kk,
    ensures
        res.0@.len() == rows.len() * kk,
        res.1@.len() == rows.len() * kk,
        res.0@[q * kk + i] == rows[q]@[index.slot_of()[res.1@[q * kk + i]] as int],
        i < j ==> res.1@[q * kk + i] != res.1@[q * kk + j],
        i < j ==> rank_key(res.0@[q * kk + i]) >= rank_key(res.0@[q * kk + j]),
{
    let allowed = index.allowed(allowlist);
    let row = rows[q]@;
    let best = ranked(select(row, allowed, kk));
    lemma_len_fits(index.slots());
    lemma_result_hits_len(rows, allowed, kk);
    law_no_filling(row, allowed, kk);
    law_ranking_sorts(select(row, allowed, kk));
    lemma_result_at(rows, allowed, kk, q, i);
    lemma_result_at(rows, allowed, kk, q, j);
    assert(best[i].slot < row.len() && best[j].slot < row.len());
    assert(index.slot_of()[index.ids()[best[i].slot as int]] == best[i].slot);
    assert(index.slot_of()[index.ids()[best[j].slot as int]] == best[j].slot);
    if i < j {
        assert(best[i].slot != best[j].slot);
        assert(rank_key(best[i].score) >= rank_key(best[j].score));
    }
}

/// No id that a search may return, but that a query did not return, scores higher
/// than one that it did return, where the query scores no such id NaN.
pub proof fn law_found_ids_are_best(
    index: IdMapIndex,
    queries_len: usize,
    rows: Seq<Vec<u32>>,
    k: usize,
    allowlist: Option<&[u64]>,
    res: (Vec<u32>, Vec<u64>),
    kk: nat,
    q: int,
    id: u64,
    i: int,
)
    requires
        index.wf(),
        index.dimension() is Some,
        index.searchable(queries_len, rows, allowlist),
        index.found(rows, k, allowlist, res),
        kk == least(k as nat, count_true(index.allowed(allowlist))),
        0 <= q < rows.len(),
        allowed_nan_free(rows[q]@, index.allowed(allowlist)),
        index@.contains_key(id),
        allowlist is Some ==> allowlist->0@.contains(id),
        forall|j: int| 0 <= j < kk ==> #[trigger] res.1@[q * kk + j] != id,
        0 <= i < kk,
    ensures
        score_key(rows[q]@[index.slot_of()[id] as int]) <= score_key(res.0@[q * kk + i]),
{
    let allowed = index.allowed(allowlist);
    let row = rows[q]@;
    let best = ranked(select(row, allowed, kk));
    let slot = index.slot_of()[id] as int;
    lemma_len_fits(index.slots());
    law_no_filling(row, allowed, kk);
    law_selects_best(row, allowed, kk);
    assert(index.slot_of().contains_key(id));
    assert(index.ids()[slot] == id);
    assert(allowed[slot]);
    if has_slot(best, slot) {
        let j = choose|j: int| 0 <= j < best.len() && (#[trigger] best[j]).slot == slot;
        lemma_result_at(rows, allowed, kk, q, j);
        assert(res.1@[q * kk + j] == id);
    }
    lemma_result_at(rows, allowed, kk, q, i);
    assert(score_key(row[slot]) <= score_key(best[i].score));
}

/// An id that is not present is never found; in particular not one that was
/// removed.
pub proof fn law_absent_id_is_not_found(
    index: IdMapIndex,
    queries_len: usize,
    rows: Seq<Vec<u32>>,
    k: usize,
    allowlist: Option<&[u64]>,
    res: (Vec<u32>, Vec<u64>),
    id: u64,
)
    requires
        index.wf(),
        index.searchable(queries_len, rows, allowlist),
        index.found(rows, k, allowlist, res),
        !index@.contains_key(id),
    ensures
        !res.1@.contains(id),
{
    if res.1@.contains(id) {
        let i = choose|i: int| 0 <= i < res.1@.len() && res.1@[i] == id;
        law_found_ids_are_allowed(index, queries_len, rows, k, allowlist, res, i);
    }
}

/// An allowlist leaves as many slots as it lists different ids: listing an id
/// twice changes nothing.
pub proof fn law_allowlist_counts_once(index: IdMapIndex, list: &[u64])
    requires
        index.wf(),
        forall|i: int| 0 <= i < list@.len() ==> index@.contains_key(#[trigger] list@[i]),
    ensures
        count_true(index.allowed(Some(list))) == list@.to_set().len(),
{
    let allowed = index.allowed(Some(list));
    let n = allowed.len() as int;
    law_one_id_per_vector(index);
    lemma_allowed_ids(index.ids(), allowed, n);
    assert(allowed.take(n) == allowed);
    let kept = allowed_ids(index.ids(), allowed, n);
    kept.unique_seq_to_set();
    assert forall|id: u64| kept.to_set().contains(id) == list@.to_set().contains(id) by {
        if kept.to_set().contains(id) {
            let i = choose|i: int| 0 <= i < kept.len() && kept[i] == id;
            assert(is_allowed_id(index.ids(), allowed, n, kept[i]));
        }
        if list@.contains(id) {
            let j = choose|j: int| 0 <= j < list@.len() && list@[j] == id;
            assert(index@.contains_key(list@[j]));
            let slot = index.slot_of()[id] as int;
            assert(index.slot_of().contains_key(id));
            assert(index.ids()[slot] == id);
            assert(allowed[slot]);
        }
    }
    assert(kept.to_set() =~= list@.to_set());
}

/// The ids of the allowed slots below `hi`.
spec fn allowed_ids(ids: Seq<u64>, allowed: Seq<bool>, hi: int) -> Seq<u64>
    decreases hi,
{
    if hi <= 0 {
        Seq::empty()
    } else if allowed[hi - 1] {
        allowed_ids(ids, allowed, hi - 1).push(ids[hi - 1])
    } else {
        allowed_ids(ids, allowed, hi - 1)
    }
}

/// True iff `id` is the id of an allowed slot below `hi`.
spec fn is_allowed_id(ids: Seq<u64>, allowed: Seq<bool>, hi: int, id: u64) -> bool {
    exists|slot: int| 0 <= slot < hi && allowed[slot] && #[trigger] ids[slot] == id
}

proof fn lemma_allowed_ids(ids: Seq<u64>, allowed: Seq<bool>, hi: int)
    requires
        ids.no_duplicates(),
        ids.len() == allowed.len(),
        0 <= hi <= ids.len(),
    ensures
        ({
            let kept = allowed_ids(ids, allowed, hi);
            &&& kept.len() == count_true(allowed.take(hi))
            &&& kept.no_duplicates()
            &&& forall|i: int| 0 <= i < kept.len() ==> is_allowed_id(ids, allowed, hi, #[trigger] kept[i])
            &&& forall|slot: int| 0 <= slot < hi && #[trigger] allowed[slot] ==> kept.contains(ids[slot])
        }),
    decreases hi,
{
    if hi > 0 {
        lemma_allowed_ids(ids, allowed, hi - 1);
        let before = allowed_ids(ids, allowed, hi - 1);
        let kept = allowed_ids(ids, allowed, hi);
        assert(allowed.take(hi).drop_last() == allowed.take(hi - 1));
        assert(allowed.take(hi).last() == allowed[hi - 1]);
        assert forall|i: int| 0 <= i < kept.len() implies is_allowed_id(ids, allowed, hi, #[trigger] kept[i]) by {
            if i < before.len() {
                assert(kept[i] == before[i]);
                assert(is_allowed_id(ids, allowed, hi - 1, before[i]));
            } else {
                assert(ids[hi - 1] == kept[i]);
            }
        }
        assert forall|slot: int| 0 <= slot < hi && #[trigger] allowed[slot] implies kept.contains(ids[slot]) by {
            if allowed[hi - 1] {
                lemma_contains_push(before, ids[hi - 1], ids[slot]);
            }
        }
        if allowed[hi - 1] {
            assert forall|i: int, j: int|
                0 <= i < kept.len() && 0 <= j < kept.len() && i != j implies kept[i] != kept[j] by {
                if i < before.len() {
                    assert(is_allowed_id(ids, allowed, hi - 1, before[i]));
                    let s = choose|s: int| 0 <= s < hi - 1 && allowed[s] && #[trigger] ids[s] == before[i];
                    assert(ids[s] != ids[hi - 1]);
                }
                if j < before.len() {
                    assert(is_allowed_id(ids, allowed, hi - 1, before[j]));
                    let t = choose|t: int| 0 <= t < hi - 1 && allowed[t] && #[trigger] ids[t] == before[j];
                    assert(ids[t] != ids[hi - 1]);
                }
            }
        }
    } else {
        assert(allowed.take(0).len() == 0);
    }
}

/// Removing an id that an allowlist does not list leaves the allowlist valid.
pub proof fn law_allowlist_survives_remove(before: IdMapIndex, after: IdMapIndex, id: u64, list: &[u64])
    requires
        after@ == before@.remove(id),
        !list@.contains(id),
        forall|i: int| 0 <= i < list@.len() ==> before@.contains_key(#[trigger] list@[i]),
    ensures
        forall|i: int|
            0 <= i < list@.len() ==> after@.contains_key(#[trigger] list@[i]) && after@[list@[i]] == before@[list@[i]],
{
}

/// An id that is not present can be given to a new vector; in particular one
/// that was removed.
pub proof fn law_absent_id_is_free(index: IdMapIndex, dim: usize, id: u64)
    requires
        dim > 0,
        !index@.contains_key(id),
    ensures
        index.add_result(dim, dim, seq![id]) == index.slots().add_2d_result(dim, dim),
{
    let ids = seq![id];
    assert(dim % dim == 0 && dim / dim == 1) by (nonlinear_arith)
        requires
            dim > 0,
    ;
    assert(!taken(index@.dom(), ids, 0));
    assert(first_taken(index@.dom(), ids, 1) is None);
}

/// Adding a vector under a new id and removing that id again leaves the vectors
/// as they were.
pub proof fn law_remove_undoes_add(
    before: IdMapIndex,
    after: IdMapIndex,
    last: IdMapIndex,
    dim: usize,
    id: u64,
    encoded: Encoded,
)
    requires
        !before@.contains_key(id),
        before.added(dim, seq![id], encoded, after),
        last@ == after@.remove(id),
    ensures
        last@ == before@,
{
    assert(seq![id][0] == id);
    assert forall|x: u64| last@.contains_key(x) == before@.contains_key(x) by {
        assert(after@.contains_key(x) == (before@.contains_key(x) || seq![id].contains(x)));
    }
    assert forall|x: u64| #[trigger] last@.contains_key(x) implies last@[x] == before@[x] by {
        assert(before@.contains_key(x));
        assert(after@[x] == before@[x]);
    }
    assert(last@ =~= before@);
}

/// What is found depends on the ids, the dimensionality and the scores alone, so
/// that preparing, which keeps the ids and the dimensionality, never shows.
pub proof fn law_same_ids_find_the_same(
    a: IdMapIndex,
    b: IdMapIndex,
    rows: Seq<Vec<u32>>,
    k: usize,
    allowlist: Option<&[u64]>,
    res_a: (Vec<u32>, Vec<u64>),
    res_b: (Vec<u32>, Vec<u64>),
)
    requires
        a.ids() == b.ids(),
        a.dimension() == b.dimension(),
        a.found(rows, k, allowlist, res_a),
        b.found(rows, k, allowlist, res_b),
    ensures
        res_a.0@ == res_b.0@,
        res_a.1@ == res_b.1@,
{
}

/// What was stored comes back: two indexes with the same parts hold the same
/// vectors under the same ids.
pub proof fn law_parts_restore_ids(a: IdMapIndex, b: IdMapIndex, parts: IdMapParts)
    requires
        a.wf(),
        b.wf(),
        a.has_parts(parts),
        b.has_parts(parts),
    ensures
        a@ == b@,
        a.ids() == b.ids(),
        a.slots()@ == b.slots()@,
        a.dimension() == b.dimension(),
        a.width() == b.width(),
{
    assert forall|id: u64| a.slot_of().contains_key(id) == b.slot_of().contains_key(id) && (a.slot_of().contains_key(id)
        ==> a.slot_of()[id] == b.slot_of()[id]) by {
        if a.slot_of().contains_key(id) {
            assert(a.ids()[a.slot_of()[id] as int] == id);
            assert(b.slot_of().contains_key(b.ids()[a.slot_of()[id] as int]));
        }
        if b.slot_of().contains_key(id) {
            assert(b.ids()[b.slot_of()[id] as int] == id);
            assert(a.slot_of().contains_key(a.ids()[b.slot_of()[id] as int]));
        }
    }
    assert(a@ =~= b@);
}

/// What a well-formed index was stored as never holds an id twice, so it can
/// always be restored.
pub proof fn law_stored_ids_differ(index: IdMapIndex, parts: IdMapParts)
    requires
        index.wf(),
        index.has_parts(parts),
    ensures
        parts.ids@.no_duplicates(),
{
    law_one_id_per_vector(index);
}


/// The first taken id from `from` on is one of the ids that is present or came
/// before, and none between is.
proof fn lemma_first_taken(present: Set<u64>, ids: Seq<u64>, from: int) -> (at: int)
    requires
        0 <= from <= ids.len(),
        first_taken(present, ids, from) is Some,
    ensures
        from <= at < ids.len(),
        first_taken(present, ids, from) == Some(ids[at]),
        taken(present, ids, at),
        forall|i: int| from <= i < at ==> !taken(present, ids, i),
    decreases ids.len() - from,
{
    if taken(present, ids, from) {
        from
    } else {
        lemma_first_taken(present, ids, from + 1)
    }
}

/// Ids of which none is present and none comes twice are all free.
proof fn lemma_all_free(present: Set<u64>, ids: Seq<u64>, from: int)
    requires
        0 <= from <= ids.len(),
        forall|i: int| 0 <= i < ids.len() ==> !present.contains(#[trigger] ids[i]),
        ids.no_duplicates(),
    ensures
        first_taken(present, ids, from) is None,
    decreases ids.len() - from,
{
    if from < ids.len() {
        lemma_all_free(present, ids, from + 1);
    }
}

/// Free ids can be added, in whatever order they come: where there is one id for
/// each vector, none of them is in the index and none comes twice, the vectors are
/// taken whenever the positional index takes them.
pub proof fn law_free_ids_can_be_added(index: IdMapIndex, vectors_len: usize, dim: usize, ids: Seq<u64>)
    requires
        dim > 0,
        vectors_len == ids.len() * dim,
        forall|i: int| 0 <= i < ids.len() ==> !index@.contains_key(#[trigger] ids[i]),
        ids.no_duplicates(),
    ensures
        index.add_result(vectors_len, dim, ids) == index.slots().add_2d_result(vectors_len, dim),
{
    let (n, d) = (ids.len() as int, dim as int);
    vstd::arithmetic::div_mod::lemma_fundamental_div_mod_converse(n * d, d, n, 0);
    assert forall|i: int| 0 <= i < ids.len() implies !index@.dom().contains(#[trigger] ids[i]) by {
        assert(!index@.contains_key(ids[i]));
    }
    lemma_all_free(index@.dom(), ids, 0);
}

/// What adding with ids gives, for everything that can be wrong. A buffer that is
/// no whole number of vectors is refused first, then another number of ids than of
/// vectors, then the first id that is in the index or came before in the call;
/// whatever is left is up to the positional index.
pub proof fn law_refused_ids(index: IdMapIndex, vectors_len: usize, dim: usize, ids: Seq<u64>)
    requires
        ids.len() <= usize::MAX,
    ensures
        ({
            let r = index.add_result(vectors_len, dim, ids);
            let whole = dim != 0 && vectors_len % dim == 0;
            let free = ids.no_duplicates() && forall|i: int|
                0 <= i < ids.len() ==> !index@.contains_key(#[trigger] ids[i]);
            &&& !whole ==> r == Err::<(), AddError>(AddError::VectorBufferNotMultipleOfDim { vectors_len, dim })
            &&& whole && ids.len() * dim != vectors_len ==> (r matches Err(AddError::IdsCountMismatch { expected, got })
                && expected * dim == vectors_len && got == ids.len())
            &&& whole && ids.len() * dim == vectors_len && free ==> r == index.slots().add_2d_result(vectors_len, dim)
            &&& whole && ids.len() * dim == vectors_len && !free ==> exists|i: int|
                {
                    &&& 0 <= i < ids.len()
                    &&& r == Err::<(), AddError>(AddError::IdAlreadyPresent(#[trigger] ids[i]))
                    &&& index@.contains_key(ids[i]) || exists|j: int| 0 <= j < i && #[trigger] ids[j] == ids[i]
                    &&& forall|j: int| 0 <= j < i ==> !index@.contains_key(#[trigger] ids[j])
                    &&& ids.take(i).no_duplicates()
                }
        }),
{
    let whole = dim != 0 && vectors_len % dim == 0;
    if whole {
        let (n, d) = (ids.len() as int, dim as int);
        let m = vectors_len as int / d;
        vstd::arithmetic::div_mod::lemma_fundamental_div_mod(vectors_len as int, d);
        assert(m * d == vectors_len) by (nonlinear_arith)
            requires
                vectors_len == d * m + 0,
        ;
        assert(n * d == vectors_len <==> n == m) by (nonlinear_arith)
            requires
                m * d == vectors_len,
                d > 0,
        ;
        if n == m {
            let present = index@.dom();
            if first_taken(present, ids, 0) is None {
                lemma_none_taken(present, ids, 0);
                assert(ids.no_duplicates()) by {
                    assert forall|i: int, j: int| 0 <= i < ids.len() && 0 <= j < ids.len() && i != j implies ids[i]
                        != ids[j] by {
                        if i < j {
                            assert(ids[i] != ids[j]);
                        } else {
                            assert(ids[j] != ids[i]);
                        }
                    }
                }
                assert forall|i: int| 0 <= i < ids.len() implies !index@.contains_key(#[trigger] ids[i]) by {
                    assert(!present.contains(ids[i]));
                }
            } else {
                let at = lemma_first_taken(present, ids, 0);
                assert(ids[at] == ids[at]);
                assert forall|j: int| 0 <= j < at implies !index@.contains_key(#[trigger] ids[j]) by {
                    assert(!taken(present, ids, j));
                }
                let before = ids.take(at);
                assert(before.no_duplicates()) by {
                    assert forall|i: int, j: int| 0 <= i < before.len() && 0 <= j < before.len() && i != j implies before[i]
                        != before[j] by {
                        if i < j {
                            assert(!taken(present, ids, j));
                            assert(ids[i] == before[i]);
                        } else {
                            assert(!taken(present, ids, i));
                            assert(ids[j] == before[j]);
                        }
                    }
                }
                if !index@.contains_key(ids[at]) {
                    let j = choose|j: int| 0 <= j < at && #[trigger] ids[j] == ids[at];
                    assert(!ids.no_duplicates());
                }
            }
        }
    }
}

/// What was added is there: each id has the vector that came with it, every id
/// that was there keeps its own, and there are no others.
pub proof fn law_added_ids_have_their_vectors(
    before: IdMapIndex,
    after: IdMapIndex,
    dim: usize,
    size: int,
    ids: Seq<u64>,
    encoded: Encoded,
    i: int,
    id: u64,
)
    requires
        before.wf(),
        dim % 8 == 0,
        before.added(dim, ids, encoded, after),
        8 * size == dim * before.width(),
        encoded.scales@.len() == ids.len(),
        encoded.packed_codes@.len() == ids.len() * size,
    ensures
        after@.contains_key(id) <==> before@.contains_key(id) || ids.contains(id),
        before@.contains_key(id) ==> after@[id] == before@[id],
        0 <= i < ids.len() ==> {
            &&& after@.contains_key(ids[i])
            &&& after@[ids[i]].scale == encoded.scales@[i]
            &&& after@[ids[i]].codes.len() == size
            &&& forall|b: int|
                0 <= b < size ==> #[trigger] after@[ids[i]].codes[b] == encoded.packed_codes@[i * size + b]
        },
        after.dimension() == Some(dim),
        after.width() == before.width(),
        after.ids() == before.ids() + ids,
{
    law_codes_take_all_bits(dim as int, before.width() as int);
    assert(size == vector_bytes(dim as int, before.width() as int));
    assert(0 <= dim * before.width()) by (nonlinear_arith);
    if 0 <= i < ids.len() {
        law_vectors_lie_in_a_row(encoded, ids.len() as int, size, i);
        assert(ids.contains(ids[i]));
        assert(after@[ids[i]] == encoded.vectors(size)[i]);
    }
}

/// Each slot has its id and each id its vector: the vector in a slot is the one
/// that the id of the slot gives.
pub proof fn law_ids_give_vectors(index: IdMapIndex, slot: int, id: u64)
    requires
        index.wf(),
    ensures
        index.ids().len() == index.slots()@.len(),
        0 <= slot < index.ids().len() ==> index@.contains_key(index.ids()[slot]) && index@[index.ids()[slot]]
            == index.slots()@[slot],
        index@.contains_key(id) <==> index.ids().contains(id),
{
    if index.ids().contains(id) {
        let s = choose|s: int| 0 <= s < index.ids().len() && index.ids()[s] == id;
        assert(index.slot_of().contains_key(index.ids()[s]));
    }
    if index@.contains_key(id) {
        assert(index.ids()[index.slot_of()[id] as int] == id);
    }
}

/// A vector may be returned iff there is no allowlist or its id is on it.
pub proof fn law_allowlist_is_kept_to(index: IdMapIndex, allowlist: Option<&[u64]>, slot: int)
    ensures
        index.allowed(allowlist).len() == index.ids().len(),
        0 <= slot < index.ids().len() ==> (index.allowed(allowlist)[slot] <==> allowlist is None
            || allowlist->0@.contains(index.ids()[slot])),
{
}

/// Any allowlist of ids that are present can be searched with, if it is not empty.
pub proof fn law_allowlists_that_fit(
    index: IdMapIndex,
    queries_len: usize,
    rows: Seq<Vec<u32>>,
    allowlist: Option<&[u64]>,
)
    requires
        index.dimension() is Some ==> index.slots().searchable(queries_len, rows, None),
        allowlist is Some ==> allowlist->0@.len() > 0,
        allowlist is Some ==> forall|i: int|
            0 <= i < allowlist->0@.len() ==> index@.contains_key(#[trigger] allowlist->0@[i]),
    ensures
        index.searchable(queries_len, rows, allowlist),
{
}

/// What a search by id finds: as many ids per query as are asked for, or as there
/// are vectors, or different ids on the allowlist, if those are fewer; each of a
/// vector that may be returned and with the score that the query gives it, none
/// twice, and none followed by one that scores higher.
pub proof fn law_search_finds_ids(
    index: IdMapIndex,
    dim: usize,
    queries_len: usize,
    rows: Seq<Vec<u32>>,
    k: usize,
    allowlist: Option<&[u64]>,
    res: (Vec<u32>, Vec<u64>),
    per_query: nat,
    q: int,
    i: int,
    j: int,
)
    requires
        index.wf(),
        index.dimension() == Some(dim),
        index.found(rows, k, allowlist, res),
        rows.len() * dim == queries_len,
        forall|q: int| 0 <= q < rows.len() ==> (#[trigger] rows[q])@.len() == index.ids().len(),
        index.ids().len() <= i64::MAX,
        allowlist is Some ==> allowlist->0@.len() > 0,
        allowlist is Some ==> forall|i: int|
            0 <= i < allowlist->0@.len() ==> index@.contains_key(#[trigger] allowlist->0@[i]),
        ({
            let most = match allowlist {
                None => index.ids().len(),
                Some(list) => list@.to_set().len(),
            };
            per_query == if k <= most {
                k as nat
            } else {
                most
            }
        }),
    ensures
        res.0@.len() == rows.len() * per_query,
        res.1@.len() == rows.len() * per_query,
        0 <= q < rows.len() && 0 <= i < per_query ==> {
            let id = res.1@[q * per_query + i];
            &&& index@.contains_key(id)
            &&& allowlist is Some ==> allowlist->0@.contains(id)
            &&& exists|slot: int|
                0 <= slot < index.ids().len() && #[trigger] index.ids()[slot] == id && res.0@[q * per_query + i]
                    == rows[q]@[slot]
        },
        0 <= q < rows.len() && 0 <= i < j < per_query ==> res.1@[q * per_query + i] != res.1@[q * per_query + j],
        0 <= q < rows.len() && 0 <= i < j < per_query ==> !score_gt(
            res.0@[q * per_query + j],
            res.0@[q * per_query + i],
        ),
{
    let allowed = index.allowed(allowlist);
    law_searches_that_fit(index.slots(), dim, rows, None);
    law_one_id_per_vector(index);
    match allowlist {
        None => lemma_count_all(allowed),
        Some(list) => law_allowlist_counts_once(index, list),
    }
    assert(per_query == least(k as nat, count_true(allowed)));
    lemma_result_hits_len(rows, allowed, per_query);
    if 0 <= q < rows.len() && 0 <= i < per_query {
        assert(0 <= q * per_query + i < rows.len() * per_query) by (nonlinear_arith)
            requires
                0 <= q < rows.len(),
                0 <= i < per_query,
        ;
        law_found_ids_differ(index, queries_len, rows, k, allowlist, res, per_query, q, i, i);
        law_found_ids_are_allowed(index, queries_len, rows, k, allowlist, res, q * per_query + i);
        let id = res.1@[q * per_query + i];
        assert(index.ids()[index.slot_of()[id] as int] == id);
        if i < j < per_query {
            law_found_ids_differ(index, queries_len, rows, k, allowlist, res, per_query, q, i, j);
            law_rank_keys_order_scores(res.0@[q * per_query + j], res.0@[q * per_query + i]);
        }
    }
}

/// A search by id finds the best: where a query gives no vector that may be
/// returned NaN, none of them whose id it did not find scores higher than one that
/// it found.
pub proof fn law_search_finds_best_ids(
    index: IdMapIndex,
    dim: usize,
    queries_len: usize,
    rows: Seq<Vec<u32>>,
    k: usize,
    allowlist: Option<&[u64]>,
    res: (Vec<u32>, Vec<u64>),
    per_query: nat,
    q: int,
    slot: int,
    i: int,
)
    requires
        index.wf(),
        index.dimension() == Some(dim),
        index.found(rows, k, allowlist, res),
        rows.len() * dim == queries_len,
        forall|q: int| 0 <= q < rows.len() ==> (#[trigger] rows[q])@.len() == index.ids().len(),
        index.ids().len() <= i64::MAX,
        allowlist is Some ==> allowlist->0@.len() > 0,
        allowlist is Some ==> forall|i: int|
            0 <= i < allowlist->0@.len() ==> index@.contains_key(#[trigger] allowlist->0@[i]),
        0 <= q < rows.len(),
        res.1@.len() == rows.len() * per_query,
        forall|s: int|
            0 <= s < index.ids().len() && (allowlist is None || allowlist->0@.contains(index.ids()[s])) ==> !is_nan(
                #[trigger] rows[q]@[s],
            ),
        0 <= slot < index.ids().len(),
        allowlist is None || allowlist->0@.contains(index.ids()[slot]),
        forall|j: int| 0 <= j < per_query ==> #[trigger] res.1@[q * per_query + j] != index.ids()[slot],
        0 <= i < per_query,
    ensures
        !score_gt(rows[q]@[slot], res.0@[q * per_query + i]),
{
    let allowed = index.allowed(allowlist);
    let kk = least(k as nat, count_true(allowed));
    law_searches_that_fit(index.slots(), dim, rows, None);
    lemma_result_hits_len(rows, allowed, kk);
    assert(per_query == kk) by (nonlinear_arith)
        requires
            rows.len() * per_query == rows.len() * kk,
            rows.len() > 0,
    ;
    assert forall|s: int| 0 <= s < rows[q]@.len() && #[trigger] allowed[s] implies !is_nan(rows[q]@[s]) by {
        assert(allowlist is None || allowlist->0@.contains(index.ids()[s]));
    }
    let id = index.ids()[slot];
    assert(index.slot_of().contains_key(id) && index.slot_of()[id] == slot);
    law_found_ids_are_best(index, queries_len, rows, k, allowlist, res, kk, q, id, i);
}

/// While the dimensionality is open a search by id finds nothing.
pub proof fn law_open_index_finds_nothing(
    index: IdMapIndex,
    rows: Seq<Vec<u32>>,
    k: usize,
    allowlist: Option<&[u64]>,
    res: (Vec<u32>, Vec<u64>),
)
    requires
        index.dimension() is None,
        index.found(rows, k, allowlist, res),
    ensures
        res.0@.len() == 0,
        res.1@.len() == 0,
{
}

/// Parts fit together iff those of the positional index do and there is an id for
/// each vector; they are those of an index iff the ids are those of its slots.
pub proof fn law_parts_with_ids(index: IdMapIndex, parts: IdMapParts)
    ensures
        parts.consistent() <==> parts.index.consistent() && parts.ids@.len() == parts.index.n_vectors,
        index.has_parts(parts) <==> index.slots().has_parts(parts.index) && parts.ids@ == index.ids(),
{
}
} // verus!
