//! The positional index: quantized vectors addressed by slot.
//!
//! The index holds what encoding made of the vectors: packed codes and one
//! scale per vector. Vectors are turned into codes, and queries into scores, by
//! the caller. Scales and scores are bit patterns of single-precision floats.
use crate::blocks::{blocks_for, holds_blocks, n_blocks, skipped_blocks};
use crate::error::AddError;
use crate::history::{fresh, stepped, Contents, State, Step};
use crate::interleaved::{
    lane_codes, law_sum_is_over_all_coordinates, search_multi_query, search_multi_query_pairs, slot_sums,
};
use crate::lut::{
    byte_groups, code_at, law_groups_cover_coordinates, max_entry, n_byte_groups, tables_fit, valid_bits,
};
use crate::mask::{
    allowed_slots, allows, count_flags, count_true, covers, law_count_is_number_set, law_packing_keeps_flags,
    lemma_count_all, lemma_count_bound, pack_mask, BlockSkips,
};
use crate::rank::{law_ranking_sorts, ranked};
use crate::score::{allowed_nan_free, is_nan, law_rank_keys_order_scores, rank_key, score_gt, score_key};
use crate::search::{hit_scores, hit_slots, least, lemma_result_row_len, result_hits, search};
use crate::selection::{has_slot, law_mask_is_post_filter, law_no_filling, law_selects_best, lemma_result_at};
use crate::sequential::{lane_lookups, look_up_slots, mask_passes, queries_at, score_queries};
use crate::topk::{select, Hit};
use vstd::prelude::*;
use vstd::slice::slice_subrange;

verus! {

/// A stored vector: its packed codes and its scale.
#[verifier::ext_equal]
pub struct Stored {
    pub codes: Seq<u8>,
    pub scale: u32,
}

/// The `i`-th piece of a sequence cut into pieces of equal size.
pub open spec fn piece(s: Seq<u8>, size: int, i: int) -> Seq<u8> {
    s.subrange(i * size, (i + 1) * size)
}

/// The vectors that packed codes and scales stand for.
pub open spec fn stored(packed: Seq<u8>, scales: Seq<u32>, size: int) -> Seq<Stored> {
    Seq::new(scales.len(), |i: int| Stored { codes: piece(packed, size, i), scale: scales[i] })
}

/// Number of bytes that the packed codes of a vector take.
pub open spec fn vector_bytes(dim: int, bit_width: int) -> int {
    dim * bit_width / 8
}

/// True iff an index can have this dimensionality.
pub open spec fn valid_dim(dim: int) -> bool {
    dim >= 8 && dim % 8 == 0
}

/// Vectors turned into packed codes, with one scale each.
pub struct Encoded {
    pub packed_codes: Vec<u8>,
    pub scales: Vec<u32>,
}

impl Encoded {
    /// True iff this holds `n` vectors of `size` bytes each.
    pub open spec fn holds(&self, n: int, size: int) -> bool {
        &&& self.scales@.len() == n
        &&& self.packed_codes@.len() == n * size
    }

    /// The encoded vectors.
    pub open spec fn vectors(&self, size: int) -> Seq<Stored> {
        stored(self.packed_codes@, self.scales@, size)
    }
}

/// A blocked layout, with the number of its blocks.
struct BlockedCache {
    data: Vec<u8>,
    n_blocks: usize,
    /// The packed codes that were current when the layout was cached.
    codes_then: Ghost<Seq<u8>>,
}

/// What an index is stored as. A dimensionality of zero stands for one that is
/// not committed yet.
pub struct IndexParts {
    pub bit_width: usize,
    pub dim: usize,
    pub n_vectors: usize,
    pub packed_codes: Vec<u8>,
    pub scales: Vec<u32>,
}

impl IndexParts {
    /// True iff the parts fit together.
    pub open spec fn consistent(&self) -> bool {
        &&& valid_bits(self.bit_width as int)
        &&& self.dim == 0 || valid_dim(self.dim as int)
        &&& self.dim == 0 ==> self.n_vectors == 0
        &&& self.scales@.len() == self.n_vectors
        &&& self.packed_codes@.len() == self.n_vectors * vector_bytes(self.dim as int, self.bit_width as int)
    }

    /// Whether the parts fit together.
    pub fn is_consistent(&self) -> (b: bool)
        ensures
            b == self.consistent(),
    {
        if self.bit_width < 2 || self.bit_width > 4 || self.scales.len() != self.n_vectors {
            return false;
        }
        if self.dim == 0 {
            proof {
                lemma_vector_bytes(0, self.bit_width as int);
            }
            return self.n_vectors == 0 && self.packed_codes.len() == 0;
        }
        if self.dim % 8 != 0 {
            return false;
        }
        let size: usize = bytes_per_vector(self.dim, self.bit_width);
        assert(self.n_vectors * size <= 0xFFFF_FFFF_FFFF_FFFF * 0xFFFF_FFFF_FFFF_FFFF) by (nonlinear_arith)
            requires
                self.n_vectors <= 0xFFFF_FFFF_FFFF_FFFF,
                size <= 0xFFFF_FFFF_FFFF_FFFF,
        ;
        let want: u128 = self.n_vectors as u128 * size as u128;
        self.packed_codes.len() as u128 == want
    }
}

/// Results of a search: per query `k` scores and slots, best first.
pub struct SearchResults {
    pub scores: Vec<u32>,
    pub indices: Vec<i64>,
    pub nq: usize,
    pub k: usize,
}

impl SearchResults {
    /// The scores of query `qi`.
    pub fn scores_for_query(&self, qi: usize) -> (row: &[u32])
        requires
            (qi + 1) * self.k <= self.scores@.len(),
            qi < usize::MAX,
        ensures
            row@ == self.scores@.subrange(qi * self.k, (qi + 1) * self.k),
    {
        let n: usize = self.scores.len();
        assert(0 <= qi * self.k <= (qi + 1) * self.k) by (nonlinear_arith);
        slice_subrange(self.scores.as_slice(), qi * self.k, (qi + 1) * self.k)
    }

    /// The slots of query `qi`.
    pub fn indices_for_query(&self, qi: usize) -> (row: &[i64])
        requires
            (qi + 1) * self.k <= self.indices@.len(),
            qi < usize::MAX,
        ensures
            row@ == self.indices@.subrange(qi * self.k, (qi + 1) * self.k),
    {
        let n: usize = self.indices.len();
        assert(0 <= qi * self.k <= (qi + 1) * self.k) by (nonlinear_arith);
        slice_subrange(self.indices.as_slice(), qi * self.k, (qi + 1) * self.k)
    }
}

/// A vector takes as many bytes as a coordinate has bits for every eight
/// coordinates.
proof fn lemma_vector_bytes(dim: int, bit_width: int)
    requires
        dim >= 0,
        dim % 8 == 0,
        bit_width >= 0,
    ensures
        vector_bytes(dim, bit_width) == dim / 8 * bit_width,
        vector_bytes(dim, bit_width) >= 0,
        dim == 0 ==> vector_bytes(dim, bit_width) == 0,
{
    let eighth = dim / 8;
    assert(dim * bit_width == (eighth * bit_width) * 8) by (nonlinear_arith)
        requires
            dim == eighth * 8,
    ;
    assert(eighth * bit_width >= 0) by (nonlinear_arith)
        requires
            eighth >= 0,
            bit_width >= 0,
    ;
    assert(eighth == 0 ==> eighth * bit_width == 0);
}

/// Number of bytes that the packed codes of a vector take.
fn bytes_per_vector(dim: usize, bit_width: usize) -> (size: usize)
    requires
        dim % 8 == 0,
        valid_bits(bit_width as int),
    ensures
        size == vector_bytes(dim as int, bit_width as int),
{
    proof {
        lemma_vector_bytes(dim as int, bit_width as int);
    }
    let eighth: usize = dim / 8;
    assert(0 <= eighth * bit_width <= eighth * 4) by (nonlinear_arith)
        requires
            bit_width <= 4,
    ;
    eighth * bit_width
}

/// A whole number of pieces ends where the next one starts.
proof fn lemma_piece_bounds(n: int, size: int, i: int)
    requires
        0 <= i < n,
        0 <= size,
    ensures
        0 <= i * size <= (i + 1) * size <= n * size,
        (i + 1) * size == i * size + size,
{
    assert(0 <= i * size <= (i + 1) * size <= n * size && (i + 1) * size == i * size + size) by (nonlinear_arith)
        requires
            0 <= i < n,
            0 <= size,
    ;
}

/// Appending codes and scales appends the vectors they stand for.
proof fn lemma_stored_append(p: Seq<u8>, s: Seq<u32>, q: Seq<u8>, t: Seq<u32>, size: int)
    requires
        0 <= size,
        p.len() == s.len() * size,
        q.len() == t.len() * size,
    ensures
        stored(p + q, s + t, size) == stored(p, s, size) + stored(q, t, size),
        (p + q).len() == (s + t).len() * size,
{
    let n = s.len() as int;
    assert((n + t.len()) * size == n * size + t.len() * size) by (nonlinear_arith);
    assert forall|i: int| 0 <= i < n + t.len() implies #[trigger] stored(p + q, s + t, size)[i] == (stored(p, s, size)
        + stored(q, t, size))[i] by {
        lemma_piece_bounds(n + t.len(), size, i);
        if i < n {
            lemma_piece_bounds(n, size, i);
            assert(piece(p + q, size, i) =~= piece(p, size, i));
        } else {
            lemma_piece_bounds(t.len() as int, size, i - n);
            assert(i * size == n * size + (i - n) * size) by (nonlinear_arith);
            assert((i + 1) * size == n * size + (i - n + 1) * size) by (nonlinear_arith);
            assert(piece(p + q, size, i) =~= piece(q, size, i - n));
        }
    }
    assert(stored(p + q, s + t, size) =~= stored(p, s, size) + stored(q, t, size));
}

/// What a sequence of vectors is after the one in `idx` was replaced by the last
/// one and the last one was dropped.
pub open spec fn swap_removed(vectors: Seq<Stored>, idx: int) -> Seq<Stored> {
    vectors.update(idx, vectors.last()).drop_last()
}

/// Copying the last piece over piece `idx` and dropping the last piece removes
/// the vector at `idx`.
proof fn lemma_stored_swap_remove(
    p: Seq<u8>,
    s: Seq<u32>,
    p2: Seq<u8>,
    s2: Seq<u32>,
    size: int,
    idx: int,
)
    requires
        0 <= size,
        0 <= idx < s.len(),
        p.len() == s.len() * size,
        p2.len() == (s.len() - 1) * size,
        s2 == s.update(idx, s.last()).drop_last(),
        forall|j: int|
            0 <= j < p2.len() ==> #[trigger] p2[j] == if idx * size <= j < (idx + 1) * size {
                p[(s.len() - 1) * size + (j - idx * size)]
            } else {
                p[j]
            },
    ensures
        stored(p2, s2, size) == swap_removed(stored(p, s, size), idx),
{
    let n = s.len() as int;
    let want = swap_removed(stored(p, s, size), idx);
    lemma_piece_bounds(n, size, idx);
    lemma_piece_bounds(n, size, n - 1);
    assert forall|i: int| 0 <= i < n - 1 implies #[trigger] stored(p2, s2, size)[i] == want[i] by {
        lemma_piece_bounds(n - 1, size, i);
        if i == idx {
            assert(piece(p2, size, i) =~= piece(p, size, n - 1));
        } else {
            assert((i + 1) * size <= idx * size || (idx + 1) * size <= i * size) by (nonlinear_arith)
                requires
                    i != idx,
                    0 <= size,
            ;
            assert(piece(p2, size, i) =~= piece(p, size, i));
        }
    }
    assert(stored(p2, s2, size) =~= want);
}

/// Which slots an optional list of flags allows; without one, all of them.
pub open spec fn flags_of(mask: Option<&[bool]>, n: nat) -> Seq<bool> {
    match mask {
        None => Seq::new(n, |i: int| true),
        Some(flags) => flags@,
    }
}

/// A quantized vector index.
pub struct TurboQuantIndex {
    dim: Option<usize>,
    bit_width: usize,
    n_vectors: usize,
    packed_codes: Vec<u8>,
    scales: Vec<u32>,
    blocked: Option<BlockedCache>,
}

impl TurboQuantIndex {
    /// Dimensionality of the vectors, once committed.
    pub closed spec fn dimension(&self) -> Option<usize> {
        self.dim
    }

    /// Bits per coordinate.
    pub closed spec fn width(&self) -> usize {
        self.bit_width
    }

    /// The packed codes of all vectors.
    pub closed spec fn codes(&self) -> Seq<u8> {
        self.packed_codes@
    }

    /// The scales of all vectors.
    pub closed spec fn vector_scales(&self) -> Seq<u32> {
        self.scales@
    }

    /// The blocked layout, if it is cached.
    pub closed spec fn cache(&self) -> Option<Seq<u8>> {
        match self.blocked {
            None => None,
            Some(c) => Some(c.data@),
        }
    }

    /// The packed codes that were current when the cached layout was cached.
    pub closed spec fn codes_when_cached(&self) -> Seq<u8> {
        self.blocked->0.codes_then@
    }

    /// Number of bytes per vector; zero while the dimensionality is open.
    pub open spec fn bytes_each(&self) -> int {
        match self.dimension() {
            None => 0,
            Some(dim) => vector_bytes(dim as int, self.width() as int),
        }
    }

    /// The stored vectors, by slot.
    pub open spec fn view(&self) -> Seq<Stored> {
        stored(self.codes(), self.vector_scales(), self.bytes_each())
    }

    /// What the index holds and has cached.
    pub open spec fn state(&self) -> State {
        State {
            contents: Contents { dim: self.dimension(), width: self.width(), vectors: self@ },
            cache: self.cache(),
        }
    }

    /// The codes and scales fit the dimensionality, an index without one is
    /// empty, and a cached blocked layout was cached with the current codes.
    pub closed spec fn wf(&self) -> bool {
        &&& valid_bits(self.bit_width as int)
        &&& self.scales@.len() == self.n_vectors
        &&& self.packed_codes@.len() == self.n_vectors * self.bytes_each()
        &&& match self.dim {
            None => self.n_vectors == 0 && self.blocked is None,
            Some(dim) => valid_dim(dim as int) && match self.blocked {
                None => true,
                Some(c) => {
                    &&& c.codes_then@ == self.packed_codes@
                    &&& c.n_blocks == blocks_for(self.n_vectors as int)
                    &&& holds_blocks(
                        c.data@,
                        self.n_vectors as int,
                        byte_groups(dim as int, self.bit_width as int),
                    )
                },
            },
        }
    }

    /// An empty index for vectors of a known dimensionality.
    pub fn new(dim: usize, bit_width: usize) -> (index: TurboQuantIndex)
        requires
            valid_bits(bit_width as int),
            valid_dim(dim as int),
        ensures
            index.wf(),
            index.dimension() == Some(dim),
            index.width() == bit_width,
            index@ == Seq::<Stored>::empty(),
            index.cache() is None,
            index.state() == fresh(Some(dim), bit_width),
    {
        TurboQuantIndex {
            dim: Some(dim),
            bit_width,
            n_vectors: 0,
            packed_codes: Vec::new(),
            scales: Vec::new(),
            blocked: None,
        }
    }

    /// An empty index that takes its dimensionality from the first vectors that
    /// are added with one.
    pub fn new_lazy(bit_width: usize) -> (index: TurboQuantIndex)
        requires
            valid_bits(bit_width as int),
        ensures
            index.wf(),
            index.dimension() is None,
            index.width() == bit_width,
            index@ == Seq::<Stored>::empty(),
            index.cache() is None,
            index.state() == fresh(None, bit_width),
    {
        TurboQuantIndex {
            dim: None,
            bit_width,
            n_vectors: 0,
            packed_codes: Vec::new(),
            scales: Vec::new(),
            blocked: None,
        }
    }

    /// Appends encoded vectors. `vectors_len` is the number of coordinates that
    /// were encoded.
    pub fn add(&mut self, vectors_len: usize, encoded: Encoded)
        requires
            old(self).wf(),
            old(self).dimension() is Some,
            vectors_len % old(self).dimension()->0 == 0,
            encoded.holds((vectors_len / old(self).dimension()->0) as int, old(self).bytes_each()),
        ensures
            final(self).wf(),
            final(self)@ == old(self)@ + encoded.vectors(old(self).bytes_each()),
            final(self).dimension() == old(self).dimension(),
            final(self).width() == old(self).width(),
            final(self).cache() is None,
            final(self).codes() == old(self).codes() + encoded.packed_codes@,
            final(self).vector_scales() == old(self).vector_scales() + encoded.scales@,
            final(self).state() == stepped(
                old(self).state(),
                Step::Add(encoded.vectors(old(self).bytes_each())),
            ),
    {
        let mut encoded: Encoded = encoded;
        proof {
            let size = self.bytes_each();
            lemma_vector_bytes(self.dim->0 as int, self.bit_width as int);
            lemma_stored_append(self.packed_codes@, self.scales@, encoded.packed_codes@, encoded.scales@, size);
            if self.n_vectors == 0 {
                assert(self.packed_codes@ + encoded.packed_codes@ =~= encoded.packed_codes@);
                assert(self.scales@ + encoded.scales@ =~= encoded.scales@);
            }
        }
        if self.n_vectors == 0 {
            self.packed_codes = encoded.packed_codes;
            self.scales = encoded.scales;
        } else {
            self.packed_codes.append(&mut encoded.packed_codes);
            self.scales.append(&mut encoded.scales);
        }
        self.n_vectors = self.scales.len();
        self.blocked = None;
    }

    /// Whether `vectors_len` coordinates can be added as vectors of dimensionality
    /// `dim`.
    pub fn check_add_2d(&self, vectors_len: usize, dim: usize) -> (r: Result<(), AddError>)
        requires
            self.wf(),
        ensures
            r == self.add_2d_result(vectors_len, dim),
    {
        match self.dim {
            Some(existing) => if existing != dim {
                return Err(AddError::DimMismatch { existing, got: dim });
            },
            None => if dim % 8 != 0 {
                return Err(AddError::DimNotMultipleOf8(dim));
            },
        }
        if dim == 0 || vectors_len % dim != 0 {
            return Err(AddError::VectorBufferNotMultipleOfDim { vectors_len, dim });
        }
        Ok(())
    }

    /// What adding `vectors_len` coordinates as vectors of dimensionality `dim`
    /// returns: an error if the dimensionality is not that of the index, if an
    /// open one cannot be committed to it, or if the coordinates are not a whole
    /// number of vectors.
    pub open spec fn add_2d_result(&self, vectors_len: usize, dim: usize) -> Result<(), AddError> {
        if self.dimension() is Some && self.dimension()->0 != dim {
            Err(AddError::DimMismatch { existing: self.dimension()->0, got: dim })
        } else if self.dimension() is None && dim % 8 != 0 {
            Err(AddError::DimNotMultipleOf8(dim))
        } else if dim == 0 || vectors_len % dim != 0 {
            Err(AddError::VectorBufferNotMultipleOfDim { vectors_len, dim })
        } else {
            Ok(())
        }
    }

    /// Appends encoded vectors of dimensionality `dim`, to which an index
    /// without a dimensionality commits itself.
    pub fn add_2d(&mut self, vectors_len: usize, dim: usize, encoded: Encoded) -> (r: Result<(), AddError>)
        requires
            old(self).wf(),
            old(self).add_2d_result(vectors_len, dim) is Ok ==> encoded.holds(
                (vectors_len / dim) as int,
                vector_bytes(dim as int, old(self).width() as int),
            ),
        ensures
            final(self).wf(),
            r == old(self).add_2d_result(vectors_len, dim),
            r is Err ==> *final(self) == *old(self),
            old(self).dimension() is Some ==> final(self).dimension() == old(self).dimension(),
            r is Ok ==> {
                &&& final(self)@ == old(self)@ + encoded.vectors(vector_bytes(dim as int, old(self).width() as int))
                &&& final(self).dimension() == Some(dim)
                &&& final(self).width() == old(self).width()
                &&& final(self).cache() is None
                &&& final(self).codes() == old(self).codes() + encoded.packed_codes@
                &&& final(self).vector_scales() == old(self).vector_scales() + encoded.scales@
                &&& final(self).state() == stepped(
                    old(self).state(),
                    Step::AddWithDim(dim, encoded.vectors(vector_bytes(dim as int, old(self).width() as int))),
                )
            },
    {
        let r: Result<(), AddError> = self.check_add_2d(vectors_len, dim);
        if r.is_err() {
            return r;
        }
        if self.dim.is_none() {
            self.dim = Some(dim);
            proof {
                assert(self@ =~= Seq::<Stored>::empty());
                assert(old(self)@ =~= Seq::<Stored>::empty());
            }
        }
        self.add(vectors_len, encoded);
        r
    }

    /// Finds the best slots of every query, given the scores of all slots.
    pub fn search(&self, queries_len: usize, rows: &Vec<Vec<u32>>, k: usize) -> (res: SearchResults)
        requires
            self.wf(),
            self.dimension() is Some ==> self.searchable(queries_len, rows@, None),
        ensures
            self.found(queries_len, rows@, k, None, res),
    {
        self.search_with_mask(queries_len, rows, k, None)
    }

    /// True iff there is a row of scores for each query and a flag for each slot.
    pub open spec fn searchable(&self, queries_len: usize, rows: Seq<Vec<u32>>, mask: Option<&[bool]>) -> bool {
        &&& queries_len % self.dimension()->0 == 0
        &&& rows.len() == queries_len / self.dimension()->0
        &&& forall|q: int| 0 <= q < rows.len() ==> (#[trigger] rows[q])@.len() == self@.len()
        &&& mask is Some ==> mask->0@.len() == self@.len()
        &&& self@.len() <= i64::MAX
    }

    /// True iff `res` is what a search has to return: nothing at all while the
    /// dimensionality is open; else for each query the best `k` allowed slots,
    /// where `k` is cut down to their number.
    pub open spec fn found(
        &self,
        queries_len: usize,
        rows: Seq<Vec<u32>>,
        k: usize,
        mask: Option<&[bool]>,
        res: SearchResults,
    ) -> bool {
        match self.dimension() {
            None => {
                &&& res.scores@ == Seq::<u32>::empty()
                &&& res.indices@ == Seq::<i64>::empty()
                &&& res.nq == 0
                &&& res.k == 0
            },
            Some(dim) => {
                let allowed = flags_of(mask, self@.len());
                &&& res.nq == queries_len / dim
                &&& res.k == least(k as nat, count_true(allowed))
                &&& res.scores@ == hit_scores(result_hits(rows, allowed, res.k as nat))
                &&& res.indices@ == hit_slots(result_hits(rows, allowed, res.k as nat))
                &&& res.scores@.len() == res.nq * res.k
                &&& res.indices@.len() == res.nq * res.k
            },
        }
    }

    /// As [`TurboQuantIndex::search`], restricted to the slots whose flag is set.
    pub fn search_with_mask(
        &self,
        queries_len: usize,
        rows: &Vec<Vec<u32>>,
        k: usize,
        mask: Option<&[bool]>,
    ) -> (res: SearchResults)
        requires
            self.wf(),
            self.dimension() is Some ==> self.searchable(queries_len, rows@, mask),
        ensures
            self.found(queries_len, rows@, k, mask, res),
    {
        let dim: usize = match self.dim {
            None => {
                return SearchResults { scores: Vec::new(), indices: Vec::new(), nq: 0, k: 0 };
            },
            Some(dim) => dim,
        };
        let nq: usize = queries_len / dim;
        let effective_k: usize = self.effective_k(k, mask);
        let ghost allowed = flags_of(mask, self@.len());
        let (scores, indices) = match mask {
            None => {
                proof {
                    assert(allowed_slots(None, self@.len()) =~= allowed);
                    lemma_count_all(allowed);
                }
                search(rows, self.n_vectors, k, None)
            },
            Some(flags) => {
                let words: Vec<u64> = pack_mask(flags);
                let packed: &[u64] = words.as_slice();
                proof {
                    law_packing_keeps_flags(packed, flags@);
                }
                search(rows, self.n_vectors, k, Some(packed))
            },
        };
        SearchResults { scores, indices, nq, k: effective_k }
    }

    /// Number of results per query: `k`, but no more than there are allowed
    /// slots.
    pub fn effective_k(&self, k: usize, mask: Option<&[bool]>) -> (n: usize)
        requires
            self.wf(),
        ensures
            n == least(k as nat, count_true(flags_of(mask, self@.len()))),
    {
        let n_allowed: usize = match mask {
            None => {
                proof {
                    lemma_count_all(flags_of(None, self@.len()));
                }
                self.n_vectors
            },
            Some(flags) => count_flags(flags),
        };
        if k < n_allowed {
            k
        } else {
            n_allowed
        }
    }

    /// Caches the blocked layout of the codes. Does nothing while the
    /// dimensionality is open or when a blocked layout is cached already.
    ///
    /// That `data` is that layout is up to the caller: how codes are packed is
    /// known only where they are encoded, so nothing is said of `data` here but
    /// its size.
    pub fn prepare(&mut self, data: Vec<u8>)
        requires
            old(self).wf(),
            old(self).dimension() is Some && old(self).cache() is None ==> holds_blocks(
                data@,
                old(self)@.len() as int,
                byte_groups(old(self).dimension()->0 as int, old(self).width() as int),
            ),
        ensures
            final(self).wf(),
            final(self)@ == old(self)@,
            final(self).dimension() == old(self).dimension(),
            final(self).width() == old(self).width(),
            final(self).codes() == old(self).codes(),
            final(self).vector_scales() == old(self).vector_scales(),
            old(self).dimension() is None || old(self).cache() is Some ==> *final(self) == *old(self),
            old(self).dimension() is Some && old(self).cache() is None ==> {
                &&& final(self).cache() == Some(data@)
                &&& final(self).codes_when_cached() == old(self).codes()
            },
            final(self).state() == stepped(old(self).state(), Step::Cache(data@)),
    {
        if self.dim.is_none() || self.blocked.is_some() {
            return;
        }
        let n: usize = n_blocks(self.n_vectors);
        let ghost codes = self.packed_codes@;
        self.blocked = Some(BlockedCache { data, n_blocks: n, codes_then: Ghost(codes) });
    }

    /// The cached blocked layout.
    pub fn blocked(&self) -> (data: Option<&Vec<u8>>)
        requires
            self.wf(),
        ensures
            match data {
                None => self.cache() is None,
                Some(d) => {
                    &&& self.cache() == Some(d@)
                    &&& self.codes_when_cached() == self.codes()
                    &&& self.dimension() is Some
                    &&& holds_blocks(
                        d@,
                        self@.len() as int,
                        byte_groups(self.dimension()->0 as int, self.width() as int),
                    )
                },
            },
    {
        match &self.blocked {
            None => None,
            Some(c) => Some(&c.data),
        }
    }

    /// Sums of all slots for a batch of queries, block by block over the cached
    /// interleaved layout; none if no layout is cached.
    pub fn interleaved_sums(&self, luts: &Vec<Vec<u8>>, mask: Option<&[u64]>, skips: &mut BlockSkips) -> (rows: Option<
        Vec<Vec<u16>>,
    >)
        requires
            self.wf(),
            self.dimension() is Some,
            covers(mask, self@.len() as int),
            tables_fit(luts@, self.groups()),
        ensures
            self.interleaved_scored(luts@, mask, rows),
            final(skips)@ == self.skips_after(mask, 1, old(skips)@),
    {
        let dim: usize = self.dim();
        match &self.blocked {
            None => None,
            Some(c) => Some(
                search_multi_query(
                    c.data.as_slice(),
                    luts,
                    n_byte_groups(dim, self.bit_width),
                    self.n_vectors,
                    mask,
                    skips,
                ),
            ),
        }
    }

    /// As [`TurboQuantIndex::interleaved_sums`], two blocks at a time.
    pub fn interleaved_pair_sums(&self, luts: &Vec<Vec<u8>>, mask: Option<&[u64]>, skips: &mut BlockSkips) -> (rows:
        Option<Vec<Vec<u16>>>)
        requires
            self.wf(),
            self.dimension() is Some,
            covers(mask, self@.len() as int),
            tables_fit(luts@, self.groups()),
        ensures
            self.interleaved_scored(luts@, mask, rows),
            final(skips)@ == self.skips_after(mask, 1, old(skips)@),
    {
        let dim: usize = self.dim();
        match &self.blocked {
            None => None,
            Some(c) => Some(
                search_multi_query_pairs(
                    c.data.as_slice(),
                    luts,
                    n_byte_groups(dim, self.bit_width),
                    self.n_vectors,
                    mask,
                    skips,
                ),
            ),
        }
    }

    /// Sums of all slots for a batch of queries over the cached sequential
    /// layout, one row per batch of groups; none if no layout is cached.
    pub fn sequential_sums(&self, luts: &Vec<Vec<u8>>, mask: Option<&[u64]>, skips: &mut BlockSkips) -> (rows: Option<
        Vec<Vec<Vec<u16>>>,
    >)
        requires
            self.wf(),
            self.dimension() is Some,
            covers(mask, self@.len() as int),
            tables_fit(luts@, self.groups()),
        ensures
            rows is Some == self.cache() is Some,
            rows is Some ==> queries_at(
                rows->0@,
                self.cache()->0,
                luts@,
                self.groups(),
                self@.len() as int,
                mask,
                self@.len() as int,
            ),
            final(skips)@ == self.skips_after(mask, mask_passes(luts@.len() as int), old(skips)@),
    {
        let dim: usize = self.dim();
        match &self.blocked {
            None => None,
            Some(c) => Some(
                score_queries(
                    c.data.as_slice(),
                    luts,
                    n_byte_groups(dim, self.bit_width),
                    self.n_vectors,
                    mask,
                    skips,
                ),
            ),
        }
    }

    /// Lookups of all allowed slots for one query over the cached sequential
    /// layout; none if no layout is cached.
    pub fn slot_lookups(&self, lut: &Vec<u8>, mask: Option<&[u64]>, skips: &mut BlockSkips) -> (slots: Option<
        Vec<Vec<u8>>,
    >)
        requires
            self.wf(),
            self.dimension() is Some,
            covers(mask, self@.len() as int),
            lut@.len() == self.groups() * 32,
        ensures
            slots is Some == self.cache() is Some,
            slots is Some ==> slots->0@.len() == self@.len(),
            slots is Some ==> forall|slot: int|
                0 <= slot < self@.len() ==> (#[trigger] slots->0@[slot])@ == if allows(mask, slot) {
                    lane_lookups(self.cache()->0, lut@, slot / 32, self.groups(), slot % 32)
                } else {
                    Seq::empty()
                },
            final(skips)@ == self.skips_after(mask, 1, old(skips)@),
    {
        let dim: usize = self.dim();
        match &self.blocked {
            None => None,
            Some(c) => Some(
                look_up_slots(
                    c.data.as_slice(),
                    lut,
                    n_byte_groups(dim, self.bit_width),
                    self.n_vectors,
                    mask,
                    skips,
                ),
            ),
        }
    }

    /// Number of byte groups that the codes of a vector take, once the
    /// dimensionality is committed.
    pub open spec fn groups(&self) -> int {
        byte_groups(self.dimension()->0 as int, self.width() as int)
    }

    /// True iff `rows` are the sums of all slots over the cached interleaved
    /// layout, and are there iff a layout is cached.
    pub open spec fn interleaved_scored(
        &self,
        luts: Seq<Vec<u8>>,
        mask: Option<&[u64]>,
        rows: Option<Vec<Vec<u16>>>,
    ) -> bool {
        &&& rows is Some == self.cache() is Some
        &&& rows is Some ==> rows->0@.len() == luts.len()
        &&& rows is Some ==> forall|q: int|
            0 <= q < luts.len() ==> (#[trigger] rows->0@[q])@ == slot_sums(
                self.cache()->0,
                luts[q]@,
                self.groups(),
                self@.len() as int,
                mask,
            )
    }

    /// The block-skip counter after scoring that tests the blocks against the
    /// mask `passes` times; as it was if no layout is cached.
    pub open spec fn skips_after(&self, mask: Option<&[u64]>, passes: int, before: u64) -> int {
        if self.cache() is Some {
            (before + passes * skipped_blocks(mask, self@.len() as int)) % 0x1_0000_0000_0000_0000
        } else {
            before as int
        }
    }

    /// The parts to store the index as.
    pub fn write(&self) -> (parts: IndexParts)
        requires
            self.wf(),
        ensures
            parts.consistent(),
            self.has_parts(parts),
    {
        let dim: usize = self.dim();
        let packed_codes: Vec<u8> = self.packed_codes.clone();
        let scales: Vec<u32> = self.scales.clone();
        proof {
            assert(packed_codes@ =~= self.packed_codes@);
            assert(scales@ =~= self.scales@);
            if self.dim is None {
                lemma_vector_bytes(0, self.bit_width as int);
            }
        }
        IndexParts { bit_width: self.bit_width, dim, n_vectors: self.n_vectors, packed_codes, scales }
    }

    /// True iff `parts` are what the index is stored as.
    pub open spec fn has_parts(&self, parts: IndexParts) -> bool {
        &&& parts.bit_width == self.width()
        &&& self.dimension() == if parts.dim == 0 {
            None
        } else {
            Some(parts.dim)
        }
        &&& parts.n_vectors == self@.len()
        &&& parts.packed_codes@ == self.codes()
        &&& parts.scales@ == self.vector_scales()
    }

    /// The index that `parts` were stored from.
    pub fn load(parts: IndexParts) -> (index: TurboQuantIndex)
        requires
            parts.consistent(),
        ensures
            index.wf(),
            index.has_parts(parts),
            index.cache() is None,
    {
        let dim: Option<usize> = if parts.dim == 0 {
            None
        } else {
            Some(parts.dim)
        };
        Self::from_parts(dim, parts.bit_width, parts.n_vectors, parts.packed_codes, parts.scales)
    }

    /// An index made of its parts, with nothing cached.
    pub(crate) fn from_parts(
        dim: Option<usize>,
        bit_width: usize,
        n_vectors: usize,
        packed_codes: Vec<u8>,
        scales: Vec<u32>,
    ) -> (index: TurboQuantIndex)
        requires
            valid_bits(bit_width as int),
            scales@.len() == n_vectors,
            match dim {
                None => n_vectors == 0 && packed_codes@.len() == 0,
                Some(d) => valid_dim(d as int) && packed_codes@.len() == n_vectors * vector_bytes(
                    d as int,
                    bit_width as int,
                ),
            },
        ensures
            index.wf(),
            index.dimension() == dim,
            index.width() == bit_width,
            index.codes() == packed_codes@,
            index.vector_scales() == scales@,
            index.cache() is None,
    {
        TurboQuantIndex { dim, bit_width, n_vectors, packed_codes, scales, blocked: None }
    }

    /// The packed codes of all vectors.
    pub fn packed_codes(&self) -> (codes: &[u8])
        ensures
            codes@ == self.codes(),
    {
        self.packed_codes.as_slice()
    }

    /// The scales of all vectors.
    pub fn scales(&self) -> (scales: &[u32])
        ensures
            scales@ == self.vector_scales(),
    {
        self.scales.as_slice()
    }

    /// Removes the vector in slot `idx` by moving the last one there. Returns
    /// the slot in which the moved vector was.
    pub fn swap_remove(&mut self, idx: usize) -> (last: usize)
        requires
            old(self).wf(),
            idx < old(self)@.len(),
        ensures
            final(self).wf(),
            last == old(self)@.len() - 1,
            final(self)@ == swap_removed(old(self)@, idx as int),
            final(self).dimension() == old(self).dimension(),
            final(self).width() == old(self).width(),
            final(self).cache() is None,
            final(self).state() == stepped(old(self).state(), Step::SwapRemove(idx as int)),
    {
        let dim: usize = match self.dim {
            Some(dim) => dim,
            None => 0,
        };
        let size: usize = bytes_per_vector(dim, self.bit_width);
        let last: usize = self.n_vectors - 1;
        let len: usize = self.packed_codes.len();
        let ghost p = self.packed_codes@;
        let ghost s = self.scales@;
        proof {
            lemma_piece_bounds(self.n_vectors as int, size as int, last as int);
            lemma_piece_bounds(self.n_vectors as int, size as int, idx as int);
            if idx < last {
                lemma_piece_bounds(last as int, size as int, idx as int);
            }
        }
        let src: usize = last * size;
        let dst: usize = idx * size;
        if idx != last {
            let mut i: usize = 0;
            while i < size
                invariant
                    i <= size,
                    dst + size <= src,
                    src + size == len,
                    len == p.len(),
                    self.packed_codes@.len() == len,
                    self.scales@ == s,
                    self.n_vectors == old(self).n_vectors,
                    self.dim == old(self).dim,
                    self.bit_width == old(self).bit_width,
                    forall|j: int|
                        0 <= j < len ==> #[trigger] self.packed_codes@[j] == if dst <= j < dst + i {
                            p[src + (j - dst)]
                        } else {
                            p[j]
                        },
                decreases size - i,
            {
                let byte: u8 = self.packed_codes[src + i];
                self.packed_codes[dst + i] = byte;
                i += 1;
            }
            let scale: u32 = self.scales[last];
            self.scales[idx] = scale;
        }
        self.packed_codes.truncate(src);
        self.scales.truncate(last);
        self.n_vectors = last;
        self.blocked = None;
        proof {
            assert(self.scales@ =~= s.update(idx as int, s.last()).drop_last());
            lemma_stored_swap_remove(p, s, self.packed_codes@, self.scales@, size as int, idx as int);
        }
        last
    }

    /// Number of vectors.
    pub fn len(&self) -> (n: usize)
        requires
            self.wf(),
        ensures
            n == self@.len(),
    {
        self.n_vectors
    }

    /// Whether there is no vector.
    pub fn is_empty(&self) -> (b: bool)
        requires
            self.wf(),
        ensures
            b == (self@.len() == 0),
    {
        self.n_vectors == 0
    }

    /// Dimensionality of the vectors, zero while it is open.
    pub fn dim(&self) -> (dim: usize)
        ensures
            dim == match self.dimension() {
                Some(d) => d,
                None => 0,
            },
    {
        match self.dim {
            Some(dim) => dim,
            None => 0,
        }
    }

    /// Dimensionality of the vectors, if it is committed.
    pub fn dim_opt(&self) -> (dim: Option<usize>)
        ensures
            dim == self.dimension(),
    {
        self.dim
    }

    /// Bits per coordinate.
    pub fn bit_width(&self) -> (bits: usize)
        ensures
            bits == self.width(),
    {
        self.bit_width
    }
}

/// An index has a supported width and, once its dimensionality is committed, one
/// that is a positive multiple of eight; before that it is empty.
pub proof fn law_dimension_is_valid(index: TurboQuantIndex)
    requires
        index.wf(),
    ensures
        valid_bits(index.width() as int),
        index.dimension() is Some ==> valid_dim(index.dimension()->0 as int),
        index.dimension() is None ==> index@.len() == 0,
{
}

/// A cached layout was cached with the current codes and covers all vectors.
pub proof fn law_cache_is_fresh(index: TurboQuantIndex)
    requires
        index.wf(),
    ensures
        index.cache() is Some ==> index.codes_when_cached() == index.codes(),
        index.cache() is Some ==> index.dimension() is Some,
        index.cache() is Some ==> holds_blocks(index.cache()->0, index@.len() as int, index.groups()),
{
}

/// The vectors fix the codes and scales: well-formed indexes that hold the same
/// vectors have the same codes and scales.
pub proof fn law_vectors_fix_codes(a: TurboQuantIndex, b: TurboQuantIndex)
    requires
        a.wf(),
        b.wf(),
        a.state().contents == b.state().contents,
    ensures
        a.codes() == b.codes(),
        a.vector_scales() == b.vector_scales(),
{
    let n = a@.len() as int;
    let size = a.bytes_each();
    assert(a@ == a.state().contents.vectors && b@ == b.state().contents.vectors);
    assert(a.dimension() == b.state().contents.dim && a.width() == b.state().contents.width);
    if a.dim is Some {
        lemma_vector_bytes(a.dim->0 as int, a.bit_width as int);
    }
    assert forall|i: int| 0 <= i < n implies a.scales@[i] == b.scales@[i] by {
        assert(a@[i].scale == b@[i].scale);
    }
    assert(a.scales@ =~= b.scales@);
    assert forall|j: int| 0 <= j < n * size implies a.packed_codes@[j] == b.packed_codes@[j] by {
        assert(size > 0) by (nonlinear_arith)
            requires
                0 <= j < n * size,
                n >= 0,
                size >= 0,
        ;
        let i = j / size;
        let r = j % size;
        vstd::arithmetic::div_mod::lemma_fundamental_div_mod(j, size);
        assert(0 <= r < size && j == size * i + r) by {
            vstd::arithmetic::div_mod::lemma_mod_bound(j, size);
        }
        assert(0 <= i < n) by (nonlinear_arith)
            requires
                0 <= j < n * size,
                size > 0,
                j == size * i + r,
                0 <= r < size,
        ;
        lemma_piece_bounds(n, size, i);
        assert(i * size == size * i) by (nonlinear_arith);
        assert(a@[i].codes == b@[i].codes);
        assert(piece(a.packed_codes@, size, i)[r] == a.packed_codes@[j]);
        assert(piece(b.packed_codes@, size, i)[r] == b.packed_codes@[j]);
    }
    assert(a.packed_codes@ =~= b.packed_codes@);
}

/// The number of vectors is a machine number.
pub proof fn lemma_len_fits(index: TurboQuantIndex)
    requires
        index.wf(),
    ensures
        index@.len() <= usize::MAX,
{
}

/// A search with every flag set is a search without flags.
pub proof fn law_all_flags_is_no_mask(
    index: TurboQuantIndex,
    queries_len: usize,
    rows: Seq<Vec<u32>>,
    k: usize,
    flags: &[bool],
    res: SearchResults,
)
    requires
        flags@.len() == index@.len(),
        forall|slot: int| 0 <= slot < flags@.len() ==> flags@[slot],
    ensures
        index.found(queries_len, rows, k, Some(flags), res) == index.found(queries_len, rows, k, None, res),
{
    assert(flags_of(Some(flags), index@.len()) =~= flags_of(None, index@.len()));
}

/// Every result of a query is an allowed slot with the score that the query
/// gives it, no slot is returned twice, and scores never rise.
pub proof fn law_results_are_allowed(
    index: TurboQuantIndex,
    queries_len: usize,
    rows: Seq<Vec<u32>>,
    k: usize,
    mask: Option<&[bool]>,
    res: SearchResults,
    q: int,
    i: int,
    j: int,
)
    requires
        index.wf(),
        index.dimension() is Some,
        index.searchable(queries_len, rows, mask),
        index.found(queries_len, rows, k, mask, res),
        0 <= q < res.nq,
        0 <= i < res.k,
        0 <= j < res.k,
    ensures
        0 <= res.indices@[q * res.k + i] < index@.len(),
        flags_of(mask, index@.len())[res.indices@[q * res.k + i] as int],
        res.scores@[q * res.k + i] == rows[q]@[res.indices@[q * res.k + i] as int],
        i < j ==> res.indices@[q * res.k + i] != res.indices@[q * res.k + j],
        i < j ==> rank_key(res.scores@[q * res.k + i]) >= rank_key(res.scores@[q * res.k + j]),
{
    lemma_len_fits(index);
    let allowed = flags_of(mask, index@.len());
    let kk = res.k as nat;
    let row = rows[q]@;
    let best = ranked(select(row, allowed, kk));
    law_no_filling(row, allowed, kk);
    law_ranking_sorts(select(row, allowed, kk));
    lemma_result_at(rows, allowed, kk, q, i);
    lemma_result_at(rows, allowed, kk, q, j);
    assert(best[i].slot < row.len() && best[j].slot < row.len());
    if i < j {
        assert(best[i].slot != best[j].slot);
        assert(rank_key(best[i].score) >= rank_key(best[j].score));
    }
}

/// No allowed slot that a query did not return scores higher than one that it
/// did return, where the query scores no allowed slot NaN.
pub proof fn law_results_are_best(
    index: TurboQuantIndex,
    queries_len: usize,
    rows: Seq<Vec<u32>>,
    k: usize,
    mask: Option<&[bool]>,
    res: SearchResults,
    q: int,
    slot: int,
    i: int,
)
    requires
        index.wf(),
        index.dimension() is Some,
        index.searchable(queries_len, rows, mask),
        index.found(queries_len, rows, k, mask, res),
        0 <= q < res.nq,
        allowed_nan_free(rows[q]@, flags_of(mask, index@.len())),
        0 <= slot < index@.len(),
        flags_of(mask, index@.len())[slot],
        forall|j: int| 0 <= j < res.k ==> #[trigger] res.indices@[q * res.k + j] != slot,
        0 <= i < res.k,
    ensures
        score_key(rows[q]@[slot]) <= score_key(res.scores@[q * res.k + i]),
{
    lemma_len_fits(index);
    let allowed = flags_of(mask, index@.len());
    let kk = res.k as nat;
    let hits = result_hits(rows, allowed, kk);
    let row = rows[q]@;
    let best = ranked(select(row, allowed, kk));
    law_no_filling(row, allowed, kk);
    law_selects_best(row, allowed, kk);
    if has_slot(best, slot) {
        let j = choose|j: int| 0 <= j < best.len() && (#[trigger] best[j]).slot == slot;
        lemma_result_at(rows, allowed, kk, q, j);
        assert(res.indices@[q * res.k + j] == slot);
    }
    lemma_result_at(rows, allowed, kk, q, i);
    assert(score_key(row[slot]) <= score_key(best[i].score));
}

/// The hits of query `q` in the flat results.
pub open spec fn query_hits(res: SearchResults, q: int) -> Seq<Hit> {
    Seq::new(
        res.k as nat,
        |i: int| Hit { score: res.scores@[q * res.k + i], slot: res.indices@[q * res.k + i] as usize },
    )
}

/// The hits of query `q` are the ranking of what was selected of its row.
proof fn lemma_query_hits(
    index: TurboQuantIndex,
    queries_len: usize,
    rows: Seq<Vec<u32>>,
    k: usize,
    mask: Option<&[bool]>,
    res: SearchResults,
    q: int,
)
    requires
        index.wf(),
        index.dimension() is Some,
        index.searchable(queries_len, rows, mask),
        index.found(queries_len, rows, k, mask, res),
        0 <= q < res.nq,
    ensures
        query_hits(res, q) == ranked(select(rows[q]@, flags_of(mask, index@.len()), res.k as nat)),
{
    lemma_len_fits(index);
    let allowed = flags_of(mask, index@.len());
    let kk = res.k as nat;
    let row = rows[q]@;
    let best = ranked(select(row, allowed, kk));
    law_no_filling(row, allowed, kk);
    assert forall|i: int| 0 <= i < kk implies #[trigger] query_hits(res, q)[i] == best[i] by {
        lemma_result_at(rows, allowed, kk, q, i);
        assert(best[i].slot < row.len());
    }
    assert(query_hits(res, q) =~= best);
}

/// A masked search gives a query the scores that are left when the allowed slots
/// are picked out of a full search and the first `k` of them are kept, where the
/// query scores no allowed slot NaN. Where no two allowed slots score the same, it
/// gives the same slots.
pub proof fn law_masked_search_is_filtered_search(
    index: TurboQuantIndex,
    queries_len: usize,
    rows: Seq<Vec<u32>>,
    k: usize,
    flags: &[bool],
    dense: SearchResults,
    masked: SearchResults,
    q: int,
)
    requires
        index.wf(),
        index.dimension() is Some,
        index.searchable(queries_len, rows, None),
        index.searchable(queries_len, rows, Some(flags)),
        dense.k == index@.len(),
        index.found(queries_len, rows, dense.k, None, dense),
        index.found(queries_len, rows, k, Some(flags), masked),
        0 <= q < masked.nq,
        allowed_nan_free(rows[q]@, flags@),
    ensures
        ({
            let kept = query_hits(dense, q).filter(|h: Hit| flags@[h.slot as int]);
            let got = query_hits(masked, q);
            &&& got.len() == least(k as nat, kept.len())
            &&& forall|i: int| 0 <= i < got.len() ==> score_key((#[trigger] got[i]).score) == score_key(kept[i].score)
            &&& (forall|i: int, j: int|
                0 <= i < j < rows[q]@.len() && flags@[i] && flags@[j] ==> score_key(#[trigger] rows[q]@[i]) != score_key(
                    #[trigger] rows[q]@[j],
                )) ==> got == kept.take(got.len() as int)
        }),
{
    lemma_len_fits(index);
    let row = rows[q]@;
    lemma_query_hits(index, queries_len, rows, dense.k, None, dense, q);
    lemma_query_hits(index, queries_len, rows, k, Some(flags), masked, q);
    assert(flags_of(None, index@.len()) =~= Seq::new(row.len(), |i: int| true));
    law_mask_is_post_filter(row, flags@, masked.k as nat);
    law_mask_is_post_filter(row, flags@, row.len());
    lemma_count_bound(flags@);
    lemma_result_row_len(row, flags@, masked.k as nat);
    lemma_result_row_len(row, flags@, row.len());
    query_hits(dense, q).lemma_filter_len(|h: Hit| flags@[h.slot as int]);
}

/// What was stored comes back: two indexes with the same parts hold the same
/// vectors and have the same dimensionality and width.
pub proof fn law_parts_restore(a: TurboQuantIndex, b: TurboQuantIndex, parts: IndexParts)
    requires
        a.has_parts(parts),
        b.has_parts(parts),
    ensures
        a@ == b@,
        a.dimension() == b.dimension(),
        a.width() == b.width(),
        a.codes() == b.codes(),
        a.vector_scales() == b.vector_scales(),
{
}

/// Removing a slot keeps every other vector: the last one is now in the freed
/// slot, the others are where they were.
pub proof fn law_swap_remove_keeps_others(vectors: Seq<Stored>, idx: int, slot: int)
    requires
        0 <= idx < vectors.len(),
        0 <= slot < vectors.len(),
        slot != idx,
    ensures
        swap_removed(vectors, idx).len() == vectors.len() - 1,
        slot < vectors.len() - 1 ==> swap_removed(vectors, idx)[slot] == vectors[slot],
        slot == vectors.len() - 1 ==> swap_removed(vectors, idx)[idx] == vectors[slot],
{
}


/// The packed codes of a vector take as many bits as its coordinates have.
pub proof fn law_codes_take_all_bits(dim: int, bit_width: int)
    requires
        0 <= dim,
        dim % 8 == 0,
        0 <= bit_width,
    ensures
        8 * vector_bytes(dim, bit_width) == dim * bit_width,
{
    lemma_vector_bytes(dim, bit_width);
    assert(8 * (dim / 8 * bit_width) == dim * bit_width) by (nonlinear_arith)
        requires
            dim % 8 == 0,
    ;
}

/// A dimensionality is valid iff it is a positive multiple of eight.
pub proof fn law_valid_dimensions(dim: int)
    ensures
        valid_dim(dim) <==> dim > 0 && dim % 8 == 0,
{
}

/// Codes and scales hold one vector per scale; the codes of each take up `size`
/// bytes behind those of the vector before.
pub proof fn law_vectors_lie_in_a_row(encoded: Encoded, n: int, size: int, i: int)
    requires
        0 <= size,
        0 <= i < n,
        encoded.scales@.len() == n,
        encoded.packed_codes@.len() == n * size,
    ensures
        encoded.holds(n, size),
        encoded.vectors(size).len() == n,
        encoded.vectors(size)[i].scale == encoded.scales@[i],
        encoded.vectors(size)[i].codes.len() == size,
        forall|b: int|
            0 <= b < size ==> #[trigger] encoded.vectors(size)[i].codes[b] == encoded.packed_codes@[i * size + b],
{
    lemma_piece_bounds(n, size, i);
}

/// What encoded vectors have to be like: a scale for each, and as many codes.
pub proof fn law_encoded_that_fit(encoded: Encoded, n: int, size: int)
    ensures
        encoded.holds(n, size) <==> encoded.scales@.len() == n && encoded.packed_codes@.len() == n * size,
{
}

/// The vectors of an index are those that its codes and scales hold, with as many
/// bits of codes each as its coordinates have.
pub proof fn law_index_holds_its_codes(index: TurboQuantIndex, dim: usize, i: int)
    requires
        index.wf(),
        index.dimension() == Some(dim),
    ensures
        index@.len() == index.vector_scales().len(),
        8 * index.codes().len() == index@.len() * (dim * index.width()),
        0 <= i < index@.len() ==> index@[i].scale == index.vector_scales()[i],
        0 <= i < index@.len() ==> 8 * index@[i].codes.len() == dim * index.width(),
        0 <= i < index@.len() ==> forall|b: int|
            0 <= b < index@[i].codes.len() ==> #[trigger] index@[i].codes[b] == index.codes()[i * index@[i].codes.len()
                + b],
{
    let size = index.bytes_each();
    let n = index@.len() as int;
    lemma_vector_bytes(dim as int, index.width() as int);
    law_codes_take_all_bits(dim as int, index.width() as int);
    assert(8 * (n * size) == n * (8 * size)) by (nonlinear_arith);
    if 0 <= i < n {
        lemma_piece_bounds(n, size, i);
    }
}

/// When vectors can be added. Those of the dimensionality of the index, or of a
/// multiple of eight if it has none yet, are taken whenever the buffer holds a
/// whole number of them. Another dimensionality than that of the index, one that
/// is no multiple of eight and a buffer that holds no whole number of vectors are
/// the only things refused, in that order, and each with its own error.
pub proof fn law_fitting_vectors_can_be_added(index: TurboQuantIndex, vectors_len: usize, dim: usize)
    requires
        index.wf(),
    ensures
        ({
            let r = index.add_2d_result(vectors_len, dim);
            let other = index.dimension() is Some && index.dimension()->0 != dim;
            let uneven = index.dimension() is None && dim % 8 != 0;
            let whole = dim != 0 && vectors_len % dim == 0;
            &&& dim >= 8 && dim % 8 == 0 && whole && !other ==> r is Ok
            &&& r is Ok ==> dim >= 8 && dim % 8 == 0 && whole && !other
            &&& other <==> r == Err::<(), AddError>(
                AddError::DimMismatch { existing: index.dimension()->0, got: dim },
            )
            &&& uneven <==> r == Err::<(), AddError>(AddError::DimNotMultipleOf8(dim))
            &&& !other && !uneven && !whole <==> r == Err::<(), AddError>(
                AddError::VectorBufferNotMultipleOfDim { vectors_len, dim },
            )
            &&& r is Ok || other || uneven || !whole
        }),
{
}

/// No error is ever given for another dimensionality than the one asked for.
pub proof fn law_errors_name_their_cause(index: TurboQuantIndex, vectors_len: usize, dim: usize)
    ensures
        match index.add_2d_result(vectors_len, dim) {
            Ok(_) => true,
            Err(AddError::DimMismatch { existing, got }) => got == dim && existing != dim && index.dimension() == Some(
                existing,
            ),
            Err(AddError::DimNotMultipleOf8(d)) => d == dim && d % 8 != 0 && index.dimension() is None,
            Err(AddError::VectorBufferNotMultipleOfDim { vectors_len: len, dim: d }) => len == vectors_len && d == dim
                && (d == 0 || len % d != 0),
            Err(AddError::IdsCountMismatch { expected, got }) => false,
            Err(AddError::IdAlreadyPresent(id)) => false,
        },
{
}

/// Parts fit together iff they are those of an index: a supported width, a
/// dimensionality that is a multiple of eight, no vectors while it is zero, a
/// scale for each vector, and as many bits of codes as the coordinates of all
/// vectors have.
pub proof fn law_parts_that_fit(parts: IndexParts)
    ensures
        parts.consistent() <==> {
            &&& 2 <= parts.bit_width <= 4
            &&& parts.dim % 8 == 0
            &&& parts.dim == 0 ==> parts.n_vectors == 0
            &&& parts.scales@.len() == parts.n_vectors
            &&& 8 * parts.packed_codes@.len() == parts.n_vectors * (parts.dim * parts.bit_width)
        },
{
    if parts.dim % 8 == 0 {
        let (n, size) = (parts.n_vectors as int, vector_bytes(parts.dim as int, parts.bit_width as int));
        law_codes_take_all_bits(parts.dim as int, parts.bit_width as int);
        assert(8 * (n * size) == n * (8 * size)) by (nonlinear_arith);
    }
}

/// The parts of an index are its width, its dimensionality, zero for none, and
/// its codes and scales as they are.
pub proof fn law_parts_are_those_of_index(index: TurboQuantIndex, parts: IndexParts)
    requires
        index.wf(),
    ensures
        index.has_parts(parts) <==> {
            &&& parts.bit_width == index.width()
            &&& index.dimension() is None ==> parts.dim == 0
            &&& index.dimension() is Some ==> parts.dim == index.dimension()->0
            &&& parts.n_vectors == index.vector_scales().len()
            &&& parts.packed_codes@ == index.codes()
            &&& parts.scales@ == index.vector_scales()
        },
{
}

/// An index can be searched with any whole number of queries, with a row of as
/// many scores as there are vectors for each, and with a mask of as many flags.
pub proof fn law_searches_that_fit(index: TurboQuantIndex, dim: usize, rows: Seq<Vec<u32>>, mask: Option<&[bool]>)
    requires
        index.wf(),
        index.dimension() == Some(dim),
        rows.len() * dim <= usize::MAX,
        forall|q: int| 0 <= q < rows.len() ==> (#[trigger] rows[q])@.len() == index@.len(),
        mask is Some ==> mask->0@.len() == index@.len(),
        index@.len() <= i64::MAX,
    ensures
        index.searchable((rows.len() * dim) as usize, rows, mask),
{
    let n = rows.len() as int;
    let d = dim as int;
    vstd::arithmetic::div_mod::lemma_fundamental_div_mod_converse(n * d, d, n, 0);
}

/// How many results a search gives: for each query as many as are asked for, or as
/// there are vectors whose flag is set if those are fewer. While the dimensionality
/// is open there are none.
pub proof fn law_number_of_results(
    index: TurboQuantIndex,
    queries_len: usize,
    rows: Seq<Vec<u32>>,
    k: usize,
    mask: Option<&[bool]>,
    res: SearchResults,
)
    requires
        index.wf(),
        index.found(queries_len, rows, k, mask, res),
        mask is Some ==> mask->0@.len() == index@.len(),
    ensures
        index.dimension() is None ==> res.nq == 0 && res.k == 0 && res.scores@.len() == 0 && res.indices@.len() == 0,
        index.dimension() is Some ==> {
            let n_allowed = match mask {
                None => index@.len(),
                Some(flags) => flags@.filter(|flag: bool| flag).len(),
            };
            &&& res.nq == queries_len / index.dimension()->0
            &&& k <= n_allowed ==> res.k == k
            &&& n_allowed <= k ==> res.k == n_allowed
            &&& res.scores@.len() == res.nq * res.k
            &&& res.indices@.len() == res.nq * res.k
        },
{
    let allowed = flags_of(mask, index@.len());
    match mask {
        None => lemma_count_all(allowed),
        Some(flags) => law_count_is_number_set(flags@),
    }
}

/// As many results are given per query as [`TurboQuantIndex::effective_k`] says.
pub proof fn law_effective_k(n: nat, k: nat, mask: Option<&[bool]>)
    ensures
        mask is None ==> count_true(flags_of(mask, n)) == n,
        mask is None ==> flags_of(mask, n).len() == n,
        mask is None ==> forall|slot: int| 0 <= slot < n ==> #[trigger] flags_of(mask, n)[slot],
        mask is Some ==> count_true(flags_of(mask, n)) == mask->0@.filter(|flag: bool| flag).len(),
        mask is Some ==> flags_of(mask, n) == mask->0@,
        least(k, count_true(flags_of(mask, n))) <= k,
        least(k, count_true(flags_of(mask, n))) <= count_true(flags_of(mask, n)),
        least(k, count_true(flags_of(mask, n))) == k || least(k, count_true(flags_of(mask, n))) == count_true(
            flags_of(mask, n),
        ),
{
    match mask {
        None => lemma_count_all(flags_of(mask, n)),
        Some(flags) => law_count_is_number_set(flags@),
    }
}

/// What a search finds: vectors of the index whose flags are set, each with the
/// score that the query gives it and none twice, and none followed by one that
/// scores higher.
pub proof fn law_search_finds(
    index: TurboQuantIndex,
    dim: usize,
    queries_len: usize,
    rows: Seq<Vec<u32>>,
    k: usize,
    mask: Option<&[bool]>,
    res: SearchResults,
    q: int,
    i: int,
    j: int,
)
    requires
        index.wf(),
        index.dimension() == Some(dim),
        index.found(queries_len, rows, k, mask, res),
        rows.len() * dim == queries_len,
        forall|q: int| 0 <= q < rows.len() ==> (#[trigger] rows[q])@.len() == index@.len(),
        mask is Some ==> mask->0@.len() == index@.len(),
        index@.len() <= i64::MAX,
        0 <= q < rows.len(),
        0 <= i < res.k,
        0 <= j < res.k,
    ensures
        res.nq == rows.len(),
        0 <= res.indices@[q * res.k + i] < index@.len(),
        mask is Some ==> mask->0@[res.indices@[q * res.k + i] as int],
        res.scores@[q * res.k + i] == rows[q]@[res.indices@[q * res.k + i] as int],
        i < j ==> res.indices@[q * res.k + i] != res.indices@[q * res.k + j],
        i < j ==> !score_gt(res.scores@[q * res.k + j], res.scores@[q * res.k + i]),
{
    law_searches_that_fit(index, dim, rows, mask);
    law_results_are_allowed(index, queries_len, rows, k, mask, res, q, i, j);
    law_effective_k(index@.len(), k as nat, mask);
    if i < j {
        law_rank_keys_order_scores(res.scores@[q * res.k + j], res.scores@[q * res.k + i]);
    }
}

/// A search finds the best: where a query gives no vector whose flag is set NaN,
/// none of them that it did not find scores higher than one that it found.
pub proof fn law_search_finds_best(
    index: TurboQuantIndex,
    dim: usize,
    queries_len: usize,
    rows: Seq<Vec<u32>>,
    k: usize,
    mask: Option<&[bool]>,
    res: SearchResults,
    q: int,
    slot: int,
    i: int,
)
    requires
        index.wf(),
        index.dimension() == Some(dim),
        index.found(queries_len, rows, k, mask, res),
        rows.len() * dim == queries_len,
        forall|q: int| 0 <= q < rows.len() ==> (#[trigger] rows[q])@.len() == index@.len(),
        mask is Some ==> mask->0@.len() == index@.len(),
        index@.len() <= i64::MAX,
        0 <= q < rows.len(),
        forall|s: int| 0 <= s < index@.len() && (mask is None || mask->0@[s]) ==> !is_nan(#[trigger] rows[q]@[s]),
        0 <= slot < index@.len(),
        mask is None || mask->0@[slot],
        forall|j: int| 0 <= j < res.k ==> #[trigger] res.indices@[q * res.k + j] != slot,
        0 <= i < res.k,
    ensures
        !score_gt(rows[q]@[slot], res.scores@[q * res.k + i]),
{
    law_searches_that_fit(index, dim, rows, mask);
    law_number_of_results(index, queries_len, rows, k, mask, res);
    assert(res.nq == rows.len());
    let allowed = flags_of(mask, index@.len());
    assert forall|s: int| 0 <= s < rows[q]@.len() && #[trigger] allowed[s] implies !is_nan(rows[q]@[s]) by {
        assert(mask is None || mask->0@[s]);
    }
    law_results_are_best(index, queries_len, rows, k, mask, res, q, slot, i);
}

/// The groups that are scored cover all coordinates of the index.
pub proof fn law_index_groups_cover_coordinates(index: TurboQuantIndex, dim: usize)
    requires
        index.wf(),
        index.dimension() == Some(dim),
    ensures
        index.width() == 2 || index.width() == 3 || index.width() == 4,
        index.width() == 2 ==> 4 * index.groups() == dim,
        index.width() != 2 ==> 2 * index.groups() == dim,
{
    law_groups_cover_coordinates(dim as int, index.width() as int);
}

/// What an index scores: once a layout is cached, for each query and each of its
/// vectors that may be returned, the sum over all coordinates of what each
/// contributes with the code that the layout holds for it.
pub proof fn law_index_scores_all_coordinates(
    index: TurboQuantIndex,
    dim: usize,
    luts: Seq<Vec<u8>>,
    mask: Option<&[u64]>,
    rows: Option<Vec<Vec<u16>>>,
    w: spec_fn(int, int) -> int,
    q: int,
    slot: int,
)
    requires
        index.wf(),
        index.dimension() == Some(dim),
        index.cache() is Some,
        index.interleaved_scored(luts, mask, rows),
        0 <= q < luts.len(),
        0 <= slot < index@.len(),
        allows(mask, slot),
        forall|entry: int|
            0 <= entry < index.groups() * 32 ==> (#[trigger] luts[q]@[entry]) == if index.width() == 2 {
                w(entry / 16 * 2, entry % 16 / 4) + w(entry / 16 * 2 + 1, entry % 4)
            } else if index.width() == 3 {
                w(entry / 16, entry % 8)
            } else {
                w(entry / 16, entry % 16)
            },
        forall|entry: int| 0 <= entry < index.groups() * 32 ==> (#[trigger] luts[q]@[entry]) <= max_entry(index.groups()),
    ensures
        rows is Some,
        rows->0@.len() == luts.len(),
        rows->0@[q]@.len() == index@.len(),
        ({
            let codes = lane_codes(index.cache()->0, slot / 32, index.groups(), slot % 32);
            rows->0@[q]@[slot] == Seq::new(
                dim as nat,
                |coord: int| w(coord, code_at(codes, coord, index.width() as int)),
            ).fold_left(0int, |sum: int, v: int| sum + v)
        }),
{
    law_index_groups_cover_coordinates(index, dim);
    law_sum_is_over_all_coordinates(
        index.cache()->0,
        luts[q]@,
        w,
        dim as int,
        index.width() as int,
        index@.len() as int,
        mask,
        slot,
    );
}

/// An index scores over its cached layout what the layout gives, and nothing
/// without one.
pub proof fn law_index_scores_its_cache(
    index: TurboQuantIndex,
    luts: Seq<Vec<u8>>,
    mask: Option<&[u64]>,
    rows: Option<Vec<Vec<u16>>>,
    q: int,
)
    requires
        index.interleaved_scored(luts, mask, rows),
    ensures
        rows is Some <==> index.cache() is Some,
        rows is Some ==> rows->0@.len() == luts.len(),
        rows is Some && 0 <= q < luts.len() ==> rows->0@[q]@ == slot_sums(
            index.cache()->0,
            luts[q]@,
            index.groups(),
            index@.len() as int,
            mask,
        ),
{
}

/// The block-skip counter goes up by the blocks skipped in each pass, and wraps
/// around.
pub proof fn law_skips_add_up(index: TurboQuantIndex, mask: Option<&[u64]>, passes: int, before: u64)
    ensures
        index.cache() is None ==> index.skips_after(mask, passes, before) == before,
        index.cache() is Some ==> index.skips_after(mask, passes, before) == (before + passes * skipped_blocks(
            mask,
            index@.len() as int,
        )) % 18446744073709551616,
{
}

/// Adding vectors and then removing the last of them again leaves the others.
pub proof fn law_removing_last_undoes_push(vectors: Seq<Stored>, vector: Stored)
    ensures
        swap_removed(vectors.push(vector), vectors.len() as int) == vectors,
{
    assert(swap_removed(vectors.push(vector), vectors.len() as int) =~= vectors);
}
} // verus!
