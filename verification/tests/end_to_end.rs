//! Search from vectors to results, with a floating-point front end around the
//! index: vectors are quantized to a fixed codebook, queries become lookup
//! tables, and sums become scores.
use std::cell::RefCell;
use turbovec::header::{check_header, check_id_map_header, id_map_header};
use turbovec::interleaved::{search_multi_query, search_multi_query_pairs};
use turbovec::lut::{codes_in_byte, codes_in_nibble, lut_terms, max_lut, n_byte_groups};
use turbovec::mask::{pack_mask, BlockSkips};
use turbovec::score::sub_table_range;
use turbovec::search::{blocks_skipped_by_mask, reset_blocks_skipped_by_mask};
use turbovec::{AddError, Encoded, IdMapIndex, IdMapParts, IndexParts, LoadError, TurboQuantIndex};

const DIM: usize = 64;

fn gaussian_normalized(n: usize, dim: usize, seed: u64) -> Vec<f32> {
    let mut state = seed | 1;
    let mut next = || {
        state ^= state << 13;
        state ^= state >> 7;
        state ^= state << 17;
        state
    };
    let mut uniform = || {
        let raw = (next() >> 40) as u32 | 1;
        raw as f32 / (1u32 << 24) as f32
    };
    let two_pi = 2.0_f32 * std::f32::consts::PI;
    let mut data = vec![0.0f32; n * dim];
    let mut i = 0;
    while i < data.len() {
        let u1 = uniform().max(1e-7);
        let u2 = uniform();
        let r = (-2.0 * u1.ln()).sqrt();
        let theta = two_pi * u2;
        data[i] = r * theta.cos();
        if i + 1 < data.len() {
            data[i + 1] = r * theta.sin();
        }
        i += 2;
    }
    for row_i in 0..n {
        let row = &mut data[row_i * dim..(row_i + 1) * dim];
        let norm: f32 = row.iter().map(|x| x * x).sum::<f32>().sqrt();
        if norm > 0.0 {
            let inv = 1.0 / norm;
            for x in row.iter_mut() {
                *x *= inv;
            }
        }
    }
    data
}

/// The value that a code stands for; the values lie closer together near zero.
fn centroid(code: usize, bits: usize, dim: usize) -> f32 {
    let levels = (1usize << bits) as f32;
    let x = 2.0 * (code as f32 + 0.5) / levels - 1.0;
    (1.6 * x + 1.1 * x.powi(3) + 0.3 * x.powi(5)) / (dim as f32).sqrt()
}

/// The code whose value is nearest.
fn nearest_code(x: f32, bits: usize, dim: usize) -> usize {
    let mut best = 0;
    for code in 1..1usize << bits {
        if (x - centroid(code, bits, dim)).abs() < (x - centroid(best, bits, dim)).abs() {
            best = code;
        }
    }
    best
}

/// Quantizes vectors; the codes of a vector are packed lowest bit first.
fn encode(vectors: &[f32], dim: usize, bits: usize) -> Encoded {
    let mut packed_codes = Vec::new();
    let mut scales = Vec::new();
    for row in vectors.chunks_exact(dim) {
        let mut bytes = vec![0u8; dim * bits / 8];
        let mut norm = 0.0f32;
        for (coord, &x) in row.iter().enumerate() {
            let code = nearest_code(x, bits, dim);
            for b in 0..bits {
                if (code >> b) & 1 != 0 {
                    let bit = coord * bits + b;
                    bytes[bit / 8] |= 1 << (bit % 8);
                }
            }
            norm += centroid(code, bits, dim).powi(2);
        }
        packed_codes.extend_from_slice(&bytes);
        scales.push((1.0 / norm.sqrt()).to_bits());
    }
    Encoded { packed_codes, scales }
}

/// The code of a coordinate of a vector.
fn code_of(packed: &[u8], dim: usize, bits: usize, vector: usize, coord: usize) -> usize {
    let bytes = &packed[vector * (dim * bits / 8)..(vector + 1) * (dim * bits / 8)];
    (0..bits).map(|b| {
        let bit = coord * bits + b;
        (((bytes[bit / 8] >> (bit % 8)) & 1) as usize) << b
    }).sum()
}

/// Puts the codes into the interleaved blocked layout.
fn repack(packed: &[u8], n: usize, dim: usize, bits: usize) -> Vec<u8> {
    let groups = n_byte_groups(dim, bits);
    let per_byte = codes_in_byte(bits);
    let per_nibble = codes_in_nibble(bits);
    let n_blocks = (n + 31) / 32;
    let mut blocked = vec![0u8; n_blocks * groups * 32];
    for v in 0..n {
        let (block, lane) = (v / 32, v % 32);
        let r = lane % 16;
        let j = if r < 8 { 2 * r } else { 2 * (r - 8) + 1 };
        let shift = if lane < 16 { 0 } else { 4 };
        for g in 0..groups {
            let mut nibbles = [0usize; 2];
            for half in 0..2 {
                for c in 0..per_nibble {
                    let code = code_of(packed, dim, bits, v, g * per_byte + half * per_nibble + c);
                    nibbles[half] |= code << ((per_nibble - 1 - c) * bits);
                }
            }
            let start = (block * groups + g) * 32;
            blocked[start + j] |= (nibbles[0] << shift) as u8;
            blocked[start + 16 + j] |= (nibbles[1] << shift) as u8;
        }
    }
    blocked
}

/// A query's lookup tables with what turns a sum into a score.
struct QueryLut {
    lut: Vec<u8>,
    scale: f32,
    bias: f32,
}

fn build_lut(query: &[f32], bits: usize) -> QueryLut {
    let dim = query.len();
    let groups = n_byte_groups(dim, bits);
    let values: Vec<f32> = (0..groups * 32)
        .map(|entry| {
            let mut s = 0.0f32;
            for (coord, code) in lut_terms(entry, bits) {
                s += query[coord] * centroid(code, bits, dim);
            }
            s
        })
        .collect();
    let mut mins = Vec::new();
    let mut max_span = 0.0f32;
    let mut bias = 0.0f32;
    for table in values.chunks_exact(16) {
        let table_bits: Vec<u32> = table.iter().map(|v| v.to_bits()).collect();
        let (low, high) = sub_table_range(&table_bits);
        let (low, high) = (f32::from_bits(low), f32::from_bits(high));
        mins.push(low);
        bias += low;
        max_span = max_span.max(high - low);
    }
    let most = max_lut(groups) as f32;
    let scale = if max_span > 1e-10 { max_span / most } else { 1.0 };
    let lut = values
        .iter()
        .enumerate()
        .map(|(i, v)| ((v - mins[i / 16]) / scale).round().clamp(0.0, most) as u8)
        .collect();
    QueryLut { lut, scale, bias }
}

/// The scores of all slots for each query, as bit patterns. Batches alternate
/// between the two ways of walking the blocks.
fn score_rows(
    index: &TurboQuantIndex,
    queries: &[f32],
    mask: Option<&[bool]>,
    skips: &mut BlockSkips,
) -> Vec<Vec<u32>> {
    let dim = match index.dim_opt() {
        Some(dim) => dim,
        None => return Vec::new(),
    };
    let bits = index.bit_width();
    let groups = n_byte_groups(dim, bits);
    let fresh;
    let blocked: &Vec<u8> = match index.blocked() {
        Some(data) => data,
        None => {
            fresh = repack(index.packed_codes(), index.len(), dim, bits);
            &fresh
        }
    };
    let packed = mask.map(pack_mask);
    let luts: Vec<QueryLut> = queries.chunks_exact(dim).map(|q| build_lut(q, bits)).collect();
    let mut rows = Vec::new();
    for (i, batch) in luts.chunks(4).enumerate() {
        let tables: Vec<Vec<u8>> = batch.iter().map(|q| q.lut.clone()).collect();
        let sums = if i % 2 == 0 {
            search_multi_query_pairs(blocked, &tables, groups, index.len(), packed.as_deref(), skips)
        } else {
            search_multi_query(blocked, &tables, groups, index.len(), packed.as_deref(), skips)
        };
        for (q, row) in batch.iter().zip(sums) {
            rows.push(
                row.iter()
                    .zip(index.scales())
                    .map(|(&sum, &s)| (q.scale.mul_add(sum as f32, q.bias) * f32::from_bits(s)).to_bits())
                    .collect(),
            );
        }
    }
    rows
}

fn floats(bits: &[u32]) -> Vec<f32> {
    bits.iter().map(|&b| f32::from_bits(b)).collect()
}

/// Results with scores as floats.
struct FloatResults {
    scores: Vec<f32>,
    indices: Vec<i64>,
    nq: usize,
    k: usize,
}

impl FloatResults {
    fn scores_for_query(&self, qi: usize) -> &[f32] {
        &self.scores[qi * self.k..(qi + 1) * self.k]
    }

    fn indices_for_query(&self, qi: usize) -> &[i64] {
        &self.indices[qi * self.k..(qi + 1) * self.k]
    }
}

/// The positional index with vectors and scores as floats.
struct FloatIndex {
    index: TurboQuantIndex,
    skips: RefCell<BlockSkips>,
}

impl FloatIndex {
    fn around(index: TurboQuantIndex) -> Self {
        FloatIndex { index, skips: RefCell::new(BlockSkips::new()) }
    }

    fn new(dim: usize, bit_width: usize) -> Self {
        Self::around(TurboQuantIndex::new(dim, bit_width))
    }

    fn new_lazy(bit_width: usize) -> Self {
        Self::around(TurboQuantIndex::new_lazy(bit_width))
    }

    fn add(&mut self, vectors: &[f32]) {
        let encoded = encode(vectors, self.index.dim(), self.index.bit_width());
        self.index.add(vectors.len(), encoded);
    }

    fn add_2d(&mut self, vectors: &[f32], dim: usize) -> Result<(), AddError> {
        self.index.check_add_2d(vectors.len(), dim)?;
        let encoded = encode(vectors, dim, self.index.bit_width());
        self.index.add_2d(vectors.len(), dim, encoded)
    }

    fn prepare(&mut self) {
        let data = match self.index.dim_opt() {
            Some(dim) => repack(self.index.packed_codes(), self.index.len(), dim, self.index.bit_width()),
            None => Vec::new(),
        };
        self.index.prepare(data);
    }

    fn search(&self, queries: &[f32], k: usize) -> FloatResults {
        let rows = score_rows(&self.index, queries, None, &mut self.skips.borrow_mut());
        let res = self.index.search(queries.len(), &rows, k);
        FloatResults { scores: floats(&res.scores), indices: res.indices, nq: res.nq, k: res.k }
    }

    fn search_with_mask(&self, queries: &[f32], k: usize, mask: Option<&[bool]>) -> FloatResults {
        let rows = score_rows(&self.index, queries, mask, &mut self.skips.borrow_mut());
        let res = self.index.search_with_mask(queries.len(), &rows, k, mask);
        FloatResults { scores: floats(&res.scores), indices: res.indices, nq: res.nq, k: res.k }
    }

    fn write(&self) -> IndexParts {
        self.index.write()
    }

    fn load(parts: IndexParts) -> Option<Self> {
        if parts.is_consistent() {
            Some(Self::around(TurboQuantIndex::load(parts)))
        } else {
            None
        }
    }

    fn len(&self) -> usize {
        self.index.len()
    }

    fn dim(&self) -> usize {
        self.index.dim()
    }

    fn dim_opt(&self) -> Option<usize> {
        self.index.dim_opt()
    }

    fn bit_width(&self) -> usize {
        self.index.bit_width()
    }
}

/// The id-addressed index with vectors and scores as floats.
struct FloatIdMap {
    index: IdMapIndex,
}

impl FloatIdMap {
    fn new(dim: usize, bit_width: usize) -> Self {
        FloatIdMap { index: IdMapIndex::new(dim, bit_width) }
    }

    fn new_lazy(bit_width: usize) -> Self {
        FloatIdMap { index: IdMapIndex::new_lazy(bit_width) }
    }

    fn add_with_ids(&mut self, vectors: &[f32], ids: &[u64]) -> Result<(), AddError> {
        let dim = self.index.dim();
        self.index.check_add_with_ids_2d(vectors.len(), dim, ids)?;
        let encoded = encode(vectors, dim, self.index.bit_width());
        self.index.add_with_ids(vectors.len(), ids, encoded)
    }

    fn add_with_ids_2d(&mut self, vectors: &[f32], dim: usize, ids: &[u64]) -> Result<(), AddError> {
        self.index.check_add_with_ids_2d(vectors.len(), dim, ids)?;
        let encoded = encode(vectors, dim, self.index.bit_width());
        self.index.add_with_ids_2d(vectors.len(), dim, ids, encoded)
    }

    fn remove(&mut self, id: u64) -> bool {
        self.index.remove(id)
    }

    fn search(&self, queries: &[f32], k: usize) -> (Vec<f32>, Vec<u64>) {
        let rows = score_rows(self.index.index(), queries, None, &mut BlockSkips::new());
        let (scores, ids) = self.index.search(queries.len(), &rows, k);
        (floats(&scores), ids)
    }

    fn search_with_allowlist(&self, queries: &[f32], k: usize, allowlist: Option<&[u64]>) -> (Vec<f32>, Vec<u64>) {
        let flags = allowlist.map(|list| self.index.allowlist_flags(list));
        let rows = score_rows(self.index.index(), queries, flags.as_deref(), &mut BlockSkips::new());
        let (scores, ids) = self.index.search_with_allowlist(queries.len(), &rows, k, allowlist);
        (floats(&scores), ids)
    }

    fn write(&self) -> IdMapParts {
        self.index.write()
    }

    fn load(parts: IdMapParts) -> Result<Self, LoadError> {
        assert!(parts.is_consistent());
        IdMapIndex::load(parts).map(|index| FloatIdMap { index })
    }

    fn contains(&self, id: u64) -> bool {
        self.index.contains(id)
    }

    fn len(&self) -> usize {
        self.index.len()
    }

    fn dim(&self) -> usize {
        self.index.dim()
    }

    fn dim_opt(&self) -> Option<usize> {
        self.index.dim_opt()
    }

    fn bit_width(&self) -> usize {
        self.index.bit_width()
    }
}

fn build_index(n: usize, dim: usize, seed: u64) -> FloatIndex {
    let data = gaussian_normalized(n, dim, seed);
    let mut idx = FloatIndex::new(dim, 4);
    idx.add(&data);
    idx
}

/// Reference top-k under a mask: score everything, filter to allowed slots,
/// take top-k by score.
fn reference_topk(
    idx: &FloatIndex,
    query: &[f32],
    mask: &[bool],
    k: usize,
) -> (Vec<f32>, Vec<i64>) {
    let n = mask.len();
    let res = idx.search(query, n);
    let scores = &res.scores[..res.k];
    let indices = &res.indices[..res.k];
    let mut filtered: Vec<(f32, i64)> = scores
        .iter()
        .zip(indices.iter())
        .filter(|(_, &slot)| mask[slot as usize])
        .map(|(&s, &i)| (s, i))
        .collect();
    filtered.truncate(k);
    (
        filtered.iter().map(|p| p.0).collect(),
        filtered.iter().map(|p| p.1).collect(),
    )
}

#[test]
fn mask_matches_post_hoc_filter() {
    let dim = 128;
    let n = 256;
    let idx = build_index(n, dim, 0xF11D_0001);
    let query = gaussian_normalized(1, dim, 0xF11D_0002);

    // Allow every other slot.
    let mut mask = vec![false; n];
    for i in 0..n {
        if i % 2 == 0 {
            mask[i] = true;
        }
    }

    let masked = idx.search_with_mask(&query, 10, Some(&mask));
    let (ref_scores, ref_indices) = reference_topk(&idx, &query, &mask, 10);

    assert_eq!(masked.k, 10, "expected 10 results, got {}", masked.k);
    assert_eq!(&masked.scores[..], &ref_scores[..], "score mismatch");
    assert_eq!(&masked.indices[..], &ref_indices[..], "index mismatch");
    for &slot in &masked.indices {
        assert!(
            mask[slot as usize],
            "kernel returned disallowed slot {}",
            slot
        );
    }
}

#[test]
fn mask_none_equals_mask_all_true() {
    let dim = 64;
    let n = 200;
    let idx = build_index(n, dim, 0xF11D_0003);
    let query = gaussian_normalized(1, dim, 0xF11D_0004);

    let unfiltered = idx.search(&query, 20);
    let all_true = vec![true; n];
    let filtered = idx.search_with_mask(&query, 20, Some(&all_true));

    assert_eq!(unfiltered.k, filtered.k);
    assert_eq!(&unfiltered.scores[..], &filtered.scores[..]);
    assert_eq!(&unfiltered.indices[..], &filtered.indices[..]);
}

#[test]
fn effective_k_shrinks_when_allowlist_smaller_than_k() {
    let dim = 64;
    let n = 100;
    let idx = build_index(n, dim, 0xF11D_0005);
    let query = gaussian_normalized(1, dim, 0xF11D_0006);

    let mut mask = vec![false; n];
    mask[3] = true;
    mask[42] = true;
    mask[77] = true;

    let res = idx.search_with_mask(&query, 10, Some(&mask));
    assert_eq!(res.k, 3, "effective k should be 3 (popcount of mask)");
    assert_eq!(res.scores.len(), 3);
    assert_eq!(res.indices.len(), 3);
    for &slot in &res.indices {
        assert!(mask[slot as usize]);
    }
}

#[test]
fn all_false_mask_returns_empty_results() {
    let dim = 64;
    let n = 64;
    let idx = build_index(n, dim, 0xF11D_0007);
    let query = gaussian_normalized(1, dim, 0xF11D_0008);

    let mask = vec![false; n];
    let res = idx.search_with_mask(&query, 5, Some(&mask));
    assert_eq!(res.k, 0);
    assert!(res.scores.is_empty());
    assert!(res.indices.is_empty());
}

#[test]
fn multi_query_batch_respects_mask() {
    // Queries are scored in batches of 4. The mask has to be honoured for
    // every query, those of a smaller last batch included.
    let dim = 128;
    let n = 256;
    let nq = 7;
    let idx = build_index(n, dim, 0xF11D_000B);
    let queries = gaussian_normalized(nq, dim, 0xF11D_000C);

    let mut mask = vec![false; n];
    for i in 0..n {
        if i % 3 == 0 {
            mask[i] = true;
        }
    }

    let res = idx.search_with_mask(&queries, 8, Some(&mask));
    assert_eq!(res.nq, nq);
    assert_eq!(res.k, 8);
    assert_eq!(res.indices.len(), nq * 8);

    for qi in 0..nq {
        let row_start = qi * res.k;
        let row = &res.indices[row_start..row_start + res.k];
        let scores_row = &res.scores[row_start..row_start + res.k];
        // Every returned slot must be in the allowed set.
        for &slot in row {
            assert!(
                mask[slot as usize],
                "query {qi}: kernel returned disallowed slot {slot}"
            );
        }
        // Scores are returned in descending order.
        for w in scores_row.windows(2) {
            assert!(w[0] >= w[1], "query {qi}: scores not descending: {scores_row:?}");
        }
        // The same query searched by itself gives the same slots.
        let query_row = &queries[qi * dim..(qi + 1) * dim];
        let (ref_scores, ref_indices) = reference_topk(&idx, query_row, &mask, res.k);
        assert_eq!(row, &ref_indices[..], "query {qi} index mismatch");
        for (a, b) in scores_row.iter().zip(ref_scores.iter()) {
            assert!(
                (a - b).abs() <= 1e-4 * a.abs().max(b.abs()).max(1.0),
                "query {qi}: score {a} vs reference {b}",
            );
        }
    }
}

#[test]
fn allowlist_returns_only_listed_ids() {
    let dim = 128;
    let n = 100;
    let data = gaussian_normalized(n, dim, 0xF11D_1001);
    let ids: Vec<u64> = (0..n as u64).map(|i| 1000 + i).collect();
    let mut idx = FloatIdMap::new(dim, 4);
    idx.add_with_ids(&data, &ids).unwrap();

    let query = gaussian_normalized(1, dim, 0xF11D_1002);
    let allowed: Vec<u64> = vec![1003, 1010, 1042, 1077, 1099];
    let (scores, returned_ids) = idx.search_with_allowlist(&query, 10, Some(&allowed));

    assert_eq!(scores.len(), allowed.len(), "effective k = allowlist len");
    assert_eq!(returned_ids.len(), allowed.len());
    for id in &returned_ids {
        assert!(
            allowed.contains(id),
            "kernel returned id {} not in allowlist",
            id
        );
    }
}

#[test]
fn allowlist_none_equivalent_to_plain_search() {
    let dim = 64;
    let n = 80;
    let data = gaussian_normalized(n, dim, 0xF11D_1003);
    let ids: Vec<u64> = (0..n as u64).map(|i| 7000 + i * 13).collect();
    let mut idx = FloatIdMap::new(dim, 4);
    idx.add_with_ids(&data, &ids).unwrap();

    let query = gaussian_normalized(1, dim, 0xF11D_1004);
    let (s1, i1) = idx.search(&query, 5);
    let (s2, i2) = idx.search_with_allowlist(&query, 5, None);
    assert_eq!(s1, s2);
    assert_eq!(i1, i2);
}

#[test]
fn block_skip_at_one_percent_selectivity_matches_post_filter() {
    // With about one slot in a hundred allowed most blocks are skipped. The
    // best slots are still those of a full search, filtered.
    let dim = 128;
    let n = 4096; // 128 blocks
    let data = gaussian_normalized(n, dim, 0xB10C_5417);
    let mut idx = FloatIndex::new(dim, 4);
    idx.add(&data);
    idx.prepare();

    // Scattered over the whole range, so that some blocks hold an allowed
    // slot and most do not.
    let n_allowed = n / 100;
    let allowed_slots: Vec<usize> = (0..n_allowed).map(|i| (i * 97) % n).collect();
    let mut mask = vec![false; n];
    for &s in &allowed_slots {
        mask[s] = true;
    }

    let query = gaussian_normalized(1, dim, 0xB10C_5418);
    let k = 8;

    let masked = idx.search_with_mask(&query, k, Some(&mask));
    let dense = idx.search(&query, n);

    // Post-filter the dense top-k to the allowed set, then compare to masked.
    let dense_ids = dense.indices_for_query(0);
    let dense_scores = dense.scores_for_query(0);
    let mut expected: Vec<(f32, i64)> = dense_ids
        .iter()
        .zip(dense_scores.iter())
        .filter(|(&i, _)| mask[i as usize])
        .map(|(&i, &s)| (s, i))
        .collect();
    expected.sort_unstable_by(|a, b| b.0.partial_cmp(&a.0).unwrap_or(std::cmp::Ordering::Equal));
    expected.truncate(k);

    let masked_ids = masked.indices_for_query(0);
    let masked_scores = masked.scores_for_query(0);
    assert_eq!(masked_ids.len(), expected.len(), "result count");
    for (i, (exp_score, exp_id)) in expected.iter().enumerate() {
        assert_eq!(
            masked_ids[i], *exp_id,
            "rank {}: id mismatch (got {}, want {})",
            i, masked_ids[i], exp_id
        );
        assert!(
            (masked_scores[i] - exp_score).abs() < 1e-4,
            "rank {}: score mismatch (got {}, want {})",
            i, masked_scores[i], exp_score
        );
    }
}

#[test]
fn block_skip_at_extreme_selectivity_returns_only_allowed() {
    // With one slot in a thousand allowed nearly every block is skipped.
    let dim = 64;
    let n = 8192;
    let data = gaussian_normalized(n, dim, 0xB10C_5419);
    let mut idx = FloatIndex::new(dim, 4);
    idx.add(&data);
    idx.prepare();

    let allowed_slots: Vec<usize> = vec![17, 533, 1024, 2500, 6700, 8000];
    let mut mask = vec![false; n];
    for &s in &allowed_slots {
        mask[s] = true;
    }

    let query = gaussian_normalized(1, dim, 0xB10C_541A);
    let results = idx.search_with_mask(&query, 4, Some(&mask));
    let ids = results.indices_for_query(0);

    assert_eq!(ids.len(), 4);
    for &id in ids {
        assert!(
            allowed_slots.contains(&(id as usize)),
            "returned id {} not in allowlist",
            id
        );
    }
}

#[test]
fn block_skip_path_actually_fires_under_selective_mask() {
    // A search over skipped blocks would return the same slots, so the counter
    // is what shows that blocks were skipped.
    let dim = 64;
    let n = 4096; // 128 blocks
    let data = gaussian_normalized(n, dim, 0xC0DE_5417);
    let mut idx = FloatIndex::new(dim, 4);
    idx.add(&data);
    idx.prepare();

    // Only the last 40 slots are allowed: two blocks of the 128.
    let mut mask = vec![false; n];
    for slot in (n - 40)..n {
        mask[slot] = true;
    }

    let query = gaussian_normalized(1, dim, 0xC0DE_5418);

    reset_blocks_skipped_by_mask(&mut idx.skips.borrow_mut());
    let before = blocks_skipped_by_mask(&idx.skips.borrow());
    let _ = idx.search_with_mask(&query, 8, Some(&mask));
    let after = blocks_skipped_by_mask(&idx.skips.borrow());
    let delta = after - before;

    assert!(
        delta > 0,
        "block-skip counter did not increment during selective search; \
         the early-exit path appears inactive (before={before}, after={after})"
    );

    assert!(
        delta >= 50,
        "block-skip fired only {delta} times for a search where ~126 of \
         128 blocks have no allowed slots; some kernel variants may be \
         missing the guard or misaligning the mask-word check"
    );
}

#[test]
fn block_skip_with_all_slots_allowed_matches_unmasked() {
    // A mask that allows every slot skips no block.
    let dim = 64;
    let n = 1024;
    let data = gaussian_normalized(n, dim, 0xB10C_541B);
    let mut idx = FloatIndex::new(dim, 4);
    idx.add(&data);
    idx.prepare();

    let mask = vec![true; n];
    let query = gaussian_normalized(1, dim, 0xB10C_541C);
    let k = 16;

    let with_mask = idx.search_with_mask(&query, k, Some(&mask));
    let no_mask = idx.search(&query, k);

    assert_eq!(with_mask.indices_for_query(0), no_mask.indices_for_query(0));
    assert_eq!(with_mask.scores_for_query(0), no_mask.scores_for_query(0));
}

#[test]
fn allowlist_survives_swap_remove() {
    // After remove(), slots shift but external ids are stable. An allowlist
    // built against ids should keep working without rebuilding.
    let dim = 64;
    let n = 30;
    let data = gaussian_normalized(n, dim, 0xF11D_1009);
    let ids: Vec<u64> = (0..n as u64).map(|i| 5000 + i).collect();
    let mut idx = FloatIdMap::new(dim, 4);
    idx.add_with_ids(&data, &ids).unwrap();

    let allowed: Vec<u64> = vec![5005, 5015, 5020];
    let query = gaussian_normalized(1, dim, 0xF11D_100A);

    let _before = idx.search_with_allowlist(&query, 3, Some(&allowed));
    // Removing an id NOT in the allowlist; the allowlist should remain valid.
    assert!(idx.remove(5025));
    let after = idx.search_with_allowlist(&query, 3, Some(&allowed));
    assert_eq!(after.1.len(), 3);
    for id in &after.1 {
        assert!(allowed.contains(id));
    }
}

#[test]
fn add_with_ids_updates_len_and_contains() {
    let dim = 128;
    let data = gaussian_normalized(5, dim, 0xA11D_0000);
    let mut idx = FloatIdMap::new(dim, 4);
    idx.add_with_ids(&data, &[100, 200, 300, 400, 500]).unwrap();

    assert_eq!(idx.len(), 5);
    assert!(idx.contains(300));
    assert!(!idx.contains(999));
}

#[test]
fn search_returns_ids_not_slots() {
    let dim = 256;
    let data = gaussian_normalized(10, dim, 0xA11D_0001);
    let mut idx = FloatIdMap::new(dim, 4);
    let ids: Vec<u64> = (1_000_000..1_000_010).collect();
    idx.add_with_ids(&data, &ids).unwrap();

    // Self-query each vector: expect the matching external id as top-1.
    for (i, &expected_id) in ids.iter().enumerate() {
        let q = &data[i * dim..(i + 1) * dim];
        let (_, got_ids) = idx.search(q, 1);
        assert_eq!(got_ids[0], expected_id);
    }
}

#[test]
fn remove_returns_false_for_missing_id() {
    let dim = 128;
    let data = gaussian_normalized(3, dim, 0xA11D_0002);
    let mut idx = FloatIdMap::new(dim, 4);
    idx.add_with_ids(&data, &[1, 2, 3]).unwrap();

    assert!(!idx.remove(999));
    assert_eq!(idx.len(), 3);
}

#[test]
fn remove_existing_id_shrinks_and_hides_it() {
    let dim = 256;
    let data = gaussian_normalized(10, dim, 0xA11D_0003);
    let mut idx = FloatIdMap::new(dim, 4);
    let ids: Vec<u64> = (0..10).map(|i| i as u64 * 7 + 11).collect();
    idx.add_with_ids(&data, &ids).unwrap();

    // Remove the third vector (id = 25, at slot 2).
    let target_id = ids[2];
    assert!(idx.remove(target_id));
    assert_eq!(idx.len(), 9);
    assert!(!idx.contains(target_id));

    // Its own vector should no longer be returned as a top-1 under its id.
    let q = &data[2 * dim..3 * dim];
    let (_, got_ids) = idx.search(q, 9);
    assert!(!got_ids.contains(&target_id));
}

#[test]
fn remaining_ids_still_self_query_after_mixed_removes() {
    let dim = 384;
    let data = gaussian_normalized(20, dim, 0xA11D_0004);
    let mut idx = FloatIdMap::new(dim, 4);
    let ids: Vec<u64> = (0..20).map(|i| i as u64 * 100 + 5).collect();
    idx.add_with_ids(&data, &ids).unwrap();

    // Remove a few ids in different orders — some will trigger
    // swap-and-pop, some will be the last vector (no swap).
    idx.remove(ids[7]);   // middle
    idx.remove(ids[19]);  // last
    idx.remove(ids[0]);   // first

    assert_eq!(idx.len(), 17);
    assert!(!idx.contains(ids[7]));
    assert!(!idx.contains(ids[19]));
    assert!(!idx.contains(ids[0]));

    // Every surviving id still maps back to its own vector.
    for (i, &id) in ids.iter().enumerate() {
        if i == 0 || i == 7 || i == 19 {
            continue;
        }
        let q = &data[i * dim..(i + 1) * dim];
        let (_, got_ids) = idx.search(q, 1);
        assert_eq!(
            got_ids[0], id,
            "id {id} (row {i}) no longer self-queries correctly after remove",
        );
    }
}

#[test]
fn remove_then_re_add_same_id_is_allowed() {
    let dim = 128;
    let data = gaussian_normalized(5, dim, 0xA11D_0005);
    let mut idx = FloatIdMap::new(dim, 4);
    idx.add_with_ids(&data, &[1, 2, 3, 4, 5]).unwrap();

    assert!(idx.remove(3));
    assert!(!idx.contains(3));

    // Re-add a new vector with id 3.
    let new_vec = gaussian_normalized(1, dim, 0xA11D_BEEF);
    idx.add_with_ids(&new_vec, &[3]).unwrap();
    assert!(idx.contains(3));
    assert_eq!(idx.len(), 5);
}

#[test]
fn add_with_ids_rejects_duplicate_id() {
    let dim = 128;
    let data = gaussian_normalized(5, dim, 0xA11D_0006);
    let mut idx = FloatIdMap::new(dim, 4);
    idx.add_with_ids(&data[..2 * dim], &[1, 2]).unwrap();
    // Same id "2" already present.
    let err = idx
        .add_with_ids(&data[2 * dim..3 * dim], &[2])
        .unwrap_err();
    assert_eq!(err, AddError::IdAlreadyPresent(2));
}

#[test]
fn add_with_ids_rejects_length_mismatch() {
    let dim = 128;
    let data = gaussian_normalized(5, dim, 0xA11D_0007);
    let mut idx = FloatIdMap::new(dim, 4);
    // 5 vectors, only 3 ids.
    let err = idx.add_with_ids(&data, &[1, 2, 3]).unwrap_err();
    assert_eq!(
        err,
        AddError::IdsCountMismatch {
            expected: 5,
            got: 3,
        },
    );
}

#[test]
fn write_and_load_round_trips() {
    let dim = 256;
    let data = gaussian_normalized(10, dim, 0xA11D_0100);
    let ids: Vec<u64> = (2000..2010).collect();

    let mut idx = FloatIdMap::new(dim, 4);
    idx.add_with_ids(&data, &ids).unwrap();

    // Delete a few to exercise non-identity slot_to_id mapping.
    idx.remove(2003);
    idx.remove(2007);

    let parts = idx.write();

    let restored = FloatIdMap::load(parts).expect("load failed");
    assert_eq!(restored.len(), 8);
    assert!(restored.contains(2000));
    assert!(!restored.contains(2003));
    assert!(!restored.contains(2007));

    // Every surviving id should still self-query to itself on the
    // restored index (exercising packed_codes + scales + slot_to_id
    // all round-trip correctly).
    for (i, &id) in ids.iter().enumerate() {
        if id == 2003 || id == 2007 {
            continue;
        }
        let q = &data[i * dim..(i + 1) * dim];
        let (_, got_ids) = restored.search(q, 1);
        assert_eq!(got_ids[0], id, "id {id} failed to self-query after reload");
    }

}

#[test]
fn load_rejects_wrong_magic() {
    let res = check_id_map_header(b"XXXX\x01");
    assert!(res.is_err(), "load should reject file without TVIM magic");
    assert_eq!(res, Err(LoadError::WrongMagic));
    assert_eq!(check_header(b"XXXX\x01", b"TVIM"), Err(LoadError::WrongMagic));
    assert_eq!(id_map_header(), b"TVIM\x02");
}

#[test]
fn empty_index_round_trip() {
    let dim = 128;
    let idx = FloatIdMap::new(dim, 4);

    let parts = idx.write();

    let restored = FloatIdMap::load(parts).expect("load failed");
    assert_eq!(restored.len(), 0);
    assert_eq!(restored.dim(), dim);
    assert_eq!(restored.bit_width(), 4);
}

#[test]
fn new_lazy_starts_with_no_dim() {
    let idx = FloatIndex::new_lazy(4);
    assert_eq!(idx.dim_opt(), None);
    assert_eq!(idx.dim(), 0, "dim() returns 0 as sentinel");
    assert_eq!(idx.len(), 0);
    assert_eq!(idx.bit_width(), 4);
}

#[test]
fn add_2d_locks_dim_on_first_call() {
    let mut idx = FloatIndex::new_lazy(4);
    let data = gaussian_normalized(3, DIM, 0xA00D_0001);
    idx.add_2d(&data, DIM).unwrap();
    assert_eq!(idx.dim_opt(), Some(DIM));
    assert_eq!(idx.len(), 3);
}

#[test]
fn add_2d_subsequent_calls_must_match_dim() {
    let mut idx = FloatIndex::new_lazy(4);
    let data1 = gaussian_normalized(2, DIM, 0xA00D_0002);
    idx.add_2d(&data1, DIM).unwrap();
    let data2 = gaussian_normalized(2, DIM, 0xA00D_0003);
    idx.add_2d(&data2, DIM).unwrap();
    assert_eq!(idx.len(), 4);
}

#[test]
fn add_2d_rejects_dim_change() {
    let mut idx = FloatIndex::new_lazy(4);
    let data = gaussian_normalized(1, DIM, 0xA00D_0004);
    idx.add_2d(&data, DIM).unwrap();
    let wrong = gaussian_normalized(1, DIM * 2, 0xA00D_0005);
    let err = idx.add_2d(&wrong, DIM * 2).unwrap_err();
    assert_eq!(
        err,
        AddError::DimMismatch {
            existing: DIM,
            got: DIM * 2,
        },
    );
}

#[test]
fn search_on_lazy_uncommitted_returns_empty() {
    let idx = FloatIndex::new_lazy(4);
    let queries = gaussian_normalized(2, DIM, 0xA00D_0007);
    let res = idx.search(&queries, 5);
    assert_eq!(res.scores.len(), 0);
    assert_eq!(res.indices.len(), 0);
    assert_eq!(res.k, 0);
}

#[test]
fn write_load_round_trip_lazy_uncommitted() {
    let parts = {
        let idx = FloatIndex::new_lazy(4);
        idx.write()
    };
    let loaded = FloatIndex::load(parts).unwrap();
    assert_eq!(loaded.dim_opt(), None);
    assert_eq!(loaded.len(), 0);
    assert_eq!(loaded.bit_width(), 4);
}

#[test]
fn write_load_round_trip_eager_index_still_works() {
    // A committed dimensionality is not taken for an open one.
    let parts = {
        let mut idx = FloatIndex::new(DIM, 4);
        idx.add(&gaussian_normalized(4, DIM, 0xA00D_0008));
        idx.write()
    };
    let loaded = FloatIndex::load(parts).unwrap();
    assert_eq!(loaded.dim_opt(), Some(DIM));
    assert_eq!(loaded.len(), 4);
}

#[test]
fn write_load_round_trip_lazy_after_committed_add() {
    let parts = {
        let mut idx = FloatIndex::new_lazy(2);
        idx.add_2d(&gaussian_normalized(3, DIM, 0xA00D_0009), DIM).unwrap();
        idx.write()
    };
    let loaded = FloatIndex::load(parts).unwrap();
    assert_eq!(loaded.dim_opt(), Some(DIM));
    assert_eq!(loaded.len(), 3);
    assert_eq!(loaded.bit_width(), 2);
}

#[test]
fn id_map_new_lazy_starts_with_no_dim() {
    let idx = FloatIdMap::new_lazy(4);
    assert_eq!(idx.dim_opt(), None);
    assert_eq!(idx.dim(), 0);
    assert_eq!(idx.len(), 0);
}

#[test]
fn id_map_add_with_ids_2d_locks_dim() {
    let mut idx = FloatIdMap::new_lazy(4);
    let data = gaussian_normalized(3, DIM, 0xA00D_0010);
    let ids: Vec<u64> = vec![10, 20, 30];
    idx.add_with_ids_2d(&data, DIM, &ids).unwrap();
    assert_eq!(idx.dim_opt(), Some(DIM));
    assert_eq!(idx.len(), 3);
    assert!(idx.contains(20));
}

#[test]
fn id_map_search_on_lazy_uncommitted_returns_empty() {
    let idx = FloatIdMap::new_lazy(4);
    let queries = gaussian_normalized(1, DIM, 0xA00D_0012);
    let (scores, ids) = idx.search(&queries, 5);
    assert!(scores.is_empty());
    assert!(ids.is_empty());
}

#[test]
fn id_map_write_load_round_trip_lazy_uncommitted() {
    let parts = {
        let idx = FloatIdMap::new_lazy(2);
        idx.write()
    };
    let loaded = FloatIdMap::load(parts).unwrap();
    assert_eq!(loaded.dim_opt(), None);
    assert_eq!(loaded.len(), 0);
    assert_eq!(loaded.bit_width(), 2);
}

#[test]
fn id_map_write_load_round_trip_lazy_after_committed_add() {
    let ids: Vec<u64> = vec![100, 200, 300];
    let parts = {
        let mut idx = FloatIdMap::new_lazy(4);
        idx.add_with_ids_2d(&gaussian_normalized(3, DIM, 0xA00D_0013), DIM, &ids).unwrap();
        idx.write()
    };
    let loaded = FloatIdMap::load(parts).unwrap();
    assert_eq!(loaded.dim_opt(), Some(DIM));
    assert_eq!(loaded.len(), 3);
    for &id in &ids {
        assert!(loaded.contains(id));
    }
}

#[test]
fn prepare_on_lazy_uncommitted_is_noop() {
    let mut idx = FloatIndex::new_lazy(4);
    idx.prepare();
    assert!(idx.index.blocked().is_none());
    assert_eq!(idx.dim_opt(), None);
    assert_eq!(idx.len(), 0);
}

/// The same changes with layouts cached in between and with none: what is found
/// is the same at every point.
#[test]
fn caching_in_between_never_shows() {
    let dim = 64;
    let data = gaussian_normalized(90, dim, 0xCAC4E);
    let queries = gaussian_normalized(6, dim, 0xCAC4F);
    let mask_of = |n: usize| -> Vec<bool> { (0..n).map(|i| i % 5 != 0).collect() };
    let mut plain = FloatIndex::new_lazy(4);
    let mut cached = FloatIndex::new_lazy(4);
    cached.prepare();
    for step in 0..8 {
        for (index, prepares) in [(&mut plain, false), (&mut cached, true)] {
            match step {
                0 => index.add_2d(&data[..40 * dim], dim).unwrap(),
                1 | 4 => {
                    index.index.swap_remove(step);
                }
                2 => index.add(&data[40 * dim..75 * dim]),
                3 => assert!(index.add_2d(&data[..32], 32).is_err()),
                5 => index.add_2d(&data[75 * dim..], dim).unwrap(),
                _ => {
                    index.index.swap_remove(index.len() - 1);
                }
            }
            if prepares {
                index.prepare();
            }
        }
        assert!(plain.index.blocked().is_none());
        assert!(cached.index.blocked().is_some());
        assert_eq!(plain.index.packed_codes(), cached.index.packed_codes());
        let flags = mask_of(plain.len());
        for mask in [None, Some(flags.as_slice())] {
            let a = plain.search_with_mask(&queries, 7, mask);
            let b = cached.search_with_mask(&queries, 7, mask);
            assert_eq!((a.nq, a.k), (b.nq, b.k));
            assert_eq!(a.scores, b.scores);
            assert_eq!(a.indices, b.indices);
        }
    }
}
