//! Top-`k` search over rows of scores, one row per query.
use crate::mask::{
    allowed_slots, allows, block_allowed, count_allowed, count_true, covers, law_count_is_number_set, lemma_count_all,
    lemma_set_below, same_below, set_below,
};
pub use crate::mask::{blocks_skipped_by_mask, reset_blocks_skipped_by_mask};
use crate::rank::{law_ranking_sorts, lemma_ranked_drawn, ranked};
use crate::topk::{lemma_min_pos_exists, lemma_offer_skip, lemma_offer_split, offer_range, select, Hit, TopK};
use crate::BLOCK;
use vstd::prelude::*;

verus! {

/// Number of the slots `0..n_vectors` that the mask says may be returned.
pub open spec fn allowed_count(mask: Option<&[u64]>, n_vectors: nat) -> nat {
    match mask {
        None => n_vectors,
        Some(words) => set_below(words@, n_vectors),
    }
}

/// The smaller of two numbers.
pub open spec fn least(a: nat, b: nat) -> nat {
    if a <= b {
        a
    } else {
        b
    }
}

/// Result row of one query: its best hits, best first.
pub open spec fn result_row(row: Seq<u32>, allowed: Seq<bool>, k: nat) -> Seq<Hit> {
    ranked(select(row, allowed, k))
}

/// The result rows of all queries, one after the other.
pub open spec fn result_hits(rows: Seq<Vec<u32>>, allowed: Seq<bool>, k: nat) -> Seq<Hit>
    decreases rows.len(),
{
    if rows.len() == 0 {
        Seq::empty()
    } else {
        result_hits(rows.drop_last(), allowed, k) + result_row(rows.last()@, allowed, k)
    }
}

/// The scores of a sequence of hits.
pub open spec fn hit_scores(hits: Seq<Hit>) -> Seq<u32> {
    hits.map_values(|h: Hit| h.score)
}

/// The slots of a sequence of hits.
pub open spec fn hit_slots(hits: Seq<Hit>) -> Seq<i64> {
    hits.map_values(|h: Hit| h.slot as i64)
}

/// The best `k` allowed slots of one row, best first.
pub fn search_row(row: &Vec<u32>, k: usize, mask: Option<&[u64]>) -> (best: Vec<Hit>)
    requires
        covers(mask, row@.len() as int),
    ensures
        best@ == ranked(select(row@, allowed_slots(mask, row@.len()), k as nat)),
{
    let n: usize = row.len();
    let ghost allowed = allowed_slots(mask, row@.len());
    if k == 0 {
        proof {
            lemma_select_nothing(row@, allowed, n as int);
        }
        return Vec::new();
    }
    let mut top: TopK = TopK::new(k);
    let mut base: usize = 0;
    while base < n
        invariant
            top.wf(),
            top.capacity() == k,
            base <= n,
            base < n ==> base % BLOCK == 0,
            n == row@.len(),
            covers(mask, n as int),
            allowed == allowed_slots(mask, row@.len()),
            top@ == offer_range(Seq::empty(), row@, allowed, k as nat, 0, base as int),
        decreases n - base,
    {
        let end: usize = if n - base < BLOCK {
            n
        } else {
            base + BLOCK
        };
        if block_allowed(mask, base, n) {
            top.offer_block(row.as_slice(), base, end, mask);
        } else {
            proof {
                assert forall|i: int| base <= i < end implies !#[trigger] allowed[i] by {
                    assert(!allows(mask, i));
                }
                lemma_offer_skip(top@, row@, allowed, k as nat, base as int, end as int, 0);
            }
        }
        proof {
            lemma_offer_split(Seq::empty(), row@, allowed, k as nat, 0, base as int, end as int);
        }
        base = end;
    }
    top.ranking()
}

/// Nothing is selected when nothing may be kept.
proof fn lemma_select_nothing(row: Seq<u32>, allowed: Seq<bool>, hi: int)
    ensures
        offer_range(Seq::empty(), row, allowed, 0, 0, hi) == Seq::<Hit>::empty(),
    decreases hi,
{
    if hi > 0 {
        lemma_select_nothing(row, allowed, hi - 1);
    }
}

/// At most `k` hits are kept, and no more than there are allowed slots.
pub proof fn lemma_offer_range_len(row: Seq<u32>, allowed: Seq<bool>, k: nat, hi: int)
    requires
        0 <= hi <= allowed.len(),
    ensures
        offer_range(Seq::empty(), row, allowed, k, 0, hi).len() == least(k, count_true(allowed.take(hi))),
    decreases hi,
{
    if hi > 0 {
        lemma_offer_range_len(row, allowed, k, hi - 1);
        let before = offer_range(Seq::empty(), row, allowed, k, 0, hi - 1);
        if before.len() > 0 {
            lemma_min_pos_exists(before);
        }
        assert(allowed.take(hi).drop_last() == allowed.take(hi - 1));
        assert(allowed.take(hi).last() == allowed[hi - 1]);
    } else {
        assert(count_true(allowed.take(0)) == 0);
    }
}

/// A result row has `k` entries, or as many as there are allowed slots.
pub proof fn lemma_result_row_len(row: Seq<u32>, allowed: Seq<bool>, k: nat)
    requires
        row.len() == allowed.len(),
    ensures
        select(row, allowed, k).len() == least(k, count_true(allowed)),
        result_row(row, allowed, k).len() == least(k, count_true(allowed)),
{
    lemma_offer_range_len(row, allowed, k, row.len() as int);
    assert(allowed.take(row.len() as int) == allowed);
    law_ranking_sorts(select(row, allowed, k));
}

/// The result rows of `nq` queries have `nq * k` entries, where `k` is no larger
/// than the number of allowed slots.
pub proof fn lemma_result_hits_len(rows: Seq<Vec<u32>>, allowed: Seq<bool>, k: nat)
    requires
        forall|q: int| 0 <= q < rows.len() ==> (#[trigger] rows[q])@.len() == allowed.len(),
        k <= count_true(allowed),
    ensures
        result_hits(rows, allowed, k).len() == rows.len() * k,
    decreases rows.len(),
{
    if rows.len() > 0 {
        let init = rows.drop_last();
        assert(forall|q: int| 0 <= q < init.len() ==> #[trigger] init[q] == rows[q]);
        lemma_result_hits_len(init, allowed, k);
        lemma_result_row_len(rows.last()@, allowed, k);
        assert(rows.len() * k == (rows.len() - 1) * k + k) by (nonlinear_arith)
            requires
                rows.len() > 0,
        ;
    }
}

/// The number of allowed slots is the number of slots that the mask allows.
pub proof fn lemma_allowed_count(mask: Option<&[u64]>, n_vectors: nat)
    ensures
        allowed_count(mask, n_vectors) == count_true(allowed_slots(mask, n_vectors)),
{
    match mask {
        None => {
            lemma_count_all(allowed_slots(mask, n_vectors));
        },
        Some(words) => {
            lemma_set_below(words, n_vectors);
        },
    }
}

/// Number of slots that the mask says may be returned, but no more than `k`.
fn clamp_k(k: usize, n_vectors: usize, mask: Option<&[u64]>) -> (r: usize)
    requires
        covers(mask, n_vectors as int),
    ensures
        r == least(k as nat, allowed_count(mask, n_vectors as nat)),
{
    let n_allowed: usize = match mask {
        None => n_vectors,
        Some(words) => count_allowed(words, n_vectors),
    };
    if k <= n_allowed {
        k
    } else {
        n_allowed
    }
}

/// Appends the result row of one query to the flat results.
fn push_row(best: &Vec<Hit>, scores: &mut Vec<u32>, indices: &mut Vec<i64>)
    requires
        forall|i: int| 0 <= i < best@.len() ==> (#[trigger] best@[i]).slot <= i64::MAX,
    ensures
        final(scores)@ == old(scores)@ + hit_scores(best@),
        final(indices)@ == old(indices)@ + hit_slots(best@),
{
    let mut i: usize = 0;
    while i < best.len()
        invariant
            i <= best@.len(),
            forall|i: int| 0 <= i < best@.len() ==> (#[trigger] best@[i]).slot <= i64::MAX,
            scores@ == old(scores)@ + hit_scores(best@).take(i as int),
            indices@ == old(indices)@ + hit_slots(best@).take(i as int),
        decreases best@.len() - i,
    {
        let hit: Hit = best[i];
        scores.push(hit.score);
        indices.push(hit.slot as i64);
        assert(hit_scores(best@).take(i + 1) == hit_scores(best@).take(i as int).push(hit.score));
        assert(hit_slots(best@).take(i + 1) == hit_slots(best@).take(i as int).push(hit.slot as i64));
        i += 1;
    }
    assert(hit_scores(best@).take(i as int) == hit_scores(best@));
    assert(hit_slots(best@).take(i as int) == hit_slots(best@));
}

/// Searches every query for its best slots.
///
/// `rows` holds for each query the score of every slot, as bit patterns; of
/// slots that the mask leaves out the entries are not looked at, and bits past
/// the last slot are ignored. With `k` cut down to the number of allowed slots,
/// the results are one row of exactly `k` hits per query, best first, all rows
/// one after the other.
pub fn search(rows: &Vec<Vec<u32>>, n_vectors: usize, k: usize, mask: Option<&[u64]>) -> (r: (Vec<u32>, Vec<i64>))
    requires
        forall|q: int| 0 <= q < rows@.len() ==> (#[trigger] rows@[q])@.len() == n_vectors,
        covers(mask, n_vectors as int),
        n_vectors <= i64::MAX,
    ensures
        r.0@ == hit_scores(
            result_hits(
                rows@,
                allowed_slots(mask, n_vectors as nat),
                least(k as nat, allowed_count(mask, n_vectors as nat)),
            ),
        ),
        r.1@ == hit_slots(
            result_hits(
                rows@,
                allowed_slots(mask, n_vectors as nat),
                least(k as nat, allowed_count(mask, n_vectors as nat)),
            ),
        ),
        r.0@.len() == rows@.len() * least(k as nat, allowed_count(mask, n_vectors as nat)),
        r.1@.len() == r.0@.len(),
{
    let k: usize = clamp_k(k, n_vectors, mask);
    let ghost allowed = allowed_slots(mask, n_vectors as nat);
    let mut scores: Vec<u32> = Vec::new();
    let mut indices: Vec<i64> = Vec::new();
    let mut q: usize = 0;
    proof {
        assert(rows@.take(0) == Seq::<Vec<u32>>::empty());
        assert(scores@ == hit_scores(result_hits(rows@.take(0), allowed, k as nat)));
        assert(indices@ == hit_slots(result_hits(rows@.take(0), allowed, k as nat)));
        lemma_allowed_count(mask, n_vectors as nat);
        lemma_result_hits_len(rows@, allowed, k as nat);
    }
    while q < rows.len()
        invariant
            q <= rows@.len(),
            forall|q: int| 0 <= q < rows@.len() ==> (#[trigger] rows@[q])@.len() == n_vectors,
            covers(mask, n_vectors as int),
            n_vectors <= i64::MAX,
            allowed == allowed_slots(mask, n_vectors as nat),
            scores@ == hit_scores(result_hits(rows@.take(q as int), allowed, k as nat)),
            indices@ == hit_slots(result_hits(rows@.take(q as int), allowed, k as nat)),
        decreases rows@.len() - q,
    {
        let best: Vec<Hit> = search_row(&rows[q], k, mask);
        let ghost row = rows@[q as int]@;
        proof {
            lemma_ranked_hits(row, allowed, k as nat);
            assert(rows@.take(q + 1).drop_last() == rows@.take(q as int));
            assert(rows@.take(q + 1).last() == rows@[q as int]);
        }
        push_row(&best, &mut scores, &mut indices);
        proof {
            let before = result_hits(rows@.take(q as int), allowed, k as nat);
            let more = result_row(row, allowed, k as nat);
            assert(hit_scores(before + more) == hit_scores(before) + hit_scores(more));
            assert(hit_slots(before + more) == hit_slots(before) + hit_slots(more));
        }
        q += 1;
    }
    assert(rows@.take(q as int) == rows@);
    (scores, indices)
}

/// Every kept hit is an allowed slot with its own score, and no slot is kept
/// twice.
pub open spec fn drawn_from(hits: Seq<Hit>, row: Seq<u32>, allowed: Seq<bool>, hi: int) -> bool {
    &&& forall|i: int|
        0 <= i < hits.len() ==> {
            &&& (#[trigger] hits[i]).slot < hi
            &&& allowed[hits[i].slot as int]
            &&& hits[i].score == row[hits[i].slot as int]
        }
    &&& forall|i: int, j: int|
        0 <= i < j < hits.len() ==> (#[trigger] hits[i]).slot != (#[trigger] hits[j]).slot
}

/// The slots kept of `0..hi` are drawn from those.
pub proof fn lemma_offer_range_drawn(row: Seq<u32>, allowed: Seq<bool>, k: nat, hi: int)
    requires
        0 <= hi <= usize::MAX,
    ensures
        drawn_from(offer_range(Seq::empty(), row, allowed, k, 0, hi), row, allowed, hi),
    decreases hi,
{
    if hi > 0 {
        lemma_offer_range_drawn(row, allowed, k, hi - 1);
        let before = offer_range(Seq::empty(), row, allowed, k, 0, hi - 1);
        if before.len() > 0 {
            lemma_min_pos_exists(before);
        }
        let after = offer_range(Seq::empty(), row, allowed, k, 0, hi);
        assert forall|i: int| 0 <= i < after.len() implies {
            &&& (#[trigger] after[i]).slot < hi
            &&& allowed[after[i].slot as int]
            &&& after[i].score == row[after[i].slot as int]
        } by {
            if i < before.len() && after[i] == before[i] {
                assert(before[i].slot < hi - 1);
            }
        }
        assert forall|i: int, j: int| 0 <= i < j < after.len() implies (#[trigger] after[i]).slot != (
        #[trigger] after[j]).slot by {
            if i < before.len() {
                assert(before[i].slot < hi - 1);
            }
            if j < before.len() {
                assert(before[j].slot < hi - 1);
            }
        }
    }
}

/// The ranked hits of a row are allowed slots with their own scores, each once.
pub proof fn lemma_ranked_hits(row: Seq<u32>, allowed: Seq<bool>, k: nat)
    requires
        row.len() == allowed.len(),
        row.len() <= usize::MAX,
    ensures
        drawn_from(ranked(select(row, allowed, k)), row, allowed, row.len() as int),
{
    let hits = select(row, allowed, k);
    lemma_offer_range_drawn(row, allowed, k, row.len() as int);
    lemma_ranked_drawn(hits, row, allowed, row.len() as int);
}

/// Bits past the last slot are ignored: masks that agree on every slot allow the
/// same slots and the same number of them, so a search under either gives the
/// same results.
pub proof fn law_bits_past_last_slot_are_ignored(
    a: &[u64],
    b: &[u64],
    n_vectors: nat,
    rows: Seq<Vec<u32>>,
    k: nat,
)
    requires
        same_below(a, b, n_vectors as int),
    ensures
        allowed_slots(Some(a), n_vectors) == allowed_slots(Some(b), n_vectors),
        allowed_count(Some(a), n_vectors) == allowed_count(Some(b), n_vectors),
        result_hits(
            rows,
            allowed_slots(Some(a), n_vectors),
            least(k, allowed_count(Some(a), n_vectors)),
        ) == result_hits(rows, allowed_slots(Some(b), n_vectors), least(k, allowed_count(Some(b), n_vectors))),
{
    assert(allowed_slots(Some(a), n_vectors) =~= allowed_slots(Some(b), n_vectors));
    lemma_set_below(a, n_vectors);
    lemma_set_below(b, n_vectors);
}


/// The smaller of two numbers is one of them and exceeds neither.
pub proof fn law_least(a: nat, b: nat)
    ensures
        least(a, b) <= a,
        least(a, b) <= b,
        least(a, b) == a || least(a, b) == b,
{
}

/// The number of allowed slots, counted slot by slot.
pub proof fn law_allowed_slots_are_counted(mask: Option<&[u64]>, n_vectors: nat)
    ensures
        allowed_count(mask, n_vectors) == Seq::new(n_vectors, |slot: int| allows(mask, slot)).filter(
            |flag: bool| flag,
        ).len(),
        mask is None ==> allowed_count(mask, n_vectors) == n_vectors,
{
    lemma_allowed_count(mask, n_vectors);
    law_count_is_number_set(allowed_slots(mask, n_vectors));
    assert(allowed_slots(mask, n_vectors) =~= Seq::new(n_vectors, |slot: int| allows(mask, slot)));
}

/// The scores and slots of hits, one by one.
pub proof fn law_hits_are_taken_apart(hits: Seq<Hit>, i: int)
    requires
        0 <= i < hits.len(),
        hits[i].slot <= i64::MAX,
    ensures
        hit_scores(hits).len() == hits.len(),
        hit_slots(hits).len() == hits.len(),
        hit_scores(hits)[i] == hits[i].score,
        hit_slots(hits)[i] == hits[i].slot,
{
}
} // verus!
