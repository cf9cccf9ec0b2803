//! What the selected hits of a row are: its best allowed slots.
//!
//! A NaN score compares false with everything, so which slots are best is only
//! settled where no allowed slot scores NaN. The laws that speak of best slots
//! are stated for those rows; what the other slots score does not matter.
use crate::mask::{allowed_slots, allows, count_true, lemma_count_all};
use crate::rank::{descending, law_best_comes_first, law_ranking_sorts, lemma_ranked_drawn, lemma_same_members, ranked};
use crate::score::{allowed_nan_free, is_nan, rank_key, score_gt, score_key};
use crate::search::{
    allowed_count, drawn_from, hit_scores, hit_slots, law_allowed_slots_are_counted, law_hits_are_taken_apart, least,
    lemma_allowed_count, lemma_offer_range_drawn, lemma_offer_range_len, lemma_ranked_hits, lemma_result_hits_len,
    lemma_result_row_len, result_hits, result_row,
};
use crate::topk::{lemma_min_pos_exists, min_pos, offer_range, select, Hit};
use vstd::prelude::*;

verus! {

/// True iff one of the hits is `slot`.
pub open spec fn has_slot(hits: Seq<Hit>, slot: int) -> bool {
    exists|i: int| 0 <= i < hits.len() && (#[trigger] hits[i]).slot == slot
}

/// True iff no allowed slot of `0..hi` that is not among the hits scores higher
/// than one of the hits.
pub open spec fn unbeaten(hits: Seq<Hit>, row: Seq<u32>, allowed: Seq<bool>, hi: int) -> bool {
    forall|slot: int, i: int|
        0 <= slot < hi && #[trigger] allowed[slot] && !has_slot(hits, slot) && 0 <= i < hits.len() ==> score_key(
            row[slot],
        ) <= score_key((#[trigger] hits[i]).score)
}

/// While fewer than `k` hits are kept, every allowed slot offered is kept; after
/// that no slot left out scores higher than one kept.
proof fn lemma_offer_range_best(row: Seq<u32>, allowed: Seq<bool>, k: nat, hi: int)
    requires
        allowed_nan_free(row, allowed),
        0 <= hi <= row.len() <= usize::MAX,
        allowed.len() == row.len(),
        k > 0,
    ensures
        ({
            let hits = offer_range(Seq::empty(), row, allowed, k, 0, hi);
            &&& hits.len() < k ==> forall|slot: int| 0 <= slot < hi && #[trigger] allowed[slot] ==> has_slot(hits, slot)
            &&& unbeaten(hits, row, allowed, hi)
        }),
    decreases hi,
{
    if hi > 0 {
        lemma_offer_range_best(row, allowed, k, hi - 1);
        lemma_offer_range_drawn(row, allowed, k, hi - 1);
        lemma_offer_range_drawn(row, allowed, k, hi);
        lemma_offer_range_len(row, allowed, k, hi - 1);
        let before = offer_range(Seq::empty(), row, allowed, k, 0, hi - 1);
        let after = offer_range(Seq::empty(), row, allowed, k, 0, hi);
        let last = Hit { score: row[hi - 1], slot: (hi - 1) as usize };
        if allowed[hi - 1] && before.len() < k {
            assert(after == before.push(last));
            assert(after[before.len() as int].slot == hi - 1);
            assert forall|slot: int| 0 <= slot < hi && #[trigger] allowed[slot] implies has_slot(after, slot) by {
                if slot < hi - 1 {
                    assert(has_slot(before, slot));
                    let i = choose|i: int| 0 <= i < before.len() && (#[trigger] before[i]).slot == slot;
                    assert(after[i].slot == slot);
                }
            }
        } else if allowed[hi - 1] {
            lemma_min_pos_exists(before);
            let p = min_pos(before);
            assert(before[p].slot < hi - 1);
            assert(before[0].slot < hi - 1);
            assert(forall|i: int|
                0 <= i < before.len() ==> !is_nan(#[trigger] before[i].score) && score_key(before[p].score)
                    <= score_key(before[i].score)) by {
                assert forall|i: int| 0 <= i < before.len() implies !is_nan(#[trigger] before[i].score)
                    && score_key(before[p].score) <= score_key(before[i].score) by {
                    assert(before[i].slot < hi - 1);
                }
            }
            assert forall|slot: int, i: int|
                0 <= slot < hi && #[trigger] allowed[slot] && !has_slot(after, slot) && 0 <= i < after.len() implies score_key(
                row[slot],
            ) <= score_key((#[trigger] after[i]).score) by {
                if after == before {
                    assert(before[i] == after[i]);
                } else {
                    assert(after == before.update(p, last));
                    assert(after[p].slot == hi - 1);
                    if has_slot(before, slot) {
                        let j = choose|j: int| 0 <= j < before.len() && (#[trigger] before[j]).slot == slot;
                        if j != p {
                            assert(after[j].slot == slot);
                        }
                        assert(before[p].score == row[slot]);
                    } else {
                        assert(score_key(row[slot]) <= score_key(before[p].score));
                    }
                    if i != p {
                        assert(after[i] == before[i]);
                    }
                }
            }
        } else {
            assert(after == before);
        }
    }
}

/// Where no allowed slot scores NaN the selected hits are the best allowed slots: there are
/// as many as asked for, or as there are allowed slots, and no allowed slot that
/// was left out scores higher than one that was selected.
pub proof fn law_selects_best(row: Seq<u32>, allowed: Seq<bool>, k: nat)
    requires
        allowed_nan_free(row, allowed),
        allowed.len() == row.len(),
        row.len() <= usize::MAX,
    ensures
        ranked(select(row, allowed, k)).len() == least(k, count_true(allowed)),
        drawn_from(ranked(select(row, allowed, k)), row, allowed, row.len() as int),
        unbeaten(ranked(select(row, allowed, k)), row, allowed, row.len() as int),
{
    let hits = select(row, allowed, k);
    let best = ranked(hits);
    lemma_result_row_len(row, allowed, k);
    lemma_offer_range_drawn(row, allowed, k, row.len() as int);
    lemma_ranked_drawn(hits, row, allowed, row.len() as int);
    law_ranking_sorts(hits);
    lemma_same_members(hits, best);
    if k > 0 {
        lemma_offer_range_best(row, allowed, k, row.len() as int);
        assert forall|slot: int, i: int|
            0 <= slot < row.len() && #[trigger] allowed[slot] && !has_slot(best, slot) && 0 <= i < best.len() implies score_key(
            row[slot],
        ) <= score_key((#[trigger] best[i]).score) by {
            assert(hits.contains(best[i]));
            let j = choose|j: int| 0 <= j < hits.len() && hits[j] == best[i];
            if has_slot(hits, slot) {
                let m = choose|m: int| 0 <= m < hits.len() && (#[trigger] hits[m]).slot == slot;
                assert(hits.contains(hits[m]));
                let b = choose|b: int| 0 <= b < best.len() && best[b] == hits[m];
                assert(best[b].slot == slot);
            }
            assert(score_key(row[slot]) <= score_key(hits[j].score));
        }
    }
}

/// A sequence without repetitions whose members all occur in another is no
/// longer than that one.
proof fn lemma_no_longer(a: Seq<usize>, b: Seq<usize>)
    requires
        a.no_duplicates(),
        forall|i: int| 0 <= i < a.len() ==> b.contains(#[trigger] a[i]),
    ensures
        a.len() <= b.len(),
{
    a.unique_seq_to_set();
    b.lemma_cardinality_of_set();
    vstd::seq_lib::seq_to_set_is_finite(b);
    assert forall|x: usize| #[trigger] a.to_set().contains(x) implies b.to_set().contains(x) by {
        let i = choose|i: int| 0 <= i < a.len() && a[i] == x;
        assert(b.contains(a[i]));
    }
    vstd::set_lib::lemma_len_subset(a.to_set(), b.to_set());
}

/// The slots of a sequence of hits, as positions.
spec fn positions(hits: Seq<Hit>) -> Seq<usize> {
    hits.map_values(|h: Hit| h.slot)
}

/// If `a` is in descending order and its first `i + 1` hits score higher than
/// the `i`-th hit of the descending sequence `b`, then one of them is not in `b`.
proof fn lemma_outside(a: Seq<Hit>, b: Seq<Hit>, row: Seq<u32>, allowed: Seq<bool>, i: int) -> (j: int)
    requires
        allowed_nan_free(row, allowed),
        row.len() == allowed.len(),
        drawn_from(a, row, allowed, row.len() as int),
        drawn_from(b, row, allowed, row.len() as int),
        descending(a),
        descending(b),
        0 <= i < a.len(),
        i < b.len(),
        score_key(a[i].score) > score_key(b[i].score),
    ensures
        0 <= j <= i,
        !has_slot(b, a[j].slot as int),
        score_key(a[j].score) >= score_key(a[i].score),
{
    let first = positions(a.take(i + 1));
    let few = positions(b.take(i));
    assert forall|p: int| 0 <= p < a.len() implies rank_key((#[trigger] a[p]).score) == score_key(a[p].score) by {
        assert(a[p].slot < row.len());
    }
    assert forall|p: int| 0 <= p < b.len() implies rank_key((#[trigger] b[p]).score) == score_key(b[p].score) by {
        assert(b[p].slot < row.len());
    }
    assert forall|p: int| 0 <= p <= i implies score_key((#[trigger] a[p]).score) >= score_key(a[i].score) by {
        if p < i {
            assert(rank_key(a[p].score) >= rank_key(a[i].score));
        }
    }
    if forall|p: int| 0 <= p <= i ==> has_slot(b, (#[trigger] a[p]).slot as int) {
        assert forall|p: int| 0 <= p < first.len() implies few.contains(#[trigger] first[p]) by {
            assert(has_slot(b, a[p].slot as int));
            let q = choose|q: int| 0 <= q < b.len() && (#[trigger] b[q]).slot == a[p].slot;
            assert(b[q].score == a[p].score);
            if q >= i {
                if q > i {
                    assert(rank_key(b[i].score) >= rank_key(b[q].score));
                }
                assert(false);
            }
            assert(few[q] == first[p]);
        }
        assert(first.no_duplicates()) by {
            assert forall|p: int, q: int| 0 <= p < first.len() && 0 <= q < first.len() && p != q implies first[p] != first[q] by {
                if p < q {
                    assert(a[p].slot != a[q].slot);
                } else {
                    assert(a[q].slot != a[p].slot);
                }
            }
        }
        lemma_no_longer(first, few);
    }
    choose|j: int| 0 <= j <= i && !has_slot(b, (#[trigger] a[j]).slot as int)
}

/// Filtering a descending sequence of distinct slots keeps its order and exactly
/// the allowed slots.
proof fn lemma_filter(dense: Seq<Hit>, row: Seq<u32>, all: Seq<bool>, allowed: Seq<bool>, hi: int)
    requires
        drawn_from(dense, row, all, hi),
        descending(dense),
    ensures
        ({
            let kept = dense.filter(|h: Hit| allowed[h.slot as int]);
            &&& drawn_from(kept, row, allowed, hi)
            &&& descending(kept)
            &&& forall|i: int| 0 <= i < kept.len() ==> dense.contains(#[trigger] kept[i])
            &&& forall|i: int|
                0 <= i < dense.len() && allowed[(#[trigger] dense[i]).slot as int] ==> has_slot(kept, dense[i].slot as int)
        }),
    decreases dense.len(),
{
    reveal(Seq::filter);
    let pred = |h: Hit| allowed[h.slot as int];
    if dense.len() > 0 {
        let init = dense.drop_last();
        assert(forall|i: int| 0 <= i < init.len() ==> #[trigger] init[i] == dense[i]);
        assert(drawn_from(init, row, all, hi)) by {
            assert forall|i: int, j: int| 0 <= i < j < init.len() implies (#[trigger] init[i]).slot != (
            #[trigger] init[j]).slot by {
                assert(dense[i].slot != dense[j].slot);
            }
        }
        assert(descending(init)) by {
            assert forall|i: int, j: int| 0 <= i < j < init.len() implies rank_key((#[trigger] init[i]).score) >= rank_key(
                (#[trigger] init[j]).score,
            ) by {
                assert(rank_key(dense[i].score) >= rank_key(dense[j].score));
            }
        }
        lemma_filter(init, row, all, allowed, hi);
        let inner = init.filter(pred);
        let kept = dense.filter(pred);
        let last = dense.last();
        let l = dense.len() - 1;
        assert forall|i: int| 0 <= i < kept.len() implies dense.contains(#[trigger] kept[i]) by {
            if i < inner.len() {
                assert(kept[i] == inner[i]);
                let j = choose|j: int| 0 <= j < init.len() && init[j] == inner[i];
                assert(dense[j] == kept[i]);
            } else {
                assert(dense[l] == kept[i]);
            }
        }
        assert forall|i: int| 0 <= i < dense.len() && allowed[(#[trigger] dense[i]).slot as int] implies has_slot(
            kept,
            dense[i].slot as int,
        ) by {
            if i < l {
                assert(allowed[init[i].slot as int]);
                let j = choose|j: int| 0 <= j < inner.len() && (#[trigger] inner[j]).slot == init[i].slot;
                assert(kept[j].slot == dense[i].slot);
            } else {
                assert(kept[inner.len() as int].slot == dense[i].slot);
            }
        }
        if allowed[last.slot as int] {
            assert(kept == inner.push(last));
            assert forall|i: int| 0 <= i < inner.len() implies (#[trigger] inner[i]).slot != last.slot && rank_key(
                inner[i].score,
            ) >= rank_key(last.score) by {
                let j = choose|j: int| 0 <= j < init.len() && init[j] == inner[i];
                assert(dense[j].slot != dense[l].slot);
                assert(rank_key(dense[j].score) >= rank_key(dense[l].score));
            }
            assert(dense[l].slot < hi);
            assert forall|i: int| 0 <= i < kept.len() implies {
                &&& (#[trigger] kept[i]).slot < hi
                &&& allowed[kept[i].slot as int]
                &&& kept[i].score == row[kept[i].slot as int]
            } by {
                if i < inner.len() {
                    assert(kept[i] == inner[i]);
                }
            }
            assert forall|i: int, j: int| 0 <= i < j < kept.len() implies (#[trigger] kept[i]).slot != (
            #[trigger] kept[j]).slot && rank_key(kept[i].score) >= rank_key(kept[j].score) by {
                assert(kept[i] == inner[i]);
                if j < inner.len() {
                    assert(kept[j] == inner[j]);
                }
            }
        } else {
            assert(kept == inner);
        }
    }
}

/// The scores of a masked search are the scores that are left when the allowed
/// slots are picked out of the full ranking and the first `k` of them are kept.
/// Where no two allowed slots score the same, the slots are the same too. No
/// allowed slot scores NaN.
pub proof fn law_mask_is_post_filter(row: Seq<u32>, allowed: Seq<bool>, k: nat)
    requires
        allowed_nan_free(row, allowed),
        allowed.len() == row.len(),
        row.len() <= usize::MAX,
    ensures
        ({
            let masked = ranked(select(row, allowed, k));
            let dense = ranked(select(row, Seq::new(row.len(), |i: int| true), row.len()));
            let kept = dense.filter(|h: Hit| allowed[h.slot as int]);
            &&& masked.len() == least(k, kept.len())
            &&& forall|i: int|
                0 <= i < masked.len() ==> score_key((#[trigger] masked[i]).score) == score_key(kept[i].score)
            &&& (forall|i: int, j: int|
                0 <= i < j < row.len() && allowed[i] && allowed[j] ==> score_key(#[trigger] row[i]) != score_key(
                    #[trigger] row[j],
                )) ==> masked == kept.take(masked.len() as int)
        }),
{
    let n = row.len();
    let all = Seq::new(n, |i: int| true);
    let masked = ranked(select(row, allowed, k));
    let dense = ranked(select(row, all, n));
    let kept = dense.filter(|h: Hit| allowed[h.slot as int]);
    law_selects_best(row, allowed, k);
    lemma_result_row_len(row, all, n);
    lemma_ranked_hits(row, all, n);
    law_ranking_sorts(select(row, allowed, k));
    law_ranking_sorts(select(row, all, n));
    lemma_filter(dense, row, all, allowed, n as int);
    lemma_count_all(all);
    // Every slot is in the full ranking.
    assert forall|slot: int| 0 <= slot < n implies has_slot(dense, slot) by {
        if n > 0 {
            lemma_all_kept(row, all, n as int);
            let hits = select(row, all, n);
            assert(has_slot(hits, slot));
            lemma_same_members(hits, dense);
            let m = choose|m: int| 0 <= m < hits.len() && (#[trigger] hits[m]).slot == slot;
            assert(hits.contains(hits[m]));
            let b = choose|b: int| 0 <= b < dense.len() && dense[b] == hits[m];
            assert(dense[b].slot == slot);
        }
    }
    assert forall|slot: int| 0 <= slot < n && #[trigger] allowed[slot] implies has_slot(kept, slot) by {
        assert(has_slot(dense, slot));
        let i = choose|i: int| 0 <= i < dense.len() && (#[trigger] dense[i]).slot == slot;
        assert(allowed[dense[i].slot as int]);
    }
    lemma_kept_count(kept, row, allowed);
    assert forall|i: int| 0 <= i < masked.len() implies score_key((#[trigger] masked[i]).score) == score_key(
        kept[i].score,
    ) by {
        if score_key(masked[i].score) > score_key(kept[i].score) {
            let j = lemma_outside(masked, kept, row, allowed, i);
            assert(masked[j].slot < n);
            assert(has_slot(kept, masked[j].slot as int));
        } else if score_key(masked[i].score) < score_key(kept[i].score) {
            let j = lemma_outside(kept, masked, row, allowed, i);
            assert(kept[j].slot < n);
            assert(allowed[kept[j].slot as int]);
            assert(score_key(row[kept[j].slot as int]) <= score_key(masked[i].score));
        }
    }
    if forall|i: int, j: int|
        0 <= i < j < row.len() && allowed[i] && allowed[j] ==> score_key(#[trigger] row[i]) != score_key(
            #[trigger] row[j],
        ) {
        assert forall|i: int| 0 <= i < masked.len() implies masked[i] == #[trigger] kept.take(masked.len() as int)[i] by {
            let a = masked[i];
            let b = kept[i];
            assert(a.slot < n && b.slot < n);
            assert(score_key(a.score) == score_key(b.score));
            if a.slot < b.slot {
                assert(score_key(row[a.slot as int]) != score_key(row[b.slot as int]));
            } else if b.slot < a.slot {
                assert(score_key(row[b.slot as int]) != score_key(row[a.slot as int]));
            }
        }
        assert(masked =~= kept.take(masked.len() as int));
    }
}

/// With room for every slot, every slot is kept.
proof fn lemma_all_kept(row: Seq<u32>, all: Seq<bool>, hi: int)
    requires
        all.len() == row.len(),
        forall|i: int| 0 <= i < all.len() ==> all[i],
        0 <= hi <= row.len() <= usize::MAX,
    ensures
        forall|slot: int|
            0 <= slot < hi ==> #[trigger] has_slot(offer_range(Seq::empty(), row, all, row.len(), 0, hi), slot),
    decreases hi,
{
    if hi > 0 {
        lemma_all_kept(row, all, hi - 1);
        lemma_offer_range_len(row, all, row.len(), hi - 1);
        lemma_count_all(all.take(hi - 1));
        let before = offer_range(Seq::empty(), row, all, row.len(), 0, hi - 1);
        let after = offer_range(Seq::empty(), row, all, row.len(), 0, hi);
        assert(after == before.push(Hit { score: row[hi - 1], slot: (hi - 1) as usize }));
        assert forall|slot: int| 0 <= slot < hi implies #[trigger] has_slot(after, slot) by {
            if slot < hi - 1 {
                assert(has_slot(before, slot));
                let i = choose|i: int| 0 <= i < before.len() && (#[trigger] before[i]).slot == slot;
                assert(after[i].slot == slot);
            } else {
                assert(after[before.len() as int].slot == slot);
            }
        }
    }
}

/// The `true` positions below `hi`.
spec fn true_positions(s: Seq<bool>, hi: int) -> Seq<usize>
    decreases hi,
{
    if hi <= 0 {
        Seq::empty()
    } else if s[hi - 1] {
        true_positions(s, hi - 1).push((hi - 1) as usize)
    } else {
        true_positions(s, hi - 1)
    }
}

proof fn lemma_true_positions(s: Seq<bool>, hi: int)
    requires
        0 <= hi <= s.len() <= usize::MAX,
    ensures
        ({
            let t = true_positions(s, hi);
            &&& t.len() == count_true(s.take(hi))
            &&& t.no_duplicates()
            &&& forall|i: int| 0 <= i < t.len() ==> (#[trigger] t[i]) < hi && s[t[i] as int]
            &&& forall|p: int| 0 <= p < hi && #[trigger] s[p] ==> t.contains(p as usize)
        }),
    decreases hi,
{
    if hi > 0 {
        lemma_true_positions(s, hi - 1);
        let t0 = true_positions(s, hi - 1);
        let t = true_positions(s, hi);
        assert(s.take(hi).drop_last() == s.take(hi - 1));
        assert(s.take(hi).last() == s[hi - 1]);
        assert forall|p: int| 0 <= p < hi && #[trigger] s[p] implies t.contains(p as usize) by {
            if p < hi - 1 {
                assert(t0.contains(p as usize));
                let i = choose|i: int| 0 <= i < t0.len() && t0[i] == p as usize;
                assert(t[i] == p as usize);
            } else {
                assert(t[t0.len() as int] == p as usize);
            }
        }
        assert forall|i: int, j: int| 0 <= i < t.len() && 0 <= j < t.len() && i != j implies t[i] != t[j] by {
            if i < t0.len() {
                assert(t0[i] < hi - 1);
            }
            if j < t0.len() {
                assert(t0[j] < hi - 1);
            }
        }
    } else {
        assert(s.take(0).len() == 0);
    }
}

/// A sequence of hits that holds every allowed slot once has as many hits as
/// there are allowed slots.
proof fn lemma_kept_count(kept: Seq<Hit>, row: Seq<u32>, allowed: Seq<bool>)
    requires
        row.len() == allowed.len(),
        row.len() <= usize::MAX,
        drawn_from(kept, row, allowed, row.len() as int),
        forall|slot: int| 0 <= slot < row.len() && #[trigger] allowed[slot] ==> has_slot(kept, slot),
    ensures
        kept.len() == count_true(allowed),
{
    let n = row.len() as int;
    let t = true_positions(allowed, n);
    let p = positions(kept);
    lemma_true_positions(allowed, n);
    assert(allowed.take(n) == allowed);
    assert(p.no_duplicates()) by {
        assert forall|i: int, j: int| 0 <= i < p.len() && 0 <= j < p.len() && i != j implies p[i] != p[j] by {
            if i < j {
                assert(kept[i].slot != kept[j].slot);
            } else {
                assert(kept[j].slot != kept[i].slot);
            }
        }
    }
    assert forall|i: int| 0 <= i < p.len() implies t.contains(#[trigger] p[i]) by {
        assert(kept[i].slot < n);
        assert(allowed[kept[i].slot as int]);
    }
    lemma_no_longer(p, t);
    assert forall|i: int| 0 <= i < t.len() implies p.contains(#[trigger] t[i]) by {
        assert(allowed[t[i] as int]);
        assert(has_slot(kept, t[i] as int));
        let j = choose|j: int| 0 <= j < kept.len() && (#[trigger] kept[j]).slot == t[i] as int;
        assert(p[j] == t[i]);
    }
    lemma_no_longer(t, p);
}

/// With `k` no larger than the number of allowed slots a result row has exactly
/// `k` entries, each an allowed slot with its own score: there is nothing to
/// fill up.
pub proof fn law_no_filling(row: Seq<u32>, allowed: Seq<bool>, k: nat)
    requires
        allowed.len() == row.len(),
        row.len() <= usize::MAX,
        k <= count_true(allowed),
    ensures
        result_row(row, allowed, k).len() == k,
        drawn_from(result_row(row, allowed, k), row, allowed, row.len() as int),
{
    lemma_result_row_len(row, allowed, k);
    lemma_ranked_hits(row, allowed, k);
}

/// Searching two batches of queries one after the other gives the results of
/// searching them together.
pub proof fn law_batches_concatenate(a: Seq<Vec<u32>>, b: Seq<Vec<u32>>, allowed: Seq<bool>, k: nat)
    ensures
        result_hits(a + b, allowed, k) == result_hits(a, allowed, k) + result_hits(b, allowed, k),
    decreases b.len(),
{
    if b.len() == 0 {
        assert(a + b == a);
    } else {
        assert((a + b).drop_last() == a + b.drop_last());
        law_batches_concatenate(a, b.drop_last(), allowed, k);
    }
}

/// Every result is an allowed slot.
pub proof fn lemma_result_slots(rows: Seq<Vec<u32>>, allowed: Seq<bool>, k: nat)
    requires
        forall|q: int| 0 <= q < rows.len() ==> (#[trigger] rows[q])@.len() == allowed.len(),
        allowed.len() <= usize::MAX,
    ensures
        forall|i: int|
            0 <= i < result_hits(rows, allowed, k).len() ==> (#[trigger] result_hits(rows, allowed, k)[i]).slot
                < allowed.len() && allowed[result_hits(rows, allowed, k)[i].slot as int],
    decreases rows.len(),
{
    if rows.len() > 0 {
        let init = rows.drop_last();
        assert(forall|q: int| 0 <= q < init.len() ==> #[trigger] init[q] == rows[q]);
        lemma_result_slots(init, allowed, k);
        let row = rows.last()@;
        lemma_ranked_hits(row, allowed, k);
        let before = result_hits(init, allowed, k);
        let last = result_row(row, allowed, k);
        let all = result_hits(rows, allowed, k);
        assert(all == before + last);
        assert forall|i: int| 0 <= i < all.len() implies (#[trigger] all[i]).slot < allowed.len()
            && allowed[all[i].slot as int] by {
            if i < before.len() {
                assert(all[i] == before[i]);
            } else {
                assert(all[i] == last[i - before.len()]);
            }
        }
    }
}

/// Row `q` of the flat results is the result row of query `q`.
pub proof fn lemma_result_at(rows: Seq<Vec<u32>>, allowed: Seq<bool>, k: nat, q: int, i: int)
    requires
        forall|q: int| 0 <= q < rows.len() ==> (#[trigger] rows[q])@.len() == allowed.len(),
        k <= count_true(allowed),
        0 <= q < rows.len(),
        0 <= i < k,
    ensures
        0 <= q * k + i < result_hits(rows, allowed, k).len(),
        result_hits(rows, allowed, k)[q * k + i] == result_row(rows[q]@, allowed, k)[i],
    decreases rows.len(),
{
    let init = rows.drop_last();
    assert(forall|q: int| 0 <= q < init.len() ==> #[trigger] init[q] == rows[q]);
    lemma_result_hits_len(init, allowed, k);
    lemma_result_hits_len(rows, allowed, k);
    lemma_result_row_len(rows.last()@, allowed, k);
    assert(0 <= q * k) by (nonlinear_arith)
        requires
            0 <= q,
    ;
    if q < init.len() {
        lemma_result_at(init, allowed, k, q, i);
    }
}

proof fn lemma_same_offers(a: Seq<u32>, b: Seq<u32>, allowed: Seq<bool>, k: nat, hi: int)
    requires
        forall|slot: int| 0 <= slot < hi && #[trigger] allowed[slot] ==> a[slot] == b[slot],
    ensures
        offer_range(Seq::empty(), a, allowed, k, 0, hi) == offer_range(Seq::empty(), b, allowed, k, 0, hi),
    decreases hi,
{
    if hi > 0 {
        lemma_same_offers(a, b, allowed, k, hi - 1);
    }
}

/// The scores of slots that are not allowed do not matter: queries that give
/// every allowed slot the same score have the same results.
pub proof fn law_only_allowed_scores_matter(a: Seq<Vec<u32>>, b: Seq<Vec<u32>>, allowed: Seq<bool>, k: nat)
    requires
        a.len() == b.len(),
        forall|q: int| 0 <= q < a.len() ==> (#[trigger] a[q])@.len() == b[q]@.len(),
        forall|q: int, slot: int|
            0 <= q < a.len() && 0 <= slot < a[q]@.len() && allowed[slot] ==> #[trigger] a[q]@[slot] == b[q]@[slot],
    ensures
        result_hits(a, allowed, k) == result_hits(b, allowed, k),
    decreases a.len(),
{
    if a.len() > 0 {
        let x = a.drop_last();
        let y = b.drop_last();
        let l = a.len() - 1;
        assert(forall|q: int| 0 <= q < x.len() ==> #[trigger] x[q] == a[q] && y[q] == b[q]);
        law_only_allowed_scores_matter(x, y, allowed, k);
        assert forall|slot: int| 0 <= slot < a[l]@.len() && #[trigger] allowed[slot] implies a[l]@[slot] == b[l]@[slot] by {
            assert(a[l]@[slot] == b[l]@[slot]);
        }
        lemma_same_offers(a[l]@, b[l]@, allowed, k, a[l]@.len() as int);
    }
}


/// Each query gets as many results as are asked for, or as there are allowed slots
/// if those are fewer.
pub proof fn law_number_of_answers(
    rows: Seq<Vec<u32>>,
    n: nat,
    k: nat,
    mask: Option<&[u64]>,
    scores: Seq<u32>,
    slots: Seq<i64>,
    n_allowed: nat,
)
    requires
        forall|q: int| 0 <= q < rows.len() ==> (#[trigger] rows[q])@.len() == n,
        scores == hit_scores(result_hits(rows, allowed_slots(mask, n), least(k, allowed_count(mask, n)))),
        slots == hit_slots(result_hits(rows, allowed_slots(mask, n), least(k, allowed_count(mask, n)))),
        n_allowed == Seq::new(n, |slot: int| allows(mask, slot)).filter(|flag: bool| flag).len(),
    ensures
        k <= n_allowed ==> scores.len() == rows.len() * k && slots.len() == rows.len() * k,
        n_allowed <= k ==> scores.len() == rows.len() * n_allowed && slots.len() == rows.len() * n_allowed,
{
    law_allowed_slots_are_counted(mask, n);
    lemma_allowed_count(mask, n);
    lemma_result_hits_len(rows, allowed_slots(mask, n), least(k, allowed_count(mask, n)));
}

/// What a search answers, all rows of results one after the other. Each
/// result is an allowed slot with the score that the query gives it; no slot comes
/// twice, and no result is followed by one that scores higher.
pub proof fn law_search_answers(
    rows: Seq<Vec<u32>>,
    n: nat,
    k: nat,
    mask: Option<&[u64]>,
    scores: Seq<u32>,
    slots: Seq<i64>,
    per_query: nat,
    q: int,
    i: int,
    j: int,
)
    requires
        forall|q: int| 0 <= q < rows.len() ==> (#[trigger] rows[q])@.len() == n,
        n <= i64::MAX,
        n <= usize::MAX,
        scores == hit_scores(result_hits(rows, allowed_slots(mask, n), least(k, allowed_count(mask, n)))),
        slots == hit_slots(result_hits(rows, allowed_slots(mask, n), least(k, allowed_count(mask, n)))),
        per_query == if k <= Seq::new(n, |slot: int| allows(mask, slot)).filter(|flag: bool| flag).len() {
            k
        } else {
            Seq::new(n, |slot: int| allows(mask, slot)).filter(|flag: bool| flag).len()
        },
        0 <= q < rows.len(),
        0 <= i < per_query,
        0 <= j < per_query,
    ensures
        0 <= slots[q * per_query + i] < n,
        allows(mask, slots[q * per_query + i] as int),
        scores[q * per_query + i] == rows[q]@[slots[q * per_query + i] as int],
        i < j ==> slots[q * per_query + i] != slots[q * per_query + j],
        i < j ==> !score_gt(scores[q * per_query + j], scores[q * per_query + i]),
{
    let allowed = allowed_slots(mask, n);
    let hits = result_hits(rows, allowed, per_query);
    law_allowed_slots_are_counted(mask, n);
    lemma_allowed_count(mask, n);
    assert(per_query == least(k, allowed_count(mask, n)));
    lemma_result_hits_len(rows, allowed, per_query);
    lemma_result_at(rows, allowed, per_query, q, i);
    lemma_result_at(rows, allowed, per_query, q, j);
    let row = rows[q]@;
    let best = result_row(row, allowed, per_query);
    law_no_filling(row, allowed, per_query);
    lemma_result_row_len(row, allowed, per_query);
    assert(best[i].slot < n && best[j].slot < n);
    law_hits_are_taken_apart(hits, q * per_query + i);
    law_hits_are_taken_apart(hits, q * per_query + j);
    if i < j {
        law_best_comes_first(select(row, allowed, per_query), i, j);
        assert(best[i].slot != best[j].slot);
    }
}

/// A search answers with the best slots: where a query gives no allowed slot NaN,
/// no allowed slot that is not among its results scores higher than one of them.
pub proof fn law_search_answers_best(
    rows: Seq<Vec<u32>>,
    n: nat,
    k: nat,
    mask: Option<&[u64]>,
    scores: Seq<u32>,
    slots: Seq<i64>,
    per_query: nat,
    q: int,
    slot: int,
    i: int,
)
    requires
        forall|q: int| 0 <= q < rows.len() ==> (#[trigger] rows[q])@.len() == n,
        n <= i64::MAX,
        n <= usize::MAX,
        scores == hit_scores(result_hits(rows, allowed_slots(mask, n), least(k, allowed_count(mask, n)))),
        slots == hit_slots(result_hits(rows, allowed_slots(mask, n), least(k, allowed_count(mask, n)))),
        per_query == if k <= Seq::new(n, |slot: int| allows(mask, slot)).filter(|flag: bool| flag).len() {
            k
        } else {
            Seq::new(n, |slot: int| allows(mask, slot)).filter(|flag: bool| flag).len()
        },
        0 <= q < rows.len(),
        forall|s: int| 0 <= s < n && #[trigger] allows(mask, s) ==> !is_nan(rows[q]@[s]),
        0 <= slot < n,
        allows(mask, slot),
        forall|j: int| 0 <= j < per_query ==> #[trigger] slots[q * per_query + j] != slot,
        0 <= i < per_query,
    ensures
        !score_gt(rows[q]@[slot], scores[q * per_query + i]),
{
    let allowed = allowed_slots(mask, n);
    let hits = result_hits(rows, allowed, per_query);
    let row = rows[q]@;
    let best = result_row(row, allowed, per_query);
    law_allowed_slots_are_counted(mask, n);
    lemma_allowed_count(mask, n);
    assert(per_query == least(k, allowed_count(mask, n)));
    lemma_result_hits_len(rows, allowed, per_query);
    law_no_filling(row, allowed, per_query);
    assert(allowed_nan_free(row, allowed)) by {
        assert forall|s: int| 0 <= s < row.len() && #[trigger] allowed[s] implies !is_nan(row[s]) by {
            assert(allows(mask, s));
        }
    }
    law_selects_best(row, allowed, per_query);
    if has_slot(best, slot) {
        let j = choose|j: int| 0 <= j < best.len() && (#[trigger] best[j]).slot == slot;
        lemma_result_at(rows, allowed, per_query, q, j);
        law_hits_are_taken_apart(hits, q * per_query + j);
        assert(slots[q * per_query + j] == slot);
    }
    assert(best[i].slot < n);
    lemma_result_at(rows, allowed, per_query, q, i);
    law_hits_are_taken_apart(hits, q * per_query + i);
    assert(allowed[slot]);
    assert(score_key(row[slot]) <= score_key(best[i].score));
}

/// What the laws on selected hits speak of: the slots among hits, hits that none
/// left out beats, and hits drawn from a row.
pub proof fn law_terms_of_selection(hits: Seq<Hit>, row: Seq<u32>, allowed: Seq<bool>, slot: int)
    requires
        allowed.len() == row.len(),
        drawn_from(hits, row, allowed, row.len() as int),
        allowed_nan_free(row, allowed),
    ensures
        has_slot(hits, slot) <==> exists|i: int| 0 <= i < hits.len() && (#[trigger] hits[i]).slot == slot,
        forall|i: int|
            0 <= i < hits.len() ==> (#[trigger] hits[i]).slot < row.len() && allowed[hits[i].slot as int] && hits[i].score
                == row[hits[i].slot as int],
        forall|i: int, j: int|
            0 <= i < j < hits.len() ==> (#[trigger] hits[i]).slot != (#[trigger] hits[j]).slot,
        unbeaten(hits, row, allowed, row.len() as int) && 0 <= slot < row.len() && allowed[slot] && !has_slot(hits, slot)
            ==> forall|i: int| 0 <= i < hits.len() ==> !score_gt(row[slot], (#[trigger] hits[i]).score),
{
    if unbeaten(hits, row, allowed, row.len() as int) && 0 <= slot < row.len() && allowed[slot] && !has_slot(
        hits,
        slot,
    ) {
        assert forall|i: int| 0 <= i < hits.len() implies !score_gt(row[slot], (#[trigger] hits[i]).score) by {
            assert(score_key(row[slot]) <= score_key(hits[i].score));
        }
    }
}
} // verus!
