//! Ranking of kept hits: best score first.
//!
//! Hits with equal scores keep the order in which they were kept. A NaN ranks
//! below every other score.
use crate::score::{is_nan, law_rank_keys_order_scores, rank_key, rank_key_of, score_gt};
use crate::search::drawn_from;
use crate::topk::Hit;
use vstd::prelude::*;

verus! {

/// `hit` put into a ranking, after everything that scores at least as high and
/// before the rest of its tail.
pub open spec fn insert_ranked(ranking: Seq<Hit>, hit: Hit) -> Seq<Hit>
    decreases ranking.len(),
{
    if ranking.len() == 0 || rank_key(ranking.last().score) >= rank_key(hit.score) {
        ranking.push(hit)
    } else {
        insert_ranked(ranking.drop_last(), hit).push(ranking.last())
    }
}

/// The ranking of a sequence of hits.
pub open spec fn ranked(hits: Seq<Hit>) -> Seq<Hit>
    decreases hits.len(),
{
    if hits.len() == 0 {
        hits
    } else {
        insert_ranked(ranked(hits.drop_last()), hits.last())
    }
}

/// True iff scores never rise along the sequence.
pub open spec fn descending(hits: Seq<Hit>) -> bool {
    forall|i: int, j: int|
        0 <= i < j < hits.len() ==> rank_key((#[trigger] hits[i]).score) >= rank_key((#[trigger] hits[j]).score)
}

/// Two rankings merged; on equal scores `a` comes first.
spec fn merged(a: Seq<Hit>, b: Seq<Hit>) -> Seq<Hit>
    decreases a.len() + b.len(),
{
    if b.len() == 0 {
        a
    } else if a.len() == 0 {
        b
    } else if rank_key(a.last().score) >= rank_key(b.last().score) {
        merged(a, b.drop_last()).push(b.last())
    } else {
        merged(a.drop_last(), b).push(a.last())
    }
}

proof fn lemma_merged_insert(a: Seq<Hit>, b: Seq<Hit>, hit: Hit)
    ensures
        merged(a, insert_ranked(b, hit)) == insert_ranked(merged(a, b), hit),
    decreases a.len() + b.len(),
{
    let bi = insert_ranked(b, hit);
    if b.len() == 0 || rank_key(b.last().score) >= rank_key(hit.score) {
        assert(bi.drop_last() == b);
        if a.len() > 0 && rank_key(a.last().score) < rank_key(hit.score) {
            lemma_merged_insert(a.drop_last(), b, hit);
            if b.len() == 0 {
                assert(merged(a.drop_last(), b).push(a.last()) == a);
            }
            assert(merged(a, b) == merged(a.drop_last(), b).push(a.last()));
            assert(merged(a, b).drop_last() == merged(a.drop_last(), b));
        } else {
            if a.len() > 0 && b.len() > 0 {
                assert(merged(a, b).last() == b.last() || merged(a, b).last() == a.last());
            }
            assert(insert_ranked(merged(a, b), hit) == merged(a, b).push(hit));
        }
    } else {
        assert(bi.drop_last() == insert_ranked(b.drop_last(), hit));
        if a.len() > 0 {
            if rank_key(a.last().score) >= rank_key(b.last().score) {
                lemma_merged_insert(a, b.drop_last(), hit);
                assert(merged(a, b).drop_last() == merged(a, b.drop_last()));
            } else {
                lemma_merged_insert(a.drop_last(), b, hit);
                assert(merged(a, b).drop_last() == merged(a.drop_last(), b));
            }
        }
    }
}

/// Ranking a concatenation is merging the two rankings.
proof fn lemma_ranked_concat(a: Seq<Hit>, b: Seq<Hit>)
    ensures
        ranked(a + b) == merged(ranked(a), ranked(b)),
    decreases b.len(),
{
    if b.len() == 0 {
        assert(a + b == a);
    } else {
        lemma_ranked_concat(a, b.drop_last());
        assert((a + b).drop_last() == a + b.drop_last());
        lemma_merged_insert(ranked(a), ranked(b.drop_last()), b.last());
    }
}

proof fn lemma_merged_len(a: Seq<Hit>, b: Seq<Hit>)
    ensures
        merged(a, b).len() == a.len() + b.len(),
    decreases a.len() + b.len(),
{
    if a.len() > 0 && b.len() > 0 {
        if rank_key(a.last().score) >= rank_key(b.last().score) {
            lemma_merged_len(a, b.drop_last());
        } else {
            lemma_merged_len(a.drop_last(), b);
        }
    }
}

/// Merges two rankings, filling the result from its end.
fn merge(a: &Vec<Hit>, b: &Vec<Hit>) -> (out: Vec<Hit>)
    requires
        a@.len() + b@.len() <= usize::MAX,
    ensures
        out@ == merged(a@, b@),
{
    let n: usize = a.len() + b.len();
    let mut out: Vec<Hit> = vec![Hit { score: 0, slot: 0 }; n];
    let mut i: usize = a.len();
    let mut j: usize = b.len();
    proof {
        lemma_merged_len(a@, b@);
        assert(a@.take(i as int) == a@);
        assert(b@.take(j as int) == b@);
        assert(merged(a@, b@) + out@.skip(n as int) == merged(a@, b@));
    }
    while i > 0 || j > 0
        invariant
            i <= a@.len(),
            j <= b@.len(),
            n == a@.len() + b@.len(),
            out@.len() == n,
            merged(a@, b@) == merged(a@.take(i as int), b@.take(j as int)) + out@.skip(i + j),
        decreases i + j,
    {
        let ghost before = out@;
        let ghost at = a@.take(i as int);
        let ghost bt = b@.take(j as int);
        if j == 0 || (i > 0 && rank_key_of(a[i - 1].score) < rank_key_of(b[j - 1].score)) {
            out[i + j - 1] = a[i - 1];
            i -= 1;
            proof {
                assert(at.drop_last() == a@.take(i as int));
                if j == 0 {
                    assert(merged(at.drop_last(), bt).push(at.last()) == at);
                }
                assert(merged(at, bt) == merged(a@.take(i as int), bt).push(at.last()));
            }
        } else {
            out[i + j - 1] = b[j - 1];
            j -= 1;
            proof {
                assert(bt.drop_last() == b@.take(j as int));
                if i == 0 {
                    assert(merged(at, bt.drop_last()).push(bt.last()) == bt);
                }
                assert(merged(at, bt) == merged(at, b@.take(j as int)).push(bt.last()));
            }
        }
        proof {
            assert(out@.skip(i + j) == seq![out@[i + j]] + before.skip(i + j + 1));
            assert(merged(a@, b@) == merged(a@.take(i as int), b@.take(j as int)) + out@.skip(i + j));
        }
    }
    proof {
        assert(merged(a@.take(0), b@.take(0)) == Seq::<Hit>::empty());
        assert(out@.skip(0) == out@);
    }
    out
}

/// Ranks `hits[lo..hi]`.
fn rank_range(hits: &Vec<Hit>, lo: usize, hi: usize) -> (out: Vec<Hit>)
    requires
        lo <= hi <= hits@.len(),
    ensures
        out@ == ranked(hits@.subrange(lo as int, hi as int)),
    decreases hi - lo,
{
    let ghost part = hits@.subrange(lo as int, hi as int);
    if hi - lo == 0 {
        Vec::new()
    } else if hi - lo == 1 {
        let mut out: Vec<Hit> = Vec::new();
        out.push(hits[lo]);
        proof {
            assert(part.drop_last() == Seq::<Hit>::empty());
            assert(ranked(part.drop_last()) == Seq::<Hit>::empty());
            assert(out@ == Seq::<Hit>::empty().push(part.last()));
        }
        out
    } else {
        let mid: usize = lo + (hi - lo) / 2;
        let a: Vec<Hit> = rank_range(hits, lo, mid);
        let b: Vec<Hit> = rank_range(hits, mid, hi);
        proof {
            let pa = hits@.subrange(lo as int, mid as int);
            let pb = hits@.subrange(mid as int, hi as int);
            assert(pa + pb == part);
            lemma_ranked_concat(pa, pb);
            lemma_ranked_len(pa);
            lemma_ranked_len(pb);
        }
        merge(&a, &b)
    }
}

/// Ranks hits, best score first.
pub fn rank(hits: &Vec<Hit>) -> (out: Vec<Hit>)
    ensures
        out@ == ranked(hits@),
{
    assert(hits@.subrange(0, hits@.len() as int) == hits@);
    rank_range(hits, 0, hits.len())
}

proof fn lemma_insert_ranked(ranking: Seq<Hit>, hit: Hit)
    ensures
        insert_ranked(ranking, hit).len() == ranking.len() + 1,
        insert_ranked(ranking, hit).to_multiset() == ranking.to_multiset().insert(hit),
        descending(ranking) ==> descending(insert_ranked(ranking, hit)),
        forall|i: int|
            0 <= i < insert_ranked(ranking, hit).len() ==> #[trigger] insert_ranked(ranking, hit)[i] == hit
                || ranking.contains(insert_ranked(ranking, hit)[i]),
    decreases ranking.len(),
{
    broadcast use vstd::seq_lib::group_to_multiset_ensures;

    let out = insert_ranked(ranking, hit);
    if ranking.len() == 0 || rank_key(ranking.last().score) >= rank_key(hit.score) {
        assert forall|i: int| 0 <= i < out.len() implies #[trigger] out[i] == hit || ranking.contains(out[i]) by {
            if i < ranking.len() {
                assert(out[i] == ranking[i]);
            }
        }
        if descending(ranking) {
            assert forall|i: int, j: int| 0 <= i < j < out.len() implies rank_key((#[trigger] out[i]).score) >= rank_key(
                (#[trigger] out[j]).score,
            ) by {
                assert(out[i] == ranking[i]);
                let l = ranking.len() - 1;
                if i < l {
                    assert(rank_key(ranking[i].score) >= rank_key(ranking[l].score));
                }
                if j < ranking.len() {
                    assert(out[j] == ranking[j]);
                }
            }
        }
    } else {
        let init = ranking.drop_last();
        lemma_insert_ranked(init, hit);
        let inner = insert_ranked(init, hit);
        assert(ranking == init.push(ranking.last()));
        assert forall|i: int| 0 <= i < out.len() implies #[trigger] out[i] == hit || ranking.contains(out[i]) by {
            if i < inner.len() {
                assert(out[i] == inner[i]);
                if out[i] != hit {
                    let j = choose|j: int| 0 <= j < init.len() && init[j] == out[i];
                    assert(ranking[j] == out[i]);
                }
            } else {
                assert(out[i] == ranking[ranking.len() - 1]);
            }
        }
        assert(ranking.to_multiset().insert(hit) =~= init.to_multiset().insert(hit).insert(ranking.last())) by {
            assert(ranking.to_multiset() =~= init.to_multiset().insert(ranking.last()));
        }
        if descending(ranking) {
            assert(descending(init)) by {
                assert forall|i: int, j: int| 0 <= i < j < init.len() implies rank_key((#[trigger] init[i]).score)
                    >= rank_key((#[trigger] init[j]).score) by {
                    assert(init[i] == ranking[i] && init[j] == ranking[j]);
                }
            }
            assert forall|i: int, j: int| 0 <= i < j < out.len() implies rank_key((#[trigger] out[i]).score) >= rank_key(
                (#[trigger] out[j]).score,
            ) by {
                assert(out[i] == inner[i]);
                if j < inner.len() {
                    assert(out[j] == inner[j]);
                } else if inner[i] != hit {
                    let m = choose|m: int| 0 <= m < init.len() && init[m] == inner[i];
                    assert(ranking[m] == inner[i]);
                    assert(rank_key(ranking[m].score) >= rank_key(ranking[ranking.len() - 1].score));
                }
            }
        }
    }
}

proof fn lemma_ranked_len(hits: Seq<Hit>)
    ensures
        ranked(hits).len() == hits.len(),
    decreases hits.len(),
{
    if hits.len() > 0 {
        lemma_ranked_len(hits.drop_last());
        lemma_insert_ranked(ranked(hits.drop_last()), hits.last());
    }
}

/// A ranking holds the hits it was made of, each as often, in descending order
/// of score.
pub proof fn law_ranking_sorts(hits: Seq<Hit>)
    ensures
        ranked(hits).to_multiset() == hits.to_multiset(),
        ranked(hits).len() == hits.len(),
        descending(ranked(hits)),
    decreases hits.len(),
{
    broadcast use vstd::seq_lib::group_to_multiset_ensures;

    if hits.len() > 0 {
        law_ranking_sorts(hits.drop_last());
        lemma_insert_ranked(ranked(hits.drop_last()), hits.last());
        assert(hits == hits.drop_last().push(hits.last()));
    }
}

/// Ranking keeps which slots were drawn from where.
pub proof fn lemma_ranked_drawn(hits: Seq<Hit>, row: Seq<u32>, allowed: Seq<bool>, hi: int)
    requires
        drawn_from(hits, row, allowed, hi),
    ensures
        drawn_from(ranked(hits), row, allowed, hi),
{
    law_ranking_sorts(hits);
    let out = ranked(hits);
    lemma_same_members(hits, out);
    assert forall|i: int| 0 <= i < out.len() implies {
        &&& (#[trigger] out[i]).slot < hi
        &&& allowed[out[i].slot as int]
        &&& out[i].score == row[out[i].slot as int]
    } by {
        assert(hits.contains(out[i]));
        let j = choose|j: int| 0 <= j < hits.len() && hits[j] == out[i];
        assert(hits[j].slot < hi);
    }
    assert(hits.no_duplicates());
    hits.lemma_multiset_has_no_duplicates();
    assert(out.no_duplicates()) by {
        out.lemma_multiset_has_no_duplicates_conv();
    }
    assert forall|i: int, j: int| 0 <= i < j < out.len() implies (#[trigger] out[i]).slot != (#[trigger] out[j]).slot by {
        assert(out[i] != out[j]);
        let p = choose|p: int| 0 <= p < hits.len() && hits[p] == out[i];
        let q = choose|q: int| 0 <= q < hits.len() && hits[q] == out[j];
        assert(hits.contains(out[i]) && hits.contains(out[j]));
        if p < q {
            assert(hits[p].slot != hits[q].slot);
        } else {
            assert(hits[q].slot != hits[p].slot);
        }
    }
}

/// Sequences with the same multiset have the same members.
pub proof fn lemma_same_members(a: Seq<Hit>, b: Seq<Hit>)
    requires
        a.to_multiset() == b.to_multiset(),
    ensures
        forall|h: Hit| #[trigger] a.contains(h) == b.contains(h),
{
    broadcast use vstd::seq_lib::group_to_multiset_ensures;

    assert forall|h: Hit| #[trigger] a.contains(h) == b.contains(h) by {
        assert(a.contains(h) <==> a.to_multiset().count(h) > 0);
        assert(b.contains(h) <==> b.to_multiset().count(h) > 0);
    }
}


/// Along a ranking no score is followed by a greater one, and behind a NaN there
/// are only NaN.
pub proof fn law_best_comes_first(hits: Seq<Hit>, i: int, j: int)
    requires
        0 <= i < j < hits.len(),
    ensures
        ranked(hits).len() == hits.len(),
        !score_gt(ranked(hits)[j].score, ranked(hits)[i].score),
        is_nan(ranked(hits)[i].score) ==> is_nan(ranked(hits)[j].score),
{
    law_ranking_sorts(hits);
    let (a, b) = (ranked(hits)[i].score, ranked(hits)[j].score);
    assert(rank_key(a) >= rank_key(b));
    law_rank_keys_order_scores(b, a);
}

proof fn lemma_insert_keeps_others(ranking: Seq<Hit>, hit: Hit, key: int)
    ensures
        insert_ranked(ranking, hit).filter(|h: Hit| rank_key(h.score) == key) == if rank_key(hit.score) == key {
            ranking.filter(|h: Hit| rank_key(h.score) == key).push(hit)
        } else {
            ranking.filter(|h: Hit| rank_key(h.score) == key)
        },
    decreases ranking.len(),
{
    let pred = |h: Hit| rank_key(h.score) == key;
    if ranking.len() == 0 || rank_key(ranking.last().score) >= rank_key(hit.score) {
        ranking.lemma_filter_push(hit, pred);
    } else {
        let init = ranking.drop_last();
        lemma_insert_keeps_others(init, hit, key);
        insert_ranked(init, hit).lemma_filter_push(ranking.last(), pred);
        init.lemma_filter_push(ranking.last(), pred);
        assert(init.push(ranking.last()) == ranking);
    }
}

proof fn lemma_ranking_is_stable(hits: Seq<Hit>, key: int)
    ensures
        ranked(hits).filter(|h: Hit| rank_key(h.score) == key) == hits.filter(|h: Hit| rank_key(h.score) == key),
    decreases hits.len(),
{
    let pred = |h: Hit| rank_key(h.score) == key;
    if hits.len() > 0 {
        let init = hits.drop_last();
        lemma_ranking_is_stable(init, key);
        lemma_insert_keeps_others(ranked(init), hits.last(), key);
        init.lemma_filter_push(hits.last(), pred);
        assert(init.push(hits.last()) == hits);
    }
}

/// Hits that score alike keep their order: those that are neither better nor worse
/// than `score` come in a ranking as they came before.
pub proof fn law_ranking_is_stable(hits: Seq<Hit>, score: u32)
    ensures
        ({
            let alike = |h: Hit|
                is_nan(h.score) == is_nan(score) && !score_gt(h.score, score) && !score_gt(score, h.score);
            ranked(hits).filter(alike) == hits.filter(alike)
        }),
{
    let alike = |h: Hit| is_nan(h.score) == is_nan(score) && !score_gt(h.score, score) && !score_gt(score, h.score);
    let key = rank_key(score);
    let pred = |h: Hit| rank_key(h.score) == key;
    assert forall|h: Hit| #[trigger] alike(h) == pred(h) by {
        law_rank_keys_order_scores(h.score, score);
        law_rank_keys_order_scores(score, h.score);
    }
    assert(alike =~= pred);
    lemma_ranking_is_stable(hits, key);
}
} // verus!
