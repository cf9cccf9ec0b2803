//! Selection of the best scoring slots of a row of scores.
//!
//! Up to `k` hits are kept. While fewer are kept every offered slot is taken;
//! after that an offered slot displaces the weakest kept hit if it scores
//! strictly higher. Among equally weak hits the one kept in the lowest
//! position goes first.
use crate::mask::{allowed_slots, covers, slot_allowed};
use crate::rank::{rank, ranked};
use crate::score::{bits_gt, is_nan, score_gt, score_key};
use crate::BLOCK;
use vstd::prelude::*;

verus! {

/// A slot with its score.
#[derive(Clone, Copy, Debug, PartialEq, Eq, Structural)]
pub struct Hit {
    /// Bit pattern of the score.
    pub score: u32,
    /// Position of the vector in the index.
    pub slot: usize,
}

/// True iff `p` is the position of the weakest hit: the first of those with the
/// least score. A NaN is only ever the weakest hit in position zero.
pub open spec fn is_min_pos(hits: Seq<Hit>, p: int) -> bool {
    &&& 0 <= p < hits.len()
    &&& if is_nan(hits[0].score) {
        p == 0
    } else {
        &&& !is_nan(hits[p].score)
        &&& forall|q: int|
            0 <= q < hits.len() && !is_nan(#[trigger] hits[q].score) ==> score_key(hits[p].score) <= score_key(
                hits[q].score,
            )
        &&& forall|q: int|
            0 <= q < p && !is_nan(#[trigger] hits[q].score) ==> score_key(hits[p].score) < score_key(hits[q].score)
    }
}

/// Position of the weakest hit.
pub open spec fn min_pos(hits: Seq<Hit>) -> int {
    choose|p: int| is_min_pos(hits, p)
}

/// Score that a slot has to exceed to be kept once `k` hits are kept.
pub open spec fn threshold(hits: Seq<Hit>) -> u32 {
    hits[min_pos(hits)].score
}

/// The kept hits after `hit` was offered.
pub open spec fn offer(hits: Seq<Hit>, k: nat, hit: Hit) -> Seq<Hit> {
    if hits.len() < k {
        hits.push(hit)
    } else if k > 0 && score_gt(hit.score, threshold(hits)) {
        hits.update(min_pos(hits), hit)
    } else {
        hits
    }
}

/// The kept hits after the allowed slots of `lo..hi` were offered in order.
pub open spec fn offer_range(hits: Seq<Hit>, row: Seq<u32>, allowed: Seq<bool>, k: nat, lo: int, hi: int) -> Seq<Hit>
    decreases hi - lo,
{
    if hi <= lo {
        hits
    } else {
        let before = offer_range(hits, row, allowed, k, lo, hi - 1);
        if allowed[hi - 1] {
            offer(before, k, Hit { score: row[hi - 1], slot: (hi - 1) as usize })
        } else {
            before
        }
    }
}

/// The hits kept of a whole row.
pub open spec fn select(row: Seq<u32>, allowed: Seq<bool>, k: nat) -> Seq<Hit> {
    offer_range(Seq::empty(), row, allowed, k, 0, row.len() as int)
}

/// Exactly one position is that of the weakest hit.
pub proof fn lemma_min_pos(hits: Seq<Hit>, p: int)
    requires
        is_min_pos(hits, p),
    ensures
        min_pos(hits) == p,
{
    let m = min_pos(hits);
    assert(is_min_pos(hits, m));
    if !is_nan(hits[0].score) {
        if m < p {
            assert(!is_nan(hits[m].score));
        } else if p < m {
            assert(!is_nan(hits[p].score));
        }
    }
}

/// A nonempty sequence of hits has a weakest one.
pub proof fn lemma_min_pos_exists(hits: Seq<Hit>)
    requires
        hits.len() > 0,
    ensures
        is_min_pos(hits, min_pos(hits)),
    decreases hits.len(),
{
    if is_nan(hits[0].score) || hits.len() == 1 {
        assert(is_min_pos(hits, 0));
    } else {
        let init = hits.drop_last();
        lemma_min_pos_exists(init);
        let p = min_pos(init);
        let l = hits.len() - 1;
        assert(hits[p] == init[p]);
        assert(forall|q: int| 0 <= q < l ==> hits[q] == #[trigger] init[q]);
        if score_gt(hits[p].score, hits[l].score) {
            assert forall|q: int| 0 <= q < hits.len() && !is_nan(#[trigger] hits[q].score) implies score_key(
                hits[l].score,
            ) <= score_key(hits[q].score) by {
                if q < l {
                    assert(!is_nan(init[q].score));
                }
            }
            assert forall|q: int| 0 <= q < l && !is_nan(#[trigger] hits[q].score) implies score_key(hits[l].score)
                < score_key(hits[q].score) by {
                assert(!is_nan(init[q].score));
            }
            assert(is_min_pos(hits, l));
        } else {
            assert forall|q: int| 0 <= q < hits.len() && !is_nan(#[trigger] hits[q].score) implies score_key(
                hits[p].score,
            ) <= score_key(hits[q].score) by {
                if q < l {
                    assert(!is_nan(init[q].score));
                }
            }
            assert forall|q: int| 0 <= q < p && !is_nan(#[trigger] hits[q].score) implies score_key(hits[p].score)
                < score_key(hits[q].score) by {
                assert(!is_nan(init[q].score));
            }
            assert(is_min_pos(hits, p));
        }
    }
}

/// True iff whatever exceeds `t` also exceeds `t0`.
pub open spec fn raises(t: u32, t0: u32) -> bool {
    is_nan(t) || (!is_nan(t0) && score_key(t) >= score_key(t0))
}

/// Once `k` hits are kept their number stays `k` and the threshold never falls.
pub proof fn lemma_offer_raises(hits: Seq<Hit>, k: nat, hit: Hit)
    requires
        hits.len() == k,
        k > 0,
    ensures
        offer(hits, k, hit).len() == k,
        raises(threshold(offer(hits, k, hit)), threshold(hits)),
{
    lemma_min_pos_exists(hits);
    let p = min_pos(hits);
    let after = offer(hits, k, hit);
    lemma_min_pos_exists(after);
    let q = min_pos(after);
    if score_gt(hit.score, threshold(hits)) {
        assert(!is_nan(hits[0].score));
        assert(!is_nan(after[0].score));
        if q != p {
            assert(after[q] == hits[q]);
            assert(!is_nan(hits[q].score));
        }
    }
}

/// Offering `lo..hi` is offering `lo..mid` and then `mid..hi`.
pub proof fn lemma_offer_split(
    hits: Seq<Hit>,
    row: Seq<u32>,
    allowed: Seq<bool>,
    k: nat,
    lo: int,
    mid: int,
    hi: int,
)
    requires
        lo <= mid <= hi,
    ensures
        offer_range(hits, row, allowed, k, lo, hi) == offer_range(
            offer_range(hits, row, allowed, k, lo, mid),
            row,
            allowed,
            k,
            mid,
            hi,
        ),
    decreases hi - mid,
{
    if mid < hi {
        lemma_offer_split(hits, row, allowed, k, lo, mid, hi - 1);
    }
}

/// Offering a range to `k` kept hits keeps their number and never lowers the
/// threshold.
pub proof fn lemma_range_raises(
    hits: Seq<Hit>,
    row: Seq<u32>,
    allowed: Seq<bool>,
    k: nat,
    lo: int,
    hi: int,
    t0: u32,
)
    requires
        hits.len() == k,
        k > 0,
        raises(threshold(hits), t0),
    ensures
        offer_range(hits, row, allowed, k, lo, hi).len() == k,
        raises(threshold(offer_range(hits, row, allowed, k, lo, hi)), t0),
    decreases hi - lo,
{
    if lo < hi {
        lemma_range_raises(hits, row, allowed, k, lo, hi - 1, t0);
        lemma_offer_raises(
            offer_range(hits, row, allowed, k, lo, hi - 1),
            k,
            Hit { score: row[hi - 1], slot: (hi - 1) as usize },
        );
    }
}

/// Slots that are not allowed, or do not exceed a threshold already reached,
/// leave the kept hits as they are.
pub proof fn lemma_offer_skip(
    hits: Seq<Hit>,
    row: Seq<u32>,
    allowed: Seq<bool>,
    k: nat,
    lo: int,
    hi: int,
    t0: u32,
)
    requires
        lo <= hi,
        forall|i: int|
            lo <= i < hi ==> !#[trigger] allowed[i] || (hits.len() == k && raises(threshold(hits), t0) && !score_gt(
                row[i],
                t0,
            )),
    ensures
        offer_range(hits, row, allowed, k, lo, hi) == hits,
    decreases hi - lo,
{
    if lo < hi {
        lemma_offer_skip(hits, row, allowed, k, lo, hi - 1, t0);
        let i = hi - 1;
        assert(!allowed[i] || !score_gt(row[i], t0));
    }
}

/// Bit `j` of a lane word.
pub open spec fn lane_bit(m: u32, j: int) -> bool {
    (m >> (j as u32)) & 1 != 0
}

/// Clearing the lowest set bit of a word changes no other bit.
proof fn lemma_clear_lowest(m: u32, bit: u32, j: u32)
    requires
        bit < 32,
        j < 32,
        (m >> bit) & 1 == 1,
        m << ((32 - bit) as u32) == 0,
    ensures
        m > 0,
        lane_bit(m & (m - 1) as u32, j as int) == (j != bit && lane_bit(m, j as int)),
{
    let s = (32 - bit) as u32;
    assert(m > 0) by (bit_vector)
        requires
            bit < 32,
            (m >> bit) & 1 == 1,
    ;
    let l = (m - 1) as u32;
    assert((((m & l) >> j) & 1 != 0) == (j != bit && (m >> j) & 1 != 0)) by (bit_vector)
        requires
            bit < 32,
            j < 32,
            s == 32 - bit,
            l == m - 1,
            m > 0,
            (m >> bit) & 1 == 1,
            m << s == 0,
    ;
}

/// The lanes of a chunk that exceed `t`: bit `b` stands for slot `start + b`.
fn chunk_hits(row: &[u32], start: usize, len: usize, t: u32) -> (m: u32)
    requires
        len <= 8,
        start + len <= row@.len(),
    ensures
        forall|j: int|
            0 <= j < 32 ==> #[trigger] lane_bit(m, j) == (j < len && score_gt(row@[start + j], t)),
{
    let n: usize = row.len();
    let mut m: u32 = 0;
    let mut b: usize = 0;
    assert forall|j: int| 0 <= j < 32 implies !#[trigger] lane_bit(0, j) by {
        let i = j as u32;
        assert((0u32 >> i) & 1 == 0) by (bit_vector);
    }
    while b < len
        invariant
            b <= len <= 8,
            start + len <= n,
            n == row@.len(),
            forall|j: int|
                0 <= j < 32 ==> #[trigger] lane_bit(m, j) == (j < b && score_gt(row@[start + j], t)),
        decreases len - b,
    {
        if bits_gt(row[start + b], t) {
            let s: u32 = b as u32;
            let ghost before = m;
            m = m | (1u32 << s);
            assert forall|j: int| 0 <= j < 32 implies #[trigger] lane_bit(m, j) == (j == b || lane_bit(before, j)) by {
                let i = j as u32;
                assert((((before | (1u32 << s)) >> i) & 1 != 0) == (i == s || (before >> i) & 1 != 0)) by (bit_vector)
                    requires
                        i < 32,
                        s < 32,
                ;
            }
        }
        b += 1;
    }
    m
}

/// Up to `k` hits, with the weakest of them at hand once `k` are kept.
pub struct TopK {
    k: usize,
    hits: Vec<Hit>,
    min: u32,
    min_idx: usize,
}

impl TopK {
    /// The kept hits, in the order in which they are stored.
    pub closed spec fn view(&self) -> Seq<Hit> {
        self.hits@
    }

    /// The most hits that are kept.
    pub closed spec fn capacity(&self) -> nat {
        self.k as nat
    }

    /// At most `k` hits are kept, and of `k` hits the weakest is known.
    pub closed spec fn wf(&self) -> bool {
        &&& self.k > 0
        &&& self.hits@.len() <= self.k
        &&& self.hits@.len() == self.k ==> {
            &&& is_min_pos(self.hits@, self.min_idx as int)
            &&& self.min == self.hits@[self.min_idx as int].score
        }
    }

    /// No hits, room for `k`.
    pub fn new(k: usize) -> (t: TopK)
        requires
            k > 0,
        ensures
            t.wf(),
            t@ == Seq::<Hit>::empty(),
            t.capacity() == k,
    {
        TopK { k, hits: Vec::new(), min: crate::score::NEG_INFINITY, min_idx: 0 }
    }

    /// Finds the weakest hit.
    fn rescan(&mut self)
        requires
            old(self).k > 0,
            old(self).hits@.len() == old(self).k,
        ensures
            final(self).wf(),
            final(self).hits@ == old(self).hits@,
            final(self).k == old(self).k,
    {
        let mut m: usize = 0;
        let mut h: usize = 1;
        assert(is_min_pos(self.hits@.take(1), 0));
        while h < self.k
            invariant
                0 < h <= self.k,
                self.k == old(self).k,
                self.hits@ == old(self).hits@,
                self.hits@.len() == self.k,
                is_min_pos(self.hits@.take(h as int), m as int),
            decreases self.k - h,
        {
            let ghost seen = self.hits@.take(h as int);
            let ghost next = self.hits@.take(h + 1);
            if bits_gt(self.hits[m].score, self.hits[h].score) {
                m = h;
            }
            proof {
                assert(forall|q: int| 0 <= q < h ==> next[q] == #[trigger] seen[q]);
                assert(next[h as int] == self.hits@[h as int]);
                assert forall|q: int| 0 <= q < next.len() && !is_nan(#[trigger] next[q].score) && !is_nan(next[0].score) implies score_key(
                    next[m as int].score,
                ) <= score_key(next[q].score) by {
                    if q < h {
                        assert(!is_nan(seen[q].score));
                    }
                }
                assert forall|q: int| 0 <= q < m && !is_nan(#[trigger] next[q].score) && !is_nan(next[0].score) implies score_key(
                    next[m as int].score,
                ) < score_key(next[q].score) by {
                    assert(!is_nan(seen[q].score));
                }
                assert(is_min_pos(next, m as int));
            }
            h += 1;
        }
        assert(self.hits@.take(h as int) == self.hits@);
        self.min_idx = m;
        self.min = self.hits[m].score;
    }

    /// Offers `slot`, which scores `score`.
    pub fn offer(&mut self, score: u32, slot: usize)
        requires
            old(self).wf(),
        ensures
            final(self).wf(),
            final(self).capacity() == old(self).capacity(),
            final(self)@ == offer(old(self)@, old(self).capacity(), Hit { score, slot }),
    {
        if self.hits.len() < self.k {
            self.hits.push(Hit { score, slot });
            if self.hits.len() == self.k {
                self.rescan();
            }
        } else {
            proof {
                lemma_min_pos(self.hits@, self.min_idx as int);
            }
            if bits_gt(score, self.min) {
                let m: usize = self.min_idx;
                self.hits[m] = Hit { score, slot };
                self.rescan();
            }
        }
    }

    /// Whether `k` hits are kept.
    pub fn is_full(&self) -> (b: bool)
        requires
            self.wf(),
        ensures
            b == (self@.len() == self.capacity()),
            self@.len() <= self.capacity(),
    {
        self.hits.len() == self.k
    }

    /// Offers the allowed slots of `lo..hi` one by one.
    fn offer_lanes(&mut self, row: &[u32], lo: usize, hi: usize, mask: Option<&[u64]>)
        requires
            old(self).wf(),
            lo <= hi <= row@.len(),
            covers(mask, hi as int),
        ensures
            final(self).wf(),
            final(self).capacity() == old(self).capacity(),
            final(self)@ == offer_range(
                old(self)@,
                row@,
                allowed_slots(mask, row@.len()),
                old(self).capacity(),
                lo as int,
                hi as int,
            ),
    {
        let mut i: usize = lo;
        while i < hi
            invariant
                self.wf(),
                lo <= i <= hi <= row@.len(),
                covers(mask, hi as int),
                self.capacity() == old(self).capacity(),
                self@ == offer_range(
                    old(self)@,
                    row@,
                    allowed_slots(mask, row@.len()),
                    old(self).capacity(),
                    lo as int,
                    i as int,
                ),
            decreases hi - i,
        {
            if slot_allowed(mask, i) {
                self.offer(row[i], i);
            }
            i += 1;
        }
    }

    /// Offers those slots of the chunk at `start` whose bit is set in `lanes`,
    /// lowest first. The other lanes do not exceed `t`, which the threshold has
    /// already reached.
    fn offer_hits(&mut self, row: &[u32], start: usize, lanes: u32, t: u32, mask: Option<&[u64]>)
        requires
            old(self).wf(),
            old(self)@.len() == old(self).capacity(),
            raises(threshold(old(self)@), t),
            start + 8 <= row@.len(),
            covers(mask, start + 8),
            forall|j: int|
                0 <= j < 32 ==> #[trigger] lane_bit(lanes, j) == (j < 8 && score_gt(row@[start + j], t)),
        ensures
            final(self).wf(),
            final(self).capacity() == old(self).capacity(),
            final(self)@.len() == final(self).capacity(),
            raises(threshold(final(self)@), t),
            final(self)@ == offer_range(
                old(self)@,
                row@,
                allowed_slots(mask, row@.len()),
                old(self).capacity(),
                start as int,
                start + 8,
            ),
    {
        let ghost allowed = allowed_slots(mask, row@.len());
        let ghost k = self.capacity();
        let ghost mut next: int = 0;
        let n: usize = row.len();
        let mut m: u32 = lanes;
        while m != 0
            invariant
                self.wf(),
                self.capacity() == k,
                k == old(self).capacity(),
                k > 0,
                self@.len() == k,
                raises(threshold(self@), t),
                start + 8 <= n,
                n == row@.len(),
                covers(mask, start + 8),
                allowed == allowed_slots(mask, row@.len()),
                0 <= next <= 8,
                forall|j: int|
                    0 <= j < 32 ==> #[trigger] lane_bit(lanes, j) == (j < 8 && score_gt(row@[start + j], t)),
                forall|j: int| 0 <= j < 32 ==> #[trigger] lane_bit(m, j) == (next <= j && lane_bit(lanes, j)),
                self@ == offer_range(old(self)@, row@, allowed, k, start as int, start + next),
            decreases m,
        {
            let bit: u32 = m.trailing_zeros();
            proof {
                vstd::std_specs::bits::axiom_u32_trailing_zeros(m);
                assert(bit < 32);
                assert(lane_bit(m, bit as int));
                assert(next <= bit < 8);
                assert forall|i: int| start + next <= i < start + bit implies !#[trigger] allowed[i] || !score_gt(
                    row@[i],
                    t,
                ) by {
                    let j = i - start;
                    assert((m >> (j as u32)) & 1 == 0);
                    assert(!lane_bit(m, j));
                    assert(!lane_bit(lanes, j));
                }
                lemma_offer_skip(self@, row@, allowed, k, start + next, start + bit, t);
                lemma_offer_split(old(self)@, row@, allowed, k, start as int, start + next, start + bit);
                assert forall|j: int| 0 <= j < 32 implies #[trigger] lane_bit(m & (m - 1) as u32, j) == (j != bit
                    && lane_bit(m, j)) by {
                    lemma_clear_lowest(m, bit, j as u32);
                }
                lemma_clear_lowest(m, bit, 0);
                let low = (m - 1) as u32;
                assert(m & low < m) by (bit_vector)
                    requires
                        m > 0,
                        low == m - 1,
                ;
                assert forall|j: int| 0 <= j < 32 implies #[trigger] lane_bit(m & (m - 1) as u32, j) == (bit + 1 <= j
                    && lane_bit(lanes, j)) by {
                    assert(lane_bit(m, j) == (next <= j && lane_bit(lanes, j)));
                    if j < bit {
                        assert((m >> (j as u32)) & 1 == 0);
                    }
                }
            }
            m = m & (m - 1);
            let lane: usize = start + bit as usize;
            if slot_allowed(mask, lane) {
                proof {
                    lemma_offer_raises(self@, k, Hit { score: row@[lane as int], slot: lane });
                }
                self.offer(row[lane], lane);
            }
            proof {
                next = bit + 1;
            }
        }
        proof {
            assert forall|i: int| start + next <= i < start + 8 implies !#[trigger] allowed[i] || !score_gt(
                row@[i],
                t,
            ) by {
                let j = i - start;
                let b = j as u32;
                assert((0u32 >> b) & 1 == 0) by (bit_vector);
                assert(!lane_bit(m, j));
                assert(!lane_bit(lanes, j));
            }
            lemma_offer_skip(self@, row@, allowed, k, start + next, start + 8, t);
            lemma_offer_split(old(self)@, row@, allowed, k, start as int, start + next, start + 8);
        }
    }

    /// Offers the allowed slots `base_vec..end` of one block.
    ///
    /// Once `k` hits are kept, lanes that do not exceed the threshold the block
    /// started with are passed over without looking at them again: in a full
    /// block only the lanes that do exceed it are visited, in the last, partial
    /// block only the chunks of eight that hold such a lane.
    pub fn offer_block(&mut self, row: &[u32], base_vec: usize, end: usize, mask: Option<&[u64]>)
        requires
            old(self).wf(),
            base_vec <= end <= row@.len(),
            end - base_vec <= BLOCK,
            covers(mask, end as int),
        ensures
            final(self).wf(),
            final(self).capacity() == old(self).capacity(),
            final(self)@ == offer_range(
                old(self)@,
                row@,
                allowed_slots(mask, row@.len()),
                old(self).capacity(),
                base_vec as int,
                end as int,
            ),
    {
        if !self.is_full() {
            self.offer_lanes(row, base_vec, end, mask);
            return;
        }
        let ghost allowed = allowed_slots(mask, row@.len());
        let ghost k = self.capacity();
        let n: usize = row.len();
        let t: u32 = self.min;
        proof {
            lemma_min_pos(self@, self.min_idx as int);
        }
        if end - base_vec == BLOCK {
            let m0: u32 = chunk_hits(row, base_vec, 8, t);
            let m1: u32 = chunk_hits(row, base_vec + 8, 8, t);
            let m2: u32 = chunk_hits(row, base_vec + 16, 8, t);
            let m3: u32 = chunk_hits(row, base_vec + 24, 8, t);
            self.offer_hits(row, base_vec, m0, t, mask);
            self.offer_hits(row, base_vec + 8, m1, t, mask);
            proof {
                lemma_offer_split(old(self)@, row@, allowed, k, base_vec as int, base_vec + 8, base_vec + 16);
            }
            self.offer_hits(row, base_vec + 16, m2, t, mask);
            proof {
                lemma_offer_split(old(self)@, row@, allowed, k, base_vec as int, base_vec + 16, base_vec + 24);
            }
            self.offer_hits(row, base_vec + 24, m3, t, mask);
            proof {
                lemma_offer_split(old(self)@, row@, allowed, k, base_vec as int, base_vec + 24, base_vec + 32);
            }
        } else {
            let mut start: usize = base_vec;
            while start < end
                invariant
                    self.wf(),
                    self.capacity() == k,
                    k == old(self).capacity(),
                    self@.len() == k,
                    k > 0,
                    raises(threshold(self@), t),
                    base_vec <= start <= end <= n,
                    n == row@.len(),
                    covers(mask, end as int),
                    allowed == allowed_slots(mask, row@.len()),
                    self@ == offer_range(old(self)@, row@, allowed, k, base_vec as int, start as int),
                decreases end - start,
            {
                let len: usize = if end - start < 8 {
                    end - start
                } else {
                    8
                };
                let stop: usize = start + len;
                let m: u32 = chunk_hits(row, start, len, t);
                if m != 0 {
                    let ghost before = self@;
                    self.offer_lanes(row, start, stop, mask);
                    proof {
                        lemma_range_raises(before, row@, allowed, k, start as int, stop as int, t);
                    }
                } else {
                    proof {
                        assert forall|i: int| start <= i < stop implies !#[trigger] allowed[i] || !score_gt(row@[i], t) by {
                            let b = (i - start) as u32;
                            assert((0u32 >> b) & 1 == 0) by (bit_vector);
                            assert(!lane_bit(m, i - start));
                        }
                        lemma_offer_skip(self@, row@, allowed, k, start as int, stop as int, t);
                    }
                }
                proof {
                    lemma_offer_split(old(self)@, row@, allowed, k, base_vec as int, start as int, stop as int);
                }
                start = stop;
            }
        }
    }

    /// The kept hits, best score first.
    pub fn ranking(&self) -> (out: Vec<Hit>)
        requires
            self.wf(),
        ensures
            out@ == ranked(self@),
    {
        rank(&self.hits)
    }
}


/// What offering a hit does. While there is room it is taken. After that it takes
/// the place of the weakest kept hit, the first of them where several score
/// alike, if it scores higher than that one, and is passed over otherwise. A NaN
/// in the first place is never given up.
pub proof fn law_offer(hits: Seq<Hit>, k: nat, hit: Hit)
    requires
        hits.len() <= k,
    ensures
        hits.len() < k ==> offer(hits, k, hit) == hits.push(hit),
        k == 0 ==> offer(hits, k, hit) == hits,
        hits.len() == k > 0 && is_nan(hits[0].score) ==> offer(hits, k, hit) == hits,
        hits.len() == k > 0 && !is_nan(hits[0].score) ==> exists|p: int|
            {
                &&& 0 <= p < hits.len()
                &&& !is_nan((#[trigger] hits[p]).score)
                &&& forall|q: int| 0 <= q < hits.len() ==> !score_gt(hits[p].score, (#[trigger] hits[q]).score)
                &&& forall|q: int|
                    0 <= q < p ==> is_nan((#[trigger] hits[q]).score) || score_gt(hits[q].score, hits[p].score)
                &&& offer(hits, k, hit) == if score_gt(hit.score, hits[p].score) {
                    hits.update(p, hit)
                } else {
                    hits
                }
            },
{
    if hits.len() == k && k > 0 {
        lemma_min_pos_exists(hits);
        let p = min_pos(hits);
        if !is_nan(hits[0].score) {
            assert(0 <= p < hits.len() && !is_nan(hits[p].score));
            assert forall|q: int| 0 <= q < hits.len() implies !score_gt(hits[p].score, (#[trigger] hits[q]).score) by {
                if !is_nan(hits[q].score) {
                    assert(score_key(hits[p].score) <= score_key(hits[q].score));
                }
            }
            assert forall|q: int| 0 <= q < p implies is_nan((#[trigger] hits[q]).score) || score_gt(
                hits[q].score,
                hits[p].score,
            ) by {
                if !is_nan(hits[q].score) {
                    assert(score_key(hits[p].score) < score_key(hits[q].score));
                }
            }
        }
    }
}

/// Slots are offered in order, each once, if they are allowed.
pub proof fn law_offers_in_order(hits: Seq<Hit>, row: Seq<u32>, allowed: Seq<bool>, k: nat, lo: int, hi: int)
    requires
        0 <= lo <= hi < row.len(),
        row.len() == allowed.len(),
        row.len() <= usize::MAX,
    ensures
        offer_range(hits, row, allowed, k, lo, lo) == hits,
        offer_range(hits, row, allowed, k, lo, hi + 1) == if allowed[hi] {
            offer(offer_range(hits, row, allowed, k, lo, hi), k, Hit { score: row[hi], slot: hi as usize })
        } else {
            offer_range(hits, row, allowed, k, lo, hi)
        },
{
}

/// What is offered before `hi` depends on nothing from `hi` on.
proof fn lemma_offer_prefix(
    row: Seq<u32>,
    allowed: Seq<bool>,
    row2: Seq<u32>,
    allowed2: Seq<bool>,
    k: nat,
    hi: int,
)
    requires
        forall|slot: int| 0 <= slot < hi ==> #[trigger] allowed[slot] == allowed2[slot] && row[slot] == row2[slot],
    ensures
        offer_range(Seq::empty(), row, allowed, k, 0, hi) == offer_range(Seq::empty(), row2, allowed2, k, 0, hi),
    decreases hi,
{
    if hi > 0 {
        lemma_offer_prefix(row, allowed, row2, allowed2, k, hi - 1);
        assert(allowed[hi - 1] == allowed2[hi - 1]);
    }
}

/// A row with one more slot: what is kept of it is what is kept of the row, with
/// the last slot offered if it is allowed. Of no slots none is kept.
pub proof fn law_one_more_slot(row: Seq<u32>, allowed: Seq<bool>, k: nat, score: u32, last_allowed: bool)
    requires
        row.len() == allowed.len(),
        row.len() < usize::MAX,
    ensures
        select(Seq::empty(), Seq::empty(), k) == Seq::<Hit>::empty(),
        select(row.push(score), allowed.push(last_allowed), k) == if last_allowed {
            offer(select(row, allowed, k), k, Hit { score, slot: row.len() as usize })
        } else {
            select(row, allowed, k)
        },
        select(row, allowed, k).len() <= k,
{
    let (row2, allowed2) = (row.push(score), allowed.push(last_allowed));
    let n = row.len() as int;
    assert forall|slot: int| 0 <= slot < n implies #[trigger] allowed2[slot] == allowed[slot] && row2[slot]
        == row[slot] by {}
    lemma_offer_prefix(row2, allowed2, row, allowed, k, n);
    assert(row2.len() == n + 1 && allowed2[n] == last_allowed && row2[n] == score);
    lemma_at_most_k(row, allowed, k, n);
}

/// At most `k` hits are kept.
proof fn lemma_at_most_k(row: Seq<u32>, allowed: Seq<bool>, k: nat, hi: int)
    ensures
        offer_range(Seq::empty(), row, allowed, k, 0, hi).len() <= k,
    decreases hi,
{
    if hi > 0 {
        lemma_at_most_k(row, allowed, k, hi - 1);
        let before = offer_range(Seq::empty(), row, allowed, k, 0, hi - 1);
        if before.len() > 0 {
            lemma_min_pos_exists(before);
        }
    }
}
} // verus!
