//! Scoring of blocks in the interleaved layout.
//!
//! A 32-byte row is taken as two halves of 16 bytes. The first half is looked
//! up in the high-nibble table of its group and the second half in the
//! low-nibble table. The low nibbles of a row belong to the first 16 vectors of
//! the block and the high nibbles to the last 16; the bytes of a half alternate
//! between two runs of eight vectors.
//!
//! Sums are kept in 16-bit words. Neighbouring bytes are added as one word,
//! `even + 256 * odd`, and the odd bytes once more by themselves, so that at the
//! end the even sums are left by taking the odd ones out again.
use crate::blocks::{
    block_open, blocks_for, closed_blocks, holds_blocks, law_open_block_has_slot, law_same_slots_same_blocks,
    lemma_row_fits, lemma_slot_block, n_blocks, row_start, skipped_blocks,
};
use crate::lut::{
    byte_groups, code_at, entries_at_most, law_every_coordinate_counts, law_groups_cover_coordinates,
    law_lookup_sum_adds_up, law_sums_fit, lookup_sum, max_entry, pair_lookup, tables_fit,
};
use crate::mask::{
    allowed_slots, allows, any_allowed, block_has_allowed, block_pair_has_allowed, covers, cut_off, lemma_wrapped_count,
    same_below, BlockSkips,
};
use crate::search::result_hits;
use crate::selection::law_only_allowed_scores_matter;
use crate::word::{add_low16, law_low16_is_remainder, lemma_low16_small, low16};
use crate::BLOCK;
use vstd::prelude::*;

verus! {

/// Position within a half row of the bytes that hold a lane's codes.
pub open spec fn lane_pos(lane: int) -> int {
    if lane % 16 < 8 {
        2 * (lane % 16)
    } else {
        2 * (lane % 16 - 8) + 1
    }
}

/// The high or the low nibble of a byte.
pub open spec fn nibble(byte: u8, high: bool) -> int {
    if high {
        byte as int / 16
    } else {
        byte as int % 16
    }
}

/// The code byte of a lane in the row that starts at `start`.
pub open spec fn lane_byte(blocked: Seq<u8>, start: int, lane: int) -> u8 {
    let high = lane >= 16;
    (16 * nibble(blocked[start + lane_pos(lane)], high) + nibble(blocked[start + 16 + lane_pos(lane)], high)) as u8
}

/// The code bytes of a lane of a block, one per group.
pub open spec fn lane_codes(blocked: Seq<u8>, block: int, groups: int, lane: int) -> Seq<u8> {
    Seq::new(groups as nat, |g: int| lane_byte(blocked, row_start(block, groups, g), lane))
}

/// The sum of a lane of a block: all its lookups, in 16 bits.
pub open spec fn lane_sum(blocked: Seq<u8>, lut: Seq<u8>, block: int, groups: int, lane: int) -> u16 {
    low16(lookup_sum(lut, lane_codes(blocked, block, groups, lane), 0, groups))
}

/// The sums of all slots; zero in blocks that the mask leaves no slot of.
pub open spec fn slot_sums(blocked: Seq<u8>, lut: Seq<u8>, groups: int, n: int, mask: Option<&[u64]>) -> Seq<u16> {
    Seq::new(
        n as nat,
        |slot: int|
            if block_open(mask, n, slot / 32) {
                lane_sum(blocked, lut, slot / 32, groups, slot % 32)
            } else {
                0
            },
    )
}

/// What byte `i` of the row of group `g` looks up.
spec fn byte_lookup(blocked: Seq<u8>, lut: Seq<u8>, block: int, groups: int, i: int, high: bool, g: int) -> int {
    lut[g * 32 + if i < 16 {
        0int
    } else {
        16
    } + nibble(blocked[row_start(block, groups, g) + i], high)] as int
}

/// What byte `i` of the rows `0..g` looks up, added up.
spec fn byte_sum(blocked: Seq<u8>, lut: Seq<u8>, block: int, groups: int, i: int, high: bool, g: int) -> int
    decreases g,
{
    if g <= 0 {
        0
    } else {
        byte_sum(blocked, lut, block, groups, i, high, g - 1) + byte_lookup(blocked, lut, block, groups, i, high, g - 1)
    }
}

/// The lookups of the two bytes of a lane are the lookups of its code byte.
proof fn lemma_lane_lookups(blocked: Seq<u8>, lut: Seq<u8>, block: int, groups: int, lane: int, g: int)
    requires
        0 <= lane < 32,
        0 <= g <= groups,
    ensures
        lookup_sum(lut, lane_codes(blocked, block, groups, lane), 0, g) == byte_sum(
            blocked,
            lut,
            block,
            groups,
            lane_pos(lane),
            lane >= 16,
            g,
        ) + byte_sum(blocked, lut, block, groups, 16 + lane_pos(lane), lane >= 16, g),
    decreases g,
{
    if g > 0 {
        lemma_lane_lookups(blocked, lut, block, groups, lane, g - 1);
        let high = lane >= 16;
        let start = row_start(block, groups, g - 1);
        let a = nibble(blocked[start + lane_pos(lane)], high);
        let b = nibble(blocked[start + 16 + lane_pos(lane)], high);
        let byte = lane_codes(blocked, block, groups, lane)[g - 1];
        assert(0 <= a < 16 && 0 <= b < 16);
        assert(byte == 16 * a + b);
        assert(byte as int / 16 == a && byte as int % 16 == b);
        assert(0 <= lane_pos(lane) < 16);
        assert(start + (16 + lane_pos(lane)) == start + 16 + lane_pos(lane));
        assert(pair_lookup(lut, g - 1, byte) == lut[(g - 1) * 32 + a] + lut[(g - 1) * 32 + 16 + b]);
    }
}

/// Takes the odd sum out of a word sum, which leaves the even sum.
fn take_out_odd(words: u16, odds: u16, Ghost(even): Ghost<int>, Ghost(odd): Ghost<int>) -> (r: u16)
    requires
        words == low16(even + 256 * odd),
        odds == low16(odd),
    ensures
        r == low16(even),
{
    assert(odds << 8u16 == (odds * 256) % 65536) by (bit_vector);
    let r: u16 = words.wrapping_sub(odds << 8u16);
    proof {
        reveal(low16);
        let x = even + 256 * odd;
        let shifted = (odds * 256) % 65536;
        assert(odd == 65536 * (odd / 65536) + odds);
        assert(x == 65536 * (x / 65536) + words);
        assert(odds * 256 == 65536 * ((odds * 256) / 65536) + shifted);
        let m = 256 * (odd / 65536) - x / 65536 + (odds * 256) / 65536;
        assert(words - shifted == even + 65536 * m);
        let q = if words >= shifted {
            -m
        } else {
            -m - 1
        };
        assert(even == q * 65536 + r);
        vstd::arithmetic::div_mod::lemma_fundamental_div_mod_converse(even, 65536, q, r as int);
    }
    r
}

/// Sums of the 16 words of a row: of the whole words and of their odd bytes.
struct WordSums {
    words: Vec<u16>,
    odds: Vec<u16>,
}

/// The entry that a byte of a row looks up.
fn look_up(codes: &[u8], lut: &[u8], start: usize, table: usize, i: usize, high: bool) -> (v: u8)
    requires
        start + 32 <= codes@.len(),
        table + 32 <= lut@.len(),
        i < 32,
    ensures
        v == lut@[table + if i < 16 {
            0int
        } else {
            16
        } + nibble(codes@[start + i], high)],
{
    let n: usize = codes.len();
    let m: usize = lut.len();
    let code: u8 = codes[start + i];
    assert(code >> 4u8 == code / 16 && code & 0x0F == code % 16) by (bit_vector);
    let nib: usize = if high {
        (code >> 4u8) as usize
    } else {
        (code & 0x0F) as usize
    };
    let half: usize = if i < 16 {
        0
    } else {
        16
    };
    lut[table + half + nib]
}

impl WordSums {
    /// The sums after the rows `0..g`.
    spec fn at(&self, blocked: Seq<u8>, lut: Seq<u8>, block: int, groups: int, high: bool, g: int) -> bool {
        &&& self.words@.len() == 16
        &&& self.odds@.len() == 16
        &&& forall|w: int|
            0 <= w < 16 ==> #[trigger] self.words@[w] == low16(
                byte_sum(blocked, lut, block, groups, 2 * w, high, g) + 256 * byte_sum(
                    blocked,
                    lut,
                    block,
                    groups,
                    2 * w + 1,
                    high,
                    g,
                ),
            )
        &&& forall|w: int|
            0 <= w < 16 ==> #[trigger] self.odds@[w] == low16(byte_sum(blocked, lut, block, groups, 2 * w + 1, high, g))
    }

    fn new() -> (s: WordSums)
        ensures
            forall|blocked: Seq<u8>, lut: Seq<u8>, block: int, groups: int, high: bool| #[trigger]
                s.at(blocked, lut, block, groups, high, 0),
    {
        proof {
            lemma_low16_small(0);
        }
        WordSums { words: vec![0u16; 16], odds: vec![0u16; 16] }
    }

    /// Adds the row of group `g`.
    fn add_row(
        &mut self,
        blocked: &[u8],
        lut: &[u8],
        high: bool,
        start: usize,
        g: usize,
        Ghost(block): Ghost<int>,
        Ghost(groups): Ghost<int>,
    )
        requires
            old(self).at(blocked@, lut@, block, groups, high, g as int),
            start == row_start(block, groups, g as int),
            start + 32 <= blocked@.len(),
            g * 32 + 32 <= lut@.len(),
        ensures
            final(self).at(blocked@, lut@, block, groups, high, g + 1),
    {
        let m: usize = lut.len();
        let table: usize = g * 32;
        let mut w: usize = 0;
        while w < 16
            invariant
                w <= 16,
                start == row_start(block, groups, g as int),
                start + 32 <= blocked@.len(),
                table == g * 32,
                table + 32 <= lut@.len(),
                self.words@.len() == 16,
                self.odds@.len() == 16,
                old(self).at(blocked@, lut@, block, groups, high, g as int),
                forall|v: int| w <= v < 16 ==> #[trigger] self.words@[v] == old(self).words@[v],
                forall|v: int| w <= v < 16 ==> #[trigger] self.odds@[v] == old(self).odds@[v],
                forall|v: int|
                    0 <= v < w ==> #[trigger] self.words@[v] == low16(
                        byte_sum(blocked@, lut@, block, groups, 2 * v, high, g + 1) + 256 * byte_sum(
                            blocked@,
                            lut@,
                            block,
                            groups,
                            2 * v + 1,
                            high,
                            g + 1,
                        ),
                    ),
                forall|v: int|
                    0 <= v < w ==> #[trigger] self.odds@[v] == low16(
                        byte_sum(blocked@, lut@, block, groups, 2 * v + 1, high, g + 1),
                    ),
            decreases 16 - w,
        {
            let even: u8 = look_up(blocked, lut, start, table, 2 * w, high);
            let odd: u8 = look_up(blocked, lut, start, table, 2 * w + 1, high);
            let word: u16 = even as u16 + 256 * odd as u16;
            let top: u16 = word >> 8u16;
            let ghost es = byte_sum(blocked@, lut@, block, groups, 2 * w, high, g as int);
            let ghost os = byte_sum(blocked@, lut@, block, groups, 2 * w + 1, high, g as int);
            proof {
                assert(word >> 8u16 == word / 256) by (bit_vector);
                lemma_low16_small(word);
                lemma_low16_small(top);
                assert(self.words@[w as int] == old(self).words@[w as int]);
                assert(self.odds@[w as int] == old(self).odds@[w as int]);
                assert(es + 256 * os + word == (es + even) + 256 * (os + odd));
            }
            self.words[w] = add_low16(self.words[w], word, Ghost(es + 256 * os), Ghost(word as int));
            self.odds[w] = add_low16(self.odds[w], top, Ghost(os), Ghost(top as int));
            w += 1;
        }
    }

    /// Adds the rows of groups `g` and `g + 1`, added to each other first.
    fn add_two_rows(
        &mut self,
        blocked: &[u8],
        lut: &[u8],
        high: bool,
        start: usize,
        g: usize,
        Ghost(block): Ghost<int>,
        Ghost(groups): Ghost<int>,
    )
        requires
            old(self).at(blocked@, lut@, block, groups, high, g as int),
            start == row_start(block, groups, g as int),
            start + 64 <= blocked@.len(),
            g * 32 + 64 <= lut@.len(),
        ensures
            final(self).at(blocked@, lut@, block, groups, high, g + 2),
    {
        let n: usize = blocked.len();
        let m: usize = lut.len();
        let table: usize = g * 32;
        let next: usize = start + 32;
        let next_table: usize = table + 32;
        assert(next == row_start(block, groups, g + 1));
        let mut w: usize = 0;
        while w < 16
            invariant
                w <= 16,
                start == row_start(block, groups, g as int),
                next == row_start(block, groups, g + 1),
                start + 32 <= blocked@.len(),
                next + 32 <= blocked@.len(),
                table == g * 32,
                next_table == (g + 1) * 32,
                table + 32 <= lut@.len(),
                next_table + 32 <= lut@.len(),
                self.words@.len() == 16,
                self.odds@.len() == 16,
                old(self).at(blocked@, lut@, block, groups, high, g as int),
                forall|v: int| w <= v < 16 ==> #[trigger] self.words@[v] == old(self).words@[v],
                forall|v: int| w <= v < 16 ==> #[trigger] self.odds@[v] == old(self).odds@[v],
                forall|v: int|
                    0 <= v < w ==> #[trigger] self.words@[v] == low16(
                        byte_sum(blocked@, lut@, block, groups, 2 * v, high, g + 2) + 256 * byte_sum(
                            blocked@,
                            lut@,
                            block,
                            groups,
                            2 * v + 1,
                            high,
                            g + 2,
                        ),
                    ),
                forall|v: int|
                    0 <= v < w ==> #[trigger] self.odds@[v] == low16(
                        byte_sum(blocked@, lut@, block, groups, 2 * v + 1, high, g + 2),
                    ),
            decreases 16 - w,
        {
            let even_a: u8 = look_up(blocked, lut, start, table, 2 * w, high);
            let odd_a: u8 = look_up(blocked, lut, start, table, 2 * w + 1, high);
            let even_b: u8 = look_up(blocked, lut, next, next_table, 2 * w, high);
            let odd_b: u8 = look_up(blocked, lut, next, next_table, 2 * w + 1, high);
            let word_a: u16 = even_a as u16 + 256 * odd_a as u16;
            let word_b: u16 = even_b as u16 + 256 * odd_b as u16;
            let top_a: u16 = word_a >> 8u16;
            let top_b: u16 = word_b >> 8u16;
            let ghost es = byte_sum(blocked@, lut@, block, groups, 2 * w, high, g as int);
            let ghost os = byte_sum(blocked@, lut@, block, groups, 2 * w + 1, high, g as int);
            proof {
                assert(word_a >> 8u16 == word_a / 256) by (bit_vector);
                assert(word_b >> 8u16 == word_b / 256) by (bit_vector);
                lemma_low16_small(word_a);
                lemma_low16_small(word_b);
                lemma_low16_small(top_a);
                lemma_low16_small(top_b);
                assert(self.words@[w as int] == old(self).words@[w as int]);
                assert(self.odds@[w as int] == old(self).odds@[w as int]);
                assert(es + 256 * os + (word_a + word_b) == (es + even_a + even_b) + 256 * (os + odd_a + odd_b));
                assert(byte_sum(blocked@, lut@, block, groups, 2 * w, high, g + 1) == es + even_a);
                assert(byte_sum(blocked@, lut@, block, groups, 2 * w + 1, high, g + 1) == os + odd_a);
            }
            let word: u16 = add_low16(word_a, word_b, Ghost(word_a as int), Ghost(word_b as int));
            let top: u16 = add_low16(top_a, top_b, Ghost(top_a as int), Ghost(top_b as int));
            self.words[w] = add_low16(self.words[w], word, Ghost(es + 256 * os), Ghost(word_a + word_b));
            self.odds[w] = add_low16(self.odds[w], top, Ghost(os), Ghost(top_a + top_b));
            w += 1;
        }
    }

    /// The sums of the 16 lanes.
    fn finish(
        &self,
        Ghost(blocked): Ghost<Seq<u8>>,
        Ghost(lut): Ghost<Seq<u8>>,
        Ghost(block): Ghost<int>,
        Ghost(groups): Ghost<int>,
        Ghost(high): Ghost<bool>,
    ) -> (sums: Vec<u16>)
        requires
            self.at(blocked, lut, block, groups, high, groups),
            groups >= 0,
        ensures
            sums@.len() == 16,
            forall|r: int|
                0 <= r < 16 ==> #[trigger] sums@[r] == lane_sum(blocked, lut, block, groups, if high {
                    16 + r
                } else {
                    r
                }),
    {
        let mut sums: Vec<u16> = Vec::new();
        let mut w: usize = 0;
        while w < 8
            invariant
                w <= 8,
                self.at(blocked, lut, block, groups, high, groups),
                groups >= 0,
                sums@.len() == w,
                forall|r: int|
                    0 <= r < w ==> #[trigger] sums@[r] == lane_sum(blocked, lut, block, groups, if high {
                        16 + r
                    } else {
                        r
                    }),
            decreases 8 - w,
        {
            let ghost ea = byte_sum(blocked, lut, block, groups, 2 * w, high, groups);
            let ghost oa = byte_sum(blocked, lut, block, groups, 2 * w + 1, high, groups);
            let ghost eb = byte_sum(blocked, lut, block, groups, 2 * (w + 8), high, groups);
            let ghost ob = byte_sum(blocked, lut, block, groups, 2 * (w + 8) + 1, high, groups);
            let a: u16 = take_out_odd(self.words[w], self.odds[w], Ghost(ea), Ghost(oa));
            let b: u16 = take_out_odd(self.words[w + 8], self.odds[w + 8], Ghost(eb), Ghost(ob));
            proof {
                let lane = if high {
                    16 + w
                } else {
                    w as int
                };
                lemma_lane_lookups(blocked, lut, block, groups, lane, groups);
                assert(lane_pos(lane) == 2 * w);
                assert(2 * (w + 8) == 16 + 2 * w);
            }
            sums.push(add_low16(a, b, Ghost(ea), Ghost(eb)));
            w += 1;
        }
        while w < 16
            invariant
                8 <= w <= 16,
                self.at(blocked, lut, block, groups, high, groups),
                groups >= 0,
                sums@.len() == w,
                forall|r: int|
                    0 <= r < w ==> #[trigger] sums@[r] == lane_sum(blocked, lut, block, groups, if high {
                        16 + r
                    } else {
                        r
                    }),
            decreases 16 - w,
        {
            let ghost oa = byte_sum(blocked, lut, block, groups, 2 * (w - 8) + 1, high, groups);
            let ghost ob = byte_sum(blocked, lut, block, groups, 2 * w + 1, high, groups);
            proof {
                let lane = if high {
                    16 + w
                } else {
                    w as int
                };
                lemma_lane_lookups(blocked, lut, block, groups, lane, groups);
                assert(lane_pos(lane) == 2 * (w - 8) + 1);
                assert(2 * w + 1 == 16 + (2 * (w - 8) + 1));
            }
            sums.push(add_low16(self.odds[w - 8], self.odds[w], Ghost(oa), Ghost(ob)));
            w += 1;
        }
        sums
    }
}

/// Sums of one block for one query: those of the first 16 vectors, from the low
/// nibbles, and those of the last 16, from the high nibbles.
struct BlockSums {
    first: WordSums,
    last: WordSums,
}

impl BlockSums {
    /// The sums after the rows `0..g`.
    spec fn at(&self, blocked: Seq<u8>, lut: Seq<u8>, block: int, groups: int, g: int) -> bool {
        &&& self.first.at(blocked, lut, block, groups, false, g)
        &&& self.last.at(blocked, lut, block, groups, true, g)
    }

    fn new() -> (s: BlockSums)
        ensures
            forall|blocked: Seq<u8>, lut: Seq<u8>, block: int, groups: int| #[trigger]
                s.at(blocked, lut, block, groups, 0),
    {
        BlockSums { first: WordSums::new(), last: WordSums::new() }
    }
}

/// True iff `sums` are the sums of every query after the rows `0..g` of a block.
spec fn sums_at(sums: Seq<BlockSums>, blocked: Seq<u8>, luts: Seq<Vec<u8>>, block: int, groups: int, g: int) -> bool {
    &&& sums.len() == luts.len()
    &&& forall|q: int| 0 <= q < sums.len() ==> (#[trigger] sums[q]).at(blocked, luts[q]@, block, groups, g)
}

/// Sums of every query before any row.
fn zero_sums(nq: usize) -> (sums: Vec<BlockSums>)
    ensures
        forall|blocked: Seq<u8>, luts: Seq<Vec<u8>>, block: int, groups: int|
            luts.len() == nq ==> #[trigger] sums_at(sums@, blocked, luts, block, groups, 0),
{
    let mut sums: Vec<BlockSums> = Vec::new();
    let mut q: usize = 0;
    while q < nq
        invariant
            q <= nq,
            sums@.len() == q,
            forall|q: int, blocked: Seq<u8>, lut: Seq<u8>, block: int, groups: int|
                0 <= q < sums@.len() ==> #[trigger] sums@[q].at(blocked, lut, block, groups, 0),
        decreases nq - q,
    {
        sums.push(BlockSums::new());
        q += 1;
    }
    sums
}

/// Adds the row of group `g` of a block for every query.
fn add_group(
    sums: &mut Vec<BlockSums>,
    blocked: &[u8],
    luts: &Vec<Vec<u8>>,
    start: usize,
    g: usize,
    Ghost(block): Ghost<int>,
    Ghost(groups): Ghost<int>,
)
    requires
        sums_at(old(sums)@, blocked@, luts@, block, groups, g as int),
        tables_fit(luts@, groups),
        0 <= g < groups,
        start == row_start(block, groups, g as int),
        start + 32 <= blocked@.len(),
    ensures
        sums_at(final(sums)@, blocked@, luts@, block, groups, g + 1),
{
    let mut q: usize = 0;
    while q < luts.len()
        invariant
            q <= luts@.len(),
            sums@.len() == luts@.len(),
            tables_fit(luts@, groups),
            0 <= g < groups,
            start == row_start(block, groups, g as int),
            start + 32 <= blocked@.len(),
            forall|p: int| 0 <= p < q ==> (#[trigger] sums@[p]).at(blocked@, luts@[p]@, block, groups, g + 1),
            forall|p: int| q <= p < sums@.len() ==> (#[trigger] sums@[p]).at(blocked@, luts@[p]@, block, groups, g as int),
        decreases luts@.len() - q,
    {
        let lut: &[u8] = luts[q].as_slice();
        assert(luts@[q as int]@.len() == groups * 32);
        assert(sums@[q as int].at(blocked@, lut@, block, groups, g as int));
        sums[q].first.add_row(blocked, lut, false, start, g, Ghost(block), Ghost(groups));
        sums[q].last.add_row(blocked, lut, true, start, g, Ghost(block), Ghost(groups));
        q += 1;
    }
}

/// Adds the rows of groups `g` and `g + 1` of a block for every query.
fn add_two_groups(
    sums: &mut Vec<BlockSums>,
    blocked: &[u8],
    luts: &Vec<Vec<u8>>,
    start: usize,
    g: usize,
    Ghost(block): Ghost<int>,
    Ghost(groups): Ghost<int>,
)
    requires
        sums_at(old(sums)@, blocked@, luts@, block, groups, g as int),
        tables_fit(luts@, groups),
        0 <= g < groups - 1,
        start == row_start(block, groups, g as int),
        start + 64 <= blocked@.len(),
    ensures
        sums_at(final(sums)@, blocked@, luts@, block, groups, g + 2),
{
    let mut q: usize = 0;
    while q < luts.len()
        invariant
            q <= luts@.len(),
            sums@.len() == luts@.len(),
            tables_fit(luts@, groups),
            0 <= g < groups - 1,
            start == row_start(block, groups, g as int),
            start + 64 <= blocked@.len(),
            forall|p: int| 0 <= p < q ==> (#[trigger] sums@[p]).at(blocked@, luts@[p]@, block, groups, g + 2),
            forall|p: int| q <= p < sums@.len() ==> (#[trigger] sums@[p]).at(blocked@, luts@[p]@, block, groups, g as int),
        decreases luts@.len() - q,
    {
        let lut: &[u8] = luts[q].as_slice();
        assert(luts@[q as int]@.len() == groups * 32);
        assert(sums@[q as int].at(blocked@, lut@, block, groups, g as int));
        sums[q].first.add_two_rows(blocked, lut, false, start, g, Ghost(block), Ghost(groups));
        sums[q].last.add_two_rows(blocked, lut, true, start, g, Ghost(block), Ghost(groups));
        q += 1;
    }
}

/// True iff `rows` hold the sums of the slots `0..done` for every query.
spec fn rows_at(
    rows: Seq<Vec<u16>>,
    blocked: Seq<u8>,
    luts: Seq<Vec<u8>>,
    groups: int,
    n: int,
    mask: Option<&[u64]>,
    done: int,
) -> bool {
    &&& rows.len() == luts.len()
    &&& forall|q: int|
        0 <= q < rows.len() ==> (#[trigger] rows[q])@ == slot_sums(blocked, luts[q]@, groups, n, mask).take(done)
}

/// Appends the sums of the slots `base..end` of a block for every query.
fn block_epilogue(
    sums: &Vec<BlockSums>,
    base: usize,
    end: usize,
    rows: &mut Vec<Vec<u16>>,
    Ghost(blocked): Ghost<Seq<u8>>,
    Ghost(luts): Ghost<Seq<Vec<u8>>>,
    Ghost(block): Ghost<int>,
    Ghost(groups): Ghost<int>,
    Ghost(n): Ghost<int>,
    Ghost(mask): Ghost<Option<&[u64]>>,
)
    requires
        sums_at(sums@, blocked, luts, block, groups, groups),
        rows_at(old(rows)@, blocked, luts, groups, n, mask, base as int),
        groups >= 0,
        block >= 0,
        base == block * 32,
        base <= end <= base + 32,
        end <= n,
        block_open(mask, n, block),
    ensures
        rows_at(final(rows)@, blocked, luts, groups, n, mask, end as int),
{
    let mut q: usize = 0;
    while q < sums.len()
        invariant
            q <= sums@.len(),
            sums_at(sums@, blocked, luts, block, groups, groups),
            rows@.len() == luts.len(),
            groups >= 0,
            block >= 0,
            base == block * 32,
            base <= end <= base + 32,
            end <= n,
            block_open(mask, n, block),
            forall|p: int|
                0 <= p < q ==> (#[trigger] rows@[p])@ == slot_sums(blocked, luts[p]@, groups, n, mask).take(end as int),
            forall|p: int|
                q <= p < rows@.len() ==> (#[trigger] rows@[p])@ == slot_sums(blocked, luts[p]@, groups, n, mask).take(
                    base as int,
                ),
        decreases sums@.len() - q,
    {
        let ghost lut = luts[q as int]@;
        assert(sums@[q as int].at(blocked, lut, block, groups, groups));
        let first: Vec<u16> = sums[q].first.finish(
            Ghost(blocked),
            Ghost(lut),
            Ghost(block),
            Ghost(groups),
            Ghost(false),
        );
        let last: Vec<u16> = sums[q].last.finish(Ghost(blocked), Ghost(lut), Ghost(block), Ghost(groups), Ghost(true));
        let ghost want = slot_sums(blocked, lut, groups, n, mask);
        let ghost before = rows@;
        let mut row: Vec<u16> = Vec::new();
        std::mem::swap(&mut row, &mut rows[q]);
        let mut lane: usize = 0;
        assert(want.take(base + 0) == want.take(base as int));
        while lane < end - base
            invariant
                lane <= end - base <= 32,
                base == block * 32,
                block >= 0,
                end <= n,
                base <= end,
                block_open(mask, n, block),
                want == slot_sums(blocked, lut, groups, n, mask),
                row@ == want.take(base + lane),
                first@.len() == 16,
                last@.len() == 16,
                forall|r: int| 0 <= r < 16 ==> #[trigger] first@[r] == lane_sum(blocked, lut, block, groups, r),
                forall|r: int| 0 <= r < 16 ==> #[trigger] last@[r] == lane_sum(blocked, lut, block, groups, 16 + r),
            decreases end - base - lane,
        {
            proof {
                lemma_slot_block(block, lane as int);
                assert(want[base + lane] == lane_sum(blocked, lut, block, groups, lane as int));
            }
            row.push(
                if lane < 16 {
                    first[lane]
                } else {
                    last[lane - 16]
                },
            );
            assert(want.take(base + lane + 1) == want.take(base + lane).push(want[base + lane]));
            lane += 1;
        }
        std::mem::swap(&mut row, &mut rows[q]);
        assert(rows@[q as int]@ == want.take(end as int));
        assert forall|p: int| 0 <= p < rows@.len() && p != q implies #[trigger] rows@[p] == before[p] by {}
        q += 1;
    }
}

/// Appends zero sums for the slots `base..end`, which lie in blocks that the
/// mask leaves no slot of.
fn closed_epilogue(
    base: usize,
    end: usize,
    rows: &mut Vec<Vec<u16>>,
    Ghost(blocked): Ghost<Seq<u8>>,
    Ghost(luts): Ghost<Seq<Vec<u8>>>,
    Ghost(groups): Ghost<int>,
    Ghost(n): Ghost<int>,
    Ghost(mask): Ghost<Option<&[u64]>>,
)
    requires
        rows_at(old(rows)@, blocked, luts, groups, n, mask, base as int),
        base <= end <= n,
        forall|slot: int| base <= slot < end ==> !#[trigger] block_open(mask, n, slot / 32),
    ensures
        rows_at(final(rows)@, blocked, luts, groups, n, mask, end as int),
{
    let mut q: usize = 0;
    while q < rows.len()
        invariant
            q <= rows@.len(),
            rows@.len() == luts.len(),
            base <= end <= n,
            forall|slot: int| base <= slot < end ==> !#[trigger] block_open(mask, n, slot / 32),
            forall|p: int|
                0 <= p < q ==> (#[trigger] rows@[p])@ == slot_sums(blocked, luts[p]@, groups, n, mask).take(end as int),
            forall|p: int|
                q <= p < rows@.len() ==> (#[trigger] rows@[p])@ == slot_sums(blocked, luts[p]@, groups, n, mask).take(
                    base as int,
                ),
        decreases rows@.len() - q,
    {
        let ghost want = slot_sums(blocked, luts[q as int]@, groups, n, mask);
        let ghost before = rows@;
        let mut row: Vec<u16> = Vec::new();
        std::mem::swap(&mut row, &mut rows[q]);
        let mut slot: usize = base;
        while slot < end
            invariant
                base <= slot <= end <= n,
                want == slot_sums(blocked, luts[q as int]@, groups, n, mask),
                forall|slot: int| base <= slot < end ==> !#[trigger] block_open(mask, n, slot / 32),
                row@ == want.take(slot as int),
            decreases end - slot,
        {
            assert(!block_open(mask, n, slot as int / 32));
            row.push(0);
            assert(want.take(slot + 1) == want.take(slot as int).push(want[slot as int]));
            slot += 1;
        }
        std::mem::swap(&mut row, &mut rows[q]);
        assert forall|p: int| 0 <= p < rows@.len() && p != q implies #[trigger] rows@[p] == before[p] by {}
        q += 1;
    }
}

/// Scores the slots of a block for every query.
fn score_block(
    blocked: &[u8],
    luts: &Vec<Vec<u8>>,
    block: usize,
    n_byte_groups: usize,
    Ghost(n): Ghost<int>,
) -> (sums: Vec<BlockSums>)
    requires
        tables_fit(luts@, n_byte_groups as int),
        holds_blocks(blocked@, n, n_byte_groups as int),
        block < blocks_for(n),
    ensures
        sums_at(sums@, blocked@, luts@, block as int, n_byte_groups as int, n_byte_groups as int),
{
    let len: usize = blocked.len();
    let mut sums: Vec<BlockSums> = zero_sums(luts.len());
    assert(sums_at(sums@, blocked@, luts@, block as int, n_byte_groups as int, 0));
    let mut g: usize = 0;
    while g < n_byte_groups
        invariant
            g <= n_byte_groups,
            len == blocked@.len(),
            tables_fit(luts@, n_byte_groups as int),
            holds_blocks(blocked@, n, n_byte_groups as int),
            block < blocks_for(n),
            sums_at(sums@, blocked@, luts@, block as int, n_byte_groups as int, g as int),
        decreases n_byte_groups - g,
    {
        proof {
            lemma_row_fits(blocked@, n, n_byte_groups as int, block as int, g as int);
        }
        let start: usize = (block * n_byte_groups + g) * BLOCK;
        add_group(&mut sums, blocked, luts, start, g, Ghost(block as int), Ghost(n_byte_groups as int));
        g += 1;
    }
    sums
}

/// Scores all slots for a batch of queries, block by block.
///
/// Blocks that the mask leaves no slot of are skipped and counted; their sums
/// are zero.
pub fn search_multi_query(
    blocked: &[u8],
    luts: &Vec<Vec<u8>>,
    n_byte_groups: usize,
    n_vectors: usize,
    mask: Option<&[u64]>,
    skips: &mut BlockSkips,
) -> (rows: Vec<Vec<u16>>)
    requires
        tables_fit(luts@, n_byte_groups as int),
        holds_blocks(blocked@, n_vectors as int, n_byte_groups as int),
        covers(mask, n_vectors as int),
    ensures
        rows@.len() == luts@.len(),
        forall|q: int|
            0 <= q < rows@.len() ==> (#[trigger] rows@[q])@ == slot_sums(
                blocked@,
                luts@[q]@,
                n_byte_groups as int,
                n_vectors as int,
                mask,
            ),
        final(skips)@ == (old(skips)@ + skipped_blocks(mask, n_vectors as int)) % 0x1_0000_0000_0000_0000,
{
    let n: usize = n_blocks(n_vectors);
    let mut rows: Vec<Vec<u16>> = empty_rows(luts.len());
    let mut b: usize = 0;
    let mut end: usize = 0;
    while b < n
        invariant
            b <= n,
            n == blocks_for(n_vectors as int),
            end == if b == n {
                n_vectors as int
            } else {
                b * 32
            },
            tables_fit(luts@, n_byte_groups as int),
            holds_blocks(blocked@, n_vectors as int, n_byte_groups as int),
            covers(mask, n_vectors as int),
            rows_at(rows@, blocked@, luts@, n_byte_groups as int, n_vectors as int, mask, end as int),
            skips@ == (old(skips)@ + closed_blocks(mask, n_vectors as int, b as int)) % 0x1_0000_0000_0000_0000,
        decreases n - b,
    {
        let base: usize = end;
        end = if n_vectors - base < BLOCK {
            n_vectors
        } else {
            base + BLOCK
        };
        let ghost count = old(skips)@ + closed_blocks(mask, n_vectors as int, b as int);
        if block_has_allowed(mask, base, n_vectors, skips) {
            let sums: Vec<BlockSums> = score_block(blocked, luts, b, n_byte_groups, Ghost(n_vectors as int));
            block_epilogue(
                &sums,
                base,
                end,
                &mut rows,
                Ghost(blocked@),
                Ghost(luts@),
                Ghost(b as int),
                Ghost(n_byte_groups as int),
                Ghost(n_vectors as int),
                Ghost(mask),
            );
        } else {
            proof {
                assert forall|slot: int| base <= slot < end implies !#[trigger] block_open(
                    mask,
                    n_vectors as int,
                    slot / 32,
                ) by {
                    assert(slot / 32 == b);
                }
            }
            closed_epilogue(
                base,
                end,
                &mut rows,
                Ghost(blocked@),
                Ghost(luts@),
                Ghost(n_byte_groups as int),
                Ghost(n_vectors as int),
                Ghost(mask),
            );
        }
        proof {
            lemma_wrapped_count(count, 1);
            lemma_wrapped_count(count, 0);
        }
        b += 1;
    }
    proof {
        lemma_all_taken(rows@, blocked@, luts@, n_byte_groups as int, n_vectors as int, mask);
    }
    rows
}

/// One empty row per query.
fn empty_rows(nq: usize) -> (rows: Vec<Vec<u16>>)
    ensures
        forall|blocked: Seq<u8>, luts: Seq<Vec<u8>>, groups: int, n: int, mask: Option<&[u64]>|
            luts.len() == nq && n >= 0 ==> #[trigger] rows_at(rows@, blocked, luts, groups, n, mask, 0),
{
    let mut rows: Vec<Vec<u16>> = Vec::new();
    let mut q: usize = 0;
    while q < nq
        invariant
            q <= nq,
            rows@.len() == q,
            forall|p: int| 0 <= p < q ==> (#[trigger] rows@[p])@ == Seq::<u16>::empty(),
        decreases nq - q,
    {
        rows.push(Vec::new());
        q += 1;
    }
    proof {
        assert forall|blocked: Seq<u8>, luts: Seq<Vec<u8>>, groups: int, n: int, mask: Option<&[u64]>|
            luts.len() == nq && n >= 0 implies #[trigger] rows_at(rows@, blocked, luts, groups, n, mask, 0) by {
            assert forall|q: int| 0 <= q < rows@.len() implies (#[trigger] rows@[q])@ == slot_sums(
                blocked,
                luts[q]@,
                groups,
                n,
                mask,
            ).take(0) by {
                assert(slot_sums(blocked, luts[q]@, groups, n, mask).take(0) == Seq::<u16>::empty());
            }
        }
    }
    rows
}

/// Rows that are done for all slots are complete.
proof fn lemma_all_taken(
    rows: Seq<Vec<u16>>,
    blocked: Seq<u8>,
    luts: Seq<Vec<u8>>,
    groups: int,
    n: int,
    mask: Option<&[u64]>,
)
    requires
        n >= 0,
        rows_at(rows, blocked, luts, groups, n, mask, n),
    ensures
        forall|q: int| 0 <= q < rows.len() ==> (#[trigger] rows[q])@ == slot_sums(blocked, luts[q]@, groups, n, mask),
{
    assert forall|q: int| 0 <= q < rows.len() implies (#[trigger] rows[q])@ == slot_sums(
        blocked,
        luts[q]@,
        groups,
        n,
        mask,
    ) by {
        let want = slot_sums(blocked, luts[q]@, groups, n, mask);
        assert(want.take(n) == want);
    }
}

/// Scores two neighbouring blocks for every query, taking the groups two at a
/// time.
fn score_block_pair(
    blocked: &[u8],
    luts: &Vec<Vec<u8>>,
    block: usize,
    n_byte_groups: usize,
    Ghost(n): Ghost<int>,
) -> (sums: (Vec<BlockSums>, Vec<BlockSums>))
    requires
        tables_fit(luts@, n_byte_groups as int),
        holds_blocks(blocked@, n, n_byte_groups as int),
        block + 1 < blocks_for(n),
        block < usize::MAX,
    ensures
        sums_at(sums.0@, blocked@, luts@, block as int, n_byte_groups as int, n_byte_groups as int),
        sums_at(sums.1@, blocked@, luts@, block + 1, n_byte_groups as int, n_byte_groups as int),
{
    let len: usize = blocked.len();
    let next: usize = block + 1;
    let mut low: Vec<BlockSums> = zero_sums(luts.len());
    let mut high: Vec<BlockSums> = zero_sums(luts.len());
    assert(sums_at(low@, blocked@, luts@, block as int, n_byte_groups as int, 0));
    assert(sums_at(high@, blocked@, luts@, next as int, n_byte_groups as int, 0));
    let mut g: usize = 0;
    while n_byte_groups - g >= 2
        invariant
            g <= n_byte_groups,
            len == blocked@.len(),
            tables_fit(luts@, n_byte_groups as int),
            holds_blocks(blocked@, n, n_byte_groups as int),
            next == block + 1,
            next < blocks_for(n),
            sums_at(low@, blocked@, luts@, block as int, n_byte_groups as int, g as int),
            sums_at(high@, blocked@, luts@, next as int, n_byte_groups as int, g as int),
        decreases n_byte_groups - g,
    {
        proof {
            lemma_row_fits(blocked@, n, n_byte_groups as int, block as int, g as int);
            lemma_row_fits(blocked@, n, n_byte_groups as int, block as int, g + 1);
            lemma_row_fits(blocked@, n, n_byte_groups as int, next as int, g as int);
            lemma_row_fits(blocked@, n, n_byte_groups as int, next as int, g + 1);
        }
        let start: usize = (block * n_byte_groups + g) * BLOCK;
        let next_start: usize = (next * n_byte_groups + g) * BLOCK;
        add_two_groups(&mut low, blocked, luts, start, g, Ghost(block as int), Ghost(n_byte_groups as int));
        add_two_groups(&mut high, blocked, luts, next_start, g, Ghost(next as int), Ghost(n_byte_groups as int));
        g += 2;
    }
    if g < n_byte_groups {
        proof {
            lemma_row_fits(blocked@, n, n_byte_groups as int, block as int, g as int);
            lemma_row_fits(blocked@, n, n_byte_groups as int, next as int, g as int);
        }
        let start: usize = (block * n_byte_groups + g) * BLOCK;
        let next_start: usize = (next * n_byte_groups + g) * BLOCK;
        add_group(&mut low, blocked, luts, start, g, Ghost(block as int), Ghost(n_byte_groups as int));
        add_group(&mut high, blocked, luts, next_start, g, Ghost(next as int), Ghost(n_byte_groups as int));
    }
    (low, high)
}

/// A pair of blocks holds a slot that may be returned iff one of them does.
proof fn lemma_pair_open(mask: Option<&[u64]>, n: int, block: int)
    ensures
        any_allowed(mask, block * 32, cut_off(block * 32 + 64, n)) == (block_open(mask, n, block) || block_open(
            mask,
            n,
            block + 1,
        )),
{
    let end = cut_off(block * 32 + 64, n);
    if any_allowed(mask, block * 32, end) {
        let slot = choose|slot: int| block * 32 <= slot < end && #[trigger] allows(mask, slot);
        if slot < block * 32 + 32 {
            assert(block_open(mask, n, block));
        } else {
            assert(block_open(mask, n, block + 1));
        }
    } else {
        assert forall|slot: int| block * 32 <= slot < end implies !#[trigger] allows(mask, slot) by {}
    }
}

/// Appends the sums of a scored block, or zeros if the mask leaves no slot of it.
fn finish_block(
    sums: &Vec<BlockSums>,
    base: usize,
    end: usize,
    n_vectors: usize,
    mask: Option<&[u64]>,
    skips: &mut BlockSkips,
    rows: &mut Vec<Vec<u16>>,
    Ghost(blocked): Ghost<Seq<u8>>,
    Ghost(luts): Ghost<Seq<Vec<u8>>>,
    Ghost(block): Ghost<int>,
    Ghost(groups): Ghost<int>,
)
    requires
        sums_at(sums@, blocked, luts, block, groups, groups),
        rows_at(old(rows)@, blocked, luts, groups, n_vectors as int, mask, base as int),
        groups >= 0,
        block >= 0,
        base == block * 32,
        base < end <= base + 32,
        end <= n_vectors,
        covers(mask, n_vectors as int),
    ensures
        rows_at(final(rows)@, blocked, luts, groups, n_vectors as int, mask, end as int),
        final(skips)@ == (old(skips)@ + if block_open(mask, n_vectors as int, block) {
            0int
        } else {
            1int
        }) % 0x1_0000_0000_0000_0000,
{
    if block_has_allowed(mask, base, n_vectors, skips) {
        block_epilogue(
            sums,
            base,
            end,
            rows,
            Ghost(blocked),
            Ghost(luts),
            Ghost(block),
            Ghost(groups),
            Ghost(n_vectors as int),
            Ghost(mask),
        );
    } else {
        proof {
            assert forall|slot: int| base <= slot < end implies !#[trigger] block_open(
                mask,
                n_vectors as int,
                slot / 32,
            ) by {
                assert(slot / 32 == block);
            }
        }
        closed_epilogue(
            base,
            end,
            rows,
            Ghost(blocked),
            Ghost(luts),
            Ghost(groups),
            Ghost(n_vectors as int),
            Ghost(mask),
        );
    }
}

/// Scores all slots for a batch of queries, two blocks at a time.
///
/// A pair of blocks is one word of the mask; where the word is zero the pair is
/// skipped as a whole. The sums and the number of blocks skipped are those of
/// [`search_multi_query`].
pub fn search_multi_query_pairs(
    blocked: &[u8],
    luts: &Vec<Vec<u8>>,
    n_byte_groups: usize,
    n_vectors: usize,
    mask: Option<&[u64]>,
    skips: &mut BlockSkips,
) -> (rows: Vec<Vec<u16>>)
    requires
        tables_fit(luts@, n_byte_groups as int),
        holds_blocks(blocked@, n_vectors as int, n_byte_groups as int),
        covers(mask, n_vectors as int),
    ensures
        rows@.len() == luts@.len(),
        forall|q: int|
            0 <= q < rows@.len() ==> (#[trigger] rows@[q])@ == slot_sums(
                blocked@,
                luts@[q]@,
                n_byte_groups as int,
                n_vectors as int,
                mask,
            ),
        final(skips)@ == (old(skips)@ + skipped_blocks(mask, n_vectors as int)) % 0x1_0000_0000_0000_0000,
{
    let n: usize = n_blocks(n_vectors);
    let mut rows: Vec<Vec<u16>> = empty_rows(luts.len());
    let mut b: usize = 0;
    let mut end: usize = 0;
    while n - b >= 2
        invariant
            b <= n,
            b % 2 == 0,
            n == blocks_for(n_vectors as int),
            end == if b == n {
                n_vectors as int
            } else {
                b * 32
            },
            tables_fit(luts@, n_byte_groups as int),
            holds_blocks(blocked@, n_vectors as int, n_byte_groups as int),
            covers(mask, n_vectors as int),
            rows_at(rows@, blocked@, luts@, n_byte_groups as int, n_vectors as int, mask, end as int),
            skips@ == (old(skips)@ + closed_blocks(mask, n_vectors as int, b as int)) % 0x1_0000_0000_0000_0000,
        decreases n - b,
    {
        let base: usize = end;
        let middle: usize = base + BLOCK;
        end = if n_vectors - middle < BLOCK {
            n_vectors
        } else {
            middle + BLOCK
        };
        let ghost count = old(skips)@ + closed_blocks(mask, n_vectors as int, b as int);
        proof {
            lemma_pair_open(mask, n_vectors as int, b as int);
            reveal_with_fuel(closed_blocks, 3);
            lemma_wrapped_count(count, 0);
            lemma_wrapped_count(count, 1);
            lemma_wrapped_count(count, 2);
            lemma_wrapped_count(count + 1, 0);
            lemma_wrapped_count(count + 1, 1);
        }
        if block_pair_has_allowed(mask, base, n_vectors, skips) {
            let sums: (Vec<BlockSums>, Vec<BlockSums>) = score_block_pair(
                blocked,
                luts,
                b,
                n_byte_groups,
                Ghost(n_vectors as int),
            );
            finish_block(
                &sums.0,
                base,
                middle,
                n_vectors,
                mask,
                skips,
                &mut rows,
                Ghost(blocked@),
                Ghost(luts@),
                Ghost(b as int),
                Ghost(n_byte_groups as int),
            );
            finish_block(
                &sums.1,
                middle,
                end,
                n_vectors,
                mask,
                skips,
                &mut rows,
                Ghost(blocked@),
                Ghost(luts@),
                Ghost(b + 1),
                Ghost(n_byte_groups as int),
            );
        } else {
            proof {
                assert forall|slot: int| base <= slot < end implies !#[trigger] block_open(
                    mask,
                    n_vectors as int,
                    slot / 32,
                ) by {
                    assert(slot / 32 == b || slot / 32 == b + 1);
                }
            }
            closed_epilogue(
                base,
                end,
                &mut rows,
                Ghost(blocked@),
                Ghost(luts@),
                Ghost(n_byte_groups as int),
                Ghost(n_vectors as int),
                Ghost(mask),
            );
        }
        b += 2;
    }
    if b < n {
        let base: usize = end;
        let ghost count = old(skips)@ + closed_blocks(mask, n_vectors as int, b as int);
        proof {
            lemma_wrapped_count(count, 0);
            lemma_wrapped_count(count, 1);
        }
        if block_has_allowed(mask, base, n_vectors, skips) {
            let sums: Vec<BlockSums> = score_block(blocked, luts, b, n_byte_groups, Ghost(n_vectors as int));
            block_epilogue(
                &sums,
                base,
                n_vectors,
                &mut rows,
                Ghost(blocked@),
                Ghost(luts@),
                Ghost(b as int),
                Ghost(n_byte_groups as int),
                Ghost(n_vectors as int),
                Ghost(mask),
            );
        } else {
            proof {
                assert forall|slot: int| base <= slot < n_vectors implies !#[trigger] block_open(
                    mask,
                    n_vectors as int,
                    slot / 32,
                ) by {
                    assert(slot / 32 == b);
                }
            }
            closed_epilogue(
                base,
                n_vectors,
                &mut rows,
                Ghost(blocked@),
                Ghost(luts@),
                Ghost(n_byte_groups as int),
                Ghost(n_vectors as int),
                Ghost(mask),
            );
        }
    }
    proof {
        lemma_all_taken(rows@, blocked@, luts@, n_byte_groups as int, n_vectors as int, mask);
    }
    rows
}

/// With table entries up to [`crate::lut::max_lut`] no sum wraps around: the sum
/// of a lane is what its lookups add up to.
pub proof fn law_lane_sum_exact(blocked: Seq<u8>, lut: Seq<u8>, block: int, groups: int, lane: int)
    requires
        groups >= 0,
        entries_at_most(lut, groups, max_entry(groups)),
    ensures
        lane_sum(blocked, lut, block, groups, lane) == lookup_sum(
            lut,
            lane_codes(blocked, block, groups, lane),
            0,
            groups,
        ),
{
    reveal(low16);
    law_sums_fit(lut, lane_codes(blocked, block, groups, lane), groups);
}

/// Skipping blocks never changes the sum of an allowed slot: it is the sum that
/// scoring without a mask gives.
pub proof fn law_skipping_keeps_allowed_sums(
    blocked: Seq<u8>,
    lut: Seq<u8>,
    groups: int,
    n: int,
    mask: Option<&[u64]>,
    slot: int,
)
    requires
        0 <= slot < n,
        allows(mask, slot),
    ensures
        slot_sums(blocked, lut, groups, n, mask)[slot] == slot_sums(blocked, lut, groups, n, None)[slot],
{
    assert(block_open(mask, n, slot / 32));
    assert(allows(None, slot));
    assert(block_open(None, n, slot / 32));
}

/// The scores that `decode` makes of the sums of a query's slots.
pub open spec fn decoded(decode: spec_fn(int, int, u16) -> u32, q: int, sums: Seq<u16>) -> Seq<u32> {
    Seq::new(sums.len(), |slot: int| decode(q, slot, sums[slot]))
}

/// Skipping blocks never changes what is found: whatever scores are made of the
/// sums, the best allowed slots are those that scoring every block gives.
pub proof fn law_skipping_keeps_results(
    blocked: Seq<u8>,
    luts: Seq<Vec<u8>>,
    groups: int,
    n: int,
    mask: Option<&[u64]>,
    decode: spec_fn(int, int, u16) -> u32,
    skipped: Seq<Vec<u32>>,
    full: Seq<Vec<u32>>,
    k: nat,
)
    requires
        n >= 0,
        skipped.len() == luts.len(),
        full.len() == luts.len(),
        forall|q: int|
            0 <= q < luts.len() ==> (#[trigger] skipped[q])@ == decoded(
                decode,
                q,
                slot_sums(blocked, luts[q]@, groups, n, mask),
            ),
        forall|q: int|
            0 <= q < luts.len() ==> (#[trigger] full[q])@ == decoded(
                decode,
                q,
                slot_sums(blocked, luts[q]@, groups, n, None),
            ),
    ensures
        result_hits(skipped, allowed_slots(mask, n as nat), k) == result_hits(full, allowed_slots(mask, n as nat), k),
{
    let allowed = allowed_slots(mask, n as nat);
    assert forall|q: int| 0 <= q < skipped.len() implies (#[trigger] skipped[q])@.len() == full[q]@.len() by {
        assert(full[q]@.len() == n);
    }
    assert forall|q: int, slot: int|
        0 <= q < skipped.len() && 0 <= slot < skipped[q]@.len() && allowed[slot] implies #[trigger] skipped[q]@[slot]
        == full[q]@[slot] by {
        assert(skipped[q]@.len() == n && full[q]@.len() == n);
        law_skipping_keeps_allowed_sums(blocked, luts[q]@, groups, n, mask, slot);
    }
    law_only_allowed_scores_matter(skipped, full, allowed, k);
}

/// Bits past the last slot change no sum: masks that agree on every slot give the
/// same sums.
pub proof fn law_same_slots_same_sums(
    blocked: Seq<u8>,
    lut: Seq<u8>,
    groups: int,
    n: int,
    a: &[u64],
    b: &[u64],
)
    requires
        n >= 0,
        same_below(a, b, n),
    ensures
        slot_sums(blocked, lut, groups, n, Some(a)) == slot_sums(blocked, lut, groups, n, Some(b)),
{
    law_same_slots_same_blocks(a, b, n, blocks_for(n));
    assert(slot_sums(blocked, lut, groups, n, Some(a)) =~= slot_sums(blocked, lut, groups, n, Some(b)));
}


/// Where the codes of a slot are: the vectors lie in blocks of 32 with 32 bytes
/// for each group. Of the first 16 vectors of a block the low nibbles of two bytes
/// that are 16 apart make up a code byte, of the other 16 the high nibbles; along
/// either half, the even bytes are those of the first eight vectors and the odd
/// bytes those of the next eight.
pub proof fn law_codes_of_slot(blocked: Seq<u8>, slot: int, groups: int, g: int)
    requires
        0 <= slot,
        0 <= g < groups,
    ensures
        lane_codes(blocked, slot / 32, groups, slot % 32).len() == groups,
        ({
            let code = lane_codes(blocked, slot / 32, groups, slot % 32)[g] as int;
            let r = slot % 16;
            let at = 32 * (groups * (slot / 32) + g) + if r < 8 {
                2 * r
            } else {
                2 * r - 15
            };
            &&& slot % 32 < 16 ==> code / 16 == blocked[at] as int % 16 && code % 16 == blocked[at + 16] as int % 16
            &&& slot % 32 >= 16 ==> code / 16 == blocked[at] as int / 16 && code % 16 == blocked[at + 16] as int / 16
        }),
{
    let lane = slot % 32;
    assert(lane % 16 == slot % 16);
    assert(slot / 32 * groups == groups * (slot / 32)) by (nonlinear_arith);
    let start = row_start(slot / 32, groups, g);
    let a = nibble(blocked[start + lane_pos(lane)], lane >= 16);
    let b = nibble(blocked[start + 16 + lane_pos(lane)], lane >= 16);
    assert(0 <= a < 16 && 0 <= b < 16);
    assert(start + 16 + lane_pos(lane) == start + lane_pos(lane) + 16);
}

/// Every slot is scored by its own codes, however many vectors there are: in a
/// block of which one slot may be returned, the sum of each slot is that of the
/// lookups of its codes over all groups, in 16 bits. Without a mask that is so of
/// every slot.
pub proof fn law_every_slot_is_scored(
    blocked: Seq<u8>,
    lut: Seq<u8>,
    groups: int,
    n: int,
    mask: Option<&[u64]>,
    slot: int,
    near: int,
)
    requires
        0 <= groups,
        0 <= slot < n,
        0 <= near < n,
        near / 32 == slot / 32,
        allows(mask, near),
    ensures
        slot_sums(blocked, lut, groups, n, mask).len() == n,
        slot_sums(blocked, lut, groups, n, mask)[slot] == Seq::new(
            groups as nat,
            |g: int|
                {
                    let r = slot % 16;
                    let at = 32 * (groups * (slot / 32) + g) + if r < 8 {
                        2 * r
                    } else {
                        2 * r - 15
                    };
                    if slot % 32 < 16 {
                        lut[32 * g + blocked[at] as int % 16] + lut[32 * g + 16 + blocked[at + 16] as int % 16]
                    } else {
                        lut[32 * g + blocked[at] as int / 16] + lut[32 * g + 16 + blocked[at + 16] as int / 16]
                    }
                },
        ).fold_left(0int, |sum: int, v: int| sum + v) % 65536,
{
    law_open_block_has_slot(mask, n, slot / 32);
    let codes = lane_codes(blocked, slot / 32, groups, slot % 32);
    let terms = Seq::new(
        groups as nat,
        |i: int| lut[32 * (0 + i) + codes[0 + i] as int / 16] + lut[32 * (0 + i) + 16 + codes[0 + i] as int % 16],
    );
    let want = Seq::new(
        groups as nat,
        |g: int|
            {
                let r = slot % 16;
                let at = 32 * (groups * (slot / 32) + g) + if r < 8 {
                    2 * r
                } else {
                    2 * r - 15
                };
                if slot % 32 < 16 {
                    lut[32 * g + blocked[at] as int % 16] + lut[32 * g + 16 + blocked[at + 16] as int % 16]
                } else {
                    lut[32 * g + blocked[at] as int / 16] + lut[32 * g + 16 + blocked[at + 16] as int / 16]
                }
            },
    );
    law_lookup_sum_adds_up(lut, codes, 0, groups);
    law_low16_is_remainder(lookup_sum(lut, codes, 0, groups));
    assert forall|g: int| 0 <= g < groups implies terms[g] == want[g] by {
        law_codes_of_slot(blocked, slot, groups, g);
    }
    assert(terms =~= want);
}

/// Without a mask every slot is scored by its own codes.
pub proof fn law_unmasked_sums_are_lookups(blocked: Seq<u8>, lut: Seq<u8>, groups: int, n: int, slot: int)
    requires
        0 <= groups,
        0 <= slot < n,
    ensures
        slot_sums(blocked, lut, groups, n, None)[slot] == low16(
            lookup_sum(lut, lane_codes(blocked, slot / 32, groups, slot % 32), 0, groups),
        ),
        slot_sums(blocked, lut, groups, n, None)[slot] == lookup_sum(
            lut,
            lane_codes(blocked, slot / 32, groups, slot % 32),
            0,
            groups,
        ) % 65536,
{
    assert(allows(None, slot));
    assert(block_open(None, n, slot / 32));
    law_low16_is_remainder(lookup_sum(lut, lane_codes(blocked, slot / 32, groups, slot % 32), 0, groups));
}

/// In a block none of whose vectors may be returned every sum is zero.
pub proof fn law_skipped_sums_are_zero(
    blocked: Seq<u8>,
    lut: Seq<u8>,
    groups: int,
    n: int,
    mask: Option<&[u64]>,
    slot: int,
)
    requires
        0 <= slot < n,
        forall|near: int| 0 <= near < n && near / 32 == slot / 32 ==> !#[trigger] allows(mask, near),
    ensures
        slot_sums(blocked, lut, groups, n, mask)[slot] == 0,
{
    law_open_block_has_slot(mask, n, slot / 32);
}

/// Vectors with the same codes get the same sums, wherever they are, however many
/// others there are and whichever of them may be returned.
pub proof fn law_same_codes_same_sum(
    blocked_a: Seq<u8>,
    blocked_b: Seq<u8>,
    lut: Seq<u8>,
    groups: int,
    n_a: int,
    n_b: int,
    mask_a: Option<&[u64]>,
    mask_b: Option<&[u64]>,
    a: int,
    b: int,
)
    requires
        0 <= groups,
        0 <= a < n_a,
        0 <= b < n_b,
        allows(mask_a, a),
        allows(mask_b, b),
        lane_codes(blocked_a, a / 32, groups, a % 32) == lane_codes(blocked_b, b / 32, groups, b % 32),
    ensures
        slot_sums(blocked_a, lut, groups, n_a, mask_a)[a] == slot_sums(blocked_b, lut, groups, n_b, mask_b)[b],
{
    law_skipping_keeps_allowed_sums(blocked_a, lut, groups, n_a, mask_a, a);
    law_skipping_keeps_allowed_sums(blocked_b, lut, groups, n_b, mask_b, b);
    law_unmasked_sums_are_lookups(blocked_a, lut, groups, n_a, a);
    law_unmasked_sums_are_lookups(blocked_b, lut, groups, n_b, b);
}

/// The sum of an allowed slot is the sum over all `dim` coordinates of what each
/// contributes with the vector's code for it: where the entries of the tables hold
/// the contributions of their coordinates and are no larger than
/// [`crate::lut::max_lut`] allows, nothing is left out and nothing wraps around.
pub proof fn law_sum_is_over_all_coordinates(
    blocked: Seq<u8>,
    lut: Seq<u8>,
    w: spec_fn(int, int) -> int,
    dim: int,
    bits: int,
    n: int,
    mask: Option<&[u64]>,
    slot: int,
)
    requires
        2 <= bits <= 4,
        0 <= dim,
        dim % 8 == 0,
        0 <= slot < n,
        allows(mask, slot),
        forall|entry: int|
            0 <= entry < byte_groups(dim, bits) * 32 ==> (#[trigger] lut[entry]) == if bits == 2 {
                w(entry / 16 * 2, entry % 16 / 4) + w(entry / 16 * 2 + 1, entry % 4)
            } else if bits == 3 {
                w(entry / 16, entry % 8)
            } else {
                w(entry / 16, entry % 16)
            },
        forall|entry: int|
            0 <= entry < byte_groups(dim, bits) * 32 ==> (#[trigger] lut[entry]) <= max_entry(byte_groups(dim, bits)),
    ensures
        ({
            let groups = byte_groups(dim, bits);
            let codes = lane_codes(blocked, slot / 32, groups, slot % 32);
            slot_sums(blocked, lut, groups, n, mask)[slot] == Seq::new(
                dim as nat,
                |coord: int| w(coord, code_at(codes, coord, bits)),
            ).fold_left(0int, |sum: int, v: int| sum + v)
        }),
{
    let groups = byte_groups(dim, bits);
    let codes = lane_codes(blocked, slot / 32, groups, slot % 32);
    law_groups_cover_coordinates(dim, bits);
    assert(groups >= 0);
    law_skipping_keeps_allowed_sums(blocked, lut, groups, n, mask, slot);
    law_unmasked_sums_are_lookups(blocked, lut, groups, n, slot);
    law_sums_fit(lut, codes, groups);
    law_every_coordinate_counts(lut, w, codes, bits, dim);
}

/// Every query gets a sum for each slot.
pub proof fn law_one_sum_per_slot(blocked: Seq<u8>, lut: Seq<u8>, groups: int, n: int, mask: Option<&[u64]>)
    requires
        0 <= n,
    ensures
        slot_sums(blocked, lut, groups, n, mask).len() == n,
{
}
} // verus!
