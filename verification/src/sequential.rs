//! Scoring of blocks in the sequential layout.
//!
//! Byte `lane` of a row is the code byte of that vector of the block. The two
//! lookups of a byte are added as bytes. Groups are taken in batches of
//! [`FLUSH_EVERY`]; the sums of a batch are 16-bit numbers and are handed on
//! batch by batch.
use crate::blocks::{
    block_open, blocks_for, closed_blocks, holds_blocks, law_open_block_has_slot, law_same_slots_same_blocks,
    lemma_row_fits, lemma_slot_block, n_blocks, row_start, skipped_blocks,
};
use crate::lut::{
    byte_groups, byte_lookup_sum, code_at, entries_at_most, law_byte_lookup_sum_adds_up, law_every_coordinate_counts,
    law_flush_fits, law_groups_cover_coordinates, lookup_sum, pair_lookup, tables_fit, MAX_ENTRY,
};
use crate::mask::{
    allowed_slots, allows, block_has_allowed, covers, lemma_wrapped_count, same_below, slot_allowed, BlockSkips,
};
use crate::search::result_hits;
use crate::selection::law_only_allowed_scores_matter;
use crate::word::{add_low16, law_low16_is_remainder, lemma_low16_small, low16};
use crate::{BLOCK, FLUSH_EVERY};
use vstd::prelude::*;

verus! {

/// Number of queries that are scored together.
pub const QUERY_BATCH: usize = 4;

/// The code bytes of a lane of a block, one per group.
pub open spec fn lane_codes(blocked: Seq<u8>, block: int, groups: int, lane: int) -> Seq<u8> {
    Seq::new(groups as nat, |g: int| blocked[row_start(block, groups, g) + lane])
}

/// Number of batches that the groups are taken in.
pub open spec fn batches_for(groups: int) -> int {
    (groups + 255) / 256
}

/// One past the last group of a batch.
pub open spec fn batch_end(groups: int, batch: int) -> int {
    if (batch + 1) * 256 <= groups {
        (batch + 1) * 256
    } else {
        groups
    }
}

/// The sum of a lane of a block over one batch of groups, in 16 bits.
pub open spec fn batch_sum(blocked: Seq<u8>, lut: Seq<u8>, block: int, groups: int, lane: int, batch: int) -> u16 {
    low16(
        byte_lookup_sum(lut, lane_codes(blocked, block, groups, lane), batch * 256, batch_end(groups, batch)),
    )
}

/// The sums of a lane of a block, one per batch.
pub open spec fn lane_sums(blocked: Seq<u8>, lut: Seq<u8>, block: int, groups: int, lane: int) -> Seq<u16> {
    Seq::new(batches_for(groups) as nat, |batch: int| batch_sum(blocked, lut, block, groups, lane, batch))
}

/// With table entries up to 127 no sum wraps around: the sum of a batch is what
/// its lookups add up to.
pub proof fn law_batch_sum_exact(blocked: Seq<u8>, lut: Seq<u8>, block: int, groups: int, lane: int, batch: int)
    requires
        entries_at_most(lut, groups, MAX_ENTRY as int),
        0 <= batch < batches_for(groups),
    ensures
        batch_sum(blocked, lut, block, groups, lane, batch) == lookup_sum(
            lut,
            lane_codes(blocked, block, groups, lane),
            batch * 256,
            batch_end(groups, batch),
        ),
{
    reveal(low16);
    law_flush_fits(
        lut,
        lane_codes(blocked, block, groups, lane),
        groups,
        batch * 256,
        batch_end(groups, batch),
    );
}

/// What 16-bit sums add up to.
pub open spec fn total(sums: Seq<u16>) -> int
    decreases sums.len(),
{
    if sums.len() == 0 {
        0
    } else {
        total(sums.drop_last()) + sums.last()
    }
}

/// Sums over neighbouring ranges of groups add up to the sum over both.
proof fn lemma_lookup_sum_split(lut: Seq<u8>, bytes: Seq<u8>, lo: int, mid: int, hi: int)
    requires
        lo <= mid <= hi,
    ensures
        lookup_sum(lut, bytes, lo, hi) == lookup_sum(lut, bytes, lo, mid) + lookup_sum(lut, bytes, mid, hi),
    decreases hi - mid,
{
    if mid < hi {
        lemma_lookup_sum_split(lut, bytes, lo, mid, hi - 1);
    }
}

proof fn lemma_batches_add_up(blocked: Seq<u8>, lut: Seq<u8>, block: int, groups: int, lane: int, m: int)
    requires
        entries_at_most(lut, groups, MAX_ENTRY as int),
        0 <= m <= batches_for(groups),
    ensures
        total(lane_sums(blocked, lut, block, groups, lane).take(m)) == lookup_sum(
            lut,
            lane_codes(blocked, block, groups, lane),
            0,
            if m == batches_for(groups) {
                groups
            } else {
                m * 256
            },
        ),
    decreases m,
{
    let sums = lane_sums(blocked, lut, block, groups, lane);
    if m > 0 {
        let codes = lane_codes(blocked, block, groups, lane);
        lemma_batches_add_up(blocked, lut, block, groups, lane, m - 1);
        law_batch_sum_exact(blocked, lut, block, groups, lane, m - 1);
        assert(sums.take(m).drop_last() == sums.take(m - 1));
        assert(sums.take(m).last() == sums[m - 1]);
        lemma_lookup_sum_split(lut, codes, 0, (m - 1) * 256, batch_end(groups, m - 1));
    } else {
        assert(sums.take(0).len() == 0);
    }
}

/// With table entries up to 127 the sums of the batches add up to all lookups of
/// the lane: taking the groups in batches changes nothing.
pub proof fn law_batches_add_up(blocked: Seq<u8>, lut: Seq<u8>, block: int, groups: int, lane: int)
    requires
        entries_at_most(lut, groups, MAX_ENTRY as int),
        groups >= 0,
    ensures
        total(lane_sums(blocked, lut, block, groups, lane)) == lookup_sum(
            lut,
            lane_codes(blocked, block, groups, lane),
            0,
            groups,
        ),
{
    let sums = lane_sums(blocked, lut, block, groups, lane);
    lemma_batches_add_up(blocked, lut, block, groups, lane, batches_for(groups));
    assert(sums.take(batches_for(groups)) == sums);
}

/// The two lookups of a byte, added as bytes.
fn look_up_pair(lut: &[u8], g: usize, byte: u8) -> (v: u8)
    requires
        g * 32 + 32 <= lut@.len(),
    ensures
        v == pair_lookup(lut@, g as int, byte) % 256,
{
    let m: usize = lut.len();
    assert(byte >> 4u8 == byte / 16 && byte & 0x0F == byte % 16) by (bit_vector);
    let high: u8 = lut[g * 32 + (byte >> 4u8) as usize];
    let low: u8 = lut[g * 32 + 16 + (byte & 0x0F) as usize];
    low.wrapping_add(high)
}

/// True iff `acc` are the sums of the 32 lanes over the groups `lo..hi`.
spec fn acc_at(acc: Seq<u16>, blocked: Seq<u8>, lut: Seq<u8>, block: int, groups: int, lo: int, hi: int) -> bool {
    &&& acc.len() == 32
    &&& forall|lane: int|
        0 <= lane < 32 ==> #[trigger] acc[lane] == low16(
            byte_lookup_sum(lut, lane_codes(blocked, block, groups, lane), lo, hi),
        )
}

/// Adds the row of group `g` to the sums of the 32 lanes.
fn add_row(
    acc: &mut Vec<u16>,
    blocked: &[u8],
    lut: &[u8],
    start: usize,
    g: usize,
    Ghost(block): Ghost<int>,
    Ghost(groups): Ghost<int>,
    Ghost(lo): Ghost<int>,
)
    requires
        acc_at(old(acc)@, blocked@, lut@, block, groups, lo, g as int),
        lo <= g < groups,
        start == row_start(block, groups, g as int),
        start + 32 <= blocked@.len(),
        lut@.len() == groups * 32,
    ensures
        acc_at(final(acc)@, blocked@, lut@, block, groups, lo, g + 1),
{
    let n: usize = blocked.len();
    let mut lane: usize = 0;
    while lane < BLOCK
        invariant
            lane <= 32,
            n == blocked@.len(),
            acc@.len() == 32,
            acc_at(old(acc)@, blocked@, lut@, block, groups, lo, g as int),
            lo <= g < groups,
            start == row_start(block, groups, g as int),
            start + 32 <= n,
            lut@.len() == groups * 32,
            forall|v: int| lane <= v < 32 ==> #[trigger] acc@[v] == old(acc)@[v],
            forall|v: int|
                0 <= v < lane ==> #[trigger] acc@[v] == low16(
                    byte_lookup_sum(lut@, lane_codes(blocked@, block, groups, v), lo, g + 1),
                ),
        decreases 32 - lane,
    {
        let byte: u8 = blocked[start + lane];
        let v: u8 = look_up_pair(lut, g, byte);
        let ghost codes = lane_codes(blocked@, block, groups, lane as int);
        let ghost sum = byte_lookup_sum(lut@, codes, lo, g as int);
        assert(acc@[lane as int] == old(acc)@[lane as int]);
        assert(codes[g as int] == byte);
        proof {
            lemma_low16_small(v as u16);
        }
        acc[lane] = add_low16(acc[lane], v as u16, Ghost(sum), Ghost(v as int));
        lane += 1;
    }
}

/// 32 zero sums.
fn zero_lanes() -> (acc: Vec<u16>)
    ensures
        forall|blocked: Seq<u8>, lut: Seq<u8>, block: int, groups: int, lo: int| #[trigger]
            acc_at(acc@, blocked, lut, block, groups, lo, lo),
{
    proof {
        lemma_low16_small(0);
    }
    vec![0u16; 32]
}

/// Number of batches that the groups are taken in.
fn n_batches(n_byte_groups: usize) -> (n: usize)
    ensures
        n == batches_for(n_byte_groups as int),
{
    n_byte_groups / FLUSH_EVERY + if n_byte_groups % FLUSH_EVERY != 0 {
        1
    } else {
        0
    }
}

/// One past the last group of a batch.
fn end_of_batch(n_byte_groups: usize, batch: usize) -> (end: usize)
    requires
        batch < batches_for(n_byte_groups as int),
    ensures
        end == batch_end(n_byte_groups as int, batch as int),
        batch * 256 <= end <= n_byte_groups,
{
    if n_byte_groups - batch * FLUSH_EVERY < FLUSH_EVERY {
        n_byte_groups
    } else {
        batch * FLUSH_EVERY + FLUSH_EVERY
    }
}

/// True iff `out` are the sums of the 32 lanes of a block, batch by batch.
pub open spec fn block_scored(out: Seq<Vec<u16>>, blocked: Seq<u8>, lut: Seq<u8>, block: int, groups: int) -> bool {
    &&& out.len() == batches_for(groups)
    &&& forall|batch: int|
        0 <= batch < out.len() ==> (#[trigger] out[batch])@ == Seq::new(
            32,
            |lane: int| batch_sum(blocked, lut, block, groups, lane, batch),
        )
}

/// Scores the 32 lanes of a block for one query, batch by batch.
pub fn score_block(blocked: &[u8], lut: &[u8], block: usize, n_byte_groups: usize, n_vectors: usize) -> (out: Vec<
    Vec<u16>,
>)
    requires
        lut@.len() == n_byte_groups * 32,
        holds_blocks(blocked@, n_vectors as int, n_byte_groups as int),
        block < blocks_for(n_vectors as int),
    ensures
        block_scored(out@, blocked@, lut@, block as int, n_byte_groups as int),
{
    let len: usize = blocked.len();
    let n: usize = n_batches(n_byte_groups);
    let mut out: Vec<Vec<u16>> = Vec::new();
    let mut batch: usize = 0;
    while batch < n
        invariant
            batch <= n,
            len == blocked@.len(),
            n == batches_for(n_byte_groups as int),
            lut@.len() == n_byte_groups * 32,
            holds_blocks(blocked@, n_vectors as int, n_byte_groups as int),
            block < blocks_for(n_vectors as int),
            out@.len() == batch,
            forall|b: int|
                0 <= b < batch ==> (#[trigger] out@[b])@ == Seq::new(
                    32,
                    |lane: int| batch_sum(blocked@, lut@, block as int, n_byte_groups as int, lane, b),
                ),
        decreases n - batch,
    {
        let end: usize = end_of_batch(n_byte_groups, batch);
        let first: usize = batch * FLUSH_EVERY;
        let mut acc: Vec<u16> = zero_lanes();
        assert(acc_at(acc@, blocked@, lut@, block as int, n_byte_groups as int, first as int, first as int));
        let mut g: usize = first;
        while g < end
            invariant
                first <= g <= end <= n_byte_groups,
                len == blocked@.len(),
                lut@.len() == n_byte_groups * 32,
                holds_blocks(blocked@, n_vectors as int, n_byte_groups as int),
                block < blocks_for(n_vectors as int),
                acc_at(acc@, blocked@, lut@, block as int, n_byte_groups as int, first as int, g as int),
            decreases end - g,
        {
            proof {
                lemma_row_fits(blocked@, n_vectors as int, n_byte_groups as int, block as int, g as int);
            }
            let start: usize = (block * n_byte_groups + g) * BLOCK;
            add_row(
                &mut acc,
                blocked,
                lut,
                start,
                g,
                Ghost(block as int),
                Ghost(n_byte_groups as int),
                Ghost(first as int),
            );
            g += 1;
        }
        assert(acc@ == Seq::new(
            32,
            |lane: int| batch_sum(blocked@, lut@, block as int, n_byte_groups as int, lane, batch as int),
        ));
        out.push(acc);
        batch += 1;
    }
    out
}

/// Scores the 32 lanes of a block for several queries at once: each row is
/// taken once and looked up in every query's table. The sums are those of
/// [`score_block`].
pub fn score_query_batch_block(
    blocked: &[u8],
    luts: &Vec<Vec<u8>>,
    block: usize,
    n_byte_groups: usize,
    n_vectors: usize,
) -> (out: Vec<Vec<Vec<u16>>>)
    requires
        tables_fit(luts@, n_byte_groups as int),
        holds_blocks(blocked@, n_vectors as int, n_byte_groups as int),
        block < blocks_for(n_vectors as int),
    ensures
        out@.len() == luts@.len(),
        forall|q: int|
            0 <= q < out@.len() ==> block_scored(
                (#[trigger] out@[q])@,
                blocked@,
                luts@[q]@,
                block as int,
                n_byte_groups as int,
            ),
{
    let len: usize = blocked.len();
    let nq: usize = luts.len();
    let n: usize = n_batches(n_byte_groups);
    let ghost groups = n_byte_groups as int;
    let mut out: Vec<Vec<Vec<u16>>> = Vec::new();
    while out.len() < nq
        invariant
            out@.len() <= nq,
            forall|q: int| 0 <= q < out@.len() ==> (#[trigger] out@[q])@.len() == 0,
        decreases nq - out@.len(),
    {
        out.push(Vec::new());
    }
    let mut batch: usize = 0;
    while batch < n
        invariant
            batch <= n,
            len == blocked@.len(),
            nq == luts@.len(),
            groups == n_byte_groups,
            n == batches_for(groups),
            tables_fit(luts@, groups),
            holds_blocks(blocked@, n_vectors as int, groups),
            block < blocks_for(n_vectors as int),
            out@.len() == nq,
            forall|q: int| 0 <= q < nq ==> (#[trigger] out@[q])@.len() == batch,
            forall|q: int, b: int|
                0 <= q < nq && 0 <= b < batch ==> (#[trigger] out@[q]@[b])@ == Seq::new(
                    32,
                    |lane: int| batch_sum(blocked@, luts@[q]@, block as int, groups, lane, b),
                ),
        decreases n - batch,
    {
        let end: usize = end_of_batch(n_byte_groups, batch);
        let first: usize = batch * FLUSH_EVERY;
        let mut accs: Vec<Vec<u16>> = Vec::new();
        while accs.len() < nq
            invariant
                accs@.len() <= nq,
                nq == luts@.len(),
                forall|q: int|
                    0 <= q < accs@.len() ==> acc_at(
                        (#[trigger] accs@[q])@,
                        blocked@,
                        luts@[q]@,
                        block as int,
                        groups,
                        first as int,
                        first as int,
                    ),
            decreases nq - accs@.len(),
        {
            let acc: Vec<u16> = zero_lanes();
            assert(acc_at(acc@, blocked@, luts@[accs@.len() as int]@, block as int, groups, first as int, first as int));
            accs.push(acc);
        }
        let mut g: usize = first;
        while g < end
            invariant
                first <= g <= end <= n_byte_groups,
                len == blocked@.len(),
                nq == luts@.len(),
                groups == n_byte_groups,
                tables_fit(luts@, groups),
                holds_blocks(blocked@, n_vectors as int, groups),
                block < blocks_for(n_vectors as int),
                accs@.len() == nq,
                forall|q: int|
                    0 <= q < nq ==> acc_at(
                        (#[trigger] accs@[q])@,
                        blocked@,
                        luts@[q]@,
                        block as int,
                        groups,
                        first as int,
                        g as int,
                    ),
            decreases end - g,
        {
            proof {
                lemma_row_fits(blocked@, n_vectors as int, groups, block as int, g as int);
            }
            let start: usize = (block * n_byte_groups + g) * BLOCK;
            let mut q: usize = 0;
            while q < nq
                invariant
                    q <= nq,
                    first <= g < end <= n_byte_groups,
                    nq == luts@.len(),
                    groups == n_byte_groups,
                    tables_fit(luts@, groups),
                    start == row_start(block as int, groups, g as int),
                    start + 32 <= blocked@.len(),
                    accs@.len() == nq,
                    forall|p: int|
                        0 <= p < q ==> acc_at(
                            (#[trigger] accs@[p])@,
                            blocked@,
                            luts@[p]@,
                            block as int,
                            groups,
                            first as int,
                            g + 1,
                        ),
                    forall|p: int|
                        q <= p < nq ==> acc_at(
                            (#[trigger] accs@[p])@,
                            blocked@,
                            luts@[p]@,
                            block as int,
                            groups,
                            first as int,
                            g as int,
                        ),
                decreases nq - q,
            {
                assert(luts@[q as int]@.len() == groups * 32);
                assert(acc_at(accs@[q as int]@, blocked@, luts@[q as int]@, block as int, groups, first as int, g as int));
                add_row(
                    &mut accs[q],
                    blocked,
                    luts[q].as_slice(),
                    start,
                    g,
                    Ghost(block as int),
                    Ghost(groups),
                    Ghost(first as int),
                );
                q += 1;
            }
            g += 1;
        }
        let mut q: usize = 0;
        let ghost done = out@;
        let ghost lanes = accs@;
        while q < nq
            invariant
                q <= nq,
                nq == luts@.len(),
                out@.len() == nq,
                accs@.len() == nq,
                lanes.len() == nq,
                done.len() == nq,
                forall|p: int| q <= p < nq ==> #[trigger] accs@[p] == lanes[p],
                forall|p: int| 0 <= p < q ==> (#[trigger] out@[p])@ == done[p]@.push(lanes[p]),
                forall|p: int| q <= p < nq ==> #[trigger] out@[p] == done[p],
            decreases nq - q,
        {
            let mut acc: Vec<u16> = Vec::new();
            std::mem::swap(&mut acc, &mut accs[q]);
            out[q].push(acc);
            q += 1;
        }
        proof {
            assert forall|q: int, b: int| 0 <= q < nq && 0 <= b < batch + 1 implies (#[trigger] out@[q]@[b])@
                == Seq::new(32, |lane: int| batch_sum(blocked@, luts@[q]@, block as int, groups, lane, b)) by {
                assert(out@[q]@ == done[q]@.push(lanes[q]));
                if b < batch {
                    assert(out@[q]@[b] == done[q]@[b]);
                } else {
                    assert(out@[q]@[b] == lanes[q]);
                    assert(acc_at(lanes[q]@, blocked@, luts@[q]@, block as int, groups, first as int, end as int));
                    assert(lanes[q]@ =~= Seq::new(
                        32,
                        |lane: int| batch_sum(blocked@, luts@[q]@, block as int, groups, lane, b),
                    ));
                }
            }
        }
        batch += 1;
    }
    out
}

/// The sums of all slots over one batch of groups; zero in blocks that the mask
/// leaves no slot of.
pub open spec fn slot_sums(
    blocked: Seq<u8>,
    lut: Seq<u8>,
    groups: int,
    n: int,
    mask: Option<&[u64]>,
    batch: int,
) -> Seq<u16> {
    Seq::new(
        n as nat,
        |slot: int|
            if block_open(mask, n, slot / 32) {
                batch_sum(blocked, lut, slot / 32, groups, slot % 32, batch)
            } else {
                0
            },
    )
}

/// True iff `rows` hold the sums of the slots `0..done`, batch by batch.
pub open spec fn rows_at(
    rows: Seq<Vec<u16>>,
    blocked: Seq<u8>,
    lut: Seq<u8>,
    groups: int,
    n: int,
    mask: Option<&[u64]>,
    done: int,
) -> bool {
    &&& rows.len() == batches_for(groups)
    &&& forall|batch: int|
        0 <= batch < rows.len() ==> (#[trigger] rows[batch])@ == slot_sums(blocked, lut, groups, n, mask, batch).take(
            done,
        )
}

/// Empty rows, one per batch.
fn empty_rows(n_byte_groups: usize) -> (rows: Vec<Vec<u16>>)
    ensures
        forall|blocked: Seq<u8>, lut: Seq<u8>, n: int, mask: Option<&[u64]>|
            n >= 0 ==> #[trigger] rows_at(rows@, blocked, lut, n_byte_groups as int, n, mask, 0),
{
    let n_rows: usize = n_batches(n_byte_groups);
    let mut rows: Vec<Vec<u16>> = Vec::new();
    while rows.len() < n_rows
        invariant
            rows@.len() <= n_rows,
            forall|b: int| 0 <= b < rows@.len() ==> (#[trigger] rows@[b])@ == Seq::<u16>::empty(),
        decreases n_rows - rows@.len(),
    {
        rows.push(Vec::new());
    }
    proof {
        let groups = n_byte_groups as int;
        assert forall|blocked: Seq<u8>, lut: Seq<u8>, n: int, mask: Option<&[u64]>| n >= 0 implies #[trigger] rows_at(
            rows@,
            blocked,
            lut,
            groups,
            n,
            mask,
            0,
        ) by {
            assert forall|batch: int| 0 <= batch < rows@.len() implies (#[trigger] rows@[batch])@ == slot_sums(
                blocked,
                lut,
                groups,
                n,
                mask,
                batch,
            ).take(0) by {
                assert(slot_sums(blocked, lut, groups, n, mask, batch).take(0) == Seq::<u16>::empty());
            }
        }
    }
    rows
}

/// Appends the sums of the slots `base..end` of a scored block.
fn append_block(
    rows: &mut Vec<Vec<u16>>,
    scored: &Vec<Vec<u16>>,
    base: usize,
    end: usize,
    Ghost(blocked): Ghost<Seq<u8>>,
    Ghost(lut): Ghost<Seq<u8>>,
    Ghost(block): Ghost<int>,
    Ghost(groups): Ghost<int>,
    Ghost(n): Ghost<int>,
    Ghost(mask): Ghost<Option<&[u64]>>,
)
    requires
        rows_at(old(rows)@, blocked, lut, groups, n, mask, base as int),
        block_scored(scored@, blocked, lut, block, groups),
        block >= 0,
        base == block * 32,
        base <= end <= base + 32,
        end <= n,
        block_open(mask, n, block),
    ensures
        rows_at(final(rows)@, blocked, lut, groups, n, mask, end as int),
{
    let mut b: usize = 0;
    while b < rows.len()
        invariant
            b <= rows@.len(),
            rows@.len() == batches_for(groups),
            block_scored(scored@, blocked, lut, block, groups),
            block >= 0,
            base == block * 32,
            base <= end <= base + 32,
            end <= n,
            block_open(mask, n, block),
            forall|p: int|
                0 <= p < b ==> (#[trigger] rows@[p])@ == slot_sums(blocked, lut, groups, n, mask, p).take(end as int),
            forall|p: int|
                b <= p < rows@.len() ==> (#[trigger] rows@[p])@ == slot_sums(blocked, lut, groups, n, mask, p).take(
                    base as int,
                ),
        decreases rows@.len() - b,
    {
        let ghost want = slot_sums(blocked, lut, groups, n, mask, b as int);
        let ghost before = rows@;
        let mut row: Vec<u16> = Vec::new();
        std::mem::swap(&mut row, &mut rows[b]);
        let lanes: &Vec<u16> = &scored[b];
        let mut lane: usize = 0;
        assert(want.take(base + 0) == want.take(base as int));
        while lane < end - base
            invariant
                lane <= end - base <= 32,
                base == block * 32,
                block >= 0,
                end <= n,
                base <= end,
                block_open(mask, n, block),
                want == slot_sums(blocked, lut, groups, n, mask, b as int),
                lanes@ == Seq::new(32, |lane: int| batch_sum(blocked, lut, block, groups, lane, b as int)),
                row@ == want.take(base + lane),
            decreases end - base - lane,
        {
            proof {
                lemma_slot_block(block, lane as int);
                assert(want[base + lane] == batch_sum(blocked, lut, block, groups, lane as int, b as int));
            }
            row.push(lanes[lane]);
            assert(want.take(base + lane + 1) == want.take(base + lane).push(want[base + lane]));
            lane += 1;
        }
        std::mem::swap(&mut row, &mut rows[b]);
        assert forall|p: int| 0 <= p < rows@.len() && p != b implies #[trigger] rows@[p] == before[p] by {}
        b += 1;
    }
}

/// Appends zero sums for the slots `base..end` of a block that the mask leaves
/// no slot of.
fn append_closed(
    rows: &mut Vec<Vec<u16>>,
    base: usize,
    end: usize,
    Ghost(blocked): Ghost<Seq<u8>>,
    Ghost(lut): Ghost<Seq<u8>>,
    Ghost(block): Ghost<int>,
    Ghost(groups): Ghost<int>,
    Ghost(n): Ghost<int>,
    Ghost(mask): Ghost<Option<&[u64]>>,
)
    requires
        rows_at(old(rows)@, blocked, lut, groups, n, mask, base as int),
        block >= 0,
        base == block * 32,
        base <= end <= base + 32,
        end <= n,
        !block_open(mask, n, block),
    ensures
        rows_at(final(rows)@, blocked, lut, groups, n, mask, end as int),
{
    let mut b: usize = 0;
    while b < rows.len()
        invariant
            b <= rows@.len(),
            rows@.len() == batches_for(groups),
            block >= 0,
            base == block * 32,
            base <= end <= base + 32,
            end <= n,
            !block_open(mask, n, block),
            forall|p: int|
                0 <= p < b ==> (#[trigger] rows@[p])@ == slot_sums(blocked, lut, groups, n, mask, p).take(end as int),
            forall|p: int|
                b <= p < rows@.len() ==> (#[trigger] rows@[p])@ == slot_sums(blocked, lut, groups, n, mask, p).take(
                    base as int,
                ),
        decreases rows@.len() - b,
    {
        let ghost want = slot_sums(blocked, lut, groups, n, mask, b as int);
        let ghost before = rows@;
        let mut row: Vec<u16> = Vec::new();
        std::mem::swap(&mut row, &mut rows[b]);
        let mut slot: usize = base;
        while slot < end
            invariant
                base <= slot <= end <= base + 32,
                base == block * 32,
                end <= n,
                !block_open(mask, n, block),
                want == slot_sums(blocked, lut, groups, n, mask, b as int),
                row@ == want.take(slot as int),
            decreases end - slot,
        {
            assert(slot as int / 32 == block);
            row.push(0);
            assert(want.take(slot + 1) == want.take(slot as int).push(want[slot as int]));
            slot += 1;
        }
        std::mem::swap(&mut row, &mut rows[b]);
        assert forall|p: int| 0 <= p < rows@.len() && p != b implies #[trigger] rows@[p] == before[p] by {}
        b += 1;
    }
}

/// Scores all slots for one query, block by block. The result is one row per
/// batch of groups.
///
/// Blocks that the mask leaves no slot of are skipped and counted; their sums
/// are zero.
pub fn score_query(
    blocked: &[u8],
    lut: &Vec<u8>,
    n_byte_groups: usize,
    n_vectors: usize,
    mask: Option<&[u64]>,
    skips: &mut BlockSkips,
) -> (rows: Vec<Vec<u16>>)
    requires
        lut@.len() == n_byte_groups * 32,
        holds_blocks(blocked@, n_vectors as int, n_byte_groups as int),
        covers(mask, n_vectors as int),
    ensures
        rows_at(rows@, blocked@, lut@, n_byte_groups as int, n_vectors as int, mask, n_vectors as int),
        final(skips)@ == (old(skips)@ + skipped_blocks(mask, n_vectors as int)) % 0x1_0000_0000_0000_0000,
{
    let n: usize = n_blocks(n_vectors);
    let mut rows: Vec<Vec<u16>> = empty_rows(n_byte_groups);
    let mut b: usize = 0;
    let mut end: usize = 0;
    while b < n
        invariant
            b <= n,
            n == blocks_for(n_vectors as int),
            end == if b == n {
                n_vectors as int
            } else {
                b * 32
            },
            lut@.len() == n_byte_groups * 32,
            holds_blocks(blocked@, n_vectors as int, n_byte_groups as int),
            covers(mask, n_vectors as int),
            rows_at(rows@, blocked@, lut@, n_byte_groups as int, n_vectors as int, mask, end as int),
            skips@ == (old(skips)@ + closed_blocks(mask, n_vectors as int, b as int)) % 0x1_0000_0000_0000_0000,
        decreases n - b,
    {
        let base: usize = end;
        end = if n_vectors - base < BLOCK {
            n_vectors
        } else {
            base + BLOCK
        };
        proof {
            let count = old(skips)@ + closed_blocks(mask, n_vectors as int, b as int);
            lemma_wrapped_count(count, 0);
            lemma_wrapped_count(count, 1);
        }
        if block_has_allowed(mask, base, n_vectors, skips) {
            let scored: Vec<Vec<u16>> = score_block(blocked, lut.as_slice(), b, n_byte_groups, n_vectors);
            append_block(
                &mut rows,
                &scored,
                base,
                end,
                Ghost(blocked@),
                Ghost(lut@),
                Ghost(b as int),
                Ghost(n_byte_groups as int),
                Ghost(n_vectors as int),
                Ghost(mask),
            );
        } else {
            append_closed(
                &mut rows,
                base,
                end,
                Ghost(blocked@),
                Ghost(lut@),
                Ghost(b as int),
                Ghost(n_byte_groups as int),
                Ghost(n_vectors as int),
                Ghost(mask),
            );
        }
        b += 1;
    }
    rows
}

/// Scores all slots for a batch of queries together, block by block, so that
/// every block is tested against the mask once for all of them.
fn score_queries_together(
    blocked: &[u8],
    luts: &Vec<Vec<u8>>,
    n_byte_groups: usize,
    n_vectors: usize,
    mask: Option<&[u64]>,
    skips: &mut BlockSkips,
) -> (rows: Vec<Vec<Vec<u16>>>)
    requires
        tables_fit(luts@, n_byte_groups as int),
        holds_blocks(blocked@, n_vectors as int, n_byte_groups as int),
        covers(mask, n_vectors as int),
    ensures
        queries_at(rows@, blocked@, luts@, n_byte_groups as int, n_vectors as int, mask, n_vectors as int),
        final(skips)@ == (old(skips)@ + skipped_blocks(mask, n_vectors as int)) % 0x1_0000_0000_0000_0000,
{
    let n: usize = n_blocks(n_vectors);
    let nq: usize = luts.len();
    let ghost groups = n_byte_groups as int;
    let mut rows: Vec<Vec<Vec<u16>>> = Vec::new();
    while rows.len() < nq
        invariant
            rows@.len() <= nq,
            nq == luts@.len(),
            groups == n_byte_groups,
            forall|q: int|
                0 <= q < rows@.len() ==> rows_at(
                    (#[trigger] rows@[q])@,
                    blocked@,
                    luts@[q]@,
                    groups,
                    n_vectors as int,
                    mask,
                    0,
                ),
        decreases nq - rows@.len(),
    {
        let empty: Vec<Vec<u16>> = empty_rows(n_byte_groups);
        assert(rows_at(empty@, blocked@, luts@[rows@.len() as int]@, groups, n_vectors as int, mask, 0));
        rows.push(empty);
    }
    let mut b: usize = 0;
    let mut end: usize = 0;
    while b < n
        invariant
            b <= n,
            n == blocks_for(n_vectors as int),
            nq == luts@.len(),
            groups == n_byte_groups,
            end == if b == n {
                n_vectors as int
            } else {
                b * 32
            },
            tables_fit(luts@, groups),
            holds_blocks(blocked@, n_vectors as int, groups),
            covers(mask, n_vectors as int),
            queries_at(rows@, blocked@, luts@, groups, n_vectors as int, mask, end as int),
            skips@ == (old(skips)@ + closed_blocks(mask, n_vectors as int, b as int)) % 0x1_0000_0000_0000_0000,
        decreases n - b,
    {
        let base: usize = end;
        end = if n_vectors - base < BLOCK {
            n_vectors
        } else {
            base + BLOCK
        };
        proof {
            let count = old(skips)@ + closed_blocks(mask, n_vectors as int, b as int);
            lemma_wrapped_count(count, 0);
            lemma_wrapped_count(count, 1);
        }
        let open: bool = block_has_allowed(mask, base, n_vectors, skips);
        let scored: Vec<Vec<Vec<u16>>> = if open {
            score_query_batch_block(blocked, luts, b, n_byte_groups, n_vectors)
        } else {
            Vec::new()
        };
        let mut q: usize = 0;
        while q < nq
            invariant
                q <= nq,
                nq == luts@.len(),
                rows@.len() == nq,
                base == b * 32,
                base <= end <= base + 32,
                end <= n_vectors,
                open == block_open(mask, n_vectors as int, b as int),
                open ==> scored@.len() == nq,
                open ==> forall|p: int|
                    0 <= p < nq ==> block_scored((#[trigger] scored@[p])@, blocked@, luts@[p]@, b as int, groups),
                forall|p: int|
                    0 <= p < q ==> rows_at(
                        (#[trigger] rows@[p])@,
                        blocked@,
                        luts@[p]@,
                        groups,
                        n_vectors as int,
                        mask,
                        end as int,
                    ),
                forall|p: int|
                    q <= p < nq ==> rows_at(
                        (#[trigger] rows@[p])@,
                        blocked@,
                        luts@[p]@,
                        groups,
                        n_vectors as int,
                        mask,
                        base as int,
                    ),
            decreases nq - q,
        {
            assert(rows_at(rows@[q as int]@, blocked@, luts@[q as int]@, groups, n_vectors as int, mask, base as int));
            if open {
                append_block(
                    &mut rows[q],
                    &scored[q],
                    base,
                    end,
                    Ghost(blocked@),
                    Ghost(luts@[q as int]@),
                    Ghost(b as int),
                    Ghost(groups),
                    Ghost(n_vectors as int),
                    Ghost(mask),
                );
            } else {
                append_closed(
                    &mut rows[q],
                    base,
                    end,
                    Ghost(blocked@),
                    Ghost(luts@[q as int]@),
                    Ghost(b as int),
                    Ghost(groups),
                    Ghost(n_vectors as int),
                    Ghost(mask),
                );
            }
            q += 1;
        }
        b += 1;
    }
    rows
}

/// True iff `rows` hold the sums of the slots `0..done` for every query.
pub open spec fn queries_at(
    rows: Seq<Vec<Vec<u16>>>,
    blocked: Seq<u8>,
    luts: Seq<Vec<u8>>,
    groups: int,
    n: int,
    mask: Option<&[u64]>,
    done: int,
) -> bool {
    &&& rows.len() == luts.len()
    &&& forall|q: int|
        0 <= q < rows.len() ==> rows_at((#[trigger] rows[q])@, blocked, luts[q]@, groups, n, mask, done)
}

/// How often a batch of queries tests the blocks against the mask: a full batch
/// once, a smaller one once per query.
pub open spec fn mask_passes(nq: int) -> int {
    if nq == QUERY_BATCH {
        1
    } else {
        nq
    }
}

/// Scores all slots for a batch of queries: a full batch together, the queries
/// of a smaller one by one.
pub fn score_queries(
    blocked: &[u8],
    luts: &Vec<Vec<u8>>,
    n_byte_groups: usize,
    n_vectors: usize,
    mask: Option<&[u64]>,
    skips: &mut BlockSkips,
) -> (rows: Vec<Vec<Vec<u16>>>)
    requires
        tables_fit(luts@, n_byte_groups as int),
        holds_blocks(blocked@, n_vectors as int, n_byte_groups as int),
        covers(mask, n_vectors as int),
    ensures
        queries_at(rows@, blocked@, luts@, n_byte_groups as int, n_vectors as int, mask, n_vectors as int),
        final(skips)@ == (old(skips)@ + mask_passes(luts@.len() as int) * skipped_blocks(mask, n_vectors as int))
            % 0x1_0000_0000_0000_0000,
{
    if luts.len() == QUERY_BATCH {
        return score_queries_together(blocked, luts, n_byte_groups, n_vectors, mask, skips);
    }
    let ghost closed = skipped_blocks(mask, n_vectors as int);
    let mut rows: Vec<Vec<Vec<u16>>> = Vec::new();
    let mut q: usize = 0;
    while q < luts.len()
        invariant
            q <= luts@.len(),
            rows@.len() == q,
            tables_fit(luts@, n_byte_groups as int),
            holds_blocks(blocked@, n_vectors as int, n_byte_groups as int),
            covers(mask, n_vectors as int),
            closed == skipped_blocks(mask, n_vectors as int),
            forall|p: int|
                0 <= p < q ==> rows_at(
                    (#[trigger] rows@[p])@,
                    blocked@,
                    luts@[p]@,
                    n_byte_groups as int,
                    n_vectors as int,
                    mask,
                    n_vectors as int,
                ),
            skips@ == (old(skips)@ + q * closed) % 0x1_0000_0000_0000_0000,
        decreases luts@.len() - q,
    {
        assert(luts@[q as int]@.len() == n_byte_groups * 32);
        let row: Vec<Vec<u16>> = score_query(blocked, &luts[q], n_byte_groups, n_vectors, mask, skips);
        rows.push(row);
        proof {
            lemma_wrapped_count(old(skips)@ + q * closed, closed);
            assert((q + 1) * closed == q * closed + closed) by (nonlinear_arith);
        }
        q += 1;
    }
    rows
}

/// The lookups of a lane of a block, the high nibble of a byte before the low
/// one.
pub open spec fn lane_lookups(blocked: Seq<u8>, lut: Seq<u8>, block: int, groups: int, lane: int) -> Seq<u8> {
    Seq::new(
        (2 * groups) as nat,
        |i: int|
            {
                let byte = lane_codes(blocked, block, groups, lane)[i / 2];
                if i % 2 == 0 {
                    lut[i / 2 * 32 + byte as int / 16]
                } else {
                    lut[i / 2 * 32 + 16 + byte as int % 16]
                }
            },
    )
}

/// The lookups of every allowed slot for one query; none for the other slots.
/// They are meant to be added up one by one in floating point.
///
/// Blocks that the mask leaves no slot of are skipped and counted.
pub fn look_up_slots(
    blocked: &[u8],
    lut: &Vec<u8>,
    n_byte_groups: usize,
    n_vectors: usize,
    mask: Option<&[u64]>,
    skips: &mut BlockSkips,
) -> (slots: Vec<Vec<u8>>)
    requires
        lut@.len() == n_byte_groups * 32,
        holds_blocks(blocked@, n_vectors as int, n_byte_groups as int),
        covers(mask, n_vectors as int),
    ensures
        slots@.len() == n_vectors,
        forall|slot: int|
            0 <= slot < n_vectors ==> (#[trigger] slots@[slot])@ == if allows(mask, slot) {
                lane_lookups(blocked@, lut@, slot / 32, n_byte_groups as int, slot % 32)
            } else {
                Seq::empty()
            },
        final(skips)@ == (old(skips)@ + skipped_blocks(mask, n_vectors as int)) % 0x1_0000_0000_0000_0000,
{
    let len: usize = blocked.len();
    let n: usize = n_blocks(n_vectors);
    let mut slots: Vec<Vec<u8>> = Vec::new();
    let mut b: usize = 0;
    while b < n
        invariant
            b <= n,
            n == blocks_for(n_vectors as int),
            len == blocked@.len(),
            lut@.len() == n_byte_groups * 32,
            holds_blocks(blocked@, n_vectors as int, n_byte_groups as int),
            covers(mask, n_vectors as int),
            slots@.len() == if b == n {
                n_vectors as int
            } else {
                b * 32
            },
            forall|slot: int|
                0 <= slot < slots@.len() ==> (#[trigger] slots@[slot])@ == if allows(mask, slot) {
                    lane_lookups(blocked@, lut@, slot / 32, n_byte_groups as int, slot % 32)
                } else {
                    Seq::empty()
                },
            skips@ == (old(skips)@ + closed_blocks(mask, n_vectors as int, b as int)) % 0x1_0000_0000_0000_0000,
        decreases n - b,
    {
        let base: usize = b * BLOCK;
        proof {
            let count = old(skips)@ + closed_blocks(mask, n_vectors as int, b as int);
            lemma_wrapped_count(count, 0);
            lemma_wrapped_count(count, 1);
        }
        let open: bool = block_has_allowed(mask, base, n_vectors, skips);
        let mut lane: usize = 0;
        while lane < BLOCK && lane < n_vectors - base
            invariant
                lane <= 32,
                lane <= n_vectors - base,
                base == b * 32,
                base < n_vectors,
                b < blocks_for(n_vectors as int),
                len == blocked@.len(),
                lut@.len() == n_byte_groups * 32,
                holds_blocks(blocked@, n_vectors as int, n_byte_groups as int),
                covers(mask, n_vectors as int),
                open == block_open(mask, n_vectors as int, b as int),
                slots@.len() == base + lane,
                forall|slot: int|
                    0 <= slot < slots@.len() ==> (#[trigger] slots@[slot])@ == if allows(mask, slot) {
                        lane_lookups(blocked@, lut@, slot / 32, n_byte_groups as int, slot % 32)
                    } else {
                        Seq::empty()
                    },
            decreases 32 - lane,
        {
            let slot: usize = base + lane;
            proof {
                lemma_slot_block(b as int, lane as int);
            }
            if open && slot_allowed(mask, slot) {
                let found: Vec<u8> = look_up_lane(blocked, lut, b, n_byte_groups, lane, n_vectors);
                slots.push(found);
            } else {
                assert(!open ==> !allows(mask, slot as int));
                let none: Vec<u8> = Vec::new();
                slots.push(none);
            }
            lane += 1;
        }
        b += 1;
    }
    slots
}

/// The lookups of a lane of a block.
fn look_up_lane(
    blocked: &[u8],
    lut: &Vec<u8>,
    block: usize,
    n_byte_groups: usize,
    lane: usize,
    n_vectors: usize,
) -> (found: Vec<u8>)
    requires
        lut@.len() == n_byte_groups * 32,
        holds_blocks(blocked@, n_vectors as int, n_byte_groups as int),
        block < blocks_for(n_vectors as int),
        lane < 32,
    ensures
        found@ == lane_lookups(blocked@, lut@, block as int, n_byte_groups as int, lane as int),
{
    let len: usize = blocked.len();
    let m: usize = lut.len();
    let ghost want = lane_lookups(blocked@, lut@, block as int, n_byte_groups as int, lane as int);
    let mut found: Vec<u8> = Vec::new();
    let mut g: usize = 0;
    while g < n_byte_groups
        invariant
            g <= n_byte_groups,
            len == blocked@.len(),
            m == lut@.len(),
            m == n_byte_groups * 32,
            holds_blocks(blocked@, n_vectors as int, n_byte_groups as int),
            block < blocks_for(n_vectors as int),
            lane < 32,
            want == lane_lookups(blocked@, lut@, block as int, n_byte_groups as int, lane as int),
            found@ == want.take(2 * g),
        decreases n_byte_groups - g,
    {
        proof {
            lemma_row_fits(blocked@, n_vectors as int, n_byte_groups as int, block as int, g as int);
        }
        let byte: u8 = blocked[(block * n_byte_groups + g) * BLOCK + lane];
        assert(byte >> 4u8 == byte / 16 && byte & 0x0F == byte % 16) by (bit_vector);
        found.push(lut[g * 32 + (byte >> 4u8) as usize]);
        found.push(lut[g * 32 + 16 + (byte & 0x0F) as usize]);
        proof {
            assert((2 * g) / 2 == g && (2 * g + 1) / 2 == g && (2 * g) % 2 == 0 && (2 * g + 1) % 2 == 1);
            assert(want.take(2 * (g + 1)) == want.take(2 * g).push(want[2 * g]).push(want[2 * g + 1]));
        }
        g += 1;
    }
    assert(want.take(2 * n_byte_groups) == want);
    found
}

/// Skipping blocks never changes the sum of an allowed slot: it is the sum that
/// scoring without a mask gives.
pub proof fn law_skipping_keeps_allowed_sums(
    blocked: Seq<u8>,
    lut: Seq<u8>,
    groups: int,
    n: int,
    mask: Option<&[u64]>,
    batch: int,
    slot: int,
)
    requires
        0 <= slot < n,
        allows(mask, slot),
    ensures
        slot_sums(blocked, lut, groups, n, mask, batch)[slot] == slot_sums(blocked, lut, groups, n, None, batch)[slot],
{
    assert(block_open(mask, n, slot / 32));
    assert(allows(None, slot));
    assert(block_open(None, n, slot / 32));
}

/// The sums of a slot, batch by batch.
pub open spec fn batches_of(blocked: Seq<u8>, lut: Seq<u8>, groups: int, n: int, mask: Option<&[u64]>, slot: int) -> Seq<
    u16,
> {
    Seq::new(
        batches_for(groups) as nat,
        |batch: int| slot_sums(blocked, lut, groups, n, mask, batch)[slot],
    )
}

/// Skipping blocks never changes what is found: whatever scores are made of the
/// sums, the best allowed slots are those that scoring every block gives.
pub proof fn law_skipping_keeps_results(
    blocked: Seq<u8>,
    luts: Seq<Vec<u8>>,
    groups: int,
    n: int,
    mask: Option<&[u64]>,
    decode: spec_fn(int, int, Seq<u16>) -> u32,
    skipped: Seq<Vec<u32>>,
    full: Seq<Vec<u32>>,
    k: nat,
)
    requires
        n >= 0,
        skipped.len() == luts.len(),
        full.len() == luts.len(),
        forall|q: int|
            0 <= q < luts.len() ==> (#[trigger] skipped[q])@ == Seq::new(
                n as nat,
                |slot: int| decode(q, slot, batches_of(blocked, luts[q]@, groups, n, mask, slot)),
            ),
        forall|q: int|
            0 <= q < luts.len() ==> (#[trigger] full[q])@ == Seq::new(
                n as nat,
                |slot: int| decode(q, slot, batches_of(blocked, luts[q]@, groups, n, None, slot)),
            ),
    ensures
        result_hits(skipped, allowed_slots(mask, n as nat), k) == result_hits(full, allowed_slots(mask, n as nat), k),
{
    let allowed = allowed_slots(mask, n as nat);
    assert forall|q: int| 0 <= q < skipped.len() implies (#[trigger] skipped[q])@.len() == full[q]@.len() by {
        assert(full[q]@.len() == n);
    }
    assert forall|q: int, slot: int|
        0 <= q < skipped.len() && 0 <= slot < skipped[q]@.len() && allowed[slot] implies #[trigger] skipped[q]@[slot]
        == full[q]@[slot] by {
        let a = batches_of(blocked, luts[q]@, groups, n, mask, slot);
        let b = batches_of(blocked, luts[q]@, groups, n, None, slot);
        assert(skipped[q]@.len() == n && full[q]@.len() == n);
        assert forall|batch: int| 0 <= batch < a.len() implies a[batch] == b[batch] by {
            law_skipping_keeps_allowed_sums(blocked, luts[q]@, groups, n, mask, batch, slot);
        }
        assert(a =~= b);
    }
    law_only_allowed_scores_matter(skipped, full, allowed, k);
}

/// Bits past the last slot change no sum: masks that agree on every slot give the
/// same sums.
pub proof fn law_same_slots_same_sums(
    blocked: Seq<u8>,
    lut: Seq<u8>,
    groups: int,
    n: int,
    a: &[u64],
    b: &[u64],
    batch: int,
)
    requires
        n >= 0,
        same_below(a, b, n),
    ensures
        slot_sums(blocked, lut, groups, n, Some(a), batch) == slot_sums(blocked, lut, groups, n, Some(b), batch),
{
    law_same_slots_same_blocks(a, b, n, blocks_for(n));
    assert(slot_sums(blocked, lut, groups, n, Some(a), batch) =~= slot_sums(blocked, lut, groups, n, Some(b), batch));
}


/// Where the codes of a slot are: the vectors lie in blocks of 32 with 32 bytes
/// for each group, one for each vector in order.
pub proof fn law_codes_of_slot(blocked: Seq<u8>, slot: int, groups: int, g: int)
    requires
        0 <= slot,
        0 <= g < groups,
    ensures
        lane_codes(blocked, slot / 32, groups, slot % 32).len() == groups,
        lane_codes(blocked, slot / 32, groups, slot % 32)[g] == blocked[32 * (groups * (slot / 32) + g) + slot % 32],
{
    assert(slot / 32 * groups == groups * (slot / 32)) by (nonlinear_arith);
}

/// The batches take up the groups in order, 256 in each but the last, which takes
/// what is left.
pub proof fn law_batches_take_all_groups(groups: int, batch: int)
    requires
        0 <= groups,
    ensures
        256 * batches_for(groups) - 256 < groups <= 256 * batches_for(groups),
        0 <= batch < batches_for(groups) - 1 ==> batch_end(groups, batch) == 256 * batch + 256,
        0 <= batch == batches_for(groups) - 1 ==> batch_end(groups, batch) == groups,
{
}

/// Every slot is scored by its own codes, however many vectors there are: in a
/// block of which one slot may be returned, the sum of each slot in a batch is
/// that of the lookups of its codes in the groups of the batch, the two of a group
/// in 8 bits and all of them in 16. Without a mask that is so of every slot.
pub proof fn law_every_slot_is_scored(
    blocked: Seq<u8>,
    lut: Seq<u8>,
    groups: int,
    n: int,
    mask: Option<&[u64]>,
    batch: int,
    slot: int,
    near: int,
)
    requires
        0 <= groups,
        0 <= batch,
        256 * batch < groups,
        0 <= slot < n,
        0 <= near < n,
        near / 32 == slot / 32,
        allows(mask, near),
    ensures
        slot_sums(blocked, lut, groups, n, mask, batch).len() == n,
        slot_sums(blocked, lut, groups, n, mask, batch)[slot] == Seq::new(
            if groups < 256 * batch + 256 {
                groups - 256 * batch
            } else {
                256
            } as nat,
            |i: int|
                {
                    let g = 256 * batch + i;
                    let code = blocked[32 * (groups * (slot / 32) + g) + slot % 32] as int;
                    (lut[32 * g + code / 16] + lut[32 * g + 16 + code % 16]) % 256
                },
        ).fold_left(0int, |sum: int, v: int| sum + v) % 65536,
{
    law_open_block_has_slot(mask, n, slot / 32);
    let codes = lane_codes(blocked, slot / 32, groups, slot % 32);
    let lo = 256 * batch;
    let hi = batch_end(groups, batch);
    let terms = Seq::new(
        (hi - lo) as nat,
        |i: int|
            (lut[32 * (lo + i) + codes[lo + i] as int / 16] + lut[32 * (lo + i) + 16 + codes[lo + i] as int % 16]) % 256,
    );
    let want = Seq::new(
        if groups < 256 * batch + 256 {
            groups - 256 * batch
        } else {
            256
        } as nat,
        |i: int|
            {
                let g = 256 * batch + i;
                let code = blocked[32 * (groups * (slot / 32) + g) + slot % 32] as int;
                (lut[32 * g + code / 16] + lut[32 * g + 16 + code % 16]) % 256
            },
    );
    law_byte_lookup_sum_adds_up(lut, codes, lo, hi);
    law_low16_is_remainder(byte_lookup_sum(lut, codes, lo, hi));
    assert forall|i: int| 0 <= i < hi - lo implies terms[i] == want[i] by {
        law_codes_of_slot(blocked, slot, groups, lo + i);
    }
    assert(terms =~= want);
}

/// In a block none of whose vectors may be returned every sum is zero.
pub proof fn law_skipped_sums_are_zero(
    blocked: Seq<u8>,
    lut: Seq<u8>,
    groups: int,
    n: int,
    mask: Option<&[u64]>,
    batch: int,
    slot: int,
)
    requires
        0 <= slot < n,
        forall|near: int| 0 <= near < n && near / 32 == slot / 32 ==> !#[trigger] allows(mask, near),
    ensures
        slot_sums(blocked, lut, groups, n, mask, batch)[slot] == 0,
{
    law_open_block_has_slot(mask, n, slot / 32);
}

/// Scoring a query gives a row for each batch, with the sum of every slot.
pub proof fn law_rows_hold_all_slots(
    rows: Seq<Vec<u16>>,
    blocked: Seq<u8>,
    lut: Seq<u8>,
    groups: int,
    n: int,
    mask: Option<&[u64]>,
    batch: int,
    slot: int,
)
    requires
        rows_at(rows, blocked, lut, groups, n, mask, n),
        0 <= groups,
        0 <= n,
    ensures
        256 * rows.len() - 256 < groups <= 256 * rows.len(),
        0 <= batch < rows.len() ==> rows[batch]@.len() == n,
        0 <= batch < rows.len() && 0 <= slot < n ==> rows[batch]@[slot] == slot_sums(
            blocked,
            lut,
            groups,
            n,
            mask,
            batch,
        )[slot],
{
}

/// Scoring several queries gives for each of them what scoring it alone gives.
pub proof fn law_queries_are_scored_alike(
    rows: Seq<Vec<Vec<u16>>>,
    blocked: Seq<u8>,
    luts: Seq<Vec<u8>>,
    groups: int,
    n: int,
    mask: Option<&[u64]>,
    q: int,
    alone: Seq<Vec<u16>>,
)
    requires
        queries_at(rows, blocked, luts, groups, n, mask, n),
    ensures
        rows.len() == luts.len(),
        0 <= q < luts.len() ==> rows_at(rows[q]@, blocked, luts[q]@, groups, n, mask, n),
        0 <= q < luts.len() && rows_at(alone, blocked, luts[q]@, groups, n, mask, n) ==> {
            &&& rows[q]@.len() == alone.len()
            &&& forall|batch: int| 0 <= batch < alone.len() ==> (#[trigger] rows[q]@[batch])@ == alone[batch]@
        },
{
    if 0 <= q < luts.len() && rows_at(alone, blocked, luts[q]@, groups, n, mask, n) {
        assert(rows_at(rows[q]@, blocked, luts[q]@, groups, n, mask, n));
        assert forall|batch: int| 0 <= batch < alone.len() implies (#[trigger] rows[q]@[batch])@ == alone[batch]@ by {
            assert(alone[batch]@ == slot_sums(blocked, luts[q]@, groups, n, mask, batch).take(n));
        }
    }
}

/// Scoring a block gives what scoring all blocks gives for its slots.
pub proof fn law_blocks_are_scored_alike(
    out: Seq<Vec<u16>>,
    blocked: Seq<u8>,
    lut: Seq<u8>,
    groups: int,
    n: int,
    batch: int,
    slot: int,
)
    requires
        0 <= groups,
        0 <= slot < n,
        block_scored(out, blocked, lut, slot / 32, groups),
    ensures
        256 * out.len() - 256 < groups <= 256 * out.len(),
        0 <= batch < out.len() ==> out[batch]@.len() == 32,
        0 <= batch < out.len() ==> out[batch]@[slot % 32] == slot_sums(blocked, lut, groups, n, None, batch)[slot],
{
    assert(allows(None, slot));
    law_open_block_has_slot(None, n, slot / 32);
}

/// The lookups of a slot come two for each group, first the one by the high nibble
/// of its code byte and then the one by the low nibble.
pub proof fn law_lookups_come_in_pairs(blocked: Seq<u8>, lut: Seq<u8>, slot: int, groups: int, g: int)
    requires
        0 <= slot,
        0 <= g < groups,
    ensures
        ({
            let found = lane_lookups(blocked, lut, slot / 32, groups, slot % 32);
            let code = blocked[32 * (groups * (slot / 32) + g) + slot % 32] as int;
            &&& found.len() == 2 * groups
            &&& found[2 * g] == lut[32 * g + code / 16]
            &&& found[2 * g + 1] == lut[32 * g + 16 + code % 16]
        }),
{
    law_codes_of_slot(blocked, slot, groups, g);
    assert(2 * g / 2 == g && (2 * g + 1) / 2 == g && (2 * g) % 2 == 0 && (2 * g + 1) % 2 == 1);
}

/// Four queries are scored in one pass over the blocks, any other number of them
/// in a pass each.
pub proof fn law_passes_over_blocks(nq: int)
    ensures
        nq == 4 ==> mask_passes(nq) == 1,
        nq != 4 ==> mask_passes(nq) == nq,
{
}

proof fn lemma_total_folds(sums: Seq<u16>)
    ensures
        total(sums) == Seq::new(sums.len(), |i: int| sums[i] as int).fold_left(0int, |sum: int, v: int| sum + v),
    decreases sums.len(),
{
    if sums.len() > 0 {
        let init = sums.drop_last();
        lemma_total_folds(init);
        assert(Seq::new(sums.len(), |i: int| sums[i] as int).drop_last() =~= Seq::new(
            init.len(),
            |i: int| init[i] as int,
        ));
    }
}

/// The sums of an allowed slot in all batches add up to the sum over all `dim`
/// coordinates of what each contributes with the vector's code for it, where the
/// entries of the tables hold the contributions of their coordinates and are no
/// larger than 127.
pub proof fn law_sums_are_over_all_coordinates(
    rows: Seq<Vec<u16>>,
    blocked: Seq<u8>,
    lut: Seq<u8>,
    w: spec_fn(int, int) -> int,
    dim: int,
    bits: int,
    n: int,
    mask: Option<&[u64]>,
    slot: int,
)
    requires
        2 <= bits <= 4,
        0 <= dim,
        dim % 8 == 0,
        0 <= slot < n,
        allows(mask, slot),
        rows_at(rows, blocked, lut, byte_groups(dim, bits), n, mask, n),
        forall|entry: int|
            0 <= entry < byte_groups(dim, bits) * 32 ==> (#[trigger] lut[entry]) == if bits == 2 {
                w(entry / 16 * 2, entry % 16 / 4) + w(entry / 16 * 2 + 1, entry % 4)
            } else if bits == 3 {
                w(entry / 16, entry % 8)
            } else {
                w(entry / 16, entry % 16)
            },
        forall|entry: int| 0 <= entry < byte_groups(dim, bits) * 32 ==> (#[trigger] lut[entry]) <= 127,
    ensures
        ({
            let codes = lane_codes(blocked, slot / 32, byte_groups(dim, bits), slot % 32);
            Seq::new(rows.len(), |batch: int| rows[batch]@[slot] as int).fold_left(0int, |sum: int, v: int| sum + v)
                == Seq::new(dim as nat, |coord: int| w(coord, code_at(codes, coord, bits))).fold_left(
                0int,
                |sum: int, v: int| sum + v,
            )
        }),
{
    let groups = byte_groups(dim, bits);
    let codes = lane_codes(blocked, slot / 32, groups, slot % 32);
    law_groups_cover_coordinates(dim, bits);
    assert(groups >= 0);
    law_open_block_has_slot(mask, n, slot / 32);
    let sums = lane_sums(blocked, lut, slot / 32, groups, slot % 32);
    assert forall|batch: int| 0 <= batch < rows.len() implies (#[trigger] rows[batch])@[slot] == sums[batch] by {
        assert(rows[batch]@ == slot_sums(blocked, lut, groups, n, mask, batch).take(n));
    }
    assert(Seq::new(rows.len(), |batch: int| rows[batch]@[slot] as int) =~= Seq::new(
        sums.len(),
        |i: int| sums[i] as int,
    ));
    lemma_total_folds(sums);
    law_batches_add_up(blocked, lut, slot / 32, groups, slot % 32);
    law_every_coordinate_counts(lut, w, codes, bits, dim);
}
} // verus!
