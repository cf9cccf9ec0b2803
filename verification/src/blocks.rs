//! The blocked code layout: vectors in blocks of 32, and within a block one
//! 32-byte row per byte group.
use crate::mask::{allows, any_allowed, cut_off, law_runs_of_slots, mask_bit, same_below};
use crate::BLOCK;
use vstd::prelude::*;

verus! {

/// Number of blocks that hold `n` vectors.
pub open spec fn blocks_for(n: int) -> int {
    (n + 31) / 32
}

/// Where the row of group `g` of a block starts.
pub open spec fn row_start(block: int, groups: int, g: int) -> int {
    (block * groups + g) * 32
}

/// True iff the mask leaves one of the slots `0..n` that lie in the block.
pub open spec fn block_open(mask: Option<&[u64]>, n: int, block: int) -> bool {
    any_allowed(mask, block * 32, cut_off(block * 32 + 32, n))
}

/// Number of blocks below `n_blocks` that the mask leaves none of the slots `0..n`
/// of.
pub open spec fn closed_blocks(mask: Option<&[u64]>, n: int, n_blocks: int) -> int
    decreases n_blocks,
{
    if n_blocks <= 0 {
        0
    } else {
        closed_blocks(mask, n, n_blocks - 1) + if block_open(mask, n, n_blocks - 1) {
            0int
        } else {
            1int
        }
    }
}

/// Number of blocks of `n` vectors that the mask leaves no slot of.
pub open spec fn skipped_blocks(mask: Option<&[u64]>, n: int) -> int {
    closed_blocks(mask, n, blocks_for(n))
}

/// True iff the codes of `n` vectors fit in, with `groups` rows per block.
pub open spec fn holds_blocks(blocked: Seq<u8>, n: int, groups: int) -> bool {
    blocks_for(n) * groups * 32 <= blocked.len()
}

/// Number of blocks that hold `n_vectors` vectors.
pub fn n_blocks(n_vectors: usize) -> (n: usize)
    ensures
        n == blocks_for(n_vectors as int),
{
    n_vectors / BLOCK + if n_vectors % BLOCK != 0 {
        1
    } else {
        0
    }
}

/// The row of a group of one of the blocks lies within the codes.
pub proof fn lemma_row_fits(blocked: Seq<u8>, n: int, groups: int, block: int, g: int)
    requires
        holds_blocks(blocked, n, groups),
        0 <= block < blocks_for(n),
        0 <= g < groups,
    ensures
        0 <= block * groups + g,
        0 <= row_start(block, groups, g),
        row_start(block, groups, g) + 32 <= blocked.len(),
{
    let b = blocks_for(n);
    assert((block * groups + g) * 32 + 32 <= b * groups * 32) by (nonlinear_arith)
        requires
            0 <= block < b,
            0 <= g < groups,
    ;
    assert(0 <= block * groups + g) by (nonlinear_arith)
        requires
            0 <= block,
            0 <= g < groups,
    ;
}

/// The slots of a block lie in that block.
pub proof fn lemma_slot_block(block: int, lane: int)
    requires
        0 <= block,
        0 <= lane < 32,
    ensures
        (block * 32 + lane) / 32 == block,
        (block * 32 + lane) % 32 == lane,
{
}

/// A block without a slot that may be returned holds no allowed slot.
pub proof fn law_closed_block_holds_nothing(mask: Option<&[u64]>, n: int, slot: int)
    requires
        0 <= slot < n,
        !block_open(mask, n, slot / 32),
    ensures
        !allows(mask, slot),
{
}

/// Without a mask no block is skipped.
pub proof fn law_no_mask_skips_nothing(n: int, n_blocks: int)
    requires
        0 <= n,
        n_blocks <= blocks_for(n),
    ensures
        closed_blocks(None, n, n_blocks) == 0,
    decreases n_blocks,
{
    if n_blocks > 0 {
        law_no_mask_skips_nothing(n, n_blocks - 1);
        assert(allows(None, (n_blocks - 1) * 32));
    }
}

/// A block of a packed mask is open iff the flag of one of its slots is set.
pub proof fn law_open_block_has_flag(words: &[u64], flags: Seq<bool>, block: int)
    requires
        forall|slot: int| 0 <= slot < flags.len() ==> #[trigger] mask_bit(words@, slot) == flags[slot],
        0 <= block < blocks_for(flags.len() as int),
    ensures
        block_open(Some(words), flags.len() as int, block) == exists|slot: int|
            block * 32 <= slot < block * 32 + 32 && slot < flags.len() && #[trigger] flags[slot],
{
    let mask = Some(words);
    let n = flags.len() as int;
    if block_open(mask, n, block) {
        let slot = choose|slot: int|
            block * 32 <= slot < cut_off(block * 32 + 32, n) && #[trigger] allows(mask, slot);
        assert(mask_bit(words@, slot));
        assert(flags[slot]);
    }
    if exists|slot: int| block * 32 <= slot < block * 32 + 32 && slot < flags.len() && #[trigger] flags[slot] {
        let slot = choose|slot: int|
            block * 32 <= slot < block * 32 + 32 && slot < flags.len() && #[trigger] flags[slot];
        assert(mask_bit(words@, slot));
        assert(allows(mask, slot));
    }
}

/// Bits past the last slot skip no block and keep none from being skipped: masks
/// that agree on every slot leave the same blocks.
pub proof fn law_same_slots_same_blocks(a: &[u64], b: &[u64], n: int, n_blocks: int)
    requires
        same_below(a, b, n),
        n_blocks <= blocks_for(n),
    ensures
        forall|block: int|
            0 <= block < n_blocks ==> #[trigger] block_open(Some(a), n, block) == block_open(Some(b), n, block),
        closed_blocks(Some(a), n, n_blocks) == closed_blocks(Some(b), n, n_blocks),
    decreases n_blocks,
{
    if n_blocks > 0 {
        law_same_slots_same_blocks(a, b, n, n_blocks - 1);
        let block = n_blocks - 1;
        let end = cut_off(block * 32 + 32, n);
        assert forall|slot: int| block * 32 <= slot < end implies #[trigger] allows(Some(a), slot) == allows(
            Some(b),
            slot,
        ) by {
            assert(mask_bit(a@, slot) == mask_bit(b@, slot));
        }
        if block_open(Some(a), n, block) {
            let slot = choose|slot: int| block * 32 <= slot < end && #[trigger] allows(Some(a), slot);
            assert(allows(Some(b), slot));
        }
        if block_open(Some(b), n, block) {
            let slot = choose|slot: int| block * 32 <= slot < end && #[trigger] allows(Some(b), slot);
            assert(allows(Some(a), slot));
        }
    }
}


/// The blocks are as few as hold all vectors, 32 in each.
pub proof fn law_blocks_hold_vectors(n: int)
    requires
        0 <= n,
    ensures
        32 * blocks_for(n) - 32 < n <= 32 * blocks_for(n),
{
}

/// The codes of `n` vectors fit in iff there are 32 bytes for each group of each
/// block.
pub proof fn law_room_for_blocks(blocked: Seq<u8>, n: int, groups: int)
    requires
        0 <= n,
        0 <= groups,
    ensures
        holds_blocks(blocked, n, groups) <==> 32 * (groups * blocks_for(n)) <= blocked.len(),
{
    assert(blocks_for(n) * groups == groups * blocks_for(n)) by (nonlinear_arith);
}

/// A block is open iff one of the vectors in it may be returned.
pub proof fn law_open_block_has_slot(mask: Option<&[u64]>, n: int, block: int)
    ensures
        block_open(mask, n, block) <==> exists|slot: int|
            32 * block <= slot < 32 * block + 32 && slot < n && #[trigger] allows(mask, slot),
{
    law_runs_of_slots(mask, 32 * block, 32, n);
}

/// The number of blocks skipped is the number of blocks none of whose vectors may
/// be returned.
pub proof fn law_skipped_blocks_are_counted(mask: Option<&[u64]>, n: int)
    requires
        0 <= n,
    ensures
        skipped_blocks(mask, n) == Seq::new(((n + 31) / 32) as nat, |block: int| block).filter(
            |block: int|
                forall|slot: int| 32 * block <= slot < 32 * block + 32 && slot < n ==> !#[trigger] allows(mask, slot),
        ).len(),
{
    lemma_closed_blocks(mask, n, blocks_for(n));
}

proof fn lemma_closed_blocks(mask: Option<&[u64]>, n: int, n_blocks: int)
    requires
        0 <= n_blocks,
    ensures
        closed_blocks(mask, n, n_blocks) == Seq::new(n_blocks as nat, |block: int| block).filter(
            |block: int|
                forall|slot: int| 32 * block <= slot < 32 * block + 32 && slot < n ==> !#[trigger] allows(mask, slot),
        ).len(),
    decreases n_blocks,
{
    reveal(Seq::filter);
    if n_blocks > 0 {
        lemma_closed_blocks(mask, n, n_blocks - 1);
        assert(Seq::new(n_blocks as nat, |block: int| block).drop_last() =~= Seq::new(
            (n_blocks - 1) as nat,
            |block: int| block,
        ));
        law_open_block_has_slot(mask, n, n_blocks - 1);
    }
}
} // verus!
