//! Slot allowlists packed into 64-bit words.
//!
//! Slot `i` is bit `i % 64` of word `i / 64`. A packed mask covers at least as
//! many slots as the index holds; bits past the last slot are ignored.
use crate::BLOCK;
use vstd::arithmetic::power2::pow2;
use vstd::bits::lemma_u64_shr_is_div;
use vstd::prelude::*;

verus! {

/// Bit `slot` of a packed mask.
pub open spec fn mask_bit(words: Seq<u64>, slot: int) -> bool {
    (words[slot / 64] >> ((slot % 64) as u64)) & 1 != 0
}

/// True iff `slot` may be returned. Without a mask every slot may.
pub open spec fn allows(mask: Option<&[u64]>, slot: int) -> bool {
    match mask {
        None => true,
        Some(words) => mask_bit(words@, slot),
    }
}

/// True iff the mask has a bit for each of the slots `0..n`.
pub open spec fn covers(mask: Option<&[u64]>, n: int) -> bool {
    match mask {
        None => true,
        Some(words) => n <= words@.len() * 64,
    }
}

/// True iff two masks have the same bits for the slots `0..n`.
pub open spec fn same_below(a: &[u64], b: &[u64], n: int) -> bool {
    forall|slot: int| 0 <= slot < n ==> #[trigger] mask_bit(a@, slot) == mask_bit(b@, slot)
}

/// Which of the slots `0..n` may be returned.
pub open spec fn allowed_slots(mask: Option<&[u64]>, n: nat) -> Seq<bool> {
    Seq::new(n, |slot: int| allows(mask, slot))
}

/// True iff one of the slots `lo..hi` may be returned.
pub open spec fn any_allowed(mask: Option<&[u64]>, lo: int, hi: int) -> bool {
    exists|slot: int| lo <= slot < hi && #[trigger] allows(mask, slot)
}

/// Number of slots below `n` whose bit is set.
pub open spec fn set_below(words: Seq<u64>, n: nat) -> nat
    decreases n,
{
    if n == 0 {
        0
    } else {
        set_below(words, (n - 1) as nat) + if mask_bit(words, n - 1) {
            1nat
        } else {
            0nat
        }
    }
}

/// Number of `true` entries of a sequence.
pub open spec fn count_true(s: Seq<bool>) -> nat
    decreases s.len(),
{
    if s.len() == 0 {
        0
    } else {
        count_true(s.drop_last()) + if s.last() {
            1nat
        } else {
            0nat
        }
    }
}

/// Setting bit `s` of a word changes that bit and no other.
proof fn lemma_set_bit(w: u64, s: u64, j: u64)
    requires
        s < 64,
        j < 64,
    ensures
        ((w | (1u64 << s)) >> j) & 1 == if j == s {
            1u64
        } else {
            (w >> j) & 1
        },
{
    assert(((w | (1u64 << s)) >> j) & 1 == if j == s {
        1u64
    } else {
        (w >> j) & 1
    }) by (bit_vector)
        requires
            s < 64,
            j < 64,
    ;
}

/// A zero word has no bit set.
proof fn lemma_zero_word(j: u64)
    requires
        j < 64,
    ensures
        (0u64 >> j) & 1 == 0,
{
    assert((0u64 >> j) & 1 == 0) by (bit_vector)
        requires
            j < 64,
    ;
}

/// A word whose bits `o..o + n` are all clear has zero as its `n`-bit window
/// at `o`.
proof fn lemma_clear_window(w: u64, o: u64, n: u64)
    requires
        o + n <= 64,
        n <= 64,
        forall|j: u64| o <= j < o + n ==> (#[trigger] (w >> j)) & 1 == 0,
    ensures
        n < 64 ==> (w >> o) & (((1u64 << n) - 1) as u64) == 0,
        n == 64 ==> w == 0,
    decreases n,
{
    if n == 0 {
        assert((w >> o) & (((1u64 << 0u64) - 1) as u64) == 0) by (bit_vector);
    } else {
        let m = (n - 1) as u64;
        lemma_clear_window(w, o, m);
        let top = (o + m) as u64;
        assert((w >> top) & 1 == 0);
        if n < 64 {
            assert((w >> o) & (((1u64 << n) - 1) as u64) == 0) by (bit_vector)
                requires
                    n == m + 1,
                    n < 64,
                    o + n <= 64,
                    top == o + m,
                    (w >> top) & 1 == 0,
                    (w >> o) & (((1u64 << m) - 1) as u64) == 0,
            ;
        } else {
            assert(w == 0) by (bit_vector)
                requires
                    m == 63,
                    o == 0,
                    top == 63,
                    (w >> top) & 1 == 0,
                    (w >> o) & (((1u64 << m) - 1) as u64) == 0,
            ;
        }
    }
}

/// Packs one flag per slot into words; bits past the last flag are clear.
pub fn pack_mask(flags: &[bool]) -> (words: Vec<u64>)
    ensures
        words@.len() == (flags@.len() + 63) / 64,
        forall|slot: int| 0 <= slot < flags@.len() ==> #[trigger] mask_bit(words@, slot) == flags@[slot],
        forall|slot: int| flags@.len() <= slot < words@.len() * 64 ==> !#[trigger] mask_bit(words@, slot),
{
    let n: usize = flags.len();
    let n_words: usize = n / 64 + if n % 64 != 0 {
        1
    } else {
        0
    };
    let mut words: Vec<u64> = vec![0u64; n_words];
    assert forall|slot: int| 0 <= slot < n_words * 64 implies !#[trigger] mask_bit(words@, slot) by {
        lemma_zero_word((slot % 64) as u64);
    }
    let mut i: usize = 0;
    while i < n
        invariant
            i <= n,
            n == flags@.len(),
            words@.len() == n_words,
            n_words == (n + 63) / 64,
            forall|slot: int| 0 <= slot < i ==> #[trigger] mask_bit(words@, slot) == flags@[slot],
            forall|slot: int| i <= slot < n_words * 64 ==> !#[trigger] mask_bit(words@, slot),
        decreases n - i,
    {
        if flags[i] {
            let w: usize = i / 64;
            let b: u64 = (i % 64) as u64;
            let ghost before = words@;
            words[w] = words[w] | (1u64 << b);
            assert forall|slot: int| 0 <= slot < n_words * 64 implies #[trigger] mask_bit(words@, slot)
                == (slot == i || mask_bit(before, slot)) by {
                if slot / 64 == w {
                    lemma_set_bit(before[w as int], b, (slot % 64) as u64);
                }
            }
        }
        i += 1;
    }
    words
}

/// Number of flags that are set.
pub fn count_flags(flags: &[bool]) -> (count: usize)
    ensures
        count == count_true(flags@),
{
    let mut count: usize = 0;
    let mut i: usize = 0;
    assert(flags@.take(0).len() == 0);
    while i < flags.len()
        invariant
            i <= flags@.len(),
            count <= i,
            count == count_true(flags@.take(i as int)),
        decreases flags@.len() - i,
    {
        proof {
            assert(flags@.take(i + 1).drop_last() == flags@.take(i as int));
            assert(flags@.take(i + 1).last() == flags@[i as int]);
        }
        if flags[i] {
            count += 1;
        }
        i += 1;
    }
    assert(flags@.take(i as int) == flags@);
    count
}

/// Number of the slots `0..n` whose bit is set.
pub fn count_allowed(words: &[u64], n: usize) -> (count: usize)
    requires
        n <= words@.len() * 64,
    ensures
        count == set_below(words@, n as nat),
{
    let mut count: usize = 0;
    let mut slot: usize = 0;
    while slot < n
        invariant
            slot <= n <= words@.len() * 64,
            count <= slot,
            count == set_below(words@, slot as nat),
        decreases n - slot,
    {
        if mask_allows(words, slot) {
            count += 1;
        }
        slot += 1;
    }
    count
}

/// Whether `slot` may be returned under a packed mask.
pub fn mask_allows(words: &[u64], slot: usize) -> (b: bool)
    requires
        slot < words@.len() * 64,
    ensures
        b == mask_bit(words@, slot as int),
{
    (words[slot / 64] >> ((slot % 64) as u64)) & 1 != 0
}

/// Whether `slot` may be returned under an optional packed mask.
pub fn slot_allowed(mask: Option<&[u64]>, slot: usize) -> (b: bool)
    requires
        covers(mask, slot + 1),
    ensures
        b == allows(mask, slot as int),
{
    match mask {
        None => true,
        Some(words) => mask_allows(words, slot),
    }
}

/// Slots that follow each other within a word are neighbouring bits.
proof fn lemma_word_slots(base: int, slot: int)
    requires
        0 <= base <= slot,
        base % 64 + (slot - base) < 64,
    ensures
        slot / 64 == base / 64,
        slot % 64 == base % 64 + (slot - base),
{
}

/// Whether the bit of one of `len` slots from `base` on, all of them in the same
/// word, is set.
fn window_allowed(words: &[u64], base: usize, len: usize) -> (b: bool)
    requires
        0 < len,
        base % 64 + len <= 64,
        base + len <= words@.len() * 64,
    ensures
        b == any_allowed(Some(words), base as int, base + len),
{
    let word: u64 = words[base / 64];
    let o: u64 = (base % 64) as u64;
    let n: u64 = len as u64;
    assert(n < 64 ==> 1u64 << n >= 1) by (bit_vector);
    let b: bool = if n < 64 {
        (word >> o) & ((1u64 << n) - 1) != 0
    } else {
        word != 0
    };
    proof {
        assert forall|slot: int| base <= slot < base + len implies #[trigger] allows(Some(words), slot) == ((word
            >> (o + (slot - base)) as u64) & 1 != 0) by {
            lemma_word_slots(base as int, slot);
        }
        if any_allowed(Some(words), base as int, base + len) {
            let slot = choose|slot: int| base <= slot < base + len && #[trigger] allows(Some(words), slot);
            let j = (o + (slot - base)) as u64;
            if n < 64 {
                let ones = ((1u64 << n) - 1) as u64;
                assert((word >> o) & ones != 0) by (bit_vector)
                    requires
                        n < 64,
                        o + n <= 64,
                        o <= j < o + n,
                        ones == (1u64 << n) - 1,
                        (word >> j) & 1 != 0,
                ;
            } else if word == 0 {
                lemma_zero_word(j);
            }
        } else {
            assert forall|j: u64| o <= j < o + n implies (#[trigger] (word >> j)) & 1 == 0 by {
                assert(!allows(Some(words), base + (j - o)));
            }
            lemma_clear_window(word, o, n);
        }
    }
    b
}

/// The end of a range of slots, cut off at the number of slots.
pub open spec fn cut_off(end: int, n: int) -> int {
    if end <= n {
        end
    } else {
        n
    }
}

/// Whether the block of slots that starts at `base_vec` holds one that may be
/// returned. The block is one half of a mask word; of the last block only the
/// slots below `n_vectors` count.
pub fn block_allowed(mask: Option<&[u64]>, base_vec: usize, n_vectors: usize) -> (b: bool)
    requires
        base_vec % BLOCK == 0,
        base_vec < n_vectors,
        covers(mask, n_vectors as int),
    ensures
        b == any_allowed(mask, base_vec as int, cut_off(base_vec + BLOCK, n_vectors as int)),
{
    match mask {
        None => {
            assert(allows(mask, base_vec as int));
            true
        },
        Some(words) => {
            let len: usize = if n_vectors - base_vec < BLOCK {
                n_vectors - base_vec
            } else {
                BLOCK
            };
            assert(base_vec % 64 == 0 || base_vec % 64 == 32);
            window_allowed(words, base_vec, len)
        },
    }
}

/// Whether the pair of blocks that starts at `base_vec_pair` holds a slot that
/// may be returned. The pair is exactly one mask word, of which only the slots
/// below `n_vectors` count.
pub fn block_pair_allowed(mask: Option<&[u64]>, base_vec_pair: usize, n_vectors: usize) -> (b: bool)
    requires
        base_vec_pair % 64 == 0,
        base_vec_pair < n_vectors,
        covers(mask, n_vectors as int),
    ensures
        b == any_allowed(mask, base_vec_pair as int, cut_off(base_vec_pair + 2 * BLOCK, n_vectors as int)),
{
    match mask {
        None => {
            assert(allows(mask, base_vec_pair as int));
            true
        },
        Some(words) => {
            let len: usize = if n_vectors - base_vec_pair < 2 * BLOCK {
                n_vectors - base_vec_pair
            } else {
                2 * BLOCK
            };
            window_allowed(words, base_vec_pair, len)
        },
    }
}

/// Running count of blocks that scoring skipped because the mask left no slot
/// of them. Counts wrap around at `u64::MAX`.
pub struct BlockSkips {
    count: u64,
}

impl BlockSkips {
    /// The number of blocks counted so far.
    pub closed spec fn view(&self) -> u64 {
        self.count
    }

    /// A counter at zero.
    pub fn new() -> (skips: BlockSkips)
        ensures
            skips@ == 0,
    {
        BlockSkips { count: 0 }
    }

    /// Counts `n` more blocks.
    pub fn record(&mut self, n: u64)
        ensures
            final(self)@ == (old(self)@ + n) % 0x1_0000_0000_0000_0000,
    {
        self.count = self.count.wrapping_add(n);
    }
}

/// Current value of the block-skip counter.
pub fn blocks_skipped_by_mask(skips: &BlockSkips) -> (count: u64)
    ensures
        count == skips@,
{
    skips.count
}

/// Sets the block-skip counter back to zero.
pub fn reset_blocks_skipped_by_mask(skips: &mut BlockSkips)
    ensures
        final(skips)@ == 0,
{
    skips.count = 0;
}

/// As [`block_allowed`]; a block that is to be skipped is counted.
pub fn block_has_allowed(mask: Option<&[u64]>, base_vec: usize, n_vectors: usize, skips: &mut BlockSkips) -> (b: bool)
    requires
        base_vec % BLOCK == 0,
        base_vec < n_vectors,
        covers(mask, n_vectors as int),
    ensures
        b == any_allowed(mask, base_vec as int, cut_off(base_vec + BLOCK, n_vectors as int)),
        final(skips)@ == (old(skips)@ + if b {
            0int
        } else {
            1int
        }) % 0x1_0000_0000_0000_0000,
{
    let allowed: bool = block_allowed(mask, base_vec, n_vectors);
    if !allowed {
        skips.record(1);
    }
    allowed
}

/// As [`block_pair_allowed`]; a pair that is to be skipped counts as two blocks.
pub fn block_pair_has_allowed(
    mask: Option<&[u64]>,
    base_vec_pair: usize,
    n_vectors: usize,
    skips: &mut BlockSkips,
) -> (b: bool)
    requires
        base_vec_pair % 64 == 0,
        base_vec_pair < n_vectors,
        covers(mask, n_vectors as int),
    ensures
        b == any_allowed(mask, base_vec_pair as int, cut_off(base_vec_pair + 2 * BLOCK, n_vectors as int)),
        final(skips)@ == (old(skips)@ + if b {
            0int
        } else {
            2int
        }) % 0x1_0000_0000_0000_0000,
{
    let allowed: bool = block_pair_allowed(mask, base_vec_pair, n_vectors);
    if !allowed {
        skips.record(2);
    }
    allowed
}

/// Counting on from a wrapped count.
pub proof fn lemma_wrapped_count(count: int, more: int)
    ensures
        (count % 0x1_0000_0000_0000_0000 + more) % 0x1_0000_0000_0000_0000 == (count + more)
            % 0x1_0000_0000_0000_0000,
{
    vstd::arithmetic::div_mod::lemma_add_mod_noop_right(more, count, 0x1_0000_0000_0000_0000);
}

/// As many bits below `n` are set as there are allowed slots below `n`.
pub proof fn lemma_set_below(words: &[u64], n: nat)
    ensures
        set_below(words@, n) == count_true(allowed_slots(Some(words), n)),
    decreases n,
{
    if n > 0 {
        let m = (n - 1) as nat;
        lemma_set_below(words, m);
        assert(allowed_slots(Some(words), n).drop_last() =~= allowed_slots(Some(words), m));
    }
}

/// A packed mask allows the slots whose flags are set, and as many slots as
/// there are flags set.
pub proof fn law_packing_keeps_flags(words: &[u64], flags: Seq<bool>)
    requires
        words@.len() == (flags.len() + 63) / 64,
        forall|slot: int| 0 <= slot < flags.len() ==> #[trigger] mask_bit(words@, slot) == flags[slot],
        forall|slot: int| flags.len() <= slot < words@.len() * 64 ==> !#[trigger] mask_bit(words@, slot),
    ensures
        allowed_slots(Some(words), flags.len()) == flags,
        set_below(words@, flags.len()) == count_true(flags),
{
    assert(allowed_slots(Some(words), flags.len()) =~= flags);
    lemma_set_below(words, flags.len());
}

/// Flags that are all set count in full.
pub proof fn lemma_count_all(flags: Seq<bool>)
    requires
        forall|i: int| 0 <= i < flags.len() ==> flags[i],
    ensures
        count_true(flags) == flags.len(),
    decreases flags.len(),
{
    if flags.len() > 0 {
        lemma_count_all(flags.drop_last());
    }
}

/// No more flags are set than there are.
pub proof fn lemma_count_bound(flags: Seq<bool>)
    ensures
        count_true(flags) <= flags.len(),
    decreases flags.len(),
{
    if flags.len() > 0 {
        lemma_count_bound(flags.drop_last());
    }
}


/// Slot `64 * w + b` is the bit of word `w` that stands for two to the power `b`.
pub proof fn law_slots_are_bits(words: Seq<u64>, slot: int)
    requires
        0 <= slot < 64 * words.len(),
    ensures
        mask_bit(words, slot) <==> words[slot / 64] as nat / pow2((slot % 64) as nat) % 2 == 1,
{
    let word = words[slot / 64];
    let shift = (slot % 64) as u64;
    lemma_u64_shr_is_div(word, shift);
    let rest = word >> shift;
    assert(rest & 1 == rest % 2) by (bit_vector);
}

/// Without a mask every slot may be returned, with one those whose bits are set.
pub proof fn law_allowed_slots(mask: Option<&[u64]>, n: nat, slot: int)
    requires
        0 <= slot < n,
    ensures
        allowed_slots(mask, n).len() == n,
        allowed_slots(mask, n)[slot] == allows(mask, slot),
        mask is None ==> allows(mask, slot),
        mask is Some && slot < 64 * mask->0@.len() ==> (allows(mask, slot) <==> mask->0@[slot / 64] as nat / pow2(
            (slot % 64) as nat,
        ) % 2 == 1),
{
    if mask is Some && slot < 64 * mask->0@.len() {
        law_slots_are_bits(mask->0@, slot);
    }
}

/// A mask has a bit for each slot iff its words have as many bits as there are
/// slots.
pub proof fn law_masks_that_cover(mask: Option<&[u64]>, n: int)
    ensures
        covers(mask, n) <==> mask is None || 64 * mask->0@.len() >= n,
{
}

/// The number of flags that are set is the number of those left when the others
/// are taken out.
pub proof fn law_count_is_number_set(flags: Seq<bool>)
    ensures
        count_true(flags) == flags.filter(|flag: bool| flag).len(),
    decreases flags.len(),
{
    reveal(Seq::filter);
    if flags.len() > 0 {
        law_count_is_number_set(flags.drop_last());
    }
}

/// The number of bits set below `n` is the number of slots below `n` whose bit is
/// set.
pub proof fn law_set_bits_are_counted(words: Seq<u64>, n: nat)
    ensures
        set_below(words, n) == Seq::new(n, |slot: int| mask_bit(words, slot)).filter(|flag: bool| flag).len(),
    decreases n,
{
    reveal(Seq::filter);
    if n > 0 {
        let m = (n - 1) as nat;
        law_set_bits_are_counted(words, m);
        assert(Seq::new(n, |slot: int| mask_bit(words, slot)).drop_last() =~= Seq::new(
            m,
            |slot: int| mask_bit(words, slot),
        ));
    }
}

/// A run of slots has one that may be returned iff one of the slots of the run
/// that lie below the number of slots may be.
pub proof fn law_runs_of_slots(mask: Option<&[u64]>, base: int, len: int, n: int)
    ensures
        any_allowed(mask, base, cut_off(base + len, n)) <==> exists|slot: int|
            base <= slot < base + len && slot < n && #[trigger] allows(mask, slot),
{
    if exists|slot: int| base <= slot < base + len && slot < n && #[trigger] allows(mask, slot) {
        let slot = choose|slot: int| base <= slot < base + len && slot < n && #[trigger] allows(mask, slot);
        assert(slot < cut_off(base + len, n));
    }
    if any_allowed(mask, base, cut_off(base + len, n)) {
        let slot = choose|slot: int| base <= slot < cut_off(base + len, n) && #[trigger] allows(mask, slot);
        assert(slot < base + len && slot < n);
    }
}
} // verus!
