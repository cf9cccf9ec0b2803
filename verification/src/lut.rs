//! Nibble lookup tables.
//!
//! The codes of a vector are scored a byte at a time. A byte group holds
//! `8 / bits` codes, half of them in either nibble. For each group a table has
//! 32 entries: the first 16 give the contribution of each value of the high
//! nibble, the other 16 that of each value of the low nibble. Adding up two
//! entries per group scores all coordinates of a vector.
use crate::FLUSH_EVERY;
use vstd::prelude::*;

verus! {

/// Largest table entry that two lookups can add up in a byte.
pub const MAX_ENTRY: u8 = 127;

/// True iff codes of this width are supported.
pub open spec fn valid_bits(bits: int) -> bool {
    2 <= bits <= 4
}

/// Number of codes in a byte.
pub open spec fn codes_per_byte(bits: int) -> int {
    8int / bits
}

/// Number of codes in a nibble.
pub open spec fn codes_per_nibble(bits: int) -> int {
    codes_per_byte(bits) / 2
}

/// Number of byte groups that the codes of a vector take.
pub open spec fn byte_groups(dim: int, bits: int) -> int {
    dim / codes_per_byte(bits)
}

/// The `c`-th code of a nibble. The first code is in its highest bits.
pub open spec fn nibble_code(nibble: int, c: int, bits: int) -> int {
    if bits == 2 {
        if c == 0 {
            nibble / 4
        } else {
            nibble % 4
        }
    } else if bits == 3 {
        nibble % 8
    } else {
        nibble
    }
}

/// The first coordinate that a table entry covers.
pub open spec fn entry_coord(entry: int, bits: int) -> int {
    entry / 32 * codes_per_byte(bits) + if entry % 32 < 16 {
        0
    } else {
        codes_per_nibble(bits)
    }
}

/// The code that the bytes of a vector hold for a coordinate.
pub open spec fn code_at(bytes: Seq<u8>, coord: int, bits: int) -> int {
    let byte = bytes[coord / codes_per_byte(bits)];
    let c = coord % codes_per_byte(bits);
    if c < codes_per_nibble(bits) {
        nibble_code(byte as int / 16, c, bits)
    } else {
        nibble_code(byte as int % 16, c - codes_per_nibble(bits), bits)
    }
}

/// What the two lookups of one byte group add up to.
pub open spec fn pair_lookup(lut: Seq<u8>, g: int, byte: u8) -> int {
    lut[g * 32 + byte as int / 16] + lut[g * 32 + 16 + byte as int % 16]
}

/// What the lookups of the groups `lo..hi` add up to.
pub open spec fn lookup_sum(lut: Seq<u8>, bytes: Seq<u8>, lo: int, hi: int) -> int
    decreases hi - lo,
{
    if hi <= lo {
        0
    } else {
        lookup_sum(lut, bytes, lo, hi - 1) + pair_lookup(lut, hi - 1, bytes[hi - 1])
    }
}

/// What the lookups of the groups `lo..hi` add up to when the two lookups of a
/// group are added in a byte.
pub open spec fn byte_lookup_sum(lut: Seq<u8>, bytes: Seq<u8>, lo: int, hi: int) -> int
    decreases hi - lo,
{
    if hi <= lo {
        0
    } else {
        byte_lookup_sum(lut, bytes, lo, hi - 1) + pair_lookup(lut, hi - 1, bytes[hi - 1]) % 256
    }
}

/// True iff no entry of the first `groups` tables exceeds `most`.
pub open spec fn entries_at_most(lut: Seq<u8>, groups: int, most: int) -> bool {
    forall|i: int| 0 <= i < groups * 32 ==> (#[trigger] lut[i]) <= most
}

/// True iff there is a table of the right size for each query.
pub open spec fn tables_fit(luts: Seq<Vec<u8>>, groups: int) -> bool {
    forall|q: int| 0 <= q < luts.len() ==> (#[trigger] luts[q])@.len() == groups * 32
}

/// Two bits leave room for four codes in a byte, three and four bits for two.
proof fn lemma_code_counts(bits: int)
    requires
        valid_bits(bits),
    ensures
        codes_per_byte(bits) == if bits == 2 {
            4int
        } else {
            2
        },
        codes_per_nibble(bits) == if bits == 2 {
            2int
        } else {
            1
        },
{
    assert(8int / 2 == 4 && 8int / 3 == 2 && 8int / 4 == 2);
    assert(bits == 2 || bits == 3 || bits == 4);
}

/// Number of codes in a byte.
pub fn codes_in_byte(bits: usize) -> (n: usize)
    requires
        valid_bits(bits as int),
    ensures
        n == codes_per_byte(bits as int),
{
    proof {
        lemma_code_counts(bits as int);
    }
    8 / bits
}

/// Number of codes in a nibble.
pub fn codes_in_nibble(bits: usize) -> (n: usize)
    requires
        valid_bits(bits as int),
    ensures
        n == codes_per_nibble(bits as int),
{
    proof {
        lemma_code_counts(bits as int);
    }
    8 / bits / 2
}

/// Number of byte groups that the codes of a vector take.
pub fn n_byte_groups(dim: usize, bits: usize) -> (n: usize)
    requires
        valid_bits(bits as int),
    ensures
        n == byte_groups(dim as int, bits as int),
{
    proof {
        lemma_code_counts(bits as int);
    }
    dim / codes_in_byte(bits)
}

/// The `c`-th code of a nibble.
fn code_in_nibble(nibble: u16, c: usize, bits: usize) -> (code: usize)
    requires
        valid_bits(bits as int),
        nibble < 16,
        c < codes_per_nibble(bits as int),
    ensures
        code == nibble_code(nibble as int, c as int, bits as int),
{
    proof {
        lemma_code_counts(bits as int);
    }
    assert(1u16 << 2usize == 4 && 1u16 << 3usize == 8 && 1u16 << 4usize == 16) by (bit_vector);
    let code_mask: u16 = (1u16 << bits) - 1;
    let after: usize = codes_in_nibble(bits) - 1 - c;
    assert(after * bits == if after == 0 {
        0
    } else {
        bits as int
    }) by (nonlinear_arith)
        requires
            after <= 1,
    ;
    let shift: usize = after * bits;
    assert(nibble < 16 ==> (nibble >> 2usize) & 3 == nibble / 4 && (nibble >> 0usize) & 3 == nibble % 4 && (nibble
        >> 0usize) & 7 == nibble % 8 && (nibble >> 0usize) & 15 == nibble) by (bit_vector);
    let code: u16 = (nibble >> shift) & code_mask;
    code as usize
}

/// The coordinates that a table entry covers, each with the code that the entry
/// stands for.
pub fn lut_terms(entry: usize, bits: usize) -> (terms: Vec<(usize, usize)>)
    requires
        valid_bits(bits as int),
    ensures
        terms@.len() == codes_per_nibble(bits as int),
        forall|c: int|
            0 <= c < terms@.len() ==> (#[trigger] terms@[c]).0 == entry_coord(entry as int, bits as int) + c && terms@[c].1
                == nibble_code(entry as int % 16, c, bits as int),
{
    proof {
        lemma_code_counts(bits as int);
    }
    let n: usize = codes_in_nibble(bits);
    let nibble: u16 = (entry % 16) as u16;
    let per_byte: usize = codes_in_byte(bits);
    let g: usize = entry / 32;
    assert(g * per_byte <= g * 4) by (nonlinear_arith)
        requires
            per_byte <= 4,
    ;
    let first: usize = g * per_byte + if entry % 32 < 16 {
        0
    } else {
        n
    };
    let mut terms: Vec<(usize, usize)> = Vec::new();
    let mut c: usize = 0;
    while c < n
        invariant
            c <= n <= 2,
            n == codes_per_nibble(bits as int),
            valid_bits(bits as int),
            nibble == entry % 16,
            first == entry_coord(entry as int, bits as int),
            first <= g * 4 + 2,
            g == entry / 32,
            terms@.len() == c,
            forall|i: int|
                0 <= i < c ==> (#[trigger] terms@[i]).0 == entry_coord(entry as int, bits as int) + i && terms@[i].1
                    == nibble_code(entry as int % 16, i, bits as int),
        decreases n - c,
    {
        terms.push((first + c, code_in_nibble(nibble, c, bits)));
        c += 1;
    }
    terms
}

/// Largest table entry with which the lookups of all groups add up in 16 bits.
pub open spec fn max_entry(groups: int) -> int {
    if groups > 0 && 65535int / (2 * groups) < MAX_ENTRY {
        65535int / (2 * groups)
    } else {
        MAX_ENTRY as int
    }
}

/// Largest table entry for scoring `n_byte_groups` groups in a single 16-bit
/// sum.
pub fn max_lut(n_byte_groups: usize) -> (most: u8)
    ensures
        most == max_entry(n_byte_groups as int),
{
    if n_byte_groups == 0 {
        MAX_ENTRY
    } else if n_byte_groups > 32767 {
        assert(65535int / (2 * n_byte_groups) == 0) by (nonlinear_arith)
            requires
                n_byte_groups > 32767,
        ;
        0
    } else {
        let most: usize = 65535 / (2 * n_byte_groups);
        if most < MAX_ENTRY as usize {
            most as u8
        } else {
            MAX_ENTRY
        }
    }
}

/// Lookups of entries up to `most` add up to at most `2 * most` per group.
proof fn lemma_lookup_sum_bound(lut: Seq<u8>, bytes: Seq<u8>, groups: int, lo: int, hi: int, most: int)
    requires
        entries_at_most(lut, groups, most),
        0 <= lo <= hi <= groups,
    ensures
        0 <= lookup_sum(lut, bytes, lo, hi) <= (hi - lo) * (2 * most),
    decreases hi - lo,
{
    if lo < hi {
        lemma_lookup_sum_bound(lut, bytes, groups, lo, hi - 1, most);
        let byte = bytes[hi - 1];
        assert(lut[(hi - 1) * 32 + byte as int / 16] <= most);
        assert(lut[(hi - 1) * 32 + 16 + byte as int % 16] <= most);
        assert((hi - lo) * (2 * most) == (hi - 1 - lo) * (2 * most) + 2 * most) by (nonlinear_arith);
    } else {
        assert((hi - lo) * (2 * most) == 0) by (nonlinear_arith)
            requires
                hi == lo,
        ;
    }
}

/// With entries up to [`max_lut`] the 16-bit sum over all groups is the true
/// sum.
pub proof fn law_sums_fit(lut: Seq<u8>, bytes: Seq<u8>, groups: int)
    requires
        groups >= 0,
        entries_at_most(lut, groups, max_entry(groups)),
    ensures
        0 <= lookup_sum(lut, bytes, 0, groups) <= 65535,
        lookup_sum(lut, bytes, 0, groups) % 65536 == lookup_sum(lut, bytes, 0, groups),
{
    let most = max_entry(groups);
    lemma_lookup_sum_bound(lut, bytes, groups, 0, groups, most);
    if groups > 0 {
        assert(groups * (2 * most) <= 65535) by (nonlinear_arith)
            requires
                groups > 0,
                most <= 65535int / (2 * groups),
        ;
    }
}

/// With entries up to 127 the two lookups of a group add up in a byte, and the
/// groups of one flush add up in 16 bits: the sum so computed is the true sum.
pub proof fn law_flush_fits(lut: Seq<u8>, bytes: Seq<u8>, groups: int, lo: int, hi: int)
    requires
        entries_at_most(lut, groups, MAX_ENTRY as int),
        0 <= lo <= hi <= groups,
        hi - lo <= FLUSH_EVERY,
    ensures
        byte_lookup_sum(lut, bytes, lo, hi) == lookup_sum(lut, bytes, lo, hi),
        0 <= lookup_sum(lut, bytes, lo, hi) <= 65535,
    decreases hi - lo,
{
    lemma_lookup_sum_bound(lut, bytes, groups, lo, hi, MAX_ENTRY as int);
    if lo < hi {
        law_flush_fits(lut, bytes, groups, lo, hi - 1);
        let byte = bytes[hi - 1];
        assert(lut[(hi - 1) * 32 + byte as int / 16] <= 127);
        assert(lut[(hi - 1) * 32 + 16 + byte as int % 16] <= 127);
    }
}

/// What the first `m` coordinates of a table entry contribute.
pub open spec fn entry_sum(w: spec_fn(int, int) -> int, entry: int, bits: int, m: int) -> int
    decreases m,
{
    if m <= 0 {
        0
    } else {
        entry_sum(w, entry, bits, m - 1) + w(
            entry_coord(entry, bits) + (m - 1),
            nibble_code(entry % 16, m - 1, bits),
        )
    }
}

/// What the coordinates `0..n` of a vector contribute.
pub open spec fn coord_sum(w: spec_fn(int, int) -> int, bytes: Seq<u8>, bits: int, n: int) -> int
    decreases n,
{
    if n <= 0 {
        0
    } else {
        coord_sum(w, bytes, bits, n - 1) + w(n - 1, code_at(bytes, n - 1, bits))
    }
}

/// Where each entry holds the contributions of its coordinates, the lookups of
/// a vector add up the contribution of every coordinate, each exactly once.
pub proof fn law_lookups_cover_coordinates(
    lut: Seq<u8>,
    w: spec_fn(int, int) -> int,
    bytes: Seq<u8>,
    bits: int,
    groups: int,
)
    requires
        valid_bits(bits),
        groups >= 0,
        forall|entry: int|
            0 <= entry < groups * 32 ==> (#[trigger] lut[entry]) == entry_sum(w, entry, bits, codes_per_nibble(bits)),
    ensures
        lookup_sum(lut, bytes, 0, groups) == coord_sum(w, bytes, bits, groups * codes_per_byte(bits)),
    decreases groups,
{
    lemma_code_counts(bits);
    if groups > 0 {
        law_lookups_cover_coordinates(lut, w, bytes, bits, groups - 1);
        let g = groups - 1;
        let byte = bytes[g];
        let high = g * 32 + byte as int / 16;
        let low = g * 32 + 16 + byte as int % 16;
        assert(lut[high] == entry_sum(w, high, bits, codes_per_nibble(bits)));
        assert(lut[low] == entry_sum(w, low, bits, codes_per_nibble(bits)));
        assert(high / 32 == g && high % 32 < 16 && high % 16 == byte as int / 16);
        assert(low / 32 == g && low % 32 >= 16 && low % 16 == byte as int % 16);
        reveal_with_fuel(entry_sum, 3);
        reveal_with_fuel(coord_sum, 5);
        if bits == 2 {
            let n = g * 4;
            assert(n / 4 == g && (n + 1) / 4 == g && (n + 2) / 4 == g && (n + 3) / 4 == g);
            assert(n % 4 == 0 && (n + 1) % 4 == 1 && (n + 2) % 4 == 2 && (n + 3) % 4 == 3);
            assert(coord_sum(w, bytes, bits, n + 4) == coord_sum(w, bytes, bits, n) + w(n, code_at(bytes, n, bits)) + w(
                n + 1,
                code_at(bytes, n + 1, bits),
            ) + w(n + 2, code_at(bytes, n + 2, bits)) + w(n + 3, code_at(bytes, n + 3, bits)));
        } else {
            let n = g * 2;
            assert(codes_per_byte(bits) == 2);
            assert(n / 2 == g && (n + 1) / 2 == g && n % 2 == 0 && (n + 1) % 2 == 1);
            assert(coord_sum(w, bytes, bits, n + 2) == coord_sum(w, bytes, bits, n) + w(n, code_at(bytes, n, bits)) + w(
                n + 1,
                code_at(bytes, n + 1, bits),
            ));
        }
    }
}


/// Codes of two, three and four bits are supported and no others.
pub proof fn law_supported_widths(bits: int)
    ensures
        valid_bits(bits) <==> bits == 2 || bits == 3 || bits == 4,
{
}

/// A nibble holds as many codes as have room in it, and a byte those of its two
/// nibbles.
pub proof fn law_codes_fill_nibbles(bits: int)
    requires
        2 <= bits <= 4,
    ensures
        codes_per_nibble(bits) * bits <= 4 < (codes_per_nibble(bits) + 1) * bits,
        codes_per_byte(bits) == 2 * codes_per_nibble(bits),
{
    lemma_code_counts(bits);
    assert(bits == 2 || bits == 3 || bits == 4);
}

/// The byte groups of a vector cover its coordinates: with two bits a group holds
/// four of them, with three or four bits two, and none is left over where the
/// dimensionality is a multiple of eight.
pub proof fn law_groups_cover_coordinates(dim: int, bits: int)
    requires
        0 <= dim,
        2 <= bits <= 4,
    ensures
        bits == 2 ==> 4 * byte_groups(dim, bits) <= dim < 4 * byte_groups(dim, bits) + 4,
        bits > 2 ==> 2 * byte_groups(dim, bits) <= dim < 2 * byte_groups(dim, bits) + 2,
        dim % 8 == 0 ==> byte_groups(dim, bits) * codes_per_byte(bits) == dim,
        bits == 2 && dim % 8 == 0 ==> byte_groups(dim, bits) * 4 == dim,
        bits > 2 && dim % 8 == 0 ==> byte_groups(dim, bits) * 2 == dim,
{
    lemma_code_counts(bits);
    assert(bits == 2 || codes_per_byte(bits) == 2);
}

/// The half tables follow each other along the coordinates: entry `16 * t + v`
/// covers the coordinates from `t` times the codes of a nibble on.
pub proof fn law_entries_tile_coordinates(entry: int, bits: int)
    requires
        0 <= entry,
        2 <= bits <= 4,
    ensures
        bits == 2 ==> entry_coord(entry, bits) == 2 * (entry / 16),
        bits > 2 ==> entry_coord(entry, bits) == entry / 16,
{
    lemma_code_counts(bits);
    assert(entry / 16 == 2 * (entry / 32) + if entry % 32 < 16 {
        0int
    } else {
        1
    });
    if bits == 2 {
        assert(entry_coord(entry, bits) == entry / 32 * 4 + if entry % 32 < 16 {
            0int
        } else {
            2
        });
    } else {
        assert(entry_coord(entry, bits) == entry / 32 * 2 + if entry % 32 < 16 {
            0int
        } else {
            1
        });
    }
}

/// The codes of a nibble, put next to each other again, are the nibble; of three
/// bits there is one, in its lower bits.
pub proof fn law_codes_make_up_nibble(nibble: int)
    requires
        0 <= nibble < 16,
    ensures
        0 <= nibble_code(nibble, 0, 2) < 4,
        0 <= nibble_code(nibble, 1, 2) < 4,
        4 * nibble_code(nibble, 0, 2) + nibble_code(nibble, 1, 2) == nibble,
        0 <= nibble_code(nibble, 0, 3) < 8,
        nibble == nibble_code(nibble, 0, 3) || nibble == 8 + nibble_code(nibble, 0, 3),
        nibble_code(nibble, 0, 4) == nibble,
{
}

/// The codes of the coordinates in a byte, put next to each other again, are the
/// byte.
pub proof fn law_codes_make_up_bytes(bytes: Seq<u8>, g: int)
    requires
        0 <= g < bytes.len(),
    ensures
        forall|c: int| 0 <= c < 4 ==> 0 <= #[trigger] code_at(bytes, 4 * g + c, 2) < 4,
        64 * code_at(bytes, 4 * g, 2) + 16 * code_at(bytes, 4 * g + 1, 2) + 4 * code_at(bytes, 4 * g + 2, 2) + code_at(
            bytes,
            4 * g + 3,
            2,
        ) == bytes[g],
        code_at(bytes, 2 * g, 3) == bytes[g] as int / 16 % 8,
        code_at(bytes, 2 * g + 1, 3) == bytes[g] as int % 8,
        code_at(bytes, 2 * g, 4) == bytes[g] as int / 16,
        code_at(bytes, 2 * g + 1, 4) == bytes[g] as int % 16,
{
    lemma_code_counts(2);
    lemma_code_counts(3);
    lemma_code_counts(4);
    assert(forall|c: int| 0 <= c < 4 ==> #[trigger] ((4 * g + c) / 4) == g && (4 * g + c) % 4 == c);
    assert((4 * g + 0) / 4 == g && (4 * g + 1) / 4 == g && (4 * g + 2) / 4 == g && (4 * g + 3) / 4 == g);
    assert((2 * g) / 2 == g && (2 * g + 1) / 2 == g);
    assert forall|c: int| 0 <= c < 4 implies 0 <= #[trigger] code_at(bytes, 4 * g + c, 2) < 4 by {
        assert((4 * g + c) / 4 == g && (4 * g + c) % 4 == c);
    }
}

/// The lookups of the groups `lo..hi`: in each group one of the first 16 entries
/// of its table, by the high nibble of its byte, and one of the other 16, by the
/// low nibble, all added up.
pub proof fn law_lookup_sum_adds_up(lut: Seq<u8>, bytes: Seq<u8>, lo: int, hi: int)
    requires
        lo <= hi,
    ensures
        lookup_sum(lut, bytes, lo, hi) == Seq::new(
            (hi - lo) as nat,
            |i: int|
                lut[32 * (lo + i) + bytes[lo + i] as int / 16] + lut[32 * (lo + i) + 16 + bytes[lo + i] as int % 16],
        ).fold_left(0int, |sum: int, v: int| sum + v),
    decreases hi - lo,
{
    let terms = Seq::new(
        (hi - lo) as nat,
        |i: int| lut[32 * (lo + i) + bytes[lo + i] as int / 16] + lut[32 * (lo + i) + 16 + bytes[lo + i] as int % 16],
    );
    if lo < hi {
        law_lookup_sum_adds_up(lut, bytes, lo, hi - 1);
        assert(terms.drop_last() =~= Seq::new(
            (hi - 1 - lo) as nat,
            |i: int|
                lut[32 * (lo + i) + bytes[lo + i] as int / 16] + lut[32 * (lo + i) + 16 + bytes[lo + i] as int % 16],
        ));
    }
}

/// The same where the two lookups of a group are added in a byte, which wraps
/// around.
pub proof fn law_byte_lookup_sum_adds_up(lut: Seq<u8>, bytes: Seq<u8>, lo: int, hi: int)
    requires
        lo <= hi,
    ensures
        byte_lookup_sum(lut, bytes, lo, hi) == Seq::new(
            (hi - lo) as nat,
            |i: int|
                (lut[32 * (lo + i) + bytes[lo + i] as int / 16] + lut[32 * (lo + i) + 16 + bytes[lo + i] as int % 16])
                    % 256,
        ).fold_left(0int, |sum: int, v: int| sum + v),
    decreases hi - lo,
{
    let terms = Seq::new(
        (hi - lo) as nat,
        |i: int|
            (lut[32 * (lo + i) + bytes[lo + i] as int / 16] + lut[32 * (lo + i) + 16 + bytes[lo + i] as int % 16]) % 256,
    );
    if lo < hi {
        law_byte_lookup_sum_adds_up(lut, bytes, lo, hi - 1);
        assert(terms.drop_last() =~= Seq::new(
            (hi - 1 - lo) as nat,
            |i: int|
                (lut[32 * (lo + i) + bytes[lo + i] as int / 16] + lut[32 * (lo + i) + 16 + bytes[lo + i] as int % 16])
                    % 256,
        ));
    }
}

/// The largest entry is the largest up to 127 with which two lookups in each
/// group add up to no more than what 16 bits hold.
pub proof fn law_largest_entry(groups: int)
    requires
        0 <= groups,
    ensures
        0 <= max_entry(groups) <= 127,
        2 * groups * max_entry(groups) <= 65535,
        max_entry(groups) < 127 ==> 2 * groups * (max_entry(groups) + 1) > 65535,
{
    let most = max_entry(groups);
    if groups > 0 {
        let d = 2 * groups;
        vstd::arithmetic::div_mod::lemma_fundamental_div_mod(65535, d);
        vstd::arithmetic::div_mod::lemma_mod_bound(65535, d);
        let q = 65535int / d;
        assert(d * q <= 65535 < d * (q + 1)) by (nonlinear_arith)
            requires
                65535 == d * q + 65535int % d,
                0 <= 65535int % d < d,
        ;
        assert(0 <= q) by (nonlinear_arith)
            requires
                d > 0,
                65535 < d * (q + 1),
        ;
        assert(d * most <= 65535) by (nonlinear_arith)
            requires
                0 <= most <= q,
                d > 0,
                d * q <= 65535,
        ;
    }
}

/// What tables have to be like: 32 entries for each group.
pub proof fn law_tables_that_fit(luts: Seq<Vec<u8>>, groups: int)
    ensures
        tables_fit(luts, groups) <==> forall|q: int| 0 <= q < luts.len() ==> (#[trigger] luts[q])@.len() == 32 * groups,
{
}

/// Every coordinate takes part: where each entry of the tables holds what its
/// coordinates contribute with the codes that it stands for, the lookups of all
/// groups of a vector add up what each of its `dim` coordinates contributes with
/// the vector's own code for it.
pub proof fn law_every_coordinate_counts(lut: Seq<u8>, w: spec_fn(int, int) -> int, bytes: Seq<u8>, bits: int, dim: int)
    requires
        2 <= bits <= 4,
        0 <= dim,
        dim % 8 == 0,
        forall|entry: int|
            0 <= entry < byte_groups(dim, bits) * 32 ==> (#[trigger] lut[entry]) == if bits == 2 {
                w(entry / 16 * 2, entry % 16 / 4) + w(entry / 16 * 2 + 1, entry % 4)
            } else if bits == 3 {
                w(entry / 16, entry % 8)
            } else {
                w(entry / 16, entry % 16)
            },
    ensures
        lookup_sum(lut, bytes, 0, byte_groups(dim, bits)) == Seq::new(
            dim as nat,
            |coord: int| w(coord, code_at(bytes, coord, bits)),
        ).fold_left(0int, |sum: int, v: int| sum + v),
{
    let groups = byte_groups(dim, bits);
    law_groups_cover_coordinates(dim, bits);
    assert forall|entry: int| 0 <= entry < groups * 32 implies (#[trigger] lut[entry]) == entry_sum(
        w,
        entry,
        bits,
        codes_per_nibble(bits),
    ) by {
        law_entries_tile_coordinates(entry, bits);
        lemma_code_counts(bits);
        reveal_with_fuel(entry_sum, 3);
        assert(entry % 16 % 4 == entry % 4 && entry % 16 % 8 == entry % 8);
    }
    law_lookups_cover_coordinates(lut, w, bytes, bits, groups);
    lemma_coord_sum_folds(w, bytes, bits, dim);
}

/// The contributions of coordinates, added up from the first on.
proof fn lemma_coord_sum_folds(w: spec_fn(int, int) -> int, bytes: Seq<u8>, bits: int, n: int)
    requires
        0 <= n,
    ensures
        coord_sum(w, bytes, bits, n) == Seq::new(n as nat, |coord: int| w(coord, code_at(bytes, coord, bits))).fold_left(
            0int,
            |sum: int, v: int| sum + v,
        ),
    decreases n,
{
    let terms = Seq::new(n as nat, |coord: int| w(coord, code_at(bytes, coord, bits)));
    if n > 0 {
        lemma_coord_sum_folds(w, bytes, bits, n - 1);
        assert(terms.drop_last() =~= Seq::new((n - 1) as nat, |coord: int| w(coord, code_at(bytes, coord, bits))));
    }
}
} // verus!
