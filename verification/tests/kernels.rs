//! Lookup tables and block scoring, against plain sums.
use turbovec::blocks::n_blocks;
use turbovec::interleaved::{search_multi_query, search_multi_query_pairs};
use turbovec::lut::{codes_in_byte, codes_in_nibble, lut_terms, max_lut, n_byte_groups, MAX_ENTRY};
use turbovec::mask::{blocks_skipped_by_mask, pack_mask, reset_blocks_skipped_by_mask, BlockSkips};
use turbovec::score::{sub_table_range, LARGEST, SMALLEST};
use turbovec::sequential::{look_up_slots, score_block, score_queries, score_query, score_query_batch_block};
use turbovec::{Encoded, TurboQuantIndex};

fn noise(len: usize, seed: u64) -> Vec<u8> {
    let mut state = seed | 1;
    (0..len)
        .map(|_| {
            state ^= state << 13;
            state ^= state >> 7;
            state ^= state << 17;
            (state >> 32) as u8
        })
        .collect()
}

/// Code byte of a lane in the interleaved layout.
fn interleaved_byte(row: &[u8], lane: usize) -> u8 {
    let r = lane % 16;
    let j = if r < 8 { 2 * r } else { 2 * (r - 8) + 1 };
    if lane < 16 {
        (row[j] & 15) * 16 + (row[16 + j] & 15)
    } else {
        (row[j] >> 4) * 16 + (row[16 + j] >> 4)
    }
}

fn pair(lut: &[u8], g: usize, byte: u8) -> u32 {
    lut[g * 32 + (byte >> 4) as usize] as u32 + lut[g * 32 + 16 + (byte & 15) as usize] as u32
}

fn interleaved_sum(blocked: &[u8], lut: &[u8], groups: usize, slot: usize) -> u16 {
    let total: u32 = (0..groups)
        .map(|g| {
            let start = (slot / 32 * groups + g) * 32;
            pair(lut, g, interleaved_byte(&blocked[start..start + 32], slot % 32))
        })
        .sum();
    (total % 65536) as u16
}

fn block_is_open(flags: Option<&[bool]>, n: usize, block: usize) -> bool {
    match flags {
        None => true,
        Some(f) => (block * 32..n.min(block * 32 + 32)).any(|slot| f[slot]),
    }
}

fn check_interleaved(n: usize, groups: usize, nq: usize, flags: Option<&[bool]>, most: u8) {
    let blocked = noise((n + 31) / 32 * groups * 32, 7 + n as u64);
    let luts: Vec<Vec<u8>> = (0..nq)
        .map(|q| noise(groups * 32, 99 + q as u64).iter().map(|v| v % (most as u16 + 1).min(255) as u8).collect())
        .collect();
    let packed = flags.map(pack_mask);
    let mut skips = BlockSkips::new();
    let mut pair_skips = BlockSkips::new();
    let rows = search_multi_query(&blocked, &luts, groups, n, packed.as_deref(), &mut skips);
    let pairs = search_multi_query_pairs(&blocked, &luts, groups, n, packed.as_deref(), &mut pair_skips);
    assert_eq!(rows.len(), nq);
    for q in 0..nq {
        let want: Vec<u16> = (0..n)
            .map(|slot| {
                if block_is_open(flags, n, slot / 32) {
                    interleaved_sum(&blocked, &luts[q], groups, slot)
                } else {
                    0
                }
            })
            .collect();
        assert_eq!(rows[q], want);
        assert_eq!(pairs[q], want);
    }
    let closed = (0..(n + 31) / 32).filter(|&b| !block_is_open(flags, n, b)).count() as u64;
    assert_eq!(blocks_skipped_by_mask(&skips), closed);
    assert_eq!(blocks_skipped_by_mask(&pair_skips), closed);
}

#[test]
fn interleaved_sums_match_plain_sums() {
    for n in [1, 31, 32, 33, 64, 65, 96, 130] {
        for groups in [1, 2, 5, 16] {
            check_interleaved(n, groups, 4, None, 127);
        }
    }
    check_interleaved(40, 3, 1, None, 127);
    check_interleaved(40, 3, 0, None, 127);
    check_interleaved(0, 3, 2, None, 127);
}

#[test]
fn interleaved_sums_under_a_mask() {
    for n in [64usize, 100, 300] {
        let one: Vec<bool> = (0..n).map(|i| i == n - 1).collect();
        let some: Vec<bool> = (0..n).map(|i| i / 32 % 3 == 1 && i % 7 == 0).collect();
        let none = vec![false; n];
        let all = vec![true; n];
        for flags in [&one, &some, &none, &all] {
            check_interleaved(n, 4, 3, Some(flags), 127);
        }
    }
}

#[test]
fn interleaved_sums_wrap_around() {
    let groups = 200;
    let blocked = noise(groups * 32, 5);
    let luts = vec![vec![255u8; groups * 32]];
    let mut skips = BlockSkips::new();
    let rows = search_multi_query(&blocked, &luts, groups, 32, None, &mut skips);
    assert_eq!(rows[0], vec![36464u16; 32]);
    let rows = search_multi_query_pairs(&blocked, &luts, groups, 32, None, &mut skips);
    assert_eq!(rows[0], vec![36464u16; 32]);
    check_interleaved(70, 201, 2, None, 255);
}

#[test]
fn largest_entries_do_not_wrap_around() {
    for groups in [2usize, 100, 258, 259, 400] {
        let most = max_lut(groups);
        let blocked = noise(groups * 32, 6);
        let luts = vec![vec![most; groups * 32]];
        let rows = search_multi_query(&blocked, &luts, groups, 32, None, &mut BlockSkips::new());
        let want = 2 * groups * most as usize;
        assert!(want <= 65535);
        assert_eq!(rows[0], vec![want as u16; 32]);
    }
}

#[test]
fn skipped_pairs_count_as_two_blocks() {
    let n = 256;
    let mut flags = vec![false; n];
    flags[200] = true;
    let packed = pack_mask(&flags);
    let blocked = vec![0u8; 8 * 32];
    let luts = vec![vec![1u8; 32]];
    let mut skips = BlockSkips::new();
    let rows = search_multi_query_pairs(&blocked, &luts, 1, n, Some(&packed), &mut skips);
    assert_eq!(blocks_skipped_by_mask(&skips), 7);
    assert_eq!(rows[0][200], 2);
    assert_eq!(rows[0][0], 0);
    reset_blocks_skipped_by_mask(&mut skips);
    assert_eq!(blocks_skipped_by_mask(&skips), 0);
}

#[test]
fn bits_past_the_last_slot_keep_no_block() {
    let (n, groups) = (40, 2);
    let blocked = noise(2 * groups * 32, 41);
    let luts = vec![noise(groups * 32, 42)];
    let stray = [1u64 | 1 << 45];
    let clean = [1u64];
    let mut rows = Vec::new();
    for mask in [&stray, &clean] {
        let mut skips = BlockSkips::new();
        rows.push(search_multi_query(&blocked, &luts, groups, n, Some(mask), &mut skips));
        rows.push(search_multi_query_pairs(&blocked, &luts, groups, n, Some(mask), &mut skips));
        assert_eq!(blocks_skipped_by_mask(&skips), 2);
        assert_eq!(score_query(&blocked, &luts[0], groups, n, Some(mask), &mut skips)[0][39], 0);
        assert_eq!(blocks_skipped_by_mask(&skips), 3);
    }
    assert!(rows.iter().all(|r| *r == rows[0]));
}

fn sequential_batches(blocked: &[u8], lut: &[u8], groups: usize, slot: usize) -> Vec<u16> {
    (0..(groups + 255) / 256)
        .map(|batch| {
            let total: u32 = (batch * 256..groups.min(batch * 256 + 256))
                .map(|g| pair(lut, g, blocked[(slot / 32 * groups + g) * 32 + slot % 32]) % 256)
                .sum();
            (total % 65536) as u16
        })
        .collect()
}

#[test]
fn sequential_sums_match_plain_sums() {
    for (n, groups) in [(1usize, 1usize), (33, 3), (64, 256), (40, 257), (70, 520)] {
        let blocked = noise((n + 31) / 32 * groups * 32, 11);
        let luts: Vec<Vec<u8>> = (0..4).map(|q| noise(groups * 32, 40 + q)).collect();
        for nq in [1usize, 3, 4] {
            let tables: Vec<Vec<u8>> = luts[..nq].to_vec();
            let mut skips = BlockSkips::new();
            let rows = score_queries(&blocked, &tables, groups, n, None, &mut skips);
            assert_eq!(rows.len(), nq);
            for q in 0..nq {
                for slot in 0..n {
                    let got: Vec<u16> = rows[q].iter().map(|row| row[slot]).collect();
                    assert_eq!(got, sequential_batches(&blocked, &tables[q], groups, slot));
                }
            }
            assert_eq!(blocks_skipped_by_mask(&skips), 0);
        }
    }
}

#[test]
fn one_query_and_many_queries_score_a_block_alike() {
    let (n, groups) = (64, 300);
    let blocked = noise(2 * groups * 32, 17);
    let luts: Vec<Vec<u8>> = (0..4).map(|q| noise(groups * 32, 60 + q)).collect();
    for block in 0..2 {
        let together = score_query_batch_block(&blocked, &luts, block, groups, n);
        for q in 0..4 {
            assert_eq!(together[q], score_block(&blocked, &luts[q], block, groups, n));
        }
    }
}

#[test]
fn sequential_lookups_are_added_as_bytes() {
    let groups = 256;
    let blocked = noise(groups * 32, 3);
    let wrapped = score_block(&blocked, &vec![255u8; groups * 32], 0, groups, 32);
    assert_eq!(wrapped, vec![vec![65024u16; 32]]);
    let exact = score_block(&blocked, &vec![MAX_ENTRY; groups * 32], 0, groups, 32);
    assert_eq!(exact, vec![vec![65024u16; 32]]);
}

#[test]
fn sequential_skips_are_counted_per_pass() {
    let n = 128;
    let mut flags = vec![false; n];
    flags[40] = true;
    let packed = pack_mask(&flags);
    let blocked = noise(4 * 2 * 32, 23);
    let luts: Vec<Vec<u8>> = (0..4).map(|q| noise(64, 80 + q)).collect();
    let mut skips = BlockSkips::new();
    let rows = score_queries(&blocked, &luts, 2, n, Some(&packed), &mut skips);
    assert_eq!(blocks_skipped_by_mask(&skips), 3);
    assert_eq!(rows[3][0][40], sequential_batches(&blocked, &luts[3], 2, 40)[0]);
    assert_eq!(rows[3][0][0], 0);
    let mut tail_skips = BlockSkips::new();
    let two: Vec<Vec<u8>> = luts[..2].to_vec();
    let tail = score_queries(&blocked, &two, 2, n, Some(&packed), &mut tail_skips);
    assert_eq!(blocks_skipped_by_mask(&tail_skips), 6);
    assert_eq!(tail[1], rows[1]);
    let mut one_skips = BlockSkips::new();
    assert_eq!(score_query(&blocked, &luts[0], 2, n, Some(&packed), &mut one_skips), rows[0]);
    assert_eq!(blocks_skipped_by_mask(&one_skips), 3);
}

#[test]
fn slot_lookups_come_in_order() {
    let (n, groups) = (50, 3);
    let blocked = noise(2 * groups * 32, 31);
    let lut = noise(groups * 32, 32);
    let flags: Vec<bool> = (0..n).map(|i| i % 5 == 0 && i < 32).collect();
    let packed = pack_mask(&flags);
    let mut skips = BlockSkips::new();
    let slots = look_up_slots(&blocked, &lut, groups, n, Some(&packed), &mut skips);
    assert_eq!(slots.len(), n);
    for slot in 0..n {
        let mut want = Vec::new();
        if flags[slot] {
            for g in 0..groups {
                let byte = blocked[(slot / 32 * groups + g) * 32 + slot % 32] as usize;
                want.push(lut[g * 32 + byte / 16]);
                want.push(lut[g * 32 + 16 + byte % 16]);
            }
        }
        assert_eq!(slots[slot], want);
    }
    assert_eq!(blocks_skipped_by_mask(&skips), 1);
}

#[test]
fn largest_entry_for_each_number_of_groups() {
    assert_eq!(max_lut(0), 127);
    assert_eq!(max_lut(2), 127);
    assert_eq!(max_lut(258), 127);
    assert_eq!(max_lut(259), 126);
    assert_eq!(max_lut(768), 42);
    assert_eq!(max_lut(32767), 1);
    assert_eq!(max_lut(32768), 0);
    assert_eq!(max_lut(usize::MAX), 0);
}

#[test]
fn table_entries_cover_their_coordinates() {
    assert_eq!(lut_terms(32 + 16 + 0b1101, 2), vec![(6, 3), (7, 1)]);
    assert_eq!(lut_terms(32 + 0b0110, 2), vec![(4, 1), (5, 2)]);
    assert_eq!(lut_terms(5, 4), vec![(0, 5)]);
    assert_eq!(lut_terms(16 + 13, 3), vec![(1, 5)]);
    assert_eq!(lut_terms(3 * 32 + 16 + 15, 4), vec![(7, 15)]);
}

#[test]
fn groups_and_codes_per_byte() {
    assert_eq!((codes_in_byte(2), codes_in_nibble(2), n_byte_groups(64, 2)), (4, 2, 16));
    assert_eq!((codes_in_byte(3), codes_in_nibble(3), n_byte_groups(64, 3)), (2, 1, 32));
    assert_eq!((codes_in_byte(4), codes_in_nibble(4), n_byte_groups(64, 4)), (2, 1, 32));
    assert_eq!((n_blocks(0), n_blocks(1), n_blocks(32), n_blocks(33)), (0, 1, 1, 2));
}

#[test]
fn lookups_add_up_every_coordinate_once() {
    for bits in [2usize, 3, 4] {
        let groups = 3;
        let weight = |coord: usize, code: usize| (3 * coord + 2 * code) as u8;
        let lut: Vec<u8> = (0..groups * 32)
            .map(|entry| lut_terms(entry, bits).iter().map(|&(coord, code)| weight(coord, code)).sum())
            .collect();
        let blocked = noise(groups * 32, 77);
        let rows = score_query(&blocked, &lut, groups, 32, None, &mut BlockSkips::new());
        for lane in 0..32 {
            let mut want = 0u32;
            for g in 0..groups {
                let byte = blocked[g * 32 + lane] as usize;
                let per = codes_in_nibble(bits);
                for half in 0..2 {
                    let nibble = if half == 0 { byte / 16 } else { byte % 16 };
                    for c in 0..per {
                        let code = (nibble >> ((per - 1 - c) * bits)) & ((1 << bits) - 1);
                        want += weight(g * codes_in_byte(bits) + half * per + c, code) as u32;
                    }
                }
            }
            assert_eq!(rows[0][lane] as u32, want);
        }
    }
}

#[test]
fn sub_table_range_is_minimum_and_maximum() {
    let bits = |v: &[f32]| -> Vec<u32> { v.iter().map(|x| x.to_bits()).collect() };
    assert_eq!(sub_table_range(&bits(&[])), (LARGEST, SMALLEST));
    assert_eq!(
        sub_table_range(&bits(&[0.5, -2.0, 3.25, f32::NAN])),
        ((-2.0f32).to_bits(), 3.25f32.to_bits())
    );
    assert_eq!(
        sub_table_range(&bits(&[f32::INFINITY])),
        (f32::MAX.to_bits(), f32::INFINITY.to_bits())
    );
    assert_eq!((LARGEST, SMALLEST), (f32::MAX.to_bits(), f32::MIN.to_bits()));
    // A zero of the other sign does not take over.
    assert_eq!(sub_table_range(&bits(&[0.0, -0.0])), (0.0f32.to_bits(), 0.0f32.to_bits()));
}

/// An index of `n` vectors of sixteen coordinates of four bits: eight groups.
fn filled_index(n: usize) -> TurboQuantIndex {
    let mut index = TurboQuantIndex::new(16, 4);
    index.add(16 * n, Encoded { packed_codes: noise(8 * n, 3), scales: vec![1.0f32.to_bits(); n] });
    index
}

#[test]
fn an_index_scores_over_its_cached_layout() {
    let n = 70;
    let groups = n_byte_groups(16, 4);
    assert_eq!(groups, 8);
    let blocked = noise(n_blocks(n) * groups * 32, 11);
    let luts: Vec<Vec<u8>> = (0..3).map(|q| noise(groups * 32, 40 + q)).collect();
    let flags: Vec<bool> = (0..n).map(|slot| slot < 20 || slot == 69).collect();
    let words = pack_mask(&flags);
    let mut index = filled_index(n);
    index.prepare(blocked.clone());
    for mask in [None, Some(words.as_slice())] {
        let closed = if mask.is_some() { 1 } else { 0 };
        let open = |slot: usize| mask.is_none() || slot / 32 != 1;
        let mut skips = BlockSkips::new();
        let rows = index.interleaved_sums(&luts, mask, &mut skips).unwrap();
        assert_eq!(blocks_skipped_by_mask(&skips), closed);
        let mut skips = BlockSkips::new();
        assert_eq!(index.interleaved_pair_sums(&luts, mask, &mut skips).as_ref(), Some(&rows));
        assert_eq!(blocks_skipped_by_mask(&skips), closed);
        assert_eq!(rows.len(), 3);
        for q in 0..3 {
            for slot in 0..n {
                let want = if open(slot) { interleaved_sum(&blocked, &luts[q], groups, slot) } else { 0 };
                assert_eq!(rows[q][slot], want);
            }
        }
        let (mut a, mut b) = (BlockSkips::new(), BlockSkips::new());
        let sums = index.sequential_sums(&luts, mask, &mut a).unwrap();
        assert_eq!(sums, score_queries(&blocked, &luts, groups, n, mask, &mut b));
        assert_eq!(blocks_skipped_by_mask(&a), blocks_skipped_by_mask(&b));
        for slot in (0..n).filter(|&slot| open(slot)) {
            for (batch, want) in sequential_batches(&blocked, &luts[2], groups, slot).iter().enumerate() {
                assert_eq!(sums[2][batch][slot], *want);
            }
        }
        let (mut a, mut b) = (BlockSkips::new(), BlockSkips::new());
        let slots = index.slot_lookups(&luts[0], mask, &mut a).unwrap();
        assert_eq!(slots, look_up_slots(&blocked, &luts[0], groups, n, mask, &mut b));
        assert_eq!(blocks_skipped_by_mask(&a), blocks_skipped_by_mask(&b));
    }
}

#[test]
fn an_index_without_a_cached_layout_scores_nothing() {
    let luts = vec![noise(8 * 32, 1)];
    let flags = vec![false; 40];
    let words = pack_mask(&flags);
    let mut index = filled_index(40);
    let mut skips = BlockSkips::new();
    for _ in 0..2 {
        assert!(index.interleaved_sums(&luts, Some(&words), &mut skips).is_none());
        assert!(index.interleaved_pair_sums(&luts, Some(&words), &mut skips).is_none());
        assert!(index.sequential_sums(&luts, Some(&words), &mut skips).is_none());
        assert!(index.slot_lookups(&luts[0], Some(&words), &mut skips).is_none());
        assert_eq!(blocks_skipped_by_mask(&skips), 0);
        index.prepare(noise(2 * 8 * 32, 2));
        assert!(index.interleaved_sums(&luts, None, &mut skips).is_some());
        index.add(16, Encoded { packed_codes: vec![0; 8], scales: vec![0] });
        index.swap_remove(40);
    }
}
