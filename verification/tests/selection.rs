//! Masks, selection of the best slots and ranking.
use turbovec::mask::{
    block_allowed, block_has_allowed, block_pair_allowed, block_pair_has_allowed, blocks_skipped_by_mask, count_allowed,
    count_flags, mask_allows, pack_mask, slot_allowed, BlockSkips,
};
use turbovec::rank::rank;
use turbovec::score::{bits_are_nan, bits_gt, NEG_INFINITY};
use turbovec::search::{search, search_row};
use turbovec::topk::{Hit, TopK};

fn bits(values: &[f32]) -> Vec<u32> {
    values.iter().map(|v| v.to_bits()).collect()
}

fn noise(len: usize, seed: u64) -> Vec<f32> {
    let mut state = seed | 1;
    (0..len)
        .map(|_| {
            state ^= state << 13;
            state ^= state >> 7;
            state ^= state << 17;
            ((state >> 40) as f32) / 1000.0 - 8000.0
        })
        .collect()
}

#[test]
fn comparisons_of_bit_patterns_are_those_of_floats() {
    let values = [0.0f32, -0.0, 1.0, -1.0, 1.5, f32::MIN_POSITIVE, f32::MAX, f32::MIN, f32::INFINITY, f32::NEG_INFINITY, f32::NAN, -f32::NAN, 1e-45];
    for a in values {
        assert_eq!(bits_are_nan(a.to_bits()), a.is_nan());
        for b in values {
            assert_eq!(bits_gt(a.to_bits(), b.to_bits()), a > b, "{a} {b}");
        }
    }
    assert_eq!(NEG_INFINITY, f32::NEG_INFINITY.to_bits());
}

#[test]
fn packed_mask_keeps_flags() {
    for n in [0usize, 1, 63, 64, 65, 200] {
        let flags: Vec<bool> = (0..n).map(|i| i % 3 == 1).collect();
        let words = pack_mask(&flags);
        assert_eq!(words.len(), (n + 63) / 64);
        for slot in 0..n {
            assert_eq!(mask_allows(&words, slot), flags[slot]);
            assert_eq!(slot_allowed(Some(&words), slot), flags[slot]);
            assert!(slot_allowed(None, slot));
        }
        assert_eq!(count_allowed(&words, n), flags.iter().filter(|&&f| f).count());
        assert_eq!(count_flags(&flags), count_allowed(&words, n));
    }
    assert_eq!(pack_mask(&[true, false, true]), vec![0b101]);
    assert_eq!(count_allowed(&[u64::MAX, 1], 128), 65);
    assert_eq!(count_allowed(&[u64::MAX, 1], 64), 64);
    assert_eq!(count_allowed(&[0b101], 2), 1);
}

#[test]
fn blocks_and_pairs_of_a_mask() {
    let mask = [0x0000_0001_0000_0000u64, 0, 0x8000_0000];
    let want = [false, true, false, false, true, false];
    for (b, &open) in want.iter().enumerate() {
        assert_eq!(block_allowed(Some(&mask), b * 32, 192), open);
        assert!(block_allowed(None, b * 32, 192));
    }
    assert!(block_pair_allowed(Some(&mask), 0, 192));
    assert!(!block_pair_allowed(Some(&mask), 64, 192));
    assert!(block_pair_allowed(Some(&mask), 128, 192));
    let mut skips = BlockSkips::new();
    assert!(!block_has_allowed(Some(&mask), 0, 192, &mut skips));
    assert_eq!(blocks_skipped_by_mask(&skips), 1);
    assert!(!block_pair_has_allowed(Some(&mask), 64, 192, &mut skips));
    assert_eq!(blocks_skipped_by_mask(&skips), 3);
    assert!(block_has_allowed(None, 0, 192, &mut skips));
    assert!(block_pair_has_allowed(None, 0, 192, &mut skips));
    assert!(block_has_allowed(Some(&mask), 32, 192, &mut skips));
    assert_eq!(blocks_skipped_by_mask(&skips), 3);
}

#[test]
fn weakest_hit_is_displaced() {
    let mut top = TopK::new(2);
    for (slot, score) in [1.0f32, 3.0, 1.0, 2.0, 0.5].iter().enumerate() {
        top.offer(score.to_bits(), slot);
    }
    assert!(top.is_full());
    assert_eq!(
        top.ranking(),
        vec![Hit { score: 3.0f32.to_bits(), slot: 1 }, Hit { score: 2.0f32.to_bits(), slot: 3 }]
    );
}

#[test]
fn equal_scores_do_not_displace() {
    let row = bits(&[1.0, 1.0, 1.0, 1.0]);
    let best = search_row(&row, 2, None);
    assert_eq!(best.iter().map(|h| h.slot).collect::<Vec<_>>(), vec![0, 1]);
}

#[test]
fn nan_in_first_place_blocks_later_slots() {
    let mut row = vec![f32::NAN, 1.0];
    row.extend([5.0; 40]);
    let best = search_row(&bits(&row), 2, None);
    assert_eq!(best.iter().map(|h| h.slot).collect::<Vec<_>>(), vec![1, 0]);
    let best = search_row(&bits(&[1.0, f32::NAN, 2.0, 3.0]), 2, None);
    assert_eq!(best.iter().map(|h| h.slot).collect::<Vec<_>>(), vec![3, 1]);
}

#[test]
fn best_slots_of_a_row() {
    for n in [1usize, 31, 32, 33, 64, 100, 333] {
        let row = noise(n, 3 + n as u64);
        for k in [1usize, 2, 7, 50, 400] {
            let mut want: Vec<usize> = (0..n).collect();
            want.sort_by(|&a, &b| row[b].partial_cmp(&row[a]).unwrap());
            want.truncate(k);
            let best = search_row(&bits(&row), k, None);
            assert_eq!(best.iter().map(|h| h.slot).collect::<Vec<_>>(), want);
            for h in &best {
                assert_eq!(h.score, row[h.slot].to_bits());
            }
        }
    }
    assert!(search_row(&bits(&[1.0]), 0, None).is_empty());
    assert!(search_row(&Vec::new(), 3, None).is_empty());
}

#[test]
fn masked_row_is_filtered_full_row() {
    let n = 500;
    let row = bits(&noise(n, 21));
    let dense = search_row(&row, n, None);
    for step in [2usize, 3, 40, 499] {
        let flags: Vec<bool> = (0..n).map(|i| i % step == 0).collect();
        let words = pack_mask(&flags);
        let mut want: Vec<Hit> = dense.iter().copied().filter(|h| flags[h.slot]).collect();
        want.truncate(9);
        assert_eq!(search_row(&row, 9, Some(&words)), want);
    }
}

#[test]
fn ranking_is_descending_and_stable() {
    let hit = |score: f32, slot: usize| Hit { score: score.to_bits(), slot };
    let hits = vec![hit(1.0, 4), hit(f32::NAN, 9), hit(2.0, 5), hit(1.0, 6), hit(f32::NEG_INFINITY, 7)];
    let slots: Vec<usize> = rank(&hits).iter().map(|h| h.slot).collect();
    assert_eq!(slots, vec![5, 4, 6, 7, 9]);
}

#[test]
fn search_clamps_k_and_lays_rows_one_after_the_other() {
    let rows = vec![bits(&[1.0, 4.0, 2.0]), bits(&[9.0, 7.0, 8.0])];
    let (scores, indices) = search(&rows, 3, 2, None);
    assert_eq!(scores, bits(&[4.0, 2.0, 9.0, 8.0]));
    assert_eq!(indices, vec![1, 2, 0, 2]);
    let (scores, indices) = search(&rows, 3, 10, None);
    assert_eq!(scores.len(), 6);
    assert_eq!(indices, vec![1, 2, 0, 0, 2, 1]);
    let words = pack_mask(&[false, true, false]);
    let (scores, indices) = search(&rows, 3, 10, Some(&words));
    assert_eq!(scores, bits(&[4.0, 7.0]));
    assert_eq!(indices, vec![1, 1]);
    let (scores, indices) = search(&rows, 3, 0, None);
    assert!(scores.is_empty() && indices.is_empty());
}

#[test]
fn bits_past_the_last_slot_are_ignored() {
    let rows = vec![bits(&[1.0, 4.0])];
    let (scores, indices) = search(&rows, 2, 3, Some(&[0b111]));
    assert_eq!(scores, bits(&[4.0, 1.0]));
    assert_eq!(indices, vec![1, 0]);
    assert_eq!(search(&rows, 2, 3, Some(&[0b111])), search(&rows, 2, 3, Some(&[0b011])));
    assert_eq!(search(&rows, 2, 3, Some(&[0b110, u64::MAX])), search(&rows, 2, 3, Some(&[0b010])));
    let one = vec![bits(&[7.0])];
    assert_eq!(search(&one, 1, 2, Some(&[3])), (bits(&[7.0]), vec![0]));
    assert_eq!(search(&one, 1, 2, Some(&[2])), (vec![], vec![]));
    assert!(!block_allowed(Some(&[1 << 40]), 32, 40));
    assert!(block_allowed(Some(&[1 << 40]), 32, 41));
    assert!(!block_pair_allowed(Some(&[1 << 40]), 0, 40));
    assert!(block_pair_allowed(Some(&[1 << 40]), 0, 41));
}

#[test]
fn batches_of_queries_concatenate() {
    let rows: Vec<Vec<u32>> = (0..7).map(|q| bits(&noise(90, 50 + q))).collect();
    let (scores, indices) = search(&rows, 90, 5, None);
    let first: Vec<Vec<u32>> = rows[..4].to_vec();
    let rest: Vec<Vec<u32>> = rows[4..].to_vec();
    let (mut s, mut i) = search(&first, 90, 5, None);
    let (s2, i2) = search(&rest, 90, 5, None);
    s.extend(s2);
    i.extend(i2);
    assert_eq!((scores, indices), (s, i));
}

#[test]
fn scores_of_masked_slots_do_not_matter() {
    let n = 200;
    let flags: Vec<bool> = (0..n).map(|i| i / 32 == 3 || i % 11 == 0).collect();
    let words = pack_mask(&flags);
    let row = noise(n, 91);
    let blanked: Vec<f32> = (0..n).map(|i| if flags[i] { row[i] } else { f32::NAN }).collect();
    assert_eq!(
        search(&vec![bits(&row)], n, 12, Some(&words)),
        search(&vec![bits(&blanked)], n, 12, Some(&words))
    );
}

#[test]
fn nan_outside_the_mask_does_not_matter() {
    let row = bits(&[f32::NAN, 4.0, f32::NAN, 9.0, -1.0, f32::NAN, 6.0]);
    let flags: Vec<bool> = row.iter().map(|&b| !bits_are_nan(b)).collect();
    let words = pack_mask(&flags);
    let (scores, slots) = search(&vec![row], 7, 2, Some(&words));
    assert_eq!(slots, vec![3, 6]);
    assert_eq!(scores, bits(&[9.0, 6.0]));
}
