//! Storage, removal, ids, errors and stored parts.
use turbovec::header::{
    check_header, check_id_map_header, check_index_header, id_map_header, index_header, FORMAT_VERSION,
};
use turbovec::{AddError, Encoded, IdMapIndex, IdMapParts, IndexParts, LoadError, SearchResults, TurboQuantIndex};

/// `n` vectors of eight coordinates of two bits, told apart by `tag`.
fn encoded(n: usize, tag: u8) -> Encoded {
    Encoded {
        packed_codes: (0..2 * n).map(|i| tag + i as u8).collect(),
        scales: (0..n).map(|i| 1000 + tag as u32 + i as u32).collect(),
    }
}

fn three_vectors() -> TurboQuantIndex {
    let mut index = TurboQuantIndex::new(8, 2);
    index.add(24, encoded(3, 10));
    index
}

#[test]
fn vectors_are_appended_in_order() {
    let mut index = three_vectors();
    index.add(0, encoded(0, 0));
    index.add(8, encoded(1, 50));
    assert_eq!(index.len(), 4);
    assert!(!index.is_empty());
    assert_eq!(index.packed_codes(), &[10, 11, 12, 13, 14, 15, 50, 51]);
    assert_eq!(index.scales(), &[1010, 1011, 1012, 1050]);
}

#[test]
fn swap_remove_moves_the_last_vector() {
    let mut index = three_vectors();
    assert_eq!(index.swap_remove(0), 2);
    assert_eq!(index.packed_codes(), &[14, 15, 12, 13]);
    assert_eq!(index.scales(), &[1012, 1011]);
    assert_eq!(index.swap_remove(1), 1);
    assert_eq!(index.packed_codes(), &[14, 15]);
    assert_eq!(index.swap_remove(0), 0);
    assert!(index.is_empty());
    assert_eq!(index.dim_opt(), Some(8));
}

#[test]
fn changes_drop_the_blocked_layout() {
    let mut index = three_vectors();
    assert!(index.blocked().is_none());
    index.prepare(vec![7; 64]);
    assert_eq!(index.blocked(), Some(&vec![7; 64]));
    index.prepare(vec![8; 64]);
    assert_eq!(index.blocked(), Some(&vec![7; 64]));
    index.add(8, encoded(1, 50));
    assert!(index.blocked().is_none());
    index.prepare(vec![8; 64]);
    index.swap_remove(0);
    assert!(index.blocked().is_none());
    index.prepare(vec![9; 64]);
    assert!(index.add_2d(8, 16, encoded(1, 0)).is_err());
    assert_eq!(index.blocked(), Some(&vec![9; 64]));
}

#[test]
fn dimension_errors_leave_the_index_alone() {
    let mut index = three_vectors();
    let err = AddError::DimMismatch { existing: 8, got: 16 };
    assert_eq!(index.check_add_2d(16, 16), Err(err));
    assert_eq!(index.add_2d(16, 16, encoded(1, 0)), Err(err));
    assert_eq!(index.len(), 3);
    let mut lazy = TurboQuantIndex::new_lazy(2);
    assert_eq!(lazy.add_2d(12, 12, encoded(1, 0)), Err(AddError::DimNotMultipleOf8(12)));
    assert_eq!(lazy.dim_opt(), None);
    assert_eq!(lazy.add_2d(16, 8, encoded(2, 5)), Ok(()));
    assert_eq!(lazy.dim_opt(), Some(8));
    assert_eq!(lazy.packed_codes(), &[5, 6, 7, 8]);
    assert_eq!(lazy.check_add_2d(8, 8), Ok(()));
}

#[test]
fn a_buffer_that_is_no_whole_number_of_vectors_is_refused() {
    let mut index = TurboQuantIndex::new(8, 4);
    let err = AddError::VectorBufferNotMultipleOfDim { vectors_len: 9, dim: 8 };
    assert_eq!(index.check_add_2d(9, 8), Err(err));
    assert_eq!(index.add_2d(9, 8, encoded(1, 0)), Err(err));
    assert_eq!(index.len(), 0);
    assert_eq!(index.add_2d(9, 16, encoded(1, 0)), Err(AddError::DimMismatch { existing: 8, got: 16 }));
    let mut lazy = TurboQuantIndex::new_lazy(2);
    assert_eq!(lazy.add_2d(9, 12, encoded(1, 0)), Err(AddError::DimNotMultipleOf8(12)));
    assert_eq!(lazy.add_2d(9, 8, encoded(1, 0)), Err(err));
    assert_eq!(
        lazy.add_2d(8, 0, encoded(1, 0)),
        Err(AddError::VectorBufferNotMultipleOfDim { vectors_len: 8, dim: 0 })
    );
    assert_eq!(lazy.dim_opt(), None);
}

#[test]
fn results_are_cut_up_by_query() {
    let res = SearchResults { scores: vec![1, 2, 3, 4], indices: vec![5, 6, 7, 8], nq: 2, k: 2 };
    assert_eq!(res.scores_for_query(0), &[1, 2]);
    assert_eq!(res.scores_for_query(1), &[3, 4]);
    assert_eq!(res.indices_for_query(0), &[5, 6]);
    assert_eq!(res.indices_for_query(1), &[7, 8]);
    let none = SearchResults { scores: vec![], indices: vec![], nq: 3, k: 0 };
    assert!(none.scores_for_query(2).is_empty());
}

#[test]
fn search_takes_the_number_of_queries_from_their_length() {
    let index = three_vectors();
    let rows = vec![vec![1.0f32.to_bits(), 3.0f32.to_bits(), 2.0f32.to_bits()]; 2];
    let res = index.search(16, &rows, 2);
    assert_eq!((res.nq, res.k), (2, 2));
    assert_eq!(res.indices, vec![1, 2, 1, 2]);
    let res = index.search_with_mask(16, &rows, 9, Some(&[true, false, true]));
    assert_eq!((res.nq, res.k), (2, 2));
    assert_eq!(res.indices, vec![2, 0, 2, 0]);
    let res = index.search(0, &Vec::new(), 2);
    assert_eq!((res.nq, res.k, res.scores.len()), (0, 2, 0));
}

#[test]
fn results_per_query_are_cut_down_to_the_allowed_slots() {
    let index = three_vectors();
    assert_eq!(index.effective_k(2, None), 2);
    assert_eq!(index.effective_k(9, None), 3);
    assert_eq!(index.effective_k(9, Some(&[true, false, true])), 2);
    assert_eq!(index.effective_k(9, Some(&[false; 3])), 0);
    assert_eq!(TurboQuantIndex::new_lazy(2).effective_k(9, None), 0);
}

#[test]
fn stored_parts_restore_the_index() {
    let index = three_vectors();
    let parts = index.write();
    assert!(parts.is_consistent());
    assert_eq!((parts.bit_width, parts.dim, parts.n_vectors), (2, 8, 3));
    let loaded = TurboQuantIndex::load(parts);
    assert_eq!(loaded.packed_codes(), index.packed_codes());
    assert_eq!(loaded.scales(), index.scales());
    assert_eq!((loaded.len(), loaded.dim(), loaded.bit_width()), (3, 8, 2));
    assert!(loaded.blocked().is_none());
    let lazy = TurboQuantIndex::new_lazy(3).write();
    assert_eq!((lazy.dim, lazy.n_vectors), (0, 0));
    assert_eq!(TurboQuantIndex::load(lazy).dim_opt(), None);
}

#[test]
fn parts_that_do_not_fit_together() {
    let parts = |bit_width, dim, n_vectors, bytes: usize, scales: usize| IndexParts {
        bit_width,
        dim,
        n_vectors,
        packed_codes: vec![0; bytes],
        scales: vec![0; scales],
    };
    assert!(parts(2, 8, 3, 6, 3).is_consistent());
    assert!(parts(4, 0, 0, 0, 0).is_consistent());
    assert!(!parts(1, 8, 3, 3, 3).is_consistent());
    assert!(!parts(5, 8, 3, 15, 3).is_consistent());
    assert!(!parts(2, 12, 2, 6, 2).is_consistent());
    assert!(!parts(2, 8, 3, 5, 3).is_consistent());
    assert!(!parts(2, 8, 3, 6, 2).is_consistent());
    assert!(!parts(2, 0, 1, 0, 1).is_consistent());
    assert!(!parts(2, 0, 0, 1, 0).is_consistent());
}

fn named() -> IdMapIndex {
    let mut index = IdMapIndex::new(8, 2);
    index.add_with_ids(24, &[70, 80, 90], encoded(3, 10)).unwrap();
    index
}

#[test]
fn ids_stay_with_their_vectors() {
    let mut index = named();
    assert!(index.remove(70));
    assert!(!index.remove(70));
    assert_eq!(index.index().packed_codes(), &[14, 15, 12, 13]);
    let rows = vec![vec![1.0f32.to_bits(), 2.0f32.to_bits()]];
    let (scores, ids) = index.search(8, &rows, 5);
    assert_eq!(ids, vec![80, 90]);
    assert_eq!(scores, vec![2.0f32.to_bits(), 1.0f32.to_bits()]);
    index.add_with_ids(8, &[70], encoded(1, 40)).unwrap();
    assert_eq!(index.index().packed_codes(), &[14, 15, 12, 13, 40, 41]);
    assert!(index.contains(70));
    assert_eq!(index.len(), 3);
    assert!(index.remove(70));
    assert_eq!(index.index().packed_codes(), &[14, 15, 12, 13]);
}

#[test]
fn every_way_in_which_adding_with_ids_fails() {
    let mut index = named();
    let n = |index: &IdMapIndex| (index.len(), index.index().packed_codes().len());
    assert_eq!(
        index.add_with_ids(9, &[1], encoded(1, 0)),
        Err(AddError::VectorBufferNotMultipleOfDim { vectors_len: 9, dim: 8 })
    );
    assert_eq!(
        index.add_with_ids_2d(8, 0, &[1], encoded(1, 0)),
        Err(AddError::VectorBufferNotMultipleOfDim { vectors_len: 8, dim: 0 })
    );
    assert_eq!(
        index.add_with_ids(16, &[1], encoded(2, 0)),
        Err(AddError::IdsCountMismatch { expected: 2, got: 1 })
    );
    assert_eq!(index.add_with_ids(16, &[1, 80], encoded(2, 0)), Err(AddError::IdAlreadyPresent(80)));
    assert_eq!(index.add_with_ids(24, &[1, 2, 1], encoded(3, 0)), Err(AddError::IdAlreadyPresent(1)));
    assert_eq!(
        index.add_with_ids_2d(16, 16, &[1], encoded(1, 0)),
        Err(AddError::DimMismatch { existing: 8, got: 16 })
    );
    assert_eq!(n(&index), (3, 6));
    assert!(!index.contains(1));
    let mut lazy = IdMapIndex::new_lazy(2);
    assert_eq!(lazy.add_with_ids_2d(12, 12, &[5], encoded(1, 0)), Err(AddError::DimNotMultipleOf8(12)));
    assert!(lazy.is_empty() && !lazy.contains(5));
    assert_eq!(lazy.dim_opt(), None);
}

#[test]
fn an_allowlist_counts_an_id_once() {
    let index = named();
    let rows = vec![vec![3.0f32.to_bits(), 2.0f32.to_bits(), 1.0f32.to_bits()]];
    let (scores, ids) = index.search_with_allowlist(8, &rows, 5, Some(&[90, 80, 90]));
    assert_eq!(ids, vec![80, 90]);
    assert_eq!(scores, vec![2.0f32.to_bits(), 1.0f32.to_bits()]);
}

#[test]
fn stored_ids_restore_the_index() {
    let mut index = named();
    index.remove(80);
    index.prepare(vec![0; 64]);
    assert!(index.index().blocked().is_some());
    let parts = index.write();
    assert!(parts.is_consistent());
    assert_eq!(parts.ids, vec![70, 90]);
    let loaded = IdMapIndex::load(parts).unwrap();
    assert_eq!(loaded.index().packed_codes(), index.index().packed_codes());
    assert!(loaded.contains(90) && !loaded.contains(80));
    assert_eq!((loaded.len(), loaded.dim(), loaded.bit_width()), (2, 8, 2));
    assert!(loaded.index().blocked().is_none());
}

#[test]
fn stored_ids_that_repeat_are_refused() {
    let mut parts: IdMapParts = named().write();
    parts.ids[2] = 70;
    assert!(parts.is_consistent());
    assert!(matches!(IdMapIndex::load(parts), Err(LoadError::DuplicateIds)));
    let mut short = named().write();
    short.ids.pop();
    assert!(!short.is_consistent());
}

#[test]
fn preparing_keeps_codes_and_scales() {
    let mut index = three_vectors();
    let (codes, scales) = (index.packed_codes().to_vec(), index.scales().to_vec());
    index.prepare(vec![7; 64]);
    assert_eq!(index.packed_codes(), codes.as_slice());
    assert_eq!(index.scales(), scales.as_slice());
    let mut lazy = TurboQuantIndex::new_lazy(2);
    lazy.prepare(Vec::new());
    assert!(lazy.blocked().is_none());
    assert_eq!(lazy.dim_opt(), None);
}

#[test]
fn headers_are_checked() {
    assert_eq!(FORMAT_VERSION, 2);
    assert_eq!(index_header(), b"TVPI\x02");
    assert_eq!(id_map_header(), b"TVIM\x02");
    for rest in ["", "x", "more bytes"] {
        let mut bytes = index_header();
        bytes.extend(rest.bytes());
        assert_eq!(check_index_header(&bytes), Ok(()));
        assert_eq!(check_id_map_header(&bytes), Err(LoadError::WrongMagic));
        let mut bytes = id_map_header();
        bytes.extend(rest.bytes());
        assert_eq!(check_id_map_header(&bytes), Ok(()));
        assert_eq!(check_index_header(&bytes), Err(LoadError::WrongMagic));
    }
    assert_eq!(check_index_header(b"TVPI\x01rest"), Err(LoadError::UnsupportedVersion));
    assert_eq!(check_index_header(b"TVPI\x03"), Err(LoadError::UnsupportedVersion));
    assert_eq!(check_index_header(b"TVPI"), Err(LoadError::UnsupportedVersion));
    assert_eq!(check_index_header(b"TVP"), Err(LoadError::WrongMagic));
    assert_eq!(check_index_header(b""), Err(LoadError::WrongMagic));
    assert_eq!(check_id_map_header(b"TVIM\x01"), Err(LoadError::UnsupportedVersion));
    assert_eq!(check_header(b"\x02", b""), Ok(()));
    assert_eq!(check_header(b"ab\x02", b"ab"), Ok(()));
    assert_eq!(check_header(b"", b""), Err(LoadError::UnsupportedVersion));
}

#[test]
fn found_ids_score_no_lower_than_listed_ids_left_out() {
    let index = named();
    let bits = |values: &[f32]| -> Vec<u32> { values.iter().map(|v| v.to_bits()).collect() };
    let rows = vec![bits(&[3.0, 1.0, 2.0]), bits(&[f32::NAN, 1.0, 2.0])];
    let (scores, ids) = index.search_with_allowlist(8, &rows[..1].to_vec(), 2, None);
    assert_eq!(ids, vec![70, 90]);
    assert_eq!(scores, bits(&[3.0, 2.0]));
    let (scores, ids) = index.search_with_allowlist(16, &rows, 1, Some(&[80, 90]));
    assert_eq!(ids, vec![90, 90]);
    assert_eq!(scores, bits(&[2.0, 2.0]));
}
