use spreadsheet::ast_resolver::ASTResolver;
use spreadsheet::common_functions::{
    column_idx_to_string, get_cell_idx, index_to_string, string_to_index,
};
use spreadsheet::common_types::Index;

#[test]
fn test_get_cell_idx_reads_names() {
    assert_eq!(get_cell_idx("A1"), Some(Index { x: 0, y: 0 }));
    assert_eq!(get_cell_idx("B1"), Some(Index { x: 1, y: 0 }));
    assert_eq!(get_cell_idx("A2"), Some(Index { x: 0, y: 1 }));
    assert_eq!(get_cell_idx("Z1"), Some(Index { x: 25, y: 0 }));
    assert_eq!(get_cell_idx("AA12"), Some(Index { x: 26, y: 11 }));
    assert_eq!(get_cell_idx("AZ1"), Some(Index { x: 51, y: 0 }));
    assert_eq!(get_cell_idx("BA1"), Some(Index { x: 52, y: 0 }));
    assert_eq!(get_cell_idx("ZZ100"), Some(Index { x: 701, y: 99 }));
    assert_eq!(get_cell_idx("AAA1"), Some(Index { x: 702, y: 0 }));
    assert_eq!(get_cell_idx("A007"), Some(Index { x: 0, y: 6 }));
}

#[test]
fn test_get_cell_idx_refuses_what_is_no_name() {
    assert_eq!(get_cell_idx(""), None);
    assert_eq!(get_cell_idx("A"), None);
    assert_eq!(get_cell_idx("1"), None);
    assert_eq!(get_cell_idx("A0"), None);
    assert_eq!(get_cell_idx("A00"), None);
    assert_eq!(get_cell_idx("a1"), None);
    assert_eq!(get_cell_idx("A1B"), None);
    assert_eq!(get_cell_idx("A1 "), None);
    assert_eq!(get_cell_idx(" A1"), None);
    assert_eq!(get_cell_idx("A-1"), None);
    assert_eq!(get_cell_idx("A1.5"), None);
    assert_eq!(get_cell_idx("\u{c9}1"), None);
    assert_eq!(get_cell_idx("A\u{661}"), None);
}

#[test]
fn test_get_cell_idx_refuses_what_does_not_fit() {
    assert_eq!(get_cell_idx("A99999999999999999999999999"), None);
    assert_eq!(get_cell_idx("ZZZZZZZZZZZZZZZZZZZZZZZZZZZZ1"), None);
    assert_eq!(
        get_cell_idx(&format!("A{}", usize::MAX)),
        Some(Index { x: 0, y: usize::MAX - 1 })
    );
}

#[test]
fn test_resolver_reads_names_alike() {
    for name in ["A1", "AA12", "A0", "", "a1", "ZZ100"] {
        assert_eq!(ASTResolver::get_cell_idx(name), get_cell_idx(name));
        assert_eq!(string_to_index(name), get_cell_idx(name));
    }
}

#[test]
fn test_column_letters() {
    assert_eq!(column_idx_to_string(0), "A");
    assert_eq!(column_idx_to_string(25), "Z");
    assert_eq!(column_idx_to_string(26), "AA");
    assert_eq!(column_idx_to_string(27), "AB");
    assert_eq!(column_idx_to_string(51), "AZ");
    assert_eq!(column_idx_to_string(52), "BA");
    assert_eq!(column_idx_to_string(701), "ZZ");
    assert_eq!(column_idx_to_string(702), "AAA");
}

#[test]
fn test_index_to_string_names_cells() {
    assert_eq!(index_to_string(Index { x: 0, y: 0 }), "A1");
    assert_eq!(index_to_string(Index { x: 26, y: 11 }), "AA12");
    assert_eq!(index_to_string(Index { x: 25, y: 9 }), "Z10");
    assert_eq!(index_to_string(Index { x: 701, y: 99 }), "ZZ100");
    assert_eq!(
        index_to_string(Index { x: 0, y: usize::MAX }),
        format!("A{}", usize::MAX as u128 + 1)
    );
}

#[test]
fn test_names_round_trip() {
    for x in (0..10_000).step_by(7) {
        for y in [0, 1, 8, 9, 10, 98, 99, 100, 4_242, 9_998, 9_999] {
            let index = Index { x, y };
            assert_eq!(string_to_index(&index_to_string(index)), Some(index));
        }
    }
    for x in [0, 25, 26, 701, 702, 18_277, 18_278, 9_999] {
        for y in (0..10_000).step_by(13) {
            let index = Index { x, y };
            assert_eq!(string_to_index(&index_to_string(index)), Some(index));
        }
    }
}

#[test]
fn test_names_round_trip_at_the_limits() {
    let far = Index { x: usize::MAX - 1, y: usize::MAX - 1 };
    assert_eq!(string_to_index(&index_to_string(far)), Some(far));
    let beyond = Index { x: 0, y: usize::MAX };
    assert_eq!(string_to_index(&index_to_string(beyond)), None);
    let beyond = Index { x: usize::MAX, y: 0 };
    assert_eq!(string_to_index(&index_to_string(beyond)), None);
}
