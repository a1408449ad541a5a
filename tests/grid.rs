use grid_games::grid::Arr2d;
use grid_games::grid::Cell;
use grid_games::grid::GridError;
use grid_games::grid::ParseError;

const SAMPLE: &str = r#"
            yyynn
            nynny
            ynnyn
"#;

fn sample() -> Arr2d<bool> {
    Arr2d::from_str(SAMPLE).expect("Arr2d should have parsed test input")
}

fn assert_cells(result: &Vec<Cell<bool>>, expected: Vec<(usize, usize, bool)>) {
    assert_eq!(expected.len(), result.len(), "Results should only contain expected cells");
    for (row, column, value) in expected {
        let expected_cell = Cell::from(row, column, value);
        assert!(result.contains(&expected_cell), "result {result:?} does not contain {expected_cell:?}");
    }
}

#[test]
fn test_from_str() {
    let expected: Arr2d<bool> = Arr2d::from_contents(vec![
        vec![true, true, true, false, false],
        vec![false, true, false, false, true],
        vec![true, false, false, true, false],
    ]);
    let result = sample();
    assert_eq!(result, expected);
}

#[test]
fn arr2d_test_expand() {
    let a: Arr2d<bool> = Arr2d::new();
    let expected: Arr2d<bool> = Arr2d::from_contents(vec![
        vec![false, false, false],
        vec![false, false, false],
        vec![false, false, false],
        vec![false, false, false],
        vec![false, false, false],
    ]);
    let result = a.expand(3, 5, false);
    assert_eq!(expected, result);
}

#[test]
fn arr2d_test_eq() {
    let a: Arr2d<bool> = Arr2d::from_contents(vec![vec![true, false]]);
    let b: Arr2d<bool> = Arr2d::from_contents(vec![vec![true, false]]);
    assert_eq!(a, b);
    let mut c: Arr2d<bool> = Arr2d::new();
    c.add_row(vec![true, false]).unwrap();
    assert_eq!(a, c);
}

#[test]
fn arr2d_test_neq() {
    let a: Arr2d<bool> = Arr2d::from_contents(vec![vec![true, false]]);
    let b: Arr2d<bool> = Arr2d::new();
    assert_ne!(a, b);
}

#[test]
fn neighbours_of_corner_middle_and_edge() {
    let input = sample();
    let cases: Vec<((usize, usize), Vec<(usize, usize, bool)>)> = vec![
        ((0, 0), vec![(0, 1, true), (1, 0, false)]),
        ((1, 1), vec![(0, 1, true), (2, 1, false), (1, 0, false), (1, 2, false)]),
        ((2, 2), vec![(2, 1, false), (1, 2, false), (2, 3, true)]),
        ((2, 4), vec![(2, 3, true), (1, 4, true)]),
        ((0, 4), vec![(0, 3, false), (1, 4, true)]),
    ];
    for ((row, column), expected) in cases {
        let result = input.get_neighbours(row, column);
        assert_cells(&result, expected);
    }
}

#[test]
fn flood_fill_finds_whole_region() {
    let input = sample();
    let result = input.flood_fill(1, 1).unwrap();
    assert_cells(&result, vec![(1, 1, true), (0, 0, true), (0, 1, true), (0, 2, true)]);
    let result = input.flood_fill(2, 1).unwrap();
    assert_cells(
        &result,
        vec![(2, 1, false), (2, 2, false), (1, 2, false), (1, 3, false), (0, 3, false), (0, 4, false)],
    );
}

#[test]
fn flood_fill_of_single_cell_region() {
    let input = sample();
    let result = input.flood_fill(2, 0).unwrap();
    assert_cells(&result, vec![(2, 0, true)]);
}

#[test]
fn flood_fill_out_of_range() {
    let input = sample();
    assert_eq!(input.flood_fill(3, 0).unwrap_err(), GridError::InvalidIndex);
    assert_eq!(input.flood_fill(0, 5).unwrap_err(), GridError::InvalidIndex);
}

#[test]
fn perimeter_of_regions() {
    let input = sample();
    let result = input.get_perimeter(1, 1).unwrap();
    assert_cells(&result, vec![(1, 0, false), (0, 3, false), (2, 1, false), (1, 2, false)]);
    let result = input.get_perimeter(2, 1).unwrap();
    assert_cells(&result, vec![(2, 0, true), (2, 3, true), (1, 1, true), (1, 4, true), (0, 2, true)]);
    assert_eq!(input.get_perimeter(9, 9).unwrap_err(), GridError::InvalidIndex);
}

#[test]
fn get_and_set_check_bounds() {
    let mut a = sample();
    assert_eq!(a.get(0, 3), Ok(false));
    assert_eq!(a.set(0, 3, true), Ok(()));
    assert_eq!(a.get(0, 3), Ok(true));
    assert_eq!(a.get(3, 0), Err(GridError::OutOfRange));
    assert_eq!(a.set(0, 5, true), Err(GridError::OutOfRange));
    assert_eq!(a.get_cell(2, 4).unwrap().value(), false);
}

#[test]
fn expand_keeps_identities_and_gives_fresh_ones() {
    let a = sample();
    let before = a.get_cell(1, 2).unwrap().id();
    let b = a.expand(6, 2, true);
    assert_eq!(b.rows(), 2);
    assert_eq!(b.columns(1), 6);
    assert_eq!(b.get_cell(1, 2).unwrap().id(), before);
    assert_eq!(b.get(1, 2), Ok(false));
    assert_eq!(b.get(1, 5), Ok(true));
    let fresh = b.get_cell(1, 5).unwrap().id();
    assert!(fresh >= a.next_id());
    let mut ids: Vec<u64> = b.all_cells().iter().map(|c| c.id()).collect();
    ids.sort();
    ids.dedup();
    assert_eq!(ids.len(), 12);
}

#[test]
fn to_str_writes_one_line_per_row() {
    let a = sample();
    assert_eq!(a.to_str(), "yyynn\nnynny\nynnyn\n");
}

#[test]
fn from_str_errors() {
    let bad: Result<Arr2d<bool>, ParseError> = Arr2d::from_str("yyn\nyqn\n");
    assert_eq!(bad.unwrap_err(), ParseError::InvalidCharacter);
    let ragged: Result<Arr2d<bool>, ParseError> = Arr2d::from_str("yyn\nyn\n");
    assert_eq!(ragged.unwrap_err(), ParseError::InvalidValue);
}

#[test]
fn add_row_of_wrong_length_is_refused() {
    let mut a: Arr2d<bool> = Arr2d::from_contents(vec![vec![true, false]]);
    assert_eq!(a.add_row(vec![true]), Err(GridError::OutOfRange));
    assert_eq!(a.rows(), 1);
}
