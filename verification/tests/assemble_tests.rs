use tile_puzzle::assemble::reconstruct_image;
use tile_puzzle::assemble::tile_by_down;
use tile_puzzle::assemble::tile_by_right;
use tile_puzzle::assemble::PuzzleError;
use tile_puzzle::grid::flip_upside_down;
use tile_puzzle::grid::obtain_transformations;
use tile_puzzle::grid::rotate_left;
use tile_puzzle::matching::corner_product;
use tile_puzzle::matching::tile_adjacents;
use tile_puzzle::matching::Tile;

fn grid_of(rows: &[&str]) -> Vec<Vec<bool>> {
    rows.iter().map(|r| r.chars().map(|c| c == '#').collect()).collect()
}

// A 2x2 puzzle of side-4 tiles with exactly one solution up to symmetry:
// the intended arrangement is
//     A B
//     C D
// and every touching border is pixel-equal in that arrangement.
fn tile_a() -> Vec<Vec<bool>> {
    grid_of(&["#..#", "..#.", ".#..", "...#"])
}

fn tile_b() -> Vec<Vec<bool>> {
    grid_of(&["#..#", "..##", ".#.#", "#.##"])
}

fn tile_c() -> Vec<Vec<bool>> {
    grid_of(&["...#", ".##.", "##.#", ".##."])
}

fn tile_d() -> Vec<Vec<bool>> {
    grid_of(&["#.##", "....", "#.##", "...."])
}

// The interior pixels of the intended arrangement, borders stripped.
fn expected_composite() -> Vec<Vec<bool>> {
    grid_of(&[".#.#", "#.#.", "##..", "#..#"])
}

// The tiles in shuffled order and orientations, as a loader would hand
// them over.
fn puzzle_tiles() -> (Vec<usize>, Vec<Tile>) {
    let c = rotate_left(&tile_c(), 4);
    let b = flip_upside_down(&tile_b(), 4);
    let tiles = vec![
        Tile { id: 11, grids: obtain_transformations(c) },
        Tile { id: 5, grids: obtain_transformations(tile_a()) },
        Tile { id: 17, grids: obtain_transformations(tile_d()) },
        Tile { id: 7, grids: obtain_transformations(b) },
    ];
    (vec![11, 5, 17, 7], tiles)
}

#[test]
fn puzzle_matcher_finds_exactly_the_four_adjacencies() {
    let (_, tiles) = puzzle_tiles();
    let pairs = tile_puzzle::matching::matches(&tiles);
    assert_eq!(pairs, vec![(11, 5), (11, 17), (5, 7), (17, 7)]);
}

#[test]
fn puzzle_corner_product_is_product_of_all_four_ids() {
    let (ids, tiles) = puzzle_tiles();
    let pairs = tile_puzzle::matching::matches(&tiles);
    let adjs = tile_adjacents(&ids, &pairs);
    for e in &adjs {
        assert_eq!(e.1, 2);
    }
    assert_eq!(corner_product(&adjs), Some(11 * 5 * 17 * 7));
}

#[test]
fn puzzle_composite_is_an_orientation_of_the_expected_image() {
    let (ids, tiles) = puzzle_tiles();
    let pairs = tile_puzzle::matching::matches(&tiles);
    let img = reconstruct_image(&ids, &pairs, &tiles).expect("the puzzle must assemble");
    assert_eq!(img.len(), 4);
    for row in &img {
        assert_eq!(row.len(), 4);
    }
    let set: usize = img.iter().flatten().filter(|p| **p).count();
    assert_eq!(set, 8);
    let orientations = obtain_transformations(expected_composite());
    assert!(orientations.contains(&img));
}

#[test]
fn pipeline_is_deterministic_across_runs() {
    let (ids, tiles) = puzzle_tiles();
    let pairs1 = tile_puzzle::matching::matches(&tiles);
    let pairs2 = tile_puzzle::matching::matches(&tiles);
    assert_eq!(pairs1, pairs2);
    let adjs1 = tile_adjacents(&ids, &pairs1);
    let adjs2 = tile_adjacents(&ids, &pairs2);
    assert_eq!(adjs1, adjs2);
    assert_eq!(corner_product(&adjs1), corner_product(&adjs2));
    let img1 = reconstruct_image(&ids, &pairs1, &tiles).expect("assembles");
    let img2 = reconstruct_image(&ids, &pairs2, &tiles).expect("assembles");
    assert_eq!(img1, img2);
}

#[test]
fn non_square_tile_count_is_malformed() {
    let tiles = vec![
        Tile { id: 1, grids: obtain_transformations(tile_a()) },
        Tile { id: 2, grids: obtain_transformations(tile_b()) },
    ];
    let ids = vec![1, 2];
    let pairs = vec![(1usize, 2usize)];
    assert_eq!(reconstruct_image(&ids, &pairs, &tiles), Err(PuzzleError::MalformedInstance));
}

#[test]
fn impossible_adjacency_degree_is_malformed() {
    let (ids, tiles) = puzzle_tiles();
    // the same pair repeated five times drives one degree out of range
    let pairs = vec![(11usize, 5usize); 5];
    assert_eq!(reconstruct_image(&ids, &pairs, &tiles), Err(PuzzleError::MalformedInstance));
}

#[test]
fn wrong_corner_count_is_malformed() {
    let (ids, tiles) = puzzle_tiles();
    // a complete graph on the four tiles gives every tile degree three:
    // the degrees are each in range, but a grid needs exactly four corners
    let pairs = vec![(11usize, 5usize), (11, 17), (11, 7), (5, 17), (5, 7), (17, 7)];
    assert_eq!(reconstruct_image(&ids, &pairs, &tiles), Err(PuzzleError::MalformedInstance));
}

#[test]
fn borders_that_never_agree_are_unplaceable() {
    let zeros = grid_of(&["....", "....", "....", "...."]);
    let ones = grid_of(&["####", "####", "####", "####"]);
    let tiles = vec![
        Tile { id: 1, grids: obtain_transformations(zeros.clone()) },
        Tile { id: 2, grids: obtain_transformations(ones.clone()) },
        Tile { id: 3, grids: obtain_transformations(zeros) },
        Tile { id: 4, grids: obtain_transformations(ones) },
    ];
    let ids = vec![1, 2, 3, 4];
    // a plausible cycle of claimed adjacencies that the pixels cannot honour
    let pairs = vec![(1usize, 2usize), (2, 3), (3, 4), (4, 1)];
    assert_eq!(reconstruct_image(&ids, &pairs, &tiles), Err(PuzzleError::Unplaceable));
}

#[test]
fn empty_tile_set_yields_an_empty_composite() {
    let ids: Vec<usize> = Vec::new();
    let pairs: Vec<(usize, usize)> = Vec::new();
    let tiles: Vec<Tile> = Vec::new();
    assert_eq!(reconstruct_image(&ids, &pairs, &tiles), Ok(Vec::new()));
}

#[test]
fn a_single_unmatched_tile_is_malformed() {
    let tiles = vec![Tile { id: 3, grids: obtain_transformations(tile_a()) }];
    let ids = vec![3];
    let pairs: Vec<(usize, usize)> = Vec::new();
    // a lone tile has adjacency degree zero, outside the allowed range
    assert_eq!(reconstruct_image(&ids, &pairs, &tiles), Err(PuzzleError::MalformedInstance));
}

#[test]
fn tile_by_right_matches_columns() {
    let left = grid_of(&["..", "#."]);
    // right column of `left` is [., .]; the second candidate's left column
    // is the first to equal it
    let poss = vec![grid_of(&["##", "##"]), grid_of(&[".#", ".."])];
    assert_eq!(tile_by_right(&left, &poss), Some(1));
    let nothing = vec![grid_of(&["##", "##"])];
    assert_eq!(tile_by_right(&left, &nothing), None);
}

#[test]
fn tile_by_down_matches_rows() {
    let up = grid_of(&["..", "#."]);
    // bottom row of `up` is [#, .]
    let poss = vec![grid_of(&["#.", ".."]), grid_of(&["..", ".."])];
    assert_eq!(tile_by_down(&up, &poss), Some(0));
    let nothing = vec![grid_of(&["##", ".."])];
    assert_eq!(tile_by_down(&up, &nothing), None);
}
