use tile_puzzle::grid::flip_upside_down;
use tile_puzzle::grid::obtain_transformations;
use tile_puzzle::matching::corner_product;
use tile_puzzle::matching::count_degree;
use tile_puzzle::matching::tile_adjacents;
use tile_puzzle::matching::Tile;

fn grid_of(rows: &[&str]) -> Vec<Vec<bool>> {
    rows.iter().map(|r| r.chars().map(|c| c == '#').collect()).collect()
}

fn tile(id: usize, rows: &[&str]) -> Tile {
    Tile { id, grids: obtain_transformations(grid_of(rows)) }
}

#[test]
fn matcher_finds_shared_border_under_any_orientation() {
    // the right column of the first equals the left column of the second
    let a = tile(5, &["#..#", ".#.#", "..##", "#..#"]);
    // flip the second before building its variants: a shared edge must
    // still be found, since the eight variants cover both directions
    let b_grid = flip_upside_down(&grid_of(&["#.##", "#...", "##..", "#..."]), 4);
    let b = Tile { id: 9, grids: obtain_transformations(b_grid) };
    let c = tile(13, &["....", "....", "....", "...."]);
    let tiles = vec![a, b, c];
    let pairs = tile_puzzle::matching::matches(&tiles);
    assert_eq!(pairs, vec![(5, 9)]);
}

#[test]
fn matcher_reports_no_pair_for_unrelated_tiles() {
    let a = tile(1, &["##", "##"]);
    let b = tile(2, &["..", ".."]);
    let tiles = vec![a, b];
    let pairs = tile_puzzle::matching::matches(&tiles);
    assert!(pairs.is_empty());
}

#[test]
fn degree_counts_both_sides_of_a_pair() {
    let pairs = vec![(1usize, 2usize), (2, 3), (3, 1), (1, 4)];
    assert_eq!(count_degree(&pairs, 1), 3);
    assert_eq!(count_degree(&pairs, 2), 2);
    assert_eq!(count_degree(&pairs, 4), 1);
    assert_eq!(count_degree(&pairs, 9), 0);
}

#[test]
fn classifier_on_classic_three_by_three_layout() {
    // the adjacency pairs of the known 3x3 arrangement
    //   1951 2311 3079
    //   2729 1427 2473
    //   2971 1489 1171
    let pairs: Vec<(usize, usize)> = vec![
        (1951, 2311),
        (2311, 3079),
        (2729, 1427),
        (1427, 2473),
        (2971, 1489),
        (1489, 1171),
        (1951, 2729),
        (2729, 2971),
        (2311, 1427),
        (1427, 1489),
        (3079, 2473),
        (2473, 1171),
    ];
    let ids: Vec<usize> = vec![1951, 2311, 3079, 2729, 1427, 2473, 2971, 1489, 1171];
    let adjs = tile_adjacents(&ids, &pairs);
    let corners: Vec<usize> = adjs.iter().filter(|e| e.1 == 2).map(|e| e.0).collect();
    let edges: Vec<usize> = adjs.iter().filter(|e| e.1 == 3).map(|e| e.0).collect();
    let interior: Vec<usize> = adjs.iter().filter(|e| e.1 == 4).map(|e| e.0).collect();
    assert_eq!(corners, vec![1951, 3079, 2971, 1171]);
    assert_eq!(edges, vec![2311, 2729, 2473, 1489]);
    assert_eq!(interior, vec![1427]);
    assert_eq!(corner_product(&adjs), Some(20899048083289));
}

#[test]
fn corner_product_multiplies_only_degree_two_entries() {
    let adjs = vec![(7usize, 2usize), (3, 3), (5, 2), (11, 4)];
    assert_eq!(corner_product(&adjs), Some(35));
    let none_corner = vec![(7usize, 3usize), (3, 4)];
    assert_eq!(corner_product(&none_corner), Some(1));
}

#[test]
fn corner_product_reports_overflow_as_none() {
    let adjs = vec![(usize::MAX, 2usize), (usize::MAX, 2usize)];
    assert_eq!(corner_product(&adjs), None);
}
