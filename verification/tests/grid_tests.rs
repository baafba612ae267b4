use tile_puzzle::grid::copy_grid;
use tile_puzzle::grid::flip_upside_down;
use tile_puzzle::grid::is_square_grid;
use tile_puzzle::grid::obtain_transformations;
use tile_puzzle::grid::rotate_left;

fn grid_of(rows: &[&str]) -> Vec<Vec<bool>> {
    rows.iter().map(|r| r.chars().map(|c| c == '#').collect()).collect()
}

#[test]
fn rotate_left_quarter_turn() {
    let g = grid_of(&["#..", "##.", ".#."]);
    let r = rotate_left(&g, 3);
    // out[r][c] == in[c][n-1-r]: the right column becomes the top row
    assert_eq!(r, grid_of(&["...", ".##", "##."]));
}

#[test]
fn rotate_four_times_is_identity() {
    let g = grid_of(&["#..#", ".##.", "#.#.", "...#"]);
    let mut t = g.clone();
    for _ in 0..4 {
        t = rotate_left(&t, 4);
    }
    assert_eq!(t, g);
}

#[test]
fn flip_twice_is_identity() {
    let g = grid_of(&["#..#", ".##.", "#.#.", "...#"]);
    let once = flip_upside_down(&g, 4);
    assert_eq!(once, grid_of(&["...#", "#.#.", ".##.", "#..#"]));
    let twice = flip_upside_down(&once, 4);
    assert_eq!(twice, g);
}

#[test]
fn transformations_are_eight_and_start_with_identity() {
    let g = grid_of(&["#.", ".."]);
    let vs = obtain_transformations(g.clone());
    assert_eq!(vs.len(), 8);
    assert_eq!(vs[0], g);
    // the four rotations of a 2x2 grid with one set pixel visit all corners
    assert_eq!(vs[1], grid_of(&["..", "#."]));
    assert_eq!(vs[2], grid_of(&["..", ".#"]));
    assert_eq!(vs[3], grid_of(&[".#", ".."]));
    // the mirrored half: each is the upside-down image of the rotation
    assert_eq!(vs[4], grid_of(&["..", "#."]));
    assert_eq!(vs[5], grid_of(&["#.", ".."]));
    assert_eq!(vs[6], grid_of(&[".#", ".."]));
    assert_eq!(vs[7], grid_of(&["..", ".#"]));
}

#[test]
fn square_grid_check() {
    assert!(is_square_grid(&grid_of(&["##", ".."])));
    assert!(!is_square_grid(&grid_of(&["##", "."])));
    assert!(is_square_grid(&grid_of(&[])));
}

#[test]
fn copy_grid_equal() {
    let g = grid_of(&["#.#", "..#", "###"]);
    assert_eq!(copy_grid(&g), g);
}
