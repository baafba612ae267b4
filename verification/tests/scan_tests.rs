use tile_puzzle::assemble::PuzzleError;
use tile_puzzle::grid::rotate_left;
use tile_puzzle::scan::find_pattern;

// The motif shape, drawn out: three rows of twenty columns.
const MOTIF_ROWS: [&str; 3] = [
    "..................#.",
    "#....##....##....###",
    ".#..#..#..#..#..#...",
];

fn stamp_motif(img: &mut Vec<Vec<bool>>, r: usize, c: usize) {
    for (dr, row) in MOTIF_ROWS.iter().enumerate() {
        for (dc, ch) in row.chars().enumerate() {
            if ch == '#' {
                img[r + dr][c + dc] = true;
            }
        }
    }
}

fn blank(side: usize) -> Vec<Vec<bool>> {
    vec![vec![false; side]; side]
}

#[test]
fn scanner_counts_pixels_outside_the_motif_instances() {
    let mut img = blank(24);
    stamp_motif(&mut img, 1, 2);
    stamp_motif(&mut img, 10, 3);
    let noise = [(0, 0), (5, 5), (7, 20), (15, 1), (20, 20), (22, 3), (23, 23)];
    for (r, c) in noise {
        img[r][c] = true;
    }
    assert_eq!(find_pattern(&img), Ok(7));
}

#[test]
fn scanner_finds_the_motif_in_a_rotated_image() {
    let mut img = blank(24);
    stamp_motif(&mut img, 1, 2);
    stamp_motif(&mut img, 10, 3);
    let noise = [(0, 0), (5, 5), (7, 20), (15, 1), (20, 20), (22, 3), (23, 23)];
    for (r, c) in noise {
        img[r][c] = true;
    }
    let rotated = rotate_left(&img, 24);
    assert_eq!(find_pattern(&rotated), Ok(7));
}

#[test]
fn scanner_reports_no_motif_in_an_empty_image() {
    let img: Vec<Vec<bool>> = Vec::new();
    assert_eq!(find_pattern(&img), Err(PuzzleError::NoMotifFound));
}

#[test]
fn scanner_reports_no_motif_in_a_blank_image() {
    let img = blank(24);
    assert_eq!(find_pattern(&img), Err(PuzzleError::NoMotifFound));
}

#[test]
fn scanner_reports_no_motif_in_a_too_small_image() {
    let mut img = blank(4);
    for row in img.iter_mut() {
        for px in row.iter_mut() {
            *px = true;
        }
    }
    assert_eq!(find_pattern(&img), Err(PuzzleError::NoMotifFound));
}
