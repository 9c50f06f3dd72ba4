use lib::num_islands::num_islands;

fn grid(rows: &[&str]) -> Vec<Vec<char>> {
    rows.iter().map(|r| r.chars().collect()).collect()
}

#[test]
fn three_islands() {
    let g = grid(&["11000", "11000", "00100", "00011"]);
    assert_eq!(num_islands(g), 3);
}

#[test]
fn one_big_island() {
    let g = grid(&["11110", "11010", "11000", "00000"]);
    assert_eq!(num_islands(g), 1);
}

#[test]
fn empty_grid() {
    assert_eq!(num_islands(Vec::new()), 0);
}

#[test]
fn all_water() {
    assert_eq!(num_islands(grid(&["000", "000"])), 0);
}

#[test]
fn diagonal_cells_are_separate() {
    assert_eq!(num_islands(grid(&["101", "010", "101"])), 5);
}

#[test]
fn winding_island() {
    let g = grid(&["11111", "00001", "11101", "10001", "11111"]);
    assert_eq!(num_islands(g), 1);
}

#[test]
fn cells_past_the_first_rows_width_are_not_read() {
    // Rows longer than the first: land past its width starts no island of its own.
    let g = grid(&["10", "1011", "0001"]);
    assert_eq!(num_islands(g), 1);
}

#[test]
fn single_cell() {
    assert_eq!(num_islands(grid(&["1"])), 1);
}
