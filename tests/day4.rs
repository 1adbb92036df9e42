use advent::days::day::{Day, DayResult};
use advent::days::day4::{Instance, WordSearch};

#[test]
fn day4_test_example() {
    let input = "MMMSXXMASM
MSAMXMSMSA
AMXSXMAAMM
MSAMASMSMX
XMASAMXAMM
XXAMMXXAMA
SMSMSASXSS
SAXAMASAAA
MAMMMXMMMM
MXMXAXMASX"
        .to_owned();
    let result = Instance.run(input);
    assert_eq!(
        result,
        Ok(DayResult {
            part1: "18".to_owned(),
            part2: Some("9".to_owned())
        })
    );
}

#[test]
fn word_search_small_grids() {
    let grid = WordSearch { grid: vec![b"XMAS".to_vec(), b"SAMX".to_vec()] };
    assert_eq!(grid.count_xmas(), 2);
    let cross = WordSearch { grid: vec![b"M.S".to_vec(), b".A.".to_vec(), b"M.S".to_vec()] };
    assert_eq!(cross.count_mas_x(), 1);
    assert_eq!(cross.count_xmas(), 0);
}
