use advent::days::day::{Day, DayResult};
use advent::days::day8::{Antenna, Antennas, Instance};

#[test]
fn day8_test() {
    let input = "............
........0...
.....0......
.......0....
....0.......
......A.....
............
............
........A...
.........A..
............
............
"
    .to_owned();
    let expected = DayResult {
        part1: "14".to_owned(),
        part2: Some("34".to_owned()),
    };
    let instance = Instance;
    assert_eq!(instance.run(input), Ok(expected));
}

#[test]
fn two_antennas_on_a_small_map() {
    let a = Antennas::parse(b"..........\n...a......\n.....a....\n..........").unwrap();
    assert_eq!(a.max_x, 9);
    assert_eq!(a.max_y, 3);
    assert_eq!(a.antennas[0], Antenna { x: 3, y: 1, frequency: b'a' });
    // (1, 0) and (7, 3) are one step beyond each antenna.
    assert_eq!(a.count_antinodes(), 2);
    // The line also holds both antennas.
    assert_eq!(a.count_antinodes_all(), 4);
}
