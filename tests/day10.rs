use advent::days::day::{Day, DayResult};
use advent::days::day10::{Instance, Topology};

#[test]
fn day10_test_example() {
    let input = "89010123
78121874
87430965
96549874
45678903
32019012
01329801
10456732"
        .to_owned();
    let day = Instance;
    let result = day.run(input);
    assert_eq!(
        result,
        Ok(DayResult {
            part1: "36".to_owned(),
            part2: Some("81".to_owned())
        })
    );
}

#[test]
fn single_trail_with_gaps() {
    let t = Topology::parse(b"0123\n7654\n89..").unwrap();
    assert_eq!(t.trailheads(), (1, 1));
    let fork = Topology::parse(b"...0...\n...1...\n...2...\n6543456\n7.....7\n8.....8\n9.....9").unwrap();
    assert_eq!(fork.peaks_from(3, 0), 2);
    assert_eq!(fork.trailheads(), (2, 2));
    assert!(Topology::parse(b"01x").is_err());
}
