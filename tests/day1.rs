use advent::days::day::{Day, DayResult};
use advent::days::day1::{Instance, Lists};

#[test]
fn day1_example() {
    let input = "3   4
4   3
2   5
1   3
3   9
3   3"
        .to_owned();
    assert_eq!(
        Instance.run(input),
        Ok(DayResult {
            part1: "11".to_owned(),
            part2: Some("31".to_owned())
        })
    );
}

#[test]
fn lists_parse_and_measure() {
    let lists: Lists = "10   1\n2   30".parse().unwrap();
    assert_eq!(lists.left, vec![10, 2]);
    assert_eq!(lists.right, vec![1, 30]);
    assert_eq!(lists.total_distance(), 1 + 20);
    assert_eq!(lists.similarity(), 0);
}

#[test]
fn day1_line_without_separator_is_refused() {
    assert!(Instance.run("3 4".to_owned()).is_err());
}
