use advent::days::day::{Day, DayResult};
use advent::days::day2::{Instance, Report};

#[test]
fn day2_example() {
    let input = "7 6 4 2 1
1 2 7 8 9
9 7 6 2 1
1 3 2 4 5
8 6 4 4 1
1 3 6 7 9"
        .to_owned();
    assert_eq!(
        Instance.run(input),
        Ok(DayResult {
            part1: "2".to_owned(),
            part2: Some("4".to_owned())
        })
    );
}

#[test]
fn report_safety() {
    let r: Report = "1 3 2 4 5".parse().unwrap();
    assert!(!r.is_safe());
    assert!(r.is_safe_tolerant());
    let s: Report = "1 2 7 8 9".parse().unwrap();
    assert!(!s.is_safe_tolerant());
    assert!("1  2".parse::<Report>().is_err());
}
