use advent::days::day::Day;
use advent::days::day7::{Equation, Instance};

#[test]
fn test_equation() {
    let equation: Equation = "5: 1 2 3".parse().unwrap();
    assert_eq!(equation.answer, 5);
    assert_eq!(equation.numbers, vec![1, 2, 3]);
}

#[test]
fn test_solve() {
    let equation: Equation = "190: 10 19".parse().unwrap();
    assert!(equation.solves(false));
}

#[test]
fn day7_test_example() {
    let input = "190: 10 19
3267: 81 40 27
83: 17 5
156: 15 6
7290: 6 8 6 15
161011: 16 10 13
192: 17 8 14
21037: 9 7 18 13
292: 11 6 16 20";
    let day = Instance;
    let result = day.run(input.to_owned()).unwrap();
    assert_eq!(result.part1, "3749");
    assert_eq!(result.part2, Some("11387".to_owned()));
}

#[test]
fn concatenation_needed() {
    let equation: Equation = "156: 15 6".parse().unwrap();
    assert!(!equation.solves(false));
    assert!(equation.solves(true));
    let zero: Equation = "10: 0 10".parse().unwrap();
    assert!(zero.solves(true));
}

#[test]
fn malformed_equation_is_refused() {
    assert!("190 10 19".parse::<Equation>().is_err());
    assert!("190: 10 x".parse::<Equation>().is_err());
    assert!("abc: 10".parse::<Equation>().is_err());
}
