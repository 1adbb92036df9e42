use advent::days::day::{Day, DayResult};
use advent::days::day3::{CorruptedCode, Instance};

#[test]
fn test_corrupted_code() {
    let code = "xmul(2,4)&mul[3,7]!^don't()_mul(5,5)+mul(32,64](mul(11,8)undo()?mul(8,5))"
        .parse::<CorruptedCode>()
        .unwrap();
    assert_eq!(code.mul_always(), 161);
    assert_eq!(code.mul_if_enabled(), 48);
}

#[test]
fn test_double_mul() {
    let code = "mul(mul(3,7)mul(4,mul(1,2)"
        .parse::<CorruptedCode>()
        .unwrap();
    assert_eq!(code.mul_always(), 23);
}

#[test]
fn test_empty_mul() {
    let code = "mul(,),mul(1,)mul(,1)mul(1,1)"
        .parse::<CorruptedCode>()
        .unwrap();
    assert_eq!(code.mul_always(), 1);
}

#[test]
fn day3_run_gives_both_sums() {
    let day = Instance;
    let result = day.run("mul(2,3)don't()mul(4,5)do()mul(1,1)".to_owned());
    assert_eq!(
        result,
        Ok(DayResult {
            part1: "27".to_owned(),
            part2: Some("7".to_owned())
        })
    );
}
