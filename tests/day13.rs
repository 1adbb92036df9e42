use advent::days::day::{Day, DayResult};
use advent::days::day13::{parse_button, parse_prize, ClawMachine, Instance};

#[test]
fn day13_test() {
    let input = "Button A: X+94, Y+34
Button B: X+22, Y+67
Prize: X=8400, Y=5400

Button A: X+26, Y+66
Button B: X+67, Y+21
Prize: X=12748, Y=12176

Button A: X+17, Y+86
Button B: X+84, Y+37
Prize: X=7870, Y=6450

Button A: X+69, Y+23
Button B: X+27, Y+71
Prize: X=18641, Y=10279"
        .to_owned();
    let day = Instance;
    let result = day.run(input);
    assert_eq!(
        result,
        Ok(DayResult {
            part1: "480".to_owned(),
            part2: Some("875318608908".to_owned())
        })
    );
}

#[test]
fn claw_machine_tokens() {
    let mut m = ClawMachine {
        button_a: (94, 34),
        button_b: (22, 67),
        prize: (8400, 5400),
    };
    assert_eq!(m.min_tokens(), Some(280));
    m.recalibrate();
    assert_eq!(m.prize, (10000000008400, 10000000005400));
    assert_eq!(m.min_tokens(), None);
    let unreachable = ClawMachine {
        button_a: (26, 66),
        button_b: (67, 21),
        prize: (12748, 12176),
    };
    assert_eq!(unreachable.min_tokens(), None);
}

#[test]
fn claw_lines_parse() {
    assert_eq!(parse_button(b"Button A: X+94, Y+34"), Ok((94, 34)));
    assert_eq!(parse_prize(b"Prize: X=8400, Y=5400"), Ok((8400, 5400)));
    assert!(parse_button(b"Button A: X94, Y+34").is_err());
    assert!(Instance.run("Button A: X+1, Y+2\nButton B: X+2, Y+4\nPrize: X=3, Y=6".to_owned()).is_err());
}
