use advent::days::day::{Day, DayResult};
use advent::days::day19::{valid_count, Colour, Instance};

#[test]
fn day19_test() {
    let input = "r, wr, b, g, bwu, rb, gb, br

brwrr
bggr
gbbr
rrbgbr
ubwu
bwurrg
brgr
bbrgwb"
        .to_owned();
    let day = Instance;
    let result = day.run(input);
    assert_eq!(
        result,
        Ok(DayResult {
            part1: "6".to_owned(),
            part2: Some("16".to_owned())
        })
    );
}

#[test]
fn ways_to_make_a_design() {
    let patterns = vec![
        vec![Colour::Red],
        vec![Colour::White, Colour::Red],
        vec![Colour::Black],
        vec![Colour::Green],
        vec![Colour::Black, Colour::Red],
    ];
    // brwrr: b r wr r, br wr r
    let design = vec![Colour::Black, Colour::Red, Colour::White, Colour::Red, Colour::Red];
    assert_eq!(valid_count(&design, &patterns), 2);
    assert_eq!(valid_count(&[Colour::Blue], &patterns), 0);
}

#[test]
fn unknown_colour_is_refused() {
    assert!(Instance.run("r, x\n\nrr".to_owned()).is_err());
    assert!(Instance.run("r\n\nrq".to_owned()).is_err());
}
