use advent::days::day::{Day, DayResult};
use advent::days::day22::{
    add_price_deltas, four_runs_from_initial, mix, next_number, part1, prices, prune, secret_2000,
    Instance,
};

#[test]
fn day22_test() {
    let input = "1
10
100
2024"
        .to_owned();
    let day = Instance;
    let result = day.run(input);
    assert_eq!(
        result,
        Ok(DayResult {
            part1: "37327623".to_owned(),
            part2: Some("24".to_owned())
        })
    );
}

#[test]
fn first_ten() {
    let mut secret = 123;

    let expected = vec![
        15887950, 16495136, 527345, 704524, 1553684, 12683156, 11100544, 12249484, 7753432,
        5908254,
    ];

    for e in expected {
        secret = next_number(secret);
        assert_eq!(secret, e);
    }
}

#[test]
fn test_secret_2000() {
    assert_eq!(secret_2000(1), 8685429);
}

#[test]
fn test_deltas() {
    let prices = prices(123);

    let deltas = add_price_deltas(&prices);

    let first_9: Vec<_> = deltas.iter().take(9).cloned().collect();

    assert_eq!(
        first_9,
        vec![
            (0, -3),
            (6, 6),
            (5, -1),
            (4, -1),
            (4, 0),
            (6, 2),
            (4, -2),
            (4, 0),
            (2, -2),
        ]
    );
}

#[test]
fn four_runs() {
    let a = four_runs_from_initial(1);
    let b = four_runs_from_initial(2);
    let c = four_runs_from_initial(3);
    let d = four_runs_from_initial(2024);

    assert_eq!(a.get(&(-2, 1, -1, 3)), Some(&7));
    assert_eq!(b.get(&(-2, 1, -1, 3)), Some(&7));
    assert_eq!(c.get(&(-2, 1, -1, 3)), None);
    assert_eq!(d.get(&(-2, 1, -1, 3)), Some(&9));
}

#[test]
fn mix_and_prune_examples() {
    assert_eq!(mix(42, 15), 37);
    assert_eq!(prune(100000000), 16113920);
}

#[test]
fn part1_sums_secrets() {
    assert_eq!(part1(&[1, 10, 100, 2024]), 37327623);
    assert_eq!(part1(&[]), 0);
}

#[test]
fn day22_rejects_bad_numbers() {
    let day = Instance;
    assert!(day.run("12x".to_owned()).is_err());
    assert!(day.run("18446744073709551615".to_owned()).is_err());
}

#[test]
fn run_outside_range_is_absent() {
    let a = four_runs_from_initial(1);
    assert_eq!(a.get(&(100, 0, 0, 0)), None);
}
