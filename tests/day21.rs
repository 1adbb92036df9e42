use advent::days::day::{Day, DayResult};
use advent::days::day21::{complexity, CachedComplexity, Coord, DirectionalKey, Instance, NumericKey};

#[test]
fn day21_test() {
    let input = "029A
980A
179A
456A
379A"
        .to_owned();
    let day = Instance;
    let result = day.run(input);
    assert_eq!(
        result,
        Ok(DayResult {
            part1: "126384".to_owned(),
            part2: Some("154115708116294".to_owned())
        })
    );
}

#[test]
fn test_directions() {
    let one = NumericKey::One.position();
    let nine = NumericKey::Nine.position();

    assert_eq!(
        one.directions(&nine, false),
        vec![
            DirectionalKey::Right,
            DirectionalKey::Right,
            DirectionalKey::Up,
            DirectionalKey::Up
        ]
    );
}

#[test]
fn route_one_to_nine_horizontal_first() {
    let one = NumericKey::One.position();
    let nine = NumericKey::Nine.position();
    assert_eq!(
        one.route(&nine, false),
        vec![
            DirectionalKey::Right,
            DirectionalKey::Right,
            DirectionalKey::Up,
            DirectionalKey::Up,
            DirectionalKey::Activate
        ]
    );
    assert_eq!(
        one.route(&nine, true),
        vec![
            DirectionalKey::Up,
            DirectionalKey::Up,
            DirectionalKey::Right,
            DirectionalKey::Right,
            DirectionalKey::Activate
        ]
    );
}

#[test]
fn route_to_same_cell_is_one_press() {
    for key in [NumericKey::Zero, NumericKey::Five, NumericKey::Activate] {
        let c = key.position();
        assert_eq!(c.route(&c, false), vec![DirectionalKey::Activate]);
        assert_eq!(c.route(&c, true), vec![DirectionalKey::Activate]);
    }
}

#[test]
fn gap_makes_route_invalid() {
    // From 0 to 1 the horizontal-first route would cross the numeric gap.
    let zero = NumericKey::Zero.position();
    let one = NumericKey::One.position();
    assert!(!NumericKey::is_valid(&zero, &zero.route(&one, false)));
    assert!(NumericKey::is_valid(&zero, &zero.route(&one, true)));
    // From < to ^ the vertical-first route would cross the directional gap.
    let left = DirectionalKey::Left.position();
    let up = DirectionalKey::Up.position();
    assert!(!DirectionalKey::is_valid(&left, &left.route(&up, true)));
    assert!(DirectionalKey::is_valid(&left, &left.route(&up, false)));
}

#[test]
fn cost_at_depth_zero_is_length() {
    let mut solver = CachedComplexity::new(0);
    let moves = vec![DirectionalKey::Left, DirectionalKey::Up, DirectionalKey::Activate];
    assert_eq!(solver.cost_depth(&moves, 0), 3);
    assert_eq!(solver.cost(&moves), 3);
}

#[test]
fn cost_grows_with_depth_and_repeats() {
    let moves = vec![DirectionalKey::Left, DirectionalKey::Activate];
    let mut solver = CachedComplexity::new(3);
    let mut previous = 0;
    for depth in 0..6 {
        let c = solver.cost_depth(&moves, depth);
        assert!(c >= previous);
        assert_eq!(solver.cost_depth(&moves, depth), c);
        previous = c;
    }
    // < then A through one keypad: v<<A then >>^A.
    assert_eq!(solver.cost_depth(&moves, 1), 8);
}

#[test]
fn single_code_presses() {
    let mut solver = CachedComplexity::new(2);
    let keys = vec![NumericKey::Zero, NumericKey::Two, NumericKey::Nine, NumericKey::Activate];
    assert_eq!(solver.complexity(&keys), 68);
    assert_eq!(complexity(&[(29, keys)], 2), 68 * 29);
}

#[test]
fn best_keys_is_a_candidate() {
    let mut solver = CachedComplexity::new(2);
    let a = DirectionalKey::Activate.position();
    let left = DirectionalKey::Left.position();
    let best = solver.best_keys(a, left, 1);
    assert_eq!(
        best,
        vec![DirectionalKey::Down, DirectionalKey::Left, DirectionalKey::Left, DirectionalKey::Activate]
    );
    let c = Coord { x: 1, y: 1 };
    assert_eq!(c, DirectionalKey::Down.position());
}

#[test]
fn invalid_key_is_refused() {
    let day = Instance;
    assert!(day.run("02BA".to_owned()).is_err());
    assert!(day.run("A".to_owned()).is_err());
    assert!(day.run("029".to_owned()).is_err());
}
