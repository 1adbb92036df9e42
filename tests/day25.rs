use advent::days::day::{Day, DayResult};
use advent::days::day25::{count_matches, Instance, Key, Lock, LockKey};

#[test]
fn day25_test() {
    let input = "#####
.####
.####
.####
.#.#.
.#...
.....

#####
##.##
.#.##
...##
...#.
...#.
.....

.....
#....
#....
#...#
#.#.#
#.###
#####

.....
.....
#.#..
###..
###.#
###.#
#####

.....
.....
.....
#....
#.#..
#.#.#
#####
"
    .to_owned();
    assert_eq!(
        Instance.run(input),
        Ok(DayResult {
            part1: "3".to_owned(),
            part2: Some("Merry Christmas!".to_owned())
        })
    );
}

#[test]
fn key_fits_lock_column_by_column() {
    let lock = Lock { pins: [1, 6, 4, 5, 4] };
    let key = Key { height: [6, 1, 3, 2, 3] };
    assert!(key.fits(&lock));
    let tall = Key { height: [6, 2, 3, 2, 3] };
    assert!(!tall.fits(&lock));
    let all = vec![LockKey::Lock(lock), LockKey::Key(key), LockKey::Key(tall)];
    assert_eq!(count_matches(&all), 1);
}

#[test]
fn pin_beyond_fifth_column_is_refused() {
    assert!(Instance.run("#####.#\n.....\n".to_owned()).is_err());
}
