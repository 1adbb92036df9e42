use advent::days::day::{Day, DayResult};
use advent::days::day14::{parse_vector, Instance, Robot, Robots};

#[test]
fn day14_test() {
    let input = "p=0,4 v=3,-3
p=6,3 v=-1,-3
p=10,3 v=-1,2
p=2,0 v=2,-1
p=0,0 v=1,3
p=3,0 v=-2,-2
p=7,6 v=-1,-3
p=3,0 v=-1,-2
p=9,3 v=2,3
p=7,3 v=-1,2
p=2,4 v=2,-3
p=9,5 v=-3,-3
"
    .to_owned();
    let day = Instance {
        width: 11,
        height: 7,
    };
    let result = day.run(input);
    assert_eq!(
        result,
        Ok(DayResult {
            part1: "12".to_owned(),
            part2: Some("105".to_owned())
        })
    );
}

#[test]
fn robot_wraps_round_the_edges() {
    let mut robots = Robots {
        robots: vec![Robot { position: (2, 4), velocity: (2, -3) }],
        width: 0,
        height: 0,
        total_steps: 0,
    };
    robots.initialise(&Instance { width: 11, height: 7 });
    robots.step();
    assert_eq!(robots.robots[0].position, (4, 1));
    robots.step();
    assert_eq!(robots.robots[0].position, (6, 5));
    robots.step();
    assert_eq!(robots.robots[0].position, (8, 2));
    assert_eq!(robots.total_steps, 3);
    assert_eq!(robots.overlap_count(), 0);
}

#[test]
fn vectors_parse_with_signs() {
    assert_eq!(parse_vector(b"v=-3,12"), Ok((-3, 12)));
    assert!(parse_vector(b"p=3").is_err());
    let default = Instance::default();
    assert_eq!((default.width, default.height), (101, 103));
    assert!(Instance { width: 0, height: 7 }.run("p=0,0 v=1,1".to_owned()).is_err());
}
