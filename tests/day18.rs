use advent::days::day::{Day, DayResult};
use advent::days::day18::{Coord, Instance, Memory};

#[test]
fn day18_test() {
    let input = "5,4
4,2
4,5
3,0
2,1
6,3
2,4
1,5
0,6
3,3
2,6
5,1
1,2
5,5
2,5
6,5
1,4
0,4
6,4
1,1
6,1
1,0
0,5
1,6
2,0"
    .to_owned();
    let day = Instance {
        grid_size: 6,
        falling_bytes: 12,
    };
    let result = day.run(input);
    assert_eq!(
        result,
        Ok(DayResult {
            part1: "22".to_owned(),
            part2: Some("6,1".to_owned())
        })
    );
}

#[test]
fn walks_on_a_small_memory() {
    let mut memory = Memory::new(2);
    assert_eq!(memory.shortest_path(), Some(4));
    memory.corrupt(Coord { x: 1, y: 1 });
    assert_eq!(memory.shortest_path(), Some(4));
    memory.corrupt(Coord { x: 1, y: 0 });
    memory.corrupt(Coord { x: 1, y: 2 });
    assert_eq!(memory.shortest_path(), None);
    let default = Instance::default();
    assert_eq!((default.grid_size, default.falling_bytes), (70, 1024));
    assert!(Instance { grid_size: 2, falling_bytes: 0 }.run("1,x".to_owned()).is_err());
}
