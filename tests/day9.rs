use advent::days::day::Day;
use advent::days::day9::{DiskMap, FileSystem, Instance};

#[test]
fn day9_test() {
    let input = "2333133121414131402".to_owned();
    let day = Instance;
    let result = day.run(input).unwrap();
    assert_eq!(result.part1, "1928");
    assert_eq!(result.part2, Some("2858".to_owned()));
}

#[test]
fn small_disk_maps() {
    let map: DiskMap = "12345".parse().unwrap();
    // 0..111....22222 compacts to 022111222
    assert_eq!(map.filesystem_checksum(), 60);
    let fs = FileSystem::from_disk_map(&map);
    assert_eq!(fs.checksum(), 0 * 0 + 3 + 4 + 5 + 2 * (10 + 11 + 12 + 13 + 14));
    // A trailing free run is simply dropped.
    let trailing: DiskMap = "121".parse().unwrap();
    assert_eq!(trailing.filesystem_checksum(), 1);
    assert!("12a".parse::<DiskMap>().is_err());
}
