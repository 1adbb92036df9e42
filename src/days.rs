pub mod day;
pub mod day1;
pub mod day10;
pub mod day13;
pub mod day14;
pub mod day18;
pub mod day19;
pub mod day2;
pub mod day21;
pub mod day3;
pub mod day4;
pub mod day7;
pub mod day8;
pub mod day9;
pub mod day22;
pub mod day25;
pub mod text;
pub mod util;
