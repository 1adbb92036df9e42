use vstd::prelude::*;
use vstd::utf8::encode_utf8;

use super::day::{Day, DayResult};
use super::text::{lines, split_lines, usize_to_string, views};
use super::util::{capped, lemma_capped_add};

verus! {

/// Ceres search: counting words in a letter grid.
pub struct Instance;

/// The letter grid, one row per line.
pub struct WordSearch {
    pub grid: Vec<Vec<u8>>,
}

/// The letter at column `x` of row `y`, if there is one.
pub open spec fn cell(g: Seq<Seq<u8>>, x: int, y: int) -> Option<u8> {
    if 0 <= y < g.len() && 0 <= x < g[y].len() {
        Some(g[y][x])
    } else {
        None
    }
}

pub open spec fn xmas() -> Seq<u8> {
    seq![88u8, 77, 65, 83]
}

/// The eight directions, by number.
pub open spec fn direction(d: int) -> (int, int) {
    if d == 0 {
        (-1, -1)
    } else if d == 1 {
        (-1, 0)
    } else if d == 2 {
        (-1, 1)
    } else if d == 3 {
        (0, -1)
    } else if d == 4 {
        (0, 1)
    } else if d == 5 {
        (1, -1)
    } else if d == 6 {
        (1, 0)
    } else {
        (1, 1)
    }
}

/// `XMAS` is written from `(x, y)` in direction `d`.
pub open spec fn xmas_at(g: Seq<Seq<u8>>, x: int, y: int, d: int) -> bool {
    forall|i: int|
        0 <= i < 4 ==> #[trigger] cell(g, x + direction(d).0 * i, y + direction(d).1 * i) == Some(
            xmas()[i],
        )
}

/// How many of the first `k` directions show `XMAS` from `(x, y)`.
pub open spec fn xmas_count_at(g: Seq<Seq<u8>>, x: int, y: int, k: int) -> nat
    decreases k,
{
    if k <= 0 {
        0
    } else {
        xmas_count_at(g, x, y, k - 1) + if xmas_at(g, x, y, k - 1) {
            1nat
        } else {
            0nat
        }
    }
}

/// A crossed `MAS` with top-left corner `(x, y)`: the diagonal reads `MAS` or
/// `SAM`, and the other corners hold the letters `c` (bottom left) and `e` (top
/// right) given by `k`.
pub open spec fn cross_at(g: Seq<Seq<u8>>, x: int, y: int, k: int) -> bool {
    let (first, last) = if k < 2 {
        (77u8, 83u8)
    } else {
        (83u8, 77u8)
    };
    let (c, e) = if k % 2 == 0 {
        (83u8, 77u8)
    } else {
        (77u8, 83u8)
    };
    &&& cell(g, x, y) == Some(first)
    &&& cell(g, x + 1, y + 1) == Some(65u8)
    &&& cell(g, x + 2, y + 2) == Some(last)
    &&& cell(g, x, y + 2) == Some(c)
    &&& cell(g, x + 2, y) == Some(e)
}

pub open spec fn cross_count_at(g: Seq<Seq<u8>>, x: int, y: int, k: int) -> nat
    decreases k,
{
    if k <= 0 {
        0
    } else {
        cross_count_at(g, x, y, k - 1) + if cross_at(g, x, y, k - 1) {
            1nat
        } else {
            0nat
        }
    }
}

/// The count at each cell, summed over the first `n` cells of row `y`.
pub open spec fn row_count(g: Seq<Seq<u8>>, y: int, n: int, crosses: bool) -> nat
    decreases n,
{
    if n <= 0 {
        0
    } else {
        row_count(g, y, n - 1, crosses) + if crosses {
            cross_count_at(g, n - 1, y, 4)
        } else {
            xmas_count_at(g, n - 1, y, 8)
        }
    }
}

/// The count at each cell, summed over the first `m` rows.
pub open spec fn grid_count(g: Seq<Seq<u8>>, m: int, crosses: bool) -> nat
    decreases m,
{
    if m <= 0 {
        0
    } else {
        grid_count(g, m - 1, crosses) + row_count(g, m - 1, g[m - 1].len() as int, crosses)
    }
}

impl WordSearch {
    pub open spec fn rows(&self) -> Seq<Seq<u8>> {
        views(self.grid@)
    }

    /// Every row's length fits in a `usize`.
    proof fn lemma_rows_fit(&self)
        ensures
            self.rows().len() <= usize::MAX,
            forall|q: int| 0 <= q < self.rows().len() ==> (#[trigger] self.rows()[q]).len() <= usize::MAX,
    {
        assert forall|q: int| 0 <= q < self.rows().len() implies (#[trigger] self.rows()[q]).len() <= usize::MAX by {
            assert(self.rows()[q] == self.grid@[q]@);
            assert(self.grid@[q]@.len() == self.grid@[q].len());
        }
        assert(self.grid@.len() == self.grid.len());
    }

    /// The letter at `(x, y)`, if there is one.
    fn letter(&self, x: usize, y: usize) -> (r: Option<u8>)
        ensures
            r == cell(self.rows(), x as int, y as int),
    {
        if y < self.grid.len() && x < self.grid[y].len() {
            Some(self.grid[y][x])
        } else {
            None
        }
    }

    /// The cell `i` steps from `(x, y)` in direction `d`, if it lies in the
    /// first quadrant.
    fn step(x: usize, y: usize, d: usize, i: usize) -> (r: Option<(usize, usize)>)
        requires
            d < 8,
            i < 4,
        ensures
            r matches Some(p) ==> p.0 as int == x + direction(d as int).0 * i && p.1 as int == y
                + direction(d as int).1 * i,
            r is None ==> x + direction(d as int).0 * i < 0 || y + direction(d as int).1 * i < 0
                || x + direction(d as int).0 * i > usize::MAX || y + direction(d as int).1 * i
                > usize::MAX,
    {
        let nx = if d <= 2 {
            if x < i {
                return None;
            }
            x - i
        } else if d <= 4 {
            x
        } else {
            match x.checked_add(i) {
                Some(v) => v,
                None => {
                    return None;
                },
            }
        };
        let ny = if d == 0 || d == 3 || d == 5 {
            if y < i {
                return None;
            }
            y - i
        } else if d == 1 || d == 6 {
            y
        } else {
            match y.checked_add(i) {
                Some(v) => v,
                None => {
                    return None;
                },
            }
        };
        Some((nx, ny))
    }

    /// Whether `XMAS` is written from `(x, y)` in direction `d`.
    fn xmas_from(&self, x: usize, y: usize, d: usize) -> (r: bool)
        requires
            d < 8,
        ensures
            r == xmas_at(self.rows(), x as int, y as int, d as int),
    {
        let word: Vec<u8> = vec![88u8, 77, 65, 83];
        assert(word@ =~= xmas());
        proof { self.lemma_rows_fit(); }
        let mut i: usize = 0;
        while i < 4
            invariant
                0 <= i <= 4,
                d < 8,
                word@ == xmas(),
                self.rows().len() <= usize::MAX,
                forall|q: int| 0 <= q < self.rows().len() ==> (#[trigger] self.rows()[q]).len() <= usize::MAX,
                forall|j: int|
                    0 <= j < i ==> #[trigger] cell(
                        self.rows(),
                        x + direction(d as int).0 * j,
                        y + direction(d as int).1 * j,
                    ) == Some(xmas()[j]),
            decreases 4 - i,
        {
            match WordSearch::step(x, y, d, i) {
                None => {
                    assert(cell(
                        self.rows(),
                        x + direction(d as int).0 * i,
                        y + direction(d as int).1 * i,
                    ) is None);
                    return false;
                },
                Some((nx, ny)) => {
                    if self.letter(nx, ny) != Some(word[i]) {
                        return false;
                    }
                },
            }
            i = i + 1;
        }
        true
    }

    /// The number of times `XMAS` is written, in any of the eight directions.
    pub fn count_xmas(&self) -> (r: usize)
        ensures
            r == capped(grid_count(self.rows(), self.rows().len() as int, false)),
    {
        self.count(false)
    }

    /// The number of crossed `MAS` pairs.
    pub fn count_mas_x(&self) -> (r: usize)
        ensures
            r == capped(grid_count(self.rows(), self.rows().len() as int, true)),
    {
        self.count(true)
    }

    /// Whether the crossed pattern `k` has its top-left corner at `(x, y)`.
    fn cross_from(&self, x: usize, y: usize, k: usize) -> (r: bool)
        requires
            k < 4,
        ensures
            r == cross_at(self.rows(), x as int, y as int, k as int),
    {
        let (first, last) = if k < 2 {
            (77u8, 83u8)
        } else {
            (83u8, 77u8)
        };
        let (c, e) = if k % 2 == 0 {
            (83u8, 77u8)
        } else {
            (77u8, 83u8)
        };
        if x > usize::MAX - 2 || y > usize::MAX - 2 {
            proof { self.lemma_rows_fit(); }
            assert(cell(self.rows(), x + 2, y + 2) is None);
            return false;
        }
        self.letter(x, y) == Some(first) && self.letter(x + 1, y + 1) == Some(65u8) && self.letter(
            x + 2,
            y + 2,
        ) == Some(last) && self.letter(x, y + 2) == Some(c) && self.letter(x + 2, y) == Some(e)
    }

    fn count(&self, crosses: bool) -> (r: usize)
        ensures
            r == capped(grid_count(self.rows(), self.rows().len() as int, crosses)),
    {
        let ghost g = self.rows();
        let mut total: usize = 0;
        let mut y: usize = 0;
        while y < self.grid.len()
            invariant
                g == self.rows(),
                0 <= y <= self.grid@.len(),
                total == capped(grid_count(g, y as int, crosses)),
            decreases self.grid.len() - y,
        {
            assert(self.grid@[y as int]@ == g[y as int]);
            let mut x: usize = 0;
            let ghost before = grid_count(g, y as int, crosses);
            while x < self.grid[y].len()
                invariant
                    g == self.rows(),
                    0 <= y < self.grid@.len(),
                    self.grid@[y as int]@ == g[y as int],
                    0 <= x <= g[y as int].len(),
                    total == capped(before + row_count(g, y as int, x as int, crosses)),
                decreases self.grid@[y as int]@.len() - x,
            {
                let here: usize;
                if crosses {
                    let mut k: usize = 0;
                    let mut n: usize = 0;
                    while k < 4
                        invariant
                            0 <= k <= 4,
                            n == cross_count_at(g, x as int, y as int, k as int),
                            n <= k,
                            g == self.rows(),
                        decreases 4 - k,
                    {
                        if self.cross_from(x, y, k) {
                            n = n + 1;
                        }
                        k = k + 1;
                    }
                    here = n;
                } else {
                    let mut d: usize = 0;
                    let mut n: usize = 0;
                    while d < 8
                        invariant
                            0 <= d <= 8,
                            n == xmas_count_at(g, x as int, y as int, d as int),
                            n <= d,
                            g == self.rows(),
                        decreases 8 - d,
                    {
                        if self.xmas_from(x, y, d) {
                            n = n + 1;
                        }
                        d = d + 1;
                    }
                    here = n;
                }
                proof {
                    lemma_capped_add(before + row_count(g, y as int, x as int, crosses), here as nat);
                }
                total = total.saturating_add(here);
                x = x + 1;
            }
            y = y + 1;
        }
        total
    }
}

impl Day for Instance {
    /// The number of `XMAS` words, and of crossed `MAS` pairs.
    fn run(&self, input: String) -> (r: Result<DayResult, String>)
        ensures
            r matches Ok(d) && d.reports(
                capped(grid_count(lines(encode_utf8(input@)), lines(encode_utf8(input@)).len() as int, false)) as nat,
                capped(grid_count(lines(encode_utf8(input@)), lines(encode_utf8(input@)).len() as int, true)) as nat,
            ),
    {
        let search = WordSearch { grid: split_lines(input.as_str().as_bytes()) };
        let part1 = usize_to_string(search.count_xmas());
        let part2 = Some(usize_to_string(search.count_mas_x()));
        Ok(DayResult { part1, part2 })
    }
}

} // verus!
