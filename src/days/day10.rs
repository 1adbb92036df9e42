use vstd::prelude::*;
use vstd::utf8::encode_utf8;

use super::day::{Day, DayResult};
use super::text::{lines, split_lines, usize_to_string, views};
use super::util::{capped, lemma_capped_add};

verus! {

/// Hoof it: hiking trails that climb one step at a time from 0 to 9.
pub struct Instance;

/// The height map: a height per cell, or none for `.`.
pub struct Topology {
    pub heights: Vec<Vec<Option<u8>>>,
}

/// The height of a cell, if it is on the map and not `.`.
pub open spec fn height(g: Seq<Seq<Option<u8>>>, x: int, y: int) -> Option<u8> {
    if 0 <= y < g.len() && 0 <= x < g[y].len() {
        g[y][x]
    } else {
        None
    }
}

/// The four neighbours, by number.
pub open spec fn neighbour(x: int, y: int, d: int) -> (int, int) {
    if d == 0 {
        (x, y + 1)
    } else if d == 1 {
        (x + 1, y)
    } else if d == 2 {
        (x, y - 1)
    } else {
        (x - 1, y)
    }
}

/// The cell one step up from `h` in direction `d`, if its height is `h + 1`.
pub open spec fn climbs(g: Seq<Seq<Option<u8>>>, x: int, y: int, h: u8, d: int) -> bool {
    let n = neighbour(x, y, d);
    h < 9 && height(g, n.0, n.1) == Some((h + 1) as u8)
}

/// The number of trails from `(x, y)`, at height `h`, to a height of 9.
pub open spec fn trails(g: Seq<Seq<Option<u8>>>, x: int, y: int, h: u8) -> nat
    decreases 9 - h,
{
    if h >= 9 {
        1
    } else {
        trails_via(g, x, y, h, 0) + trails_via(g, x, y, h, 1) + trails_via(g, x, y, h, 2)
            + trails_via(g, x, y, h, 3)
    }
}

/// The trails from `(x, y)` whose first step goes in direction `d`.
pub open spec fn trails_via(g: Seq<Seq<Option<u8>>>, x: int, y: int, h: u8, d: int) -> nat
    decreases 9 - h, 0int,
{
    if h < 9 && climbs(g, x, y, h, d) {
        let n = neighbour(x, y, d);
        trails(g, n.0, n.1, (h + 1) as u8)
    } else {
        0
    }
}

/// `(x, y)` lies on a trail that starts at `(sx, sy)`.
pub open spec fn reached(g: Seq<Seq<Option<u8>>>, sx: int, sy: int, x: int, y: int, h: u8) -> bool
    decreases h,
{
    if (x, y) == (sx, sy) {
        height(g, x, y) == Some(h)
    } else if h == 0 || height(g, x, y) != Some(h) {
        false
    } else {
        reached_from(g, sx, sy, x, y, h, 0) || reached_from(g, sx, sy, x, y, h, 1)
            || reached_from(g, sx, sy, x, y, h, 2) || reached_from(g, sx, sy, x, y, h, 3)
    }
}

/// The cell before `(x, y)` in direction `d` is at height `h - 1` and reached.
pub open spec fn reached_from(g: Seq<Seq<Option<u8>>>, sx: int, sy: int, x: int, y: int, h: u8, d: int) -> bool
    decreases h, 0int,
{
    if h == 0 {
        false
    } else {
        let n = neighbour(x, y, d);
        height(g, n.0, n.1) == Some((h - 1) as u8) && reached(g, sx, sy, n.0, n.1, (h - 1) as u8)
    }
}

/// The cells of the first `n` of row `y` at height 9 that a trail from
/// `(sx, sy)` reaches.
pub open spec fn row_peaks(g: Seq<Seq<Option<u8>>>, sx: int, sy: int, y: int, n: int) -> nat
    decreases n,
{
    if n <= 0 {
        0
    } else {
        row_peaks(g, sx, sy, y, n - 1) + if reached(g, sx, sy, n - 1, y, 9) {
            1nat
        } else {
            0nat
        }
    }
}

/// The height-9 cells of the first `m` rows that a trail from `(sx, sy)`
/// reaches.
pub open spec fn peaks(g: Seq<Seq<Option<u8>>>, sx: int, sy: int, m: int) -> nat
    decreases m,
{
    if m <= 0 {
        0
    } else {
        peaks(g, sx, sy, m - 1) + row_peaks(g, sx, sy, m - 1, g[m - 1].len() as int)
    }
}

/// The score (or, with `rating`, the rating) of each trailhead among the first
/// `n` cells of row `y`, summed.
pub open spec fn row_total(g: Seq<Seq<Option<u8>>>, y: int, n: int, rating: bool) -> nat
    decreases n,
{
    if n <= 0 {
        0
    } else {
        row_total(g, y, n - 1, rating) + if height(g, n - 1, y) == Some(0u8) {
            if rating {
                trails(g, n - 1, y, 0)
            } else {
                peaks(g, n - 1, y, g.len() as int)
            }
        } else {
            0nat
        }
    }
}

/// The scores (or ratings) of all trailheads of the first `m` rows, summed.
pub open spec fn total(g: Seq<Seq<Option<u8>>>, m: int, rating: bool) -> nat
    decreases m,
{
    if m <= 0 {
        0
    } else {
        total(g, m - 1, rating) + row_total(g, m - 1, g[m - 1].len() as int, rating)
    }
}

impl Topology {
    pub open spec fn grid(&self) -> Seq<Seq<Option<u8>>> {
        Seq::new(self.heights@.len(), |i: int| self.heights@[i]@)
    }

    proof fn lemma_fits(&self)
        ensures
            self.grid().len() <= usize::MAX,
            forall|q: int| 0 <= q < self.grid().len() ==> (#[trigger] self.grid()[q]).len() <= usize::MAX,
    {
        assert forall|q: int| 0 <= q < self.grid().len() implies (#[trigger] self.grid()[q]).len() <= usize::MAX by {
            assert(self.grid()[q] == self.heights@[q]@);
            assert(self.heights@[q]@.len() == self.heights@[q].len());
        }
        assert(self.heights@.len() == self.heights.len());
    }

    /// The height at `(x, y)`, where `x` or `y` may lie one step off the map.
    fn height_at(&self, x: usize, y: usize, dx: i8, dy: i8) -> (r: Option<u8>)
        requires
            -1 <= dx <= 1,
            -1 <= dy <= 1,
        ensures
            r == height(self.grid(), x + dx, y + dy),
    {
        proof { self.lemma_fits(); }
        if (dx < 0 && x == 0) || (dy < 0 && y == 0) {
            return None;
        }
        let nx = if dx < 0 { x - 1 } else if dx > 0 {
            if x == usize::MAX {
                return None;
            }
            x + 1
        } else { x };
        let ny = if dy < 0 { y - 1 } else if dy > 0 {
            if y == usize::MAX {
                return None;
            }
            y + 1
        } else { y };
        if ny < self.heights.len() && nx < self.heights[ny].len() {
            self.heights[ny][nx]
        } else {
            None
        }
    }

    /// The height of the neighbour in direction `d`.
    fn neighbour_height(&self, x: usize, y: usize, d: usize) -> (r: Option<u8>)
        requires
            d < 4,
        ensures
            r == height(self.grid(), neighbour(x as int, y as int, d as int).0, neighbour(x as int, y as int, d as int).1),
    {
        if d == 0 {
            self.height_at(x, y, 0, 1)
        } else if d == 1 {
            self.height_at(x, y, 1, 0)
        } else if d == 2 {
            self.height_at(x, y, 0, -1)
        } else {
            self.height_at(x, y, -1, 0)
        }
    }

    /// The number of trails from `(x, y)`, at height `h`, up to a 9.
    fn trails_from(&self, x: usize, y: usize, h: u8) -> (r: usize)
        requires
            h <= 9,
        ensures
            r == capped(trails(self.grid(), x as int, y as int, h)),
        decreases 9 - h,
    {
        if h >= 9 {
            return 1;
        }
        let mut sum: usize = 0;
        let mut d: usize = 0;
        let ghost g = self.grid();
        proof { self.lemma_fits(); }
        while d < 4
            invariant
                g == self.grid(),
                g.len() <= usize::MAX,
                forall|q: int| 0 <= q < g.len() ==> (#[trigger] g[q]).len() <= usize::MAX,
                h < 9,
                0 <= d <= 4,
                sum == capped(
                    if d >= 1 { trails_via(g, x as int, y as int, h, 0) } else { 0 }
                    + if d >= 2 { trails_via(g, x as int, y as int, h, 1) } else { 0 }
                    + if d >= 3 { trails_via(g, x as int, y as int, h, 2) } else { 0 }
                    + if d >= 4 { trails_via(g, x as int, y as int, h, 3) } else { 0 }
                ),
            decreases 4 - d,
        {
            let ghost before = (if d >= 1 { trails_via(g, x as int, y as int, h, 0) } else { 0 }
                + if d >= 2 { trails_via(g, x as int, y as int, h, 1) } else { 0 }
                + if d >= 3 { trails_via(g, x as int, y as int, h, 2) } else { 0 }) as nat;
            let add: usize = if self.neighbour_height(x, y, d) == Some(h + 1) {
                let n = if d == 0 { (x, y + 1) } else if d == 1 { (x + 1, y) } else if d == 2 { (x, y - 1) } else { (x - 1, y) };
                self.trails_from(n.0, n.1, h + 1)
            } else {
                0
            };
            proof {
                lemma_capped_add(before, trails_via(g, x as int, y as int, h, d as int));
            }
            sum = sum.saturating_add(add);
            d = d + 1;
        }
        sum
    }
}

/// A set of cells, shaped like the grid.
pub open spec fn same_shape(level: Seq<Vec<bool>>, g: Seq<Seq<Option<u8>>>) -> bool {
    &&& level.len() == g.len()
    &&& forall|y: int| 0 <= y < g.len() ==> (#[trigger] level[y])@.len() == g[y].len()
}

/// The set holds exactly the cells at height `h` on a trail from `(sx, sy)`.
pub open spec fn is_level(level: Seq<Vec<bool>>, g: Seq<Seq<Option<u8>>>, sx: int, sy: int, h: u8) -> bool {
    &&& same_shape(level, g)
    &&& forall|y: int, x: int|
        0 <= y < g.len() && 0 <= x < g[y].len() ==> (#[trigger] level[y]@[x]) == reached(g, sx, sy, x, y, h)
}

proof fn lemma_reached_height(g: Seq<Seq<Option<u8>>>, sx: int, sy: int, x: int, y: int, h: u8)
    ensures
        reached(g, sx, sy, x, y, h) ==> height(g, x, y) == Some(h),
{
}

impl Topology {
    /// Whether the neighbour of `(x, y)` in direction `d` is in `level`.
    fn in_level(&self, level: &Vec<Vec<bool>>, x: usize, y: usize, d: usize) -> (r: bool)
        requires
            d < 4,
            same_shape(level@, self.grid()),
        ensures
            ({
                let n = neighbour(x as int, y as int, d as int);
                r == (0 <= n.1 < self.grid().len() && 0 <= n.0 < self.grid()[n.1].len() && level@[n.1]@[n.0])
            }),
    {
        proof { self.lemma_fits(); }
        let (nx, ny) = if d == 0 {
            if y == usize::MAX {
                return false;
            }
            (x, y + 1)
        } else if d == 1 {
            if x == usize::MAX {
                return false;
            }
            (x + 1, y)
        } else if d == 2 {
            if y == 0 {
                return false;
            }
            (x, y - 1)
        } else {
            if x == 0 {
                return false;
            }
            (x - 1, y)
        };
        if ny < level.len() && nx < level[ny].len() {
            assert(level@[ny as int]@.len() == self.grid()[ny as int].len());
            level[ny][nx]
        } else {
            false
        }
    }

    /// The cells at height `h + 1` on a trail from `(sx, sy)`, given those at
    /// height `h`.
    fn next_level(&self, level: &Vec<Vec<bool>>, sx: usize, sy: usize, h: u8) -> (r: Vec<Vec<bool>>)
        requires
            h < 9,
            height(self.grid(), sx as int, sy as int) == Some(0u8),
            is_level(level@, self.grid(), sx as int, sy as int, h),
        ensures
            is_level(r@, self.grid(), sx as int, sy as int, (h + 1) as u8),
    {
        let ghost g = self.grid();
        let mut next: Vec<Vec<bool>> = Vec::new();
        let mut y: usize = 0;
        while y < self.heights.len()
            invariant
                g == self.grid(),
                h < 9,
                height(g, sx as int, sy as int) == Some(0u8),
                is_level(level@, g, sx as int, sy as int, h),
                0 <= y <= g.len(),
                next@.len() == y,
                forall|q: int| 0 <= q < y ==> (#[trigger] next@[q])@.len() == g[q].len(),
                forall|q: int, x: int|
                    0 <= q < y && 0 <= x < g[q].len() ==> (#[trigger] next@[q]@[x]) == reached(g, sx as int, sy as int, x, q, (h + 1) as u8),
            decreases self.heights.len() - y,
        {
            assert(self.heights@[y as int]@ == g[y as int]);
            let mut row: Vec<bool> = Vec::new();
            let mut x: usize = 0;
            while x < self.heights[y].len()
                invariant
                    g == self.grid(),
                    h < 9,
                    height(g, sx as int, sy as int) == Some(0u8),
                    is_level(level@, g, sx as int, sy as int, h),
                    0 <= y < g.len(),
                    self.heights@[y as int]@ == g[y as int],
                    0 <= x <= g[y as int].len(),
                    row@.len() == x,
                    forall|c: int| 0 <= c < x ==> (#[trigger] row@[c]) == reached(g, sx as int, sy as int, c, y as int, (h + 1) as u8),
                decreases self.heights@[y as int]@.len() - x,
            {
                let up = (h + 1) as u8;
                let here = self.heights[y][x];
                let mut any = false;
                let mut d: usize = 0;
                while d < 4
                    invariant
                        g == self.grid(),
                        h < 9,
                        is_level(level@, g, sx as int, sy as int, h),
                        0 <= d <= 4,
                        any == exists|e: int| 0 <= e < d && #[trigger] reached_from(g, sx as int, sy as int, x as int, y as int, (h + 1) as u8, e),
                    decreases 4 - d,
                {
                    let hit = self.in_level(level, x, y, d);
                    proof {
                        let n = neighbour(x as int, y as int, d as int);
                        lemma_reached_height(g, sx as int, sy as int, n.0, n.1, h);
                        assert(hit == reached_from(g, sx as int, sy as int, x as int, y as int, (h + 1) as u8, d as int));
                    }
                    any = any || hit;
                    d = d + 1;
                }
                let v = here == Some(up) && !(x == sx && y == sy) && any;
                proof {
                    let r = reached(g, sx as int, sy as int, x as int, y as int, up);
                    assert(here == height(g, x as int, y as int));
                    assert(v == r) by {
                        if any {
                            let e = choose|e: int| 0 <= e < 4 && #[trigger] reached_from(g, sx as int, sy as int, x as int, y as int, up, e);
                            assert(e == 0 || e == 1 || e == 2 || e == 3);
                        }
                        if r && (x, y) != (sx, sy) {
                            if reached_from(g, sx as int, sy as int, x as int, y as int, up, 0) {
                                assert(any);
                            } else if reached_from(g, sx as int, sy as int, x as int, y as int, up, 1) {
                                assert(any);
                            } else if reached_from(g, sx as int, sy as int, x as int, y as int, up, 2) {
                                assert(any);
                            } else {
                                assert(reached_from(g, sx as int, sy as int, x as int, y as int, up, 3));
                                assert(any);
                            }
                        }
                    }
                }
                row.push(v);
                x = x + 1;
            }
            next.push(row);
            y = y + 1;
        }
        next
    }
}

impl Topology {
    /// The cells at height 0 on a trail from the trailhead: the trailhead.
    fn start_level(&self, sx: usize, sy: usize) -> (r: Vec<Vec<bool>>)
        requires
            height(self.grid(), sx as int, sy as int) == Some(0u8),
        ensures
            is_level(r@, self.grid(), sx as int, sy as int, 0),
    {
        let ghost g = self.grid();
        let mut level: Vec<Vec<bool>> = Vec::new();
        let mut y: usize = 0;
        while y < self.heights.len()
            invariant
                g == self.grid(),
                height(g, sx as int, sy as int) == Some(0u8),
                0 <= y <= g.len(),
                level@.len() == y,
                forall|q: int| 0 <= q < y ==> (#[trigger] level@[q])@.len() == g[q].len(),
                forall|q: int, x: int|
                    0 <= q < y && 0 <= x < g[q].len() ==> (#[trigger] level@[q]@[x]) == reached(g, sx as int, sy as int, x, q, 0),
            decreases self.heights.len() - y,
        {
            assert(self.heights@[y as int]@ == g[y as int]);
            let mut row: Vec<bool> = Vec::new();
            let mut x: usize = 0;
            while x < self.heights[y].len()
                invariant
                    g == self.grid(),
                    height(g, sx as int, sy as int) == Some(0u8),
                    0 <= y < g.len(),
                    self.heights@[y as int]@ == g[y as int],
                    0 <= x <= g[y as int].len(),
                    row@.len() == x,
                    forall|c: int| 0 <= c < x ==> (#[trigger] row@[c]) == reached(g, sx as int, sy as int, c, y as int, 0),
                decreases self.heights@[y as int]@.len() - x,
            {
                row.push(x == sx && y == sy);
                x = x + 1;
            }
            level.push(row);
            y = y + 1;
        }
        level
    }

    /// The number of height-9 cells that trails from the trailhead reach.
    pub fn peaks_from(&self, sx: usize, sy: usize) -> (r: usize)
        requires
            height(self.grid(), sx as int, sy as int) == Some(0u8),
        ensures
            r == capped(peaks(self.grid(), sx as int, sy as int, self.grid().len() as int)),
    {
        let ghost g = self.grid();
        let mut level = self.start_level(sx, sy);
        let mut h: u8 = 0;
        while h < 9
            invariant
                g == self.grid(),
                height(g, sx as int, sy as int) == Some(0u8),
                0 <= h <= 9,
                is_level(level@, g, sx as int, sy as int, h),
            decreases 9 - h,
        {
            level = self.next_level(&level, sx, sy, h);
            h = h + 1;
        }
        let mut count: usize = 0;
        let mut y: usize = 0;
        while y < level.len()
            invariant
                g == self.grid(),
                is_level(level@, g, sx as int, sy as int, 9),
                0 <= y <= g.len(),
                count == capped(peaks(g, sx as int, sy as int, y as int)),
            decreases level.len() - y,
        {
            let mut x: usize = 0;
            let ghost before = peaks(g, sx as int, sy as int, y as int);
            while x < level[y].len()
                invariant
                    g == self.grid(),
                    is_level(level@, g, sx as int, sy as int, 9),
                    0 <= y < g.len(),
                    0 <= x <= g[y as int].len(),
                    count == capped(before + row_peaks(g, sx as int, sy as int, y as int, x as int)),
                decreases level@[y as int]@.len() - x,
            {
                let add: usize = if level[y][x] { 1 } else { 0 };
                proof {
                    lemma_capped_add(before + row_peaks(g, sx as int, sy as int, y as int, x as int), add as nat);
                }
                count = count.saturating_add(add);
                x = x + 1;
            }
            y = y + 1;
        }
        count
    }

    /// The summed scores and the summed ratings of all trailheads.
    pub fn trailheads(&self) -> (r: (usize, usize))
        ensures
            r.0 == capped(total(self.grid(), self.grid().len() as int, false)),
            r.1 == capped(total(self.grid(), self.grid().len() as int, true)),
    {
        let ghost g = self.grid();
        let mut score: usize = 0;
        let mut rating: usize = 0;
        let mut y: usize = 0;
        while y < self.heights.len()
            invariant
                g == self.grid(),
                0 <= y <= g.len(),
                score == capped(total(g, y as int, false)),
                rating == capped(total(g, y as int, true)),
            decreases self.heights.len() - y,
        {
            assert(self.heights@[y as int]@ == g[y as int]);
            let ghost s0 = total(g, y as int, false);
            let ghost r0 = total(g, y as int, true);
            let mut x: usize = 0;
            while x < self.heights[y].len()
                invariant
                    g == self.grid(),
                    0 <= y < g.len(),
                    self.heights@[y as int]@ == g[y as int],
                    0 <= x <= g[y as int].len(),
                    score == capped(s0 + row_total(g, y as int, x as int, false)),
                    rating == capped(r0 + row_total(g, y as int, x as int, true)),
                decreases self.heights@[y as int]@.len() - x,
            {
                if self.heights[y][x] == Some(0u8) {
                    let p = self.peaks_from(x, y);
                    let t = self.trails_from(x, y, 0);
                    proof {
                        lemma_capped_add(s0 + row_total(g, y as int, x as int, false), peaks(g, x as int, y as int, g.len() as int));
                        lemma_capped_add(r0 + row_total(g, y as int, x as int, true), trails(g, x as int, y as int, 0));
                    }
                    score = score.saturating_add(p);
                    rating = rating.saturating_add(t);
                }
                x = x + 1;
            }
            y = y + 1;
        }
        (score, rating)
    }
}

/// A height map line: `.` for no height, else a digit.
pub open spec fn heights_of(s: Seq<u8>) -> Option<Seq<Option<u8>>> {
    if forall|i: int| 0 <= i < s.len() ==> (#[trigger] s[i]) == 46 || super::text::is_digit(s[i]) {
        Some(Seq::new(s.len(), |i: int| if s[i] == 46 { None } else { Some((s[i] - 48) as u8) }))
    } else {
        None
    }
}

/// The height map of a text, if every line parses.
pub open spec fn topology_of(text: Seq<u8>) -> Option<Seq<Seq<Option<u8>>>> {
    if forall|i: int| 0 <= i < lines(text).len() ==> (#[trigger] heights_of(lines(text)[i])) is Some {
        Some(Seq::new(lines(text).len(), |i: int| heights_of(lines(text)[i])->Some_0))
    } else {
        None
    }
}

fn parse_heights(s: &[u8]) -> (r: Option<Vec<Option<u8>>>)
    ensures
        r is Some <==> heights_of(s@) is Some,
        r matches Some(v) ==> heights_of(s@) == Some(v@),
{
    let mut v: Vec<Option<u8>> = Vec::new();
    let mut i: usize = 0;
    while i < s.len()
        invariant
            0 <= i <= s@.len(),
            v@.len() == i,
            forall|j: int| 0 <= j < i ==> ((#[trigger] s@[j]) == 46 || super::text::is_digit(s@[j])) && v@[j] == if s@[j] == 46 { None } else { Some((s@[j] - 48) as u8) },
        decreases s.len() - i,
    {
        let c = s[i];
        if c == 46 {
            v.push(None);
        } else if 48 <= c && c <= 57 {
            v.push(Some(c - 48));
        } else {
            return None;
        }
        i = i + 1;
    }
    assert(Seq::new(s@.len(), |j: int| if s@[j] == 46 { None } else { Some((s@[j] - 48) as u8) }) =~= v@);
    Some(v)
}

impl Topology {
    /// Parses one line of heights per row.
    pub fn parse(s: &[u8]) -> (r: Result<Topology, String>)
        ensures
            r is Ok <==> topology_of(s@) is Some,
            r matches Ok(t) ==> topology_of(s@) == Some(t.grid()),
    {
        let ls = split_lines(s);
        let mut heights: Vec<Vec<Option<u8>>> = Vec::new();
        let mut i: usize = 0;
        while i < ls.len()
            invariant
                views(ls@) == lines(s@),
                0 <= i <= ls@.len(),
                heights@.len() == i,
                forall|j: int| 0 <= j < i ==> (#[trigger] heights_of(lines(s@)[j])) == Some(heights@[j]@),
            decreases ls.len() - i,
        {
            assert(ls@[i as int]@ == lines(s@)[i as int]);
            assert(views(ls@).len() == ls@.len());
            match parse_heights(ls[i].as_slice()) {
                Some(row) => heights.push(row),
                None => {
                    return Err("bad height digit".to_owned());
                },
            }
            i = i + 1;
        }
        assert(views(ls@).len() == ls@.len());
        let t = Topology { heights };
        assert(Seq::new(lines(s@).len(), |j: int| heights_of(lines(s@)[j])->Some_0) =~= t.grid());
        Ok(t)
    }
}

impl Day for Instance {
    /// The summed trailhead scores, and the summed trailhead ratings.
    fn run(&self, input: String) -> (r: Result<DayResult, String>)
        ensures
            r is Ok <==> topology_of(encode_utf8(input@)) is Some,
            r matches Ok(d) ==> {
                let g = topology_of(encode_utf8(input@))->Some_0;
                d.reports(capped(total(g, g.len() as int, false)) as nat, capped(total(g, g.len() as int, true)) as nat)
            },
    {
        let topology = Topology::parse(input.as_str().as_bytes())?;
        let (part1, part2) = topology.trailheads();
        let part1 = usize_to_string(part1);
        let part2 = Some(usize_to_string(part2));
        Ok(DayResult { part1, part2 })
    }
}

} // verus!
