use vstd::prelude::*;
use vstd::utf8::encode_utf8;

use super::day::{Day, DayResult};
use super::text::{lines, split_lines, usize_to_string, views};

verus! {

/// Resonant collinearity: the cells that pairs of same-frequency antennas
/// pick out.
pub struct Instance;

/// An antenna: its cell and its frequency (the character drawn there).
#[derive(Debug, PartialEq, Eq, Clone, Copy, Structural)]
pub struct Antenna {
    pub x: i64,
    pub y: i64,
    pub frequency: u8,
}

/// The antennas, and the last column and row of the map.
pub struct Antennas {
    pub antennas: Vec<Antenna>,
    pub max_x: i64,
    pub max_y: i64,
}

/// The map's cells: columns `0..=max_x`, rows `0..=max_y`.
pub open spec fn on_map(x: int, y: int, max_x: int, max_y: int) -> bool {
    0 <= x <= max_x && 0 <= y <= max_y
}

/// Antennas `i` and `j` differ and share a frequency.
pub open spec fn paired(ants: Seq<Antenna>, i: int, j: int) -> bool {
    0 <= i < ants.len() && 0 <= j < ants.len() && ants[i] != ants[j] && ants[i].frequency
        == ants[j].frequency
}

/// The cell `k` steps from antenna `i`, stepping away from antenna `j`.
pub open spec fn beyond(ants: Seq<Antenna>, i: int, j: int, k: int) -> (int, int) {
    (
        ants[i].x + k * (ants[i].x - ants[j].x),
        ants[i].y + k * (ants[i].y - ants[j].y),
    )
}

/// `(x, y)` is an antinode of the pair `(i, j)`: one step beyond `i`, or, with
/// `all`, any number of steps (none included).
pub open spec fn antinode_of(ants: Seq<Antenna>, i: int, j: int, x: int, y: int, all: bool) -> bool {
    paired(ants, i, j) && if all {
        exists|k: int| k >= 0 && #[trigger] beyond(ants, i, j, k) == (x, y)
    } else {
        beyond(ants, i, j, 1) == (x, y)
    }
}

/// `(x, y)` is an antinode of some pair whose first antenna comes before `n`.
pub open spec fn antinode_before(ants: Seq<Antenna>, n: int, x: int, y: int, all: bool) -> bool {
    exists|i: int, j: int| 0 <= i < n && #[trigger] antinode_of(ants, i, j, x, y, all)
}

/// The cells among the first `n` in row-major order (rows `w` wide) that are
/// antinodes.
pub open spec fn antinode_count(ants: Seq<Antenna>, w: int, n: int, all: bool) -> nat
    decreases n,
{
    if n <= 0 || w <= 0 {
        0
    } else {
        antinode_count(ants, w, n - 1, all) + if antinode_before(
            ants,
            ants.len() as int,
            (n - 1) % w,
            (n - 1) / w,
            all,
        ) {
            1nat
        } else {
            0nat
        }
    }
}

proof fn lemma_cell_index(x: int, y: int, w: int)
    requires
        0 <= x < w,
        0 <= y,
    ensures
        (y * w + x) % w == x,
        (y * w + x) / w == y,
{
    vstd::arithmetic::div_mod::lemma_fundamental_div_mod_converse(y * w + x, w, y, x);
}

/// Coordinates that stay well inside `i64`.
pub open spec fn small(v: int) -> bool {
    -0x400000000 <= v <= 0x400000000
}

impl Antennas {
    pub open spec fn wf(&self) -> bool {
        &&& 0 <= self.max_x < 0x100000000
        &&& 0 <= self.max_y < 0x100000000
        &&& (self.max_x + 1) * (self.max_y + 1) <= usize::MAX
        &&& forall|i: int|
            0 <= i < self.antennas@.len() ==> on_map(
                (#[trigger] self.antennas@[i]).x as int,
                self.antennas@[i].y as int,
                self.max_x as int,
                self.max_y as int,
            )
    }

    /// Marks the antinodes of one pair.
    fn mark_pair(&self, marks: &mut Vec<bool>, i: usize, j: usize, all: bool)
        requires
            self.wf(),
            i < self.antennas@.len(),
            j < self.antennas@.len(),
            old(marks)@.len() == (self.max_x + 1) * (self.max_y + 1),
        ensures
            final(marks)@.len() == old(marks)@.len(),
            forall|x: int, y: int|
                on_map(x, y, self.max_x as int, self.max_y as int) ==> (#[trigger] final(marks)@[y
                    * (self.max_x + 1) + x] == (old(marks)@[y * (self.max_x + 1) + x]
                    || antinode_of(self.antennas@, i as int, j as int, x, y, all))),
    {
        let ghost ants = self.antennas@;
        assert(self.max_x + 1 <= usize::MAX) by (nonlinear_arith)
            requires
                (self.max_x + 1) * (self.max_y + 1) <= usize::MAX,
                self.max_y >= 0,
                self.max_x >= 0,
        ;
        let w = (self.max_x + 1) as usize;
        assert(on_map(ants[i as int].x as int, ants[i as int].y as int, self.max_x as int, self.max_y as int));
        assert(on_map(ants[j as int].x as int, ants[j as int].y as int, self.max_x as int, self.max_y as int));
        let a = self.antennas[i];
        let b = self.antennas[j];
        if a == b || a.frequency != b.frequency {
            return;
        }
        let dx = a.x - b.x;
        let dy = a.y - b.y;
        assert(dx != 0 || dy != 0);
        let mut x = a.x;
        let mut y = a.y;
        let mut k: i64 = 0;
        if !all {
            x = a.x + dx;
            y = a.y + dy;
            assert((x as int, y as int) == beyond(ants, i as int, j as int, 1));
            if x < 0 || y < 0 || x > self.max_x || y > self.max_y {
                return;
            }
            proof {
                self.lemma_index(x as int, y as int);
                assert((y as usize) * w <= y * (self.max_x + 1) + x) by (nonlinear_arith)
                    requires
                        w == self.max_x + 1,
                        y >= 0,
                        x >= 0,
                ;
            }
            let idx = (y as usize) * w + (x as usize);
            let ghost before = marks@;
            marks.set(idx, true);
            assert forall|cx: int, cy: int| on_map(cx, cy, self.max_x as int, self.max_y as int) implies (#[trigger] marks@[cy
                * (self.max_x + 1) + cx] == (before[cy * (self.max_x + 1) + cx]
                || antinode_of(ants, i as int, j as int, cx, cy, all))) by {
                self.lemma_index(cx, cy);
                self.lemma_index_injective(cx, cy, x as int, y as int);
            }
            return;
        }
        let ghost before = marks@;
        while 0 <= x && 0 <= y && x <= self.max_x && y <= self.max_y
            invariant
                self.wf(),
                ants == self.antennas@,
                paired(ants, i as int, j as int),
                all,
                w == self.max_x + 1,
                marks@.len() == before.len(),
                before.len() == (self.max_x + 1) * (self.max_y + 1),
                dx == ants[i as int].x - ants[j as int].x,
                dy == ants[i as int].y - ants[j as int].y,
                dx != 0 || dy != 0,
                small(dx as int) && small(dy as int),
                k >= 0,
                k <= 0x100000000,
                on_map(ants[i as int].x as int, ants[i as int].y as int, self.max_x as int, self.max_y as int),
                (x as int, y as int) == beyond(ants, i as int, j as int, k as int),
                small(x as int) && small(y as int),
                forall|cx: int, cy: int| on_map(cx, cy, self.max_x as int, self.max_y as int) ==> (#[trigger] marks@[cy
                    * (self.max_x + 1) + cx] == (before[cy * (self.max_x + 1) + cx]
                    || exists|q: int| 0 <= q < k && #[trigger] beyond(ants, i as int, j as int, q) == (cx, cy))),
            decreases 0x100000000 - k,
        {
            proof {
                self.lemma_index(x as int, y as int);
                assert((y as usize) * w <= y * (self.max_x + 1) + x) by (nonlinear_arith)
                    requires
                        w == self.max_x + 1,
                        y >= 0,
                        x >= 0,
                ;
            }
            let idx = (y as usize) * w + (x as usize);
            let ghost prev = marks@;
            marks.set(idx, true);
            assert forall|cx: int, cy: int| on_map(cx, cy, self.max_x as int, self.max_y as int) implies (#[trigger] marks@[cy
                * (self.max_x + 1) + cx] == (before[cy * (self.max_x + 1) + cx]
                || exists|q: int| 0 <= q < k + 1 && #[trigger] beyond(ants, i as int, j as int, q) == (cx, cy))) by {
                self.lemma_index(cx, cy);
                self.lemma_index_injective(cx, cy, x as int, y as int);
                if (cx, cy) == (x as int, y as int) {
                    assert(beyond(ants, i as int, j as int, k as int) == (cx, cy));
                }
                if exists|q: int| 0 <= q < k + 1 && #[trigger] beyond(ants, i as int, j as int, q) == (cx, cy) {
                    let q = choose|q: int| 0 <= q < k + 1 && #[trigger] beyond(ants, i as int, j as int, q) == (cx, cy);
                    if q == k {
                        assert((cx, cy) == (x as int, y as int));
                    } else {
                        assert(0 <= q < k);
                    }
                }
            }
            assert(beyond(ants, i as int, j as int, k + 1) == (x + dx, y + dy)) by (nonlinear_arith)
                requires
                    (x as int, y as int) == beyond(ants, i as int, j as int, k as int),
                    dx == ants[i as int].x - ants[j as int].x,
                    dy == ants[i as int].y - ants[j as int].y,
            ;
            proof {
                lemma_steps_bounded(ants[i as int].x as int, ants[i as int].y as int, dx as int, dy as int, k as int, self.max_x as int, self.max_y as int);
            }
            x = x + dx;
            y = y + dy;
            k = k + 1;
        }
        proof {
            lemma_line_leaves(ants, i as int, j as int, k as int, self.max_x as int, self.max_y as int);
        }
        assert forall|cx: int, cy: int| on_map(cx, cy, self.max_x as int, self.max_y as int) implies (#[trigger] marks@[cy
            * (self.max_x + 1) + cx] == (before[cy * (self.max_x + 1) + cx]
            || antinode_of(ants, i as int, j as int, cx, cy, all))) by {
            if antinode_of(ants, i as int, j as int, cx, cy, all) {
                let q = choose|q: int| q >= 0 && #[trigger] beyond(ants, i as int, j as int, q) == (cx, cy);
                assert(beyond(ants, i as int, j as int, q).0 == cx);
                assert(q < k);
            }
        }
    }
}

/// A line that is still on the map after `k` steps has taken fewer than 2^32
/// of them.
proof fn lemma_steps_bounded(ax: int, ay: int, dx: int, dy: int, k: int, max_x: int, max_y: int)
    requires
        k >= 0,
        dx != 0 || dy != 0,
        on_map(ax, ay, max_x, max_y),
        on_map(ax + k * dx, ay + k * dy, max_x, max_y),
        max_x < 0x100000000,
        max_y < 0x100000000,
    ensures
        k < 0x100000000,
{
    if dx != 0 {
        assert(k <= k * (if dx > 0 { dx } else { -dx })) by (nonlinear_arith)
            requires
                k >= 0,
                dx != 0,
        ;
        assert(k * (if dx > 0 { dx } else { -dx }) < 0x100000000) by (nonlinear_arith)
            requires
                0 <= ax < 0x100000000,
                0 <= ax + k * dx < 0x100000000,
        ;
    } else {
        assert(k <= k * (if dy > 0 { dy } else { -dy })) by (nonlinear_arith)
            requires
                k >= 0,
                dy != 0,
        ;
        assert(k * (if dy > 0 { dy } else { -dy }) < 0x100000000) by (nonlinear_arith)
            requires
                0 <= ay < 0x100000000,
                0 <= ay + k * dy < 0x100000000,
        ;
    }
}

/// Once the line of a pair leaves the map, it does not come back.
proof fn lemma_line_leaves(ants: Seq<Antenna>, i: int, j: int, k: int, max_x: int, max_y: int)
    requires
        0 <= i < ants.len(),
        0 <= j < ants.len(),
        k >= 0,
        !on_map(beyond(ants, i, j, k).0, beyond(ants, i, j, k).1, max_x, max_y),
        on_map(ants[i].x as int, ants[i].y as int, max_x, max_y),
    ensures
        forall|q: int| q >= k ==> !on_map(#[trigger] beyond(ants, i, j, q).0, beyond(ants, i, j, q).1, max_x, max_y),
{
    let ax = ants[i].x as int;
    let ay = ants[i].y as int;
    let dx = ants[i].x - ants[j].x;
    let dy = ants[i].y - ants[j].y;
    assert forall|q: int| q >= k implies !on_map(#[trigger] beyond(ants, i, j, q).0, beyond(ants, i, j, q).1, max_x, max_y) by {
        let px = ax + k * dx;
        let py = ay + k * dy;
        let qx = ax + q * dx;
        let qy = ay + q * dy;
        assert(beyond(ants, i, j, q) == (qx, qy));
        assert(beyond(ants, i, j, k) == (px, py));
        if px < 0 {
            assert(qx <= px) by (nonlinear_arith)
                requires
                    px < 0, 0 <= ax, px == ax + k * dx, qx == ax + q * dx, q >= k, k >= 0,
            ;
        } else if py < 0 {
            assert(qy <= py) by (nonlinear_arith)
                requires
                    py < 0, 0 <= ay, py == ay + k * dy, qy == ay + q * dy, q >= k, k >= 0,
            ;
        } else if px > max_x {
            assert(qx >= px) by (nonlinear_arith)
                requires
                    px > max_x, ax <= max_x, px == ax + k * dx, qx == ax + q * dx, q >= k, k >= 0,
            ;
        } else {
            assert(qy >= py) by (nonlinear_arith)
                requires
                    py > max_y, ay <= max_y, py == ay + k * dy, qy == ay + q * dy, q >= k, k >= 0,
            ;
        }
    }
}

impl Antennas {
    proof fn lemma_index(&self, x: int, y: int)
        requires
            self.wf(),
            on_map(x, y, self.max_x as int, self.max_y as int),
        ensures
            0 <= y * (self.max_x + 1) + x < (self.max_x + 1) * (self.max_y + 1),
            (y * (self.max_x + 1) + x) % (self.max_x + 1) == x,
            (y * (self.max_x + 1) + x) / (self.max_x + 1) == y,
    {
        let w = self.max_x + 1;
        let h = self.max_y + 1;
        assert(0 <= y * w + x < w * h) by (nonlinear_arith)
            requires
                0 <= x < w,
                0 <= y < h,
        ;
        lemma_cell_index(x, y, w as int);
    }

    proof fn lemma_index_injective(&self, x1: int, y1: int, x2: int, y2: int)
        requires
            self.wf(),
            on_map(x1, y1, self.max_x as int, self.max_y as int),
            on_map(x2, y2, self.max_x as int, self.max_y as int),
        ensures
            (y1 * (self.max_x + 1) + x1 == y2 * (self.max_x + 1) + x2) <==> (x1 == x2 && y1 == y2),
    {
        self.lemma_index(x1, y1);
        self.lemma_index(x2, y2);
    }
}

impl Antennas {
    /// The number of map cells that are antinodes of some pair (or, with
    /// `all`, lie on the line of some pair beyond its first antenna).
    fn count(&self, all: bool) -> (r: usize)
        requires
            self.wf(),
        ensures
            r == antinode_count(self.antennas@, self.max_x + 1, (self.max_x + 1) * (self.max_y + 1), all),
    {
        let ghost ants = self.antennas@;
        let ghost wi = self.max_x + 1;
        assert(self.max_x + 1 <= usize::MAX && self.max_y + 1 <= usize::MAX) by (nonlinear_arith)
            requires
                (self.max_x + 1) * (self.max_y + 1) <= usize::MAX,
                self.max_y >= 0,
                self.max_x >= 0,
        ;
        let w = (self.max_x + 1) as usize;
        let h = (self.max_y + 1) as usize;
        let cells = w * h;
        let mut marks: Vec<bool> = Vec::new();
        let mut k: usize = 0;
        while k < cells
            invariant
                0 <= k <= cells,
                marks@.len() == k,
                forall|q: int| 0 <= q < k ==> !(#[trigger] marks@[q]),
            decreases cells - k,
        {
            marks.push(false);
            k = k + 1;
        }
        let n = self.antennas.len();
        assert forall|x: int, y: int| on_map(x, y, self.max_x as int, self.max_y as int) implies (#[trigger] marks@[y * wi + x]
            == antinode_before(ants, 0, x, y, all)) by {
            self.lemma_index(x, y);
        }
        let mut i: usize = 0;
        while i < n
            invariant
                self.wf(),
                ants == self.antennas@,
                n == ants.len(),
                wi == self.max_x + 1,
                cells == (self.max_x + 1) * (self.max_y + 1),
                marks@.len() == cells,
                0 <= i <= n,
                forall|x: int, y: int|
                    on_map(x, y, self.max_x as int, self.max_y as int) ==> (#[trigger] marks@[y * wi + x]
                        == antinode_before(ants, i as int, x, y, all)),
            decreases n - i,
        {
            let mut j: usize = 0;
            while j < n
                invariant
                    self.wf(),
                    ants == self.antennas@,
                    n == ants.len(),
                    wi == self.max_x + 1,
                    cells == (self.max_x + 1) * (self.max_y + 1),
                    marks@.len() == cells,
                    0 <= i < n,
                    0 <= j <= n,
                    forall|x: int, y: int|
                        on_map(x, y, self.max_x as int, self.max_y as int) ==> (#[trigger] marks@[y * wi + x]
                            == (antinode_before(ants, i as int, x, y, all)
                            || exists|jj: int| 0 <= jj < j && #[trigger] antinode_of(ants, i as int, jj, x, y, all))),
                decreases n - j,
            {
                let ghost prev = marks@;
                self.mark_pair(&mut marks, i, j, all);
                assert forall|x: int, y: int| on_map(x, y, self.max_x as int, self.max_y as int) implies (#[trigger] marks@[y * wi + x]
                    == (antinode_before(ants, i as int, x, y, all)
                    || exists|jj: int| 0 <= jj < j + 1 && #[trigger] antinode_of(ants, i as int, jj, x, y, all))) by {
                    if exists|jj: int| 0 <= jj < j + 1 && #[trigger] antinode_of(ants, i as int, jj, x, y, all) {
                        let jj = choose|jj: int| 0 <= jj < j + 1 && #[trigger] antinode_of(ants, i as int, jj, x, y, all);
                        if jj < j {
                            assert(prev[y * wi + x]);
                        }
                    }
                }
                j = j + 1;
            }
            assert forall|x: int, y: int| on_map(x, y, self.max_x as int, self.max_y as int) implies (#[trigger] marks@[y * wi + x]
                == antinode_before(ants, i as int + 1, x, y, all)) by {
                if antinode_before(ants, i as int + 1, x, y, all) {
                    let (ii, jj) = choose|ii: int, jj: int| 0 <= ii < i + 1 && #[trigger] antinode_of(ants, ii, jj, x, y, all);
                    if ii == i {
                        assert(paired(ants, ii, jj));
                        assert(0 <= jj < n);
                    } else {
                        assert(antinode_before(ants, i as int, x, y, all));
                    }
                }
                if exists|jj: int| 0 <= jj < n && #[trigger] antinode_of(ants, i as int, jj, x, y, all) {
                    let jj = choose|jj: int| 0 <= jj < n && #[trigger] antinode_of(ants, i as int, jj, x, y, all);
                    assert(antinode_of(ants, i as int, jj, x, y, all));
                }
            }
            i = i + 1;
        }
        let mut count: usize = 0;
        let mut c: usize = 0;
        while c < cells
            invariant
                self.wf(),
                ants == self.antennas@,
                n == ants.len(),
                wi == self.max_x + 1,
                w == wi,
                cells == (self.max_x + 1) * (self.max_y + 1),
                marks@.len() == cells,
                0 <= c <= cells,
                count <= c,
                forall|x: int, y: int|
                    on_map(x, y, self.max_x as int, self.max_y as int) ==> (#[trigger] marks@[y * wi + x]
                        == antinode_before(ants, n as int, x, y, all)),
                count == antinode_count(ants, wi, c as int, all),
            decreases cells - c,
        {
            let ghost x = c as int % wi;
            let ghost y = c as int / wi;
            proof {
                vstd::arithmetic::div_mod::lemma_fundamental_div_mod(c as int, wi);
                assert(0 <= x < wi);
                assert(0 <= y <= self.max_y) by (nonlinear_arith)
                    requires
                        c == wi * y + x,
                        0 <= x < wi,
                        c < wi * (self.max_y + 1),
                        wi >= 1,
                        c >= 0,
                ;
                assert(y * wi + x == c) by (nonlinear_arith)
                    requires
                        c == wi * y + x,
                ;
            }
            if marks[c] {
                count = count + 1;
            }
            c = c + 1;
        }
        count
    }

    /// The cells one step beyond either antenna of a same-frequency pair.
    pub fn count_antinodes(&self) -> (r: usize)
        requires
            self.wf(),
        ensures
            r == antinode_count(self.antennas@, self.max_x + 1, (self.max_x + 1) * (self.max_y + 1), false),
    {
        self.count(false)
    }

    /// The cells on the line through a same-frequency pair.
    pub fn count_antinodes_all(&self) -> (r: usize)
        requires
            self.wf(),
        ensures
            r == antinode_count(self.antennas@, self.max_x + 1, (self.max_x + 1) * (self.max_y + 1), true),
    {
        self.count(true)
    }
}

/// The antennas of one row: every character but `.`.
pub open spec fn row_antennas(line: Seq<u8>, y: int) -> Seq<Antenna>
    decreases line.len(),
{
    if line.len() == 0 {
        Seq::empty()
    } else {
        row_antennas(line.drop_last(), y) + if line.last() != 46 {
            seq![Antenna { x: (line.len() - 1) as i64, y: y as i64, frequency: line.last() }]
        } else {
            Seq::empty()
        }
    }
}

/// The antennas of all rows, row by row.
pub open spec fn map_antennas(ls: Seq<Seq<u8>>) -> Seq<Antenna>
    decreases ls.len(),
{
    if ls.len() == 0 {
        Seq::empty()
    } else {
        map_antennas(ls.drop_last()) + row_antennas(ls.last(), ls.len() - 1)
    }
}

/// The last column: that of the last character of the last non-empty row.
pub open spec fn last_column(ls: Seq<Seq<u8>>) -> int
    decreases ls.len(),
{
    if ls.len() == 0 {
        0
    } else if ls.last().len() > 0 {
        ls.last().len() - 1
    } else {
        last_column(ls.drop_last())
    }
}

/// The last row.
pub open spec fn last_row(ls: Seq<Seq<u8>>) -> int {
    if ls.len() == 0 {
        0
    } else {
        ls.len() - 1
    }
}

/// Every row and the number of rows stay below 2^32.
pub open spec fn map_fits(ls: Seq<Seq<u8>>) -> bool {
    &&& ls.len() < 0x100000000
    &&& forall|y: int| 0 <= y < ls.len() ==> (#[trigger] ls[y]).len() < 0x100000000
}

impl Antennas {
    /// Reads the antennas and the map size.
    pub fn parse(s: &[u8]) -> (r: Result<Antennas, String>)
        ensures
            r is Ok <==> map_fits(lines(s@)),
            r matches Ok(a) ==> a.antennas@ == map_antennas(lines(s@)) && a.max_x == last_column(lines(s@))
                && a.max_y == last_row(lines(s@)),
    {
        let ls = split_lines(s);
        let ghost all = lines(s@);
        assert(views(ls@).len() == ls@.len());
        if ls.len() as u64 >= 0x100000000u64 {
            return Err("map too large".to_owned());
        }
        let mut antennas: Vec<Antenna> = Vec::new();
        let mut max_x: i64 = 0;
        let mut max_y: i64 = 0;
        let mut y: usize = 0;
        assert(all.take(0) =~= Seq::<Seq<u8>>::empty());
        while y < ls.len()
            invariant
                all == lines(s@),
                views(ls@) == all,
                ls@.len() < 0x100000000,
                0 <= y <= ls@.len(),
                forall|q: int| 0 <= q < y ==> (#[trigger] all[q]).len() < 0x100000000,
                antennas@ == map_antennas(all.take(y as int)),
                max_x == last_column(all.take(y as int)),
                max_y == last_row(all.take(y as int)),
            decreases ls.len() - y,
        {
            assert(ls@[y as int]@ == all[y as int]);
            assert(all.take(y as int + 1).drop_last() =~= all.take(y as int));
            let line = &ls[y];
            if line.len() as u64 >= 0x100000000u64 {
                assert(!map_fits(all));
                return Err("map too large".to_owned());
            }
            let mut x: usize = 0;
            let ghost base = antennas@;
            assert(line@.take(0) =~= Seq::<u8>::empty());
            while x < line.len()
                invariant
                    line@ == all[y as int],
                    line@.len() < 0x100000000,
                    y < 0x100000000,
                    0 <= x <= line@.len(),
                    antennas@ == base + row_antennas(line@.take(x as int), y as int),
                decreases line.len() - x,
            {
                assert(line@.take(x as int + 1).drop_last() =~= line@.take(x as int));
                let c = line[x];
                if c != 46 {
                    antennas.push(Antenna { x: x as i64, y: y as i64, frequency: c });
                }
                assert(antennas@ =~= base + row_antennas(line@.take(x as int + 1), y as int));
                x = x + 1;
            }
            assert(line@.take(x as int) =~= line@);
            if line.len() > 0 {
                max_x = (line.len() - 1) as i64;
            }
            max_y = y as i64;
            y = y + 1;
        }
        assert(all.take(y as int) =~= all);
        Ok(Antennas { antennas, max_x, max_y })
    }

    /// Whether the map fits the counting grid and every antenna lies on it.
    fn fits(&self) -> (r: bool)
        ensures
            r == self.wf(),
    {
        if self.max_x < 0 || self.max_x >= 0x100000000 || self.max_y < 0 || self.max_y >= 0x100000000 {
            return false;
        }
        let w = (self.max_x + 1) as u128;
        let h = (self.max_y + 1) as u128;
        assert(w * h <= 0x10000000000000000) by (nonlinear_arith)
            requires
                1 <= w <= 0x100000000,
                1 <= h <= 0x100000000,
        ;
        if w * h > usize::MAX as u128 {
            return false;
        }
        let mut i: usize = 0;
        while i < self.antennas.len()
            invariant
                0 <= self.max_x < 0x100000000,
                0 <= self.max_y < 0x100000000,
                (self.max_x + 1) * (self.max_y + 1) <= usize::MAX,
                0 <= i <= self.antennas@.len(),
                forall|q: int|
                    0 <= q < i ==> on_map(
                        (#[trigger] self.antennas@[q]).x as int,
                        self.antennas@[q].y as int,
                        self.max_x as int,
                        self.max_y as int,
                    ),
            decreases self.antennas.len() - i,
        {
            let a = self.antennas[i];
            if a.x < 0 || a.y < 0 || a.x > self.max_x || a.y > self.max_y {
                return false;
            }
            i = i + 1;
        }
        true
    }
}

impl Day for Instance {
    /// The antinode cells of all same-frequency pairs, and the cells on their
    /// lines.
    fn run(&self, input: String) -> (r: Result<DayResult, String>)
        ensures
            r matches Ok(d) ==> {
                let ls = lines(encode_utf8(input@));
                let w = last_column(ls) + 1;
                let cells = w * (last_row(ls) + 1);
                d.reports(
                    antinode_count(map_antennas(ls), w, cells, false),
                    antinode_count(map_antennas(ls), w, cells, true),
                )
            },
    {
        let antennas = Antennas::parse(input.as_str().as_bytes())?;
        if !antennas.fits() {
            return Err("map outside the supported size".to_owned());
        }
        let part1 = usize_to_string(antennas.count_antinodes());
        let part2 = Some(usize_to_string(antennas.count_antinodes_all()));
        Ok(DayResult { part1, part2 })
    }
}

} // verus!
