use vstd::prelude::*;
use vstd::utf8::encode_utf8;

use super::day::{Day, DayResult};
use super::day14::{parse_signed, signed_of};
use super::text::{decimal, lines, split_bytes, split_lines, split_on, usize_to_string, views};

verus! {

/// RAM run: the shortest walk across a memory grid as bytes fall into it.
pub struct Instance {
    pub grid_size: usize,
    pub falling_bytes: usize,
}

impl Default for Instance {
    /// A 71 by 71 grid, with 1024 bytes fallen before the first walk.
    fn default() -> (r: Instance)
        ensures
            r.grid_size == 70 && r.falling_bytes == 1024,
    {
        Instance { grid_size: 70, falling_bytes: 1024 }
    }
}

/// A cell of memory.
#[derive(Debug, PartialEq, Eq, Clone, Copy, Structural)]
pub struct Coord {
    pub x: i64,
    pub y: i64,
}

/// The memory grid, columns and rows `0..=grid_size`, and which cells are
/// corrupted.
pub struct Memory {
    blocked: Vec<bool>,
    grid_size: usize,
}

/// The grids this walker handles.
pub open spec fn size_fits(n: int) -> bool {
    0 <= n < 0x8000
}

/// A grid with no corrupted cell.
pub open spec fn clean(n: int) -> Seq<bool> {
    Seq::new(((n + 1) * (n + 1)) as nat, |_q: int| false)
}

/// The grid with `c` corrupted as well (a cell off the grid changes nothing).
pub open spec fn corrupted_with(n: int, b: Seq<bool>, c: Coord) -> Seq<bool> {
    if in_grid(n, c.x as int, c.y as int) {
        b.update(cell(n, c.x as int, c.y as int), true)
    } else {
        b
    }
}

/// The grid after the first `m` coordinates have fallen.
pub open spec fn fallen(n: int, coords: Seq<Coord>, m: int) -> Seq<bool>
    decreases m,
{
    if m <= 0 {
        clean(n)
    } else {
        corrupted_with(n, fallen(n, coords, m - 1), coords[m - 1])
    }
}

/// The flat index of a cell.
pub open spec fn cell(n: int, x: int, y: int) -> int {
    y * (n + 1) + x
}

pub open spec fn in_grid(n: int, x: int, y: int) -> bool {
    0 <= x <= n && 0 <= y <= n
}

/// The cell one step away in direction `d`.
pub open spec fn step(x: int, y: int, d: int) -> (int, int) {
    if d == 0 {
        (x - 1, y)
    } else if d == 1 {
        (x + 1, y)
    } else if d == 2 {
        (x, y - 1)
    } else {
        (x, y + 1)
    }
}

/// A walk of at most `k` steps from the corner `(0, 0)` through uncorrupted
/// cells ends at `(x, y)`.
pub open spec fn within(n: int, blocked: Seq<bool>, x: int, y: int, k: nat) -> bool
    decreases k, 1int,
{
    if k == 0 {
        x == 0 && y == 0
    } else {
        within(n, blocked, x, y, (k - 1) as nat) || (in_grid(n, x, y) && !blocked[cell(n, x, y)]
            && (within_from(n, blocked, x, y, (k - 1) as nat, 0) || within_from(n, blocked, x, y, (k - 1) as nat, 1)
            || within_from(n, blocked, x, y, (k - 1) as nat, 2) || within_from(n, blocked, x, y, (k - 1) as nat, 3)))
    }
}

/// The neighbour in direction `d` is within `k` steps.
pub open spec fn within_from(n: int, blocked: Seq<bool>, x: int, y: int, k: nat, d: int) -> bool
    decreases k, 2int,
{
    let s = step(x, y, d);
    within(n, blocked, s.0, s.1, k)
}

proof fn lemma_cell(n: int, x: int, y: int)
    requires
        n >= 0,
        in_grid(n, x, y),
    ensures
        0 <= cell(n, x, y) < (n + 1) * (n + 1),
        cell(n, x, y) % (n + 1) == x,
        cell(n, x, y) / (n + 1) == y,
{
    assert(0 <= y * (n + 1) + x < (n + 1) * (n + 1)) by (nonlinear_arith)
        requires
            0 <= x <= n,
            0 <= y <= n,
    ;
    vstd::arithmetic::div_mod::lemma_fundamental_div_mod_converse(y * (n + 1) + x, n + 1, y, x);
}

proof fn lemma_cell_injective(n: int, x1: int, y1: int, x2: int, y2: int)
    requires
        n >= 0,
        in_grid(n, x1, y1),
        in_grid(n, x2, y2),
    ensures
        (cell(n, x1, y1) == cell(n, x2, y2)) <==> (x1 == x2 && y1 == y2),
{
    lemma_cell(n, x1, y1);
    lemma_cell(n, x2, y2);
}

/// Only the corner and uncorrupted grid cells are ever within reach.
proof fn lemma_within_in_grid(n: int, blocked: Seq<bool>, x: int, y: int, k: nat)
    requires
        n >= 0,
    ensures
        within(n, blocked, x, y, k) ==> in_grid(n, x, y),
    decreases k,
{
    if k > 0 {
        lemma_within_in_grid(n, blocked, x, y, (k - 1) as nat);
    }
}

/// The reachable set, once it stops growing, stays as it is.
proof fn lemma_stable(n: int, blocked: Seq<bool>, k: nat, m: nat)
    requires
        m >= k,
        forall|x: int, y: int| #[trigger] within(n, blocked, x, y, k + 1) == within(n, blocked, x, y, k),
    ensures
        forall|x: int, y: int| #[trigger] within(n, blocked, x, y, m) == within(n, blocked, x, y, k),
    decreases m - k,
{
    if m > k {
        lemma_stable(n, blocked, k, (m - 1) as nat);
        assert forall|x: int, y: int| #[trigger] within(n, blocked, x, y, m) == within(n, blocked, x, y, k) by {
            let p = (m - 1) as nat;
            assert forall|d: int| 0 <= d < 4 implies #[trigger] within_from(n, blocked, x, y, p, d)
                == within_from(n, blocked, x, y, k, d) by {
                let s = step(x, y, d);
                assert(within(n, blocked, s.0, s.1, p) == within(n, blocked, s.0, s.1, k));
            }
            assert(within_from(n, blocked, x, y, p, 0) == within_from(n, blocked, x, y, k, 0));
            assert(within_from(n, blocked, x, y, p, 1) == within_from(n, blocked, x, y, k, 1));
            assert(within_from(n, blocked, x, y, p, 2) == within_from(n, blocked, x, y, k, 2));
            assert(within_from(n, blocked, x, y, p, 3) == within_from(n, blocked, x, y, k, 3));
            assert(within(n, blocked, x, y, p) == within(n, blocked, x, y, k));
            assert(within(n, blocked, x, y, k + 1) == within(n, blocked, x, y, k));
        }
    }
}

/// The number of set flags.
pub open spec fn count_set(s: Seq<bool>) -> nat
    decreases s.len(),
{
    if s.len() == 0 {
        0
    } else {
        count_set(s.drop_last()) + if s.last() {
            1nat
        } else {
            0nat
        }
    }
}

proof fn lemma_count_bound(s: Seq<bool>)
    ensures
        count_set(s) <= s.len(),
    decreases s.len(),
{
    if s.len() > 0 {
        lemma_count_bound(s.drop_last());
    }
}

/// A set that contains another and differs from it has more members.
proof fn lemma_count_grows(a: Seq<bool>, b: Seq<bool>)
    requires
        a.len() == b.len(),
        forall|i: int| 0 <= i < a.len() && #[trigger] a[i] ==> b[i],
    ensures
        count_set(a) <= count_set(b),
        a != b ==> count_set(a) < count_set(b),
    decreases a.len(),
{
    if a.len() == 0 {
        assert(a =~= b);
    } else {
        assert forall|i: int| 0 <= i < a.drop_last().len() && #[trigger] a.drop_last()[i] implies b.drop_last()[i] by {
            assert(a[i]);
        }
        lemma_count_grows(a.drop_last(), b.drop_last());
        assert(a.last() ==> b.last()) by {
            assert(a[a.len() - 1] ==> b[a.len() - 1]);
        }
        if a != b {
            if a.drop_last() == b.drop_last() {
                assert(a.last() != b.last()) by {
                    if a.last() == b.last() {
                        assert(a =~= a.drop_last().push(a.last()));
                        assert(b =~= b.drop_last().push(b.last()));
                    }
                }
                assert(count_set(a) < count_set(b));
            } else {
                assert(count_set(a.drop_last()) < count_set(b.drop_last()));
                assert(count_set(a) < count_set(b));
            }
        }
    }
}

impl Memory {
    pub closed spec fn size(&self) -> int {
        self.grid_size as int
    }

    pub closed spec fn corrupted(&self) -> Seq<bool> {
        self.blocked@
    }

    pub closed spec fn wf(&self) -> bool {
        &&& size_fits(self.grid_size as int)
        &&& self.blocked@.len() == (self.grid_size + 1) * (self.grid_size + 1)
    }

    /// An uncorrupted grid, columns and rows `0..=grid_size`.
    pub fn new(grid_size: usize) -> (r: Self)
        requires
            size_fits(grid_size as int),
        ensures
            r.wf(),
            r.size() == grid_size,
            r.corrupted() == clean(grid_size as int),
            forall|i: int| 0 <= i < r.corrupted().len() ==> !(#[trigger] r.corrupted()[i]),
    {
        let side = grid_size + 1;
        assert(side * side <= 0x40000000) by (nonlinear_arith)
            requires
                1 <= side <= 0x8000,
        ;
        let cells = side * side;
        let mut blocked: Vec<bool> = Vec::new();
        let mut i: usize = 0;
        while i < cells
            invariant
                0 <= i <= cells,
                blocked@.len() == i,
                forall|q: int| 0 <= q < i ==> !(#[trigger] blocked@[q]),
            decreases cells - i,
        {
            blocked.push(false);
            i = i + 1;
        }
        assert(blocked@ =~= clean(grid_size as int));
        Memory { blocked, grid_size }
    }

    /// Marks a cell as corrupted (a cell off the grid changes nothing).
    pub fn corrupt(&mut self, coord: Coord)
        requires
            old(self).wf(),
        ensures
            final(self).wf(),
            final(self).size() == old(self).size(),
            final(self).corrupted() == corrupted_with(old(self).size(), old(self).corrupted(), coord),
            forall|x: int, y: int|
                in_grid(old(self).size(), x, y) ==> #[trigger] final(self).corrupted()[cell(old(self).size(), x, y)]
                    == (old(self).corrupted()[cell(old(self).size(), x, y)] || (x == coord.x && y == coord.y)),
    {
        let n = self.grid_size;
        if coord.x < 0 || coord.y < 0 || coord.x > n as i64 || coord.y > n as i64 {
            return;
        }
        let ghost nn = n as int;
        proof {
            lemma_cell(nn, coord.x as int, coord.y as int);
            assert((n + 1) * (n + 1) <= 0x40000000) by (nonlinear_arith)
                requires
                    n < 0x8000,
            ;
        }
        let idx = (coord.y as usize) * (n + 1) + (coord.x as usize);
        let ghost before = self.blocked@;
        self.blocked.set(idx, true);
        assert(self.blocked@ =~= before.update(cell(nn, coord.x as int, coord.y as int), true));
        assert forall|x: int, y: int| in_grid(nn, x, y) implies #[trigger] self.blocked@[cell(nn, x, y)]
            == (before[cell(nn, x, y)] || (x == coord.x && y == coord.y)) by {
            lemma_cell(nn, x, y);
            lemma_cell_injective(nn, x, y, coord.x as int, coord.y as int);
        }
    }

    /// Whether the neighbour of `(x, y)` in direction `d` is in `reach`.
    fn reached_next(&self, reach: &Vec<bool>, x: usize, y: usize, d: usize) -> (r: bool)
        requires
            self.wf(),
            d < 4,
            reach@.len() == self.blocked@.len(),
            in_grid(self.size(), x as int, y as int),
        ensures
            ({
                let s = step(x as int, y as int, d as int);
                r == (in_grid(self.size(), s.0, s.1) && reach@[cell(self.size(), s.0, s.1)])
            }),
    {
        let n = self.grid_size;
        let (nx, ny) = if d == 0 {
            if x == 0 {
                return false;
            }
            (x - 1, y)
        } else if d == 1 {
            if x == n {
                return false;
            }
            (x + 1, y)
        } else if d == 2 {
            if y == 0 {
                return false;
            }
            (x, y - 1)
        } else {
            if y == n {
                return false;
            }
            (x, y + 1)
        };
        proof {
            lemma_cell(n as int, nx as int, ny as int);
            assert((n + 1) * (n + 1) <= 0x40000000) by (nonlinear_arith)
                requires
                    n < 0x8000,
            ;
        }
        reach[ny * (n + 1) + nx]
    }

    /// The length of the shortest walk from `(0, 0)` to `(grid_size,
    /// grid_size)` through uncorrupted cells, if there is one.
    pub fn shortest_path(&self) -> (r: Option<usize>)
        requires
            self.wf(),
        ensures
            r matches Some(k) ==> within(self.size(), self.corrupted(), self.size(), self.size(), k as nat)
                && (k == 0 || !within(self.size(), self.corrupted(), self.size(), self.size(), (k - 1) as nat)),
            r is None ==> forall|k: nat| !within(self.size(), self.corrupted(), self.size(), self.size(), k),
    {
        let n = self.grid_size;
        let ghost nn = n as int;
        let ghost bl = self.blocked@;
        let side = n + 1;
        assert(side * side <= 0x40000000) by (nonlinear_arith)
            requires
                1 <= side <= 0x8000,
        ;
        let cells = side * side;
        let mut reach: Vec<bool> = Vec::new();
        let mut i: usize = 0;
        while i < cells
            invariant
                self.wf(),
                side == n + 1,
                cells == side * side,
                cells == bl.len(),
                0 <= i <= cells,
                reach@.len() == i,
                forall|q: int| 0 <= q < i ==> (#[trigger] reach@[q]) == (q == 0),
            decreases cells - i,
        {
            reach.push(i == 0);
            i = i + 1;
        }
        assert forall|x: int, y: int| in_grid(nn, x, y) implies #[trigger] reach@[cell(nn, x, y)] == within(nn, bl, x, y, 0) by {
            lemma_cell(nn, x, y);
            lemma_cell_injective(nn, x, y, 0, 0);
        }
        let mut k: usize = 0;
        proof { lemma_count_bound(reach@); }
        loop
            invariant
                self.wf(),
                bl == self.blocked@,
                nn == n as int,
                n == self.grid_size,
                side == n + 1,
                cells == side * side,
                cells == bl.len(),
                reach@.len() == cells,
                forall|x: int, y: int| in_grid(nn, x, y) ==> #[trigger] reach@[cell(nn, x, y)] == within(nn, bl, x, y, k as nat),
                k <= count_set(reach@),
                count_set(reach@) <= cells,
                forall|j: nat| j < k ==> !within(nn, bl, nn, nn, j),
            decreases cells - k,
        {
            proof {
                lemma_cell(nn, nn, nn);
                assert(n * side + n == cell(nn, nn, nn)) by (nonlinear_arith)
                    requires
                        side == n + 1,
                        nn == n,
                ;
                assert(in_grid(nn, nn, nn));
                assert(reach@[cell(nn, nn, nn)] == within(nn, bl, nn, nn, k as nat));
            }
            if reach[n * side + n] {
                return Some(k);
            }
            let mut next: Vec<bool> = Vec::new();
            let mut c: usize = 0;
            while c < cells
                invariant
                    self.wf(),
                    bl == self.blocked@,
                    nn == n as int,
                    n == self.grid_size,
                n == self.grid_size,
                    side == n + 1,
                    cells == side * side,
                    cells == bl.len(),
                    reach@.len() == cells,
                    forall|x: int, y: int| in_grid(nn, x, y) ==> #[trigger] reach@[cell(nn, x, y)] == within(nn, bl, x, y, k as nat),
                    0 <= c <= cells,
                    next@.len() == c,
                    forall|q: int| 0 <= q < c ==> (#[trigger] next@[q]) == within(nn, bl, q % (nn + 1), q / (nn + 1), (k + 1) as nat),
                decreases cells - c,
            {
                let x = c % side;
                let y = c / side;
                proof {
                    vstd::arithmetic::div_mod::lemma_fundamental_div_mod(c as int, side as int);
                    assert(y <= n) by (nonlinear_arith)
                        requires
                            c == side * y + x,
                            c < side * side,
                            0 <= x < side,
                            side >= 1,
                            y >= 0,
                            side == n + 1,
                    ;
                    assert(cell(nn, x as int, y as int) == c) by (nonlinear_arith)
                        requires
                            c == side * y + x,
                            side == nn + 1,
                    ;
                }
                let mut any = false;
                let mut d: usize = 0;
                while d < 4
                    invariant
                        self.wf(),
                        bl == self.blocked@,
                        nn == n as int,
                        n == self.grid_size,
                    n == self.grid_size,
                n == self.grid_size,
                        reach@.len() == cells,
                        cells == bl.len(),
                        in_grid(nn, x as int, y as int),
                        forall|x: int, y: int| in_grid(nn, x, y) ==> #[trigger] reach@[cell(nn, x, y)] == within(nn, bl, x, y, k as nat),
                        0 <= d <= 4,
                        any == exists|e: int| 0 <= e < d && #[trigger] within_from(nn, bl, x as int, y as int, k as nat, e),
                    decreases 4 - d,
                {
                    let hit = self.reached_next(&reach, x, y, d);
                    proof {
                        let s = step(x as int, y as int, d as int);
                        lemma_within_in_grid(nn, bl, s.0, s.1, k as nat);
                        assert(hit == within_from(nn, bl, x as int, y as int, k as nat, d as int));
                    }
                    any = any || hit;
                    d = d + 1;
                }
                let v = reach[c] || (!self.blocked[c] && any);
                proof {
                    let w = within(nn, bl, x as int, y as int, (k + 1) as nat);
                    assert(v == w) by {
                        if any {
                            let e = choose|e: int| 0 <= e < 4 && #[trigger] within_from(nn, bl, x as int, y as int, k as nat, e);
                            assert(e == 0 || e == 1 || e == 2 || e == 3);
                        }
                        if w && !within(nn, bl, x as int, y as int, k as nat) {
                            if within_from(nn, bl, x as int, y as int, k as nat, 0) {
                                assert(any);
                            } else if within_from(nn, bl, x as int, y as int, k as nat, 1) {
                                assert(any);
                            } else if within_from(nn, bl, x as int, y as int, k as nat, 2) {
                                assert(any);
                            } else {
                                assert(within_from(nn, bl, x as int, y as int, k as nat, 3));
                                assert(any);
                            }
                        }
                    }
                }
                next.push(v);
                c = c + 1;
            }
            let ghost old_reach = reach@;
            assert forall|x: int, y: int| in_grid(nn, x, y) implies #[trigger] next@[cell(nn, x, y)] == within(nn, bl, x, y, (k + 1) as nat) by {
                lemma_cell(nn, x, y);
            }
            assert forall|q: int| 0 <= q < cells && #[trigger] old_reach[q] implies next@[q] by {
                let x = q % (nn + 1);
                let y = q / (nn + 1);
                vstd::arithmetic::div_mod::lemma_fundamental_div_mod(q, nn + 1);
                assert(y >= 0);
                assert(0 <= y <= nn) by (nonlinear_arith)
                    requires
                        q == (nn + 1) * y + x,
                        q < (nn + 1) * (nn + 1),
                        0 <= x < nn + 1,
                        nn >= 0,
                        y >= 0,
                ;
                assert(cell(nn, x, y) == q) by (nonlinear_arith)
                    requires
                        q == (nn + 1) * y + x,
                ;
            }
            proof {
                lemma_count_grows(old_reach, next@);
                lemma_count_bound(next@);
            }
            if count_changed(&reach, &next) == false {
                proof {
                    assert(old_reach =~= next@);
                    assert forall|x: int, y: int| #[trigger] within(nn, bl, x, y, (k + 1) as nat) == within(nn, bl, x, y, k as nat) by {
                        lemma_within_in_grid(nn, bl, x, y, (k + 1) as nat);
                        lemma_within_in_grid(nn, bl, x, y, k as nat);
                        if in_grid(nn, x, y) {
                            assert(next@[cell(nn, x, y)] == old_reach[cell(nn, x, y)]);
                        }
                    }
                    assert forall|j: nat| !within(nn, bl, nn, nn, j) by {
                        if j >= k {
                            lemma_stable(nn, bl, k as nat, j);
                        }
                    }
                }
                return None;
            }
            reach = next;
            k = k + 1;
        }
    }
}

/// Whether two flag vectors of the same length differ.
fn count_changed(a: &Vec<bool>, b: &Vec<bool>) -> (r: bool)
    requires
        a@.len() == b@.len(),
    ensures
        r == (a@ != b@),
{
    let mut i: usize = 0;
    while i < a.len()
        invariant
            a@.len() == b@.len(),
            0 <= i <= a@.len(),
            forall|q: int| 0 <= q < i ==> a@[q] == b@[q],
        decreases a.len() - i,
    {
        if a[i] != b[i] {
            return true;
        }
        i = i + 1;
    }
    assert(a@ =~= b@);
    false
}

/// `v` in decimal, with a minus sign when negative.
pub open spec fn signed_decimal(v: int) -> Seq<char> {
    if v < 0 {
        seq!['-'] + decimal((-v) as nat)
    } else {
        decimal(v as nat)
    }
}

/// Relies on `format!` with `{},{}` on two `i64`: each in decimal, with a
/// minus sign when negative, joined by a comma.
#[verifier::external_body]
fn coord_text(x: i64, y: i64) -> (r: String)
    ensures
        r@ == signed_decimal(x as int) + seq![','] + signed_decimal(y as int),
{
    format!("{},{}", x, y)
}

/// A coordinate line `x,y` (anything after a second comma is ignored).
pub open spec fn coord_of(s: Seq<u8>) -> Option<Coord> {
    let parts = split_on(s, 44);
    if parts.len() < 2 {
        None
    } else {
        match (signed_of(parts[0]), signed_of(parts[1])) {
            (Some(x), Some(y)) => Some(Coord { x: x as i64, y: y as i64 }),
            _ => None,
        }
    }
}

impl Coord {
    /// Parses `x,y`.
    pub fn parse(s: &[u8]) -> (r: Result<Coord, String>)
        ensures
            r is Ok <==> coord_of(s@) is Some,
            r matches Ok(c) ==> coord_of(s@) == Some(c),
    {
        let parts = split_bytes(s, 44);
        assert(views(parts@).len() == parts@.len());
        if parts.len() < 2 {
            return Err("missing y".to_owned());
        }
        assert(parts@[0]@ == split_on(s@, 44)[0]);
        assert(parts@[1]@ == split_on(s@, 44)[1]);
        let x = match parse_signed(parts[0].as_slice()) {
            Some(v) => v,
            None => {
                return Err("invalid x".to_owned());
            },
        };
        let y = match parse_signed(parts[1].as_slice()) {
            Some(v) => v,
            None => {
                return Err("invalid y".to_owned());
            },
        };
        Ok(Coord { x: x as i64, y: y as i64 })
    }
}

/// The coordinates of a text, one per line.
pub open spec fn coords_of(text: Seq<u8>) -> Option<Seq<Coord>> {
    if forall|i: int| 0 <= i < lines(text).len() ==> (#[trigger] coord_of(lines(text)[i])) is Some {
        Some(Seq::new(lines(text).len(), |i: int| coord_of(lines(text)[i])->Some_0))
    } else {
        None
    }
}

fn parse_coords(s: &[u8]) -> (r: Result<Vec<Coord>, String>)
    ensures
        r is Ok <==> coords_of(s@) is Some,
        r matches Ok(v) ==> coords_of(s@) == Some(v@),
{
    let ls = split_lines(s);
    let mut coords: Vec<Coord> = Vec::new();
    let mut i: usize = 0;
    while i < ls.len()
        invariant
            views(ls@) == lines(s@),
            0 <= i <= ls@.len(),
            coords@.len() == i,
            forall|j: int| 0 <= j < i ==> (#[trigger] coord_of(lines(s@)[j])) == Some(coords@[j]),
        decreases ls.len() - i,
    {
        assert(ls@[i as int]@ == lines(s@)[i as int]);
        assert(views(ls@).len() == ls@.len());
        let c = Coord::parse(ls[i].as_slice())?;
        coords.push(c);
        i = i + 1;
    }
    assert(views(ls@).len() == ls@.len());
    assert(Seq::new(lines(s@).len(), |j: int| coord_of(lines(s@)[j])->Some_0) =~= coords@);
    Ok(coords)
}

/// Some walk reaches the far corner.
pub open spec fn passable(n: int, b: Seq<bool>) -> bool {
    exists|k: nat| #[trigger] within(n, b, n, n, k)
}

/// The shortest walk to the far corner takes `k` steps.
pub open spec fn shortest_is(n: int, b: Seq<bool>, k: nat) -> bool {
    within(n, b, n, n, k) && (k == 0 || !within(n, b, n, n, (k - 1) as nat))
}

impl Day for Instance {
    /// The shortest walk after the first `falling_bytes` bytes, and the first
    /// later byte after which no walk is left.
    fn run(&self, input: String) -> (r: Result<DayResult, String>)
        ensures
            r matches Ok(d) ==> {
                let n = self.grid_size as int;
                let coords = coords_of(encode_utf8(input@))->Some_0;
                let f = if self.falling_bytes < coords.len() { self.falling_bytes as int } else { coords.len() as int };
                &&& coords_of(encode_utf8(input@)) is Some
                &&& exists|k: nat| shortest_is(n, fallen(n, coords, f), k) && d.part1@ == decimal(k)
                &&& match d.part2 {
                    Some(t) => exists|j: int|
                        f <= j < coords.len() && !passable(n, #[trigger] fallen(n, coords, j + 1))
                            && (forall|q: int| f <= q < j ==> passable(n, #[trigger] fallen(n, coords, q + 1)))
                            && t@ == signed_decimal(coords[j].x as int) + seq![','] + signed_decimal(coords[j].y as int),
                    None => forall|q: int| f <= q < coords.len() ==> passable(n, #[trigger] fallen(n, coords, q + 1)),
                }
            },
    {
        if self.grid_size >= 0x8000 {
            return Err("grid too large".to_owned());
        }
        let coords = parse_coords(input.as_str().as_bytes())?;
        let ghost n = self.grid_size as int;
        let mut memory = Memory::new(self.grid_size);
        let f = if self.falling_bytes < coords.len() { self.falling_bytes } else { coords.len() };
        let mut i: usize = 0;
        while i < f
            invariant
                memory.wf(),
                memory.size() == n,
                n == self.grid_size,
                f <= coords@.len(),
                0 <= i <= f,
                memory.corrupted() == fallen(n, coords@, i as int),
            decreases f - i,
        {
            memory.corrupt(coords[i]);
            i = i + 1;
        }
        let part1 = match memory.shortest_path() {
            Some(k) => usize_to_string(k),
            None => {
                return Err("no path found".to_owned());
            },
        };
        let mut part2: Option<String> = None;
        let mut j: usize = f;
        while j < coords.len()
            invariant
                memory.wf(),
                memory.size() == n,
                n == self.grid_size,
                f <= j <= coords@.len(),
                coords_of(encode_utf8(input@)) == Some(coords@),
                f == (if self.falling_bytes < coords@.len() { self.falling_bytes as int } else { coords@.len() as int }),
                memory.corrupted() == fallen(n, coords@, j as int),
                part2 is None,
                forall|q: int| f <= q < j ==> passable(n, #[trigger] fallen(n, coords@, q + 1)),
                exists|k: nat| shortest_is(n, fallen(n, coords@, f as int), k) && part1@ == decimal(k),
            decreases coords.len() - j,
        {
            let c = coords[j];
            memory.corrupt(c);
            match memory.shortest_path() {
                None => {
                    let text = coord_text(c.x, c.y);
                    assert(!passable(n, fallen(n, coords@, j + 1))) by {
                        if passable(n, fallen(n, coords@, j + 1)) {
                            let k = choose|k: nat| #[trigger] within(n, fallen(n, coords@, j + 1), n, n, k);
                            assert(within(n, memory.corrupted(), memory.size(), memory.size(), k));
                        }
                    }
                    assert(f <= j < coords@.len() && !passable(n, fallen(n, coords@, j + 1))
                        && (forall|q: int| f <= q < j ==> passable(n, #[trigger] fallen(n, coords@, q + 1)))
                        && text@ == signed_decimal(coords@[j as int].x as int) + seq![','] + signed_decimal(coords@[j as int].y as int));
                    let ghost cs = coords_of(encode_utf8(input@))->Some_0;
                    assert(cs == coords@);
                    assert(exists|jj: int|
                        f <= jj < cs.len() && !passable(n, #[trigger] fallen(n, cs, jj + 1))
                            && (forall|q: int| f <= q < jj ==> passable(n, #[trigger] fallen(n, cs, q + 1)))
                            && text@ == signed_decimal(cs[jj].x as int) + seq![','] + signed_decimal(cs[jj].y as int));
                    assert(exists|k: nat| shortest_is(n, fallen(n, cs, f as int), k) && part1@ == decimal(k));
                    return Ok(DayResult { part1, part2: Some(text) });
                },
                Some(k) => {
                    assert(within(n, fallen(n, coords@, j + 1), n, n, k as nat));
                    assert(passable(n, fallen(n, coords@, j + 1)));
                },
            }
            j = j + 1;
        }
        Ok(DayResult { part1, part2 })
    }
}

} // verus!
