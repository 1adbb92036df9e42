use vstd::arithmetic::div_mod::{lemma_fundamental_div_mod_converse, lemma_mod_add_multiples_vanish, lemma_mod_sub_multiples_vanish, lemma_small_mod};
use vstd::prelude::*;
use vstd::slice::slice_subrange;
use vstd::utf8::encode_utf8;

use super::day::{Day, DayResult};
use super::text::{lines, number_of, parse_number, split_bytes, split_lines, split_on, usize_to_string, views};
use super::util::{capped, lemma_capped_mul, saturating_product};

verus! {

/// Restroom redoubt: robots walking on a wrapping grid.
pub struct Instance {
    pub width: usize,
    pub height: usize,
}

impl Default for Instance {
    /// The grid of the puzzle: 101 wide, 103 high.
    fn default() -> (r: Instance)
        ensures
            r.width == 101 && r.height == 103,
    {
        Instance { width: 101, height: 103 }
    }
}

/// One robot: where it is and how far it moves each second.
pub struct Robot {
    pub position: (i32, i32),
    pub velocity: (i32, i32),
}

/// All robots on a grid, and the seconds that have passed.
pub struct Robots {
    pub robots: Vec<Robot>,
    pub width: usize,
    pub height: usize,
    pub total_steps: usize,
}

/// A grid size that positions can be reduced to.
pub open spec fn size_ok(n: usize) -> bool {
    1 <= n <= i32::MAX
}

/// The robot's position one second later, wrapping round the edges.
pub open spec fn stepped(r: Robot, w: int, h: int) -> (i32, i32) {
    (((r.position.0 + r.velocity.0) % w) as i32, ((r.position.1 + r.velocity.1) % h) as i32)
}

/// Reduces `p` into `0..m`.
fn wrap(p: i64, m: usize) -> (r: i32)
    requires
        size_ok(m),
    ensures
        r as int == p as int % m as int,
{
    let mi = m as i64;
    let mut q = p;
    while q < 0
        invariant
            1 <= mi <= i32::MAX,
            mi == m as int,
            q as int % mi as int == p as int % mi as int,
            q >= p,
            q < mi || q == p,
        decreases (if q < 0 { -q } else { 0 }),
    {
        proof {
            lemma_mod_add_multiples_vanish(q as int, mi as int);
        }
        q = q + mi;
    }
    while q >= mi
        invariant
            1 <= mi <= i32::MAX,
            mi == m as int,
            q >= 0,
            q as int % mi as int == p as int % mi as int,
        decreases q,
    {
        proof {
            lemma_mod_sub_multiples_vanish(q as int, mi as int);
        }
        q = q - mi;
    }
    proof {
        lemma_small_mod(q as nat, mi as nat);
    }
    q as i32
}

impl Robots {
    /// Takes the grid size of the puzzle instance.
    pub fn initialise(&mut self, instance: &Instance)
        ensures
            final(self).width == instance.width,
            final(self).height == instance.height,
            final(self).robots@ == old(self).robots@,
            final(self).total_steps == old(self).total_steps,
    {
        self.width = instance.width;
        self.height = instance.height;
    }

    /// Moves every robot by its velocity, wrapping round the edges.
    pub fn step(&mut self)
        requires
            size_ok(old(self).width),
            size_ok(old(self).height),
            old(self).total_steps < usize::MAX,
        ensures
            final(self).width == old(self).width,
            final(self).height == old(self).height,
            final(self).total_steps == old(self).total_steps + 1,
            final(self).robots@.len() == old(self).robots@.len(),
            forall|i: int|
                0 <= i < old(self).robots@.len() ==> (#[trigger] final(self).robots@[i]).position
                    == stepped(old(self).robots@[i], old(self).width as int, old(self).height as int)
                    && final(self).robots@[i].velocity == old(self).robots@[i].velocity,
    {
        let mut i: usize = 0;
        while i < self.robots.len()
            invariant
                size_ok(self.width),
                size_ok(self.height),
                self.width == old(self).width,
                self.height == old(self).height,
                self.total_steps == old(self).total_steps,
                self.robots@.len() == old(self).robots@.len(),
                0 <= i <= self.robots@.len(),
                forall|j: int|
                    0 <= j < i ==> (#[trigger] self.robots@[j]).position == stepped(
                        old(self).robots@[j],
                        self.width as int,
                        self.height as int,
                    ) && self.robots@[j].velocity == old(self).robots@[j].velocity,
                forall|j: int| i <= j < self.robots@.len() ==> #[trigger] self.robots@[j] == old(self).robots@[j],
            decreases self.robots.len() - i,
        {
            let r = &self.robots[i];
            let x = wrap(r.position.0 as i64 + r.velocity.0 as i64, self.width);
            let y = wrap(r.position.1 as i64 + r.velocity.1 as i64, self.height);
            let moved = Robot { position: (x, y), velocity: r.velocity };
            self.robots.set(i, moved);
            i = i + 1;
        }
        self.total_steps = self.total_steps + 1;
    }
}

/// Which quadrant a position lies in (0 to 3), or none for the middle lines.
pub open spec fn quadrant(p: (i32, i32), w: int, h: int) -> Option<int> {
    let xs = w / 2;
    let ys = h / 2;
    if p.0 < xs && p.1 < ys {
        Some(0)
    } else if p.0 < xs && p.1 > ys {
        Some(1)
    } else if p.0 > xs && p.1 < ys {
        Some(2)
    } else if p.0 > xs && p.1 > ys {
        Some(3)
    } else {
        None
    }
}

/// How many of the robots lie in quadrant `q`.
pub open spec fn quadrant_count(rs: Seq<Robot>, q: int, w: int, h: int) -> nat
    decreases rs.len(),
{
    if rs.len() == 0 {
        0
    } else {
        quadrant_count(rs.drop_last(), q, w, h) + if quadrant(rs.last().position, w, h) == Some(q) {
            1nat
        } else {
            0nat
        }
    }
}

/// The product of the four quadrant counts.
pub open spec fn safety(rs: Seq<Robot>, w: int, h: int) -> nat {
    quadrant_count(rs, 0, w, h) * quadrant_count(rs, 1, w, h) * quadrant_count(rs, 2, w, h)
        * quadrant_count(rs, 3, w, h)
}

/// The number of robots at `(x, y)`.
pub open spec fn occupancy(rs: Seq<Robot>, x: int, y: int) -> nat
    decreases rs.len(),
{
    if rs.len() == 0 {
        0
    } else {
        occupancy(rs.drop_last(), x, y) + if rs.last().position == (x as i32, y as i32) {
            1nat
        } else {
            0nat
        }
    }
}

/// The cells of the first `n` in row-major order that hold two robots or more.
pub open spec fn crowded_cells(rs: Seq<Robot>, w: int, n: int) -> nat
    decreases n,
{
    if n <= 0 || w <= 0 {
        0
    } else {
        crowded_cells(rs, w, n - 1) + if occupancy(rs, (n - 1) % w, (n - 1) / w) > 1 {
            1nat
        } else {
            0nat
        }
    }
}

/// Every robot stands on the grid.
pub open spec fn on_grid(rs: Seq<Robot>, w: int, h: int) -> bool {
    forall|i: int|
        0 <= i < rs.len() ==> 0 <= (#[trigger] rs[i]).position.0 < w && 0 <= rs[i].position.1 < h
}

proof fn lemma_cell_index(x: int, y: int, w: int)
    requires
        0 <= x < w,
        0 <= y,
    ensures
        (y * w + x) % w == x,
        (y * w + x) / w == y,
{
    lemma_fundamental_div_mod_converse(y * w + x, w, y, x);
}

impl Robots {
    /// The safety factor: the product of the robot counts of the four
    /// quadrants.
    pub fn safety_factor(&self) -> (r: usize)
        requires
            size_ok(self.width),
            size_ok(self.height),
        ensures
            r == capped(safety(self.robots@, self.width as int, self.height as int)),
    {
        let ghost w = self.width as int;
        let ghost h = self.height as int;
        let x_size = self.width as i32 / 2;
        let y_size = self.height as i32 / 2;
        let mut counts: Vec<usize> = vec![0, 0, 0, 0];
        let mut i: usize = 0;
        while i < self.robots.len()
            invariant
                size_ok(self.width),
                size_ok(self.height),
                w == self.width as int,
                h == self.height as int,
                x_size == w / 2,
                y_size == h / 2,
                counts@.len() == 4,
                0 <= i <= self.robots@.len(),
                forall|q: int| 0 <= q < 4 ==> #[trigger] counts@[q] == quadrant_count(self.robots@.take(i as int), q, w, h),
                forall|q: int| 0 <= q < 4 ==> #[trigger] counts@[q] <= i,
            decreases self.robots.len() - i,
        {
            assert(self.robots@.take(i as int + 1).drop_last() =~= self.robots@.take(i as int));
            let p = self.robots[i].position;
            if p.0 < x_size && p.1 < y_size {
                counts.set(0, counts[0] + 1);
            } else if p.0 < x_size && p.1 > y_size {
                counts.set(1, counts[1] + 1);
            } else if p.0 > x_size && p.1 < y_size {
                counts.set(2, counts[2] + 1);
            } else if p.0 > x_size && p.1 > y_size {
                counts.set(3, counts[3] + 1);
            }
            i = i + 1;
        }
        assert(self.robots@.take(i as int) =~= self.robots@);
        let ghost c0 = counts@[0] as nat;
        let ghost c1 = counts@[1] as nat;
        let ghost c2 = counts@[2] as nat;
        let ghost c3 = counts@[3] as nat;
        let a = saturating_product(counts[0], counts[1]);
        proof { lemma_capped_mul(c0 * c1, c2); }
        let b = saturating_product(a, counts[2]);
        proof { lemma_capped_mul(c0 * c1 * c2, c3); }
        saturating_product(b, counts[3])
    }

    /// The number of cells holding two robots or more.
    pub fn overlap_count(&self) -> (r: usize)
        requires
            size_ok(self.width),
            size_ok(self.height),
            self.width * self.height <= usize::MAX,
            on_grid(self.robots@, self.width as int, self.height as int),
        ensures
            r == crowded_cells(self.robots@, self.width as int, self.width * self.height),
    {
        let w = self.width;
        let h = self.height;
        let cells = w * h;
        let mut grid: Vec<usize> = Vec::new();
        let mut k: usize = 0;
        while k < cells
            invariant
                0 <= k <= cells,
                grid@.len() == k,
                forall|j: int| 0 <= j < k ==> #[trigger] grid@[j] == 0,
            decreases cells - k,
        {
            grid.push(0);
            k = k + 1;
        }
        assert forall|x: int, y: int| 0 <= x < w && 0 <= y < h implies #[trigger] grid@[y * w + x] == occupancy(
            self.robots@.take(0),
            x,
            y,
        ) by {
            assert(y * w + x < cells) by (nonlinear_arith)
                requires
                    y < h,
                    x < w,
                    cells == w * h,
                    0 <= x,
                    0 <= y,
            ;
        }
        let mut i: usize = 0;
        while i < self.robots.len()
            invariant
                w == self.width,
                h == self.height,
                size_ok(w),
                size_ok(h),
                cells == w * h,
                grid@.len() == cells,
                on_grid(self.robots@, w as int, h as int),
                0 <= i <= self.robots@.len(),
                forall|x: int, y: int|
                    0 <= x < w && 0 <= y < h ==> #[trigger] grid@[y * w + x] == occupancy(
                        self.robots@.take(i as int),
                        x,
                        y,
                    ),
                forall|j: int| 0 <= j < cells ==> #[trigger] grid@[j] <= i,
            decreases self.robots.len() - i,
        {
            assert(self.robots@.take(i as int + 1).drop_last() =~= self.robots@.take(i as int));
            let p = self.robots[i].position;
            let px = p.0 as usize;
            let py = p.1 as usize;
            assert(0 <= self.robots@[i as int].position.0 < w);
            assert(py * w + px < cells) by (nonlinear_arith)
                requires
                    py < h,
                    px < w,
                    cells == w * h,
            ;
            let idx = py * w + px;
            let ghost before = grid@;
            let v = grid[idx];
            grid.set(idx, v + 1);
            assert forall|x: int, y: int| 0 <= x < w && 0 <= y < h implies #[trigger] grid@[y * w + x] == occupancy(
                self.robots@.take(i as int + 1),
                x,
                y,
            ) by {
                lemma_cell_index(x, y, w as int);
                lemma_cell_index(px as int, py as int, w as int);
                assert(y * w + x < cells) by (nonlinear_arith)
                    requires
                        y < h,
                        x < w,
                        cells == w * h,
                        0 <= x,
                        0 <= y,
                ;
                if y * w + x != idx {
                    assert(grid@[y * w + x] == before[y * w + x]);
                }
            }
            i = i + 1;
        }
        assert(self.robots@.take(i as int) =~= self.robots@);
        let mut count: usize = 0;
        let mut c: usize = 0;
        while c < cells
            invariant
                w == self.width,
                h == self.height,
                size_ok(w),
                cells == w * h,
                grid@.len() == cells,
                0 <= c <= cells,
                count <= c,
                forall|x: int, y: int|
                    0 <= x < w && 0 <= y < h ==> #[trigger] grid@[y * w + x] == occupancy(
                        self.robots@,
                        x,
                        y,
                    ),
                count == crowded_cells(self.robots@, w as int, c as int),
            decreases cells - c,
        {
            let ghost x = c as int % w as int;
            let ghost y = c as int / w as int;
            proof {
                vstd::arithmetic::div_mod::lemma_fundamental_div_mod(c as int, w as int);
                assert(0 <= x < w);
                assert(0 <= y < h) by (nonlinear_arith)
                    requires
                        c == w * y + x,
                        0 <= x < w,
                        c < w * h,
                        w >= 1,
                        y == c / w,
                        c >= 0,
                ;
                assert(y * w + x == c) by (nonlinear_arith)
                    requires
                        c == w * y + x,
                ;
            }
            if grid[c] > 1 {
                count = count + 1;
            }
            c = c + 1;
        }
        count
    }
}

/// The value of an optionally negative decimal number, if it fits in an `i32`.
pub open spec fn signed_of(s: Seq<u8>) -> Option<i32> {
    if s.len() > 0 && s[0] == 45 {
        match number_of(s.drop_first()) {
            Some(n) => if n <= 2147483648 {
                Some((-(n as int)) as i32)
            } else {
                None
            },
            None => None,
        }
    } else {
        match number_of(s) {
            Some(n) => if n <= i32::MAX {
                Some(n as i32)
            } else {
                None
            },
            None => None,
        }
    }
}

/// Parses an optionally negative decimal number.
pub(crate) fn parse_signed(s: &[u8]) -> (r: Option<i32>)
    ensures
        r == signed_of(s@),
{
    if s.len() > 0 && s[0] == 45 {
        let rest = slice_subrange(s, 1, s.len());
        assert(rest@ =~= s@.drop_first());
        match parse_number(rest) {
            Some(n) => if n <= 2147483648 {
                Some((-(n as i64)) as i32)
            } else {
                None
            },
            None => None,
        }
    } else {
        match parse_number(s) {
            Some(n) => if n <= 2147483647 {
                Some(n as i32)
            } else {
                None
            },
            None => None,
        }
    }
}

/// A vector `?=x,y`: the two numbers after the first two characters,
/// separated by a comma (anything after a second comma is ignored).
pub open spec fn vector_of(s: Seq<u8>) -> Option<(i32, i32)> {
    if s.len() < 2 {
        None
    } else {
        let parts = split_on(s.skip(2), 44);
        if parts.len() < 2 {
            None
        } else {
            match (signed_of(parts[0]), signed_of(parts[1])) {
                (Some(x), Some(y)) => Some((x, y)),
                _ => None,
            }
        }
    }
}

/// Parses a vector `?=x,y`.
pub fn parse_vector(s: &[u8]) -> (r: Result<(i32, i32), String>)
    ensures
        r is Ok <==> vector_of(s@) is Some,
        r matches Ok(v) ==> vector_of(s@) == Some(v),
{
    if s.len() < 2 {
        return Err("no x".to_owned());
    }
    let rest = slice_subrange(s, 2, s.len());
    assert(rest@ =~= s@.skip(2));
    let parts = split_bytes(rest, 44);
    assert(views(parts@).len() == parts@.len());
    if parts.len() < 2 {
        return Err("no y".to_owned());
    }
    assert(parts@[0]@ == split_on(s@.skip(2), 44)[0]);
    assert(parts@[1]@ == split_on(s@.skip(2), 44)[1]);
    let x = match parse_signed(parts[0].as_slice()) {
        Some(x) => x,
        None => {
            return Err("failed to parse x".to_owned());
        },
    };
    let y = match parse_signed(parts[1].as_slice()) {
        Some(y) => y,
        None => {
            return Err("failed to parse y".to_owned());
        },
    };
    Ok((x, y))
}

/// The non-empty pieces among `pieces`.
pub open spec fn nonempty(pieces: Seq<Seq<u8>>) -> Seq<Seq<u8>>
    decreases pieces.len(),
{
    if pieces.len() == 0 {
        Seq::empty()
    } else if pieces.last().len() == 0 {
        nonempty(pieces.drop_last())
    } else {
        nonempty(pieces.drop_last()).push(pieces.last())
    }
}

/// A robot line: a position and a velocity, separated by spaces.
pub open spec fn robot_of(s: Seq<u8>) -> Option<Robot> {
    let tokens = nonempty(split_on(s, 32));
    if tokens.len() < 2 {
        None
    } else {
        match (vector_of(tokens[0]), vector_of(tokens[1])) {
            (Some(p), Some(v)) => Some(Robot { position: p, velocity: v }),
            _ => None,
        }
    }
}

impl Robot {
    /// Parses `p=x,y v=dx,dy`.
    pub fn parse(s: &[u8]) -> (r: Result<Robot, String>)
        ensures
            r is Ok <==> robot_of(s@) is Some,
            r matches Ok(rb) ==> robot_of(s@) == Some(rb),
    {
        let pieces = split_bytes(s, 32);
        let ghost all = views(pieces@);
        let mut tokens: Vec<&Vec<u8>> = Vec::new();
        let mut i: usize = 0;
        assert(all.take(0) =~= Seq::<Seq<u8>>::empty());
        while i < pieces.len()
            invariant
                all == views(pieces@),
                all == split_on(s@, 32),
                0 <= i <= pieces@.len(),
                Seq::new(tokens@.len(), |j: int| tokens@[j]@) == nonempty(all.take(i as int)),
            decreases pieces.len() - i,
        {
            assert(all.take(i as int + 1).drop_last() =~= all.take(i as int));
            assert(pieces@[i as int]@ == all[i as int]);
            if pieces[i].len() > 0 {
                tokens.push(&pieces[i]);
                assert(Seq::new(tokens@.len(), |j: int| tokens@[j]@) =~= nonempty(all.take(i as int + 1)));
            }
            i = i + 1;
        }
        assert(all.take(i as int) =~= all);
        if tokens.len() < 2 {
            return Err("no velocity".to_owned());
        }
        assert(tokens@[0]@ == nonempty(all)[0]);
        assert(tokens@[1]@ == nonempty(all)[1]);
        let position = parse_vector(tokens[0].as_slice())?;
        let velocity = parse_vector(tokens[1].as_slice())?;
        Ok(Robot { position, velocity })
    }
}

/// The robots of a text, one per line.
pub open spec fn robots_of(text: Seq<u8>) -> Option<Seq<Robot>> {
    if forall|i: int| 0 <= i < lines(text).len() ==> (#[trigger] robot_of(lines(text)[i])) is Some {
        Some(Seq::new(lines(text).len(), |i: int| robot_of(lines(text)[i])->Some_0))
    } else {
        None
    }
}

impl Robots {
    /// Parses one robot per line; the grid is set by `initialise`.
    pub fn parse(s: &[u8]) -> (r: Result<Robots, String>)
        ensures
            r is Ok <==> robots_of(s@) is Some,
            r matches Ok(rs) ==> robots_of(s@) == Some(rs.robots@) && rs.total_steps == 0,
    {
        let ls = split_lines(s);
        let mut robots: Vec<Robot> = Vec::new();
        let mut i: usize = 0;
        while i < ls.len()
            invariant
                views(ls@) == lines(s@),
                0 <= i <= ls@.len(),
                robots@.len() == i,
                forall|j: int| 0 <= j < i ==> (#[trigger] robot_of(lines(s@)[j])) == Some(robots@[j]),
            decreases ls.len() - i,
        {
            assert(ls@[i as int]@ == lines(s@)[i as int]);
            assert(views(ls@).len() == ls@.len());
            let rb = Robot::parse(ls[i].as_slice())?;
            robots.push(rb);
            i = i + 1;
        }
        assert(views(ls@).len() == ls@.len());
        assert(Seq::new(lines(s@).len(), |j: int| robot_of(lines(s@)[j])->Some_0) =~= robots@);
        Ok(Robots { robots, width: 0, height: 0, total_steps: 0 })
    }
}

/// All robots one second later.
pub open spec fn step_all(rs: Seq<Robot>, w: int, h: int) -> Seq<Robot> {
    Seq::new(rs.len(), |i: int| Robot { position: stepped(rs[i], w, h), velocity: rs[i].velocity })
}

/// All robots `k` seconds later.
pub open spec fn advanced(rs: Seq<Robot>, k: nat, w: int, h: int) -> Seq<Robot>
    decreases k,
{
    if k == 0 {
        rs
    } else {
        step_all(advanced(rs, (k - 1) as nat, w, h), w, h)
    }
}

/// No cell holds two robots after `k` seconds.
pub open spec fn spread_out(rs: Seq<Robot>, k: nat, w: int, h: int) -> bool {
    crowded_cells(advanced(rs, k, w, h), w, w * h) == 0
}

/// The first second in `101..=10100` at which no cell holds two robots.
pub open spec fn first_spread(rs: Seq<Robot>, w: int, h: int) -> Option<nat> {
    if exists|k: nat| 101 <= k <= 10100 && spread_out(rs, k, w, h) {
        Some(choose|k: nat| 101 <= k <= 10100 && spread_out(rs, k, w, h) && forall|j: nat| 101 <= j < k ==> !spread_out(rs, j, w, h))
    } else {
        None
    }
}

proof fn lemma_step_on_grid(old_rs: Seq<Robot>, rs: Seq<Robot>, w: int, h: int)
    requires
        w >= 1,
        h >= 1,
        w <= i32::MAX,
        h <= i32::MAX,
        rs.len() == old_rs.len(),
        forall|i: int|
            0 <= i < old_rs.len() ==> (#[trigger] rs[i]).position == stepped(old_rs[i], w, h)
                && rs[i].velocity == old_rs[i].velocity,
    ensures
        on_grid(rs, w, h),
        rs == step_all(old_rs, w, h),
{
    assert forall|i: int| 0 <= i < rs.len() implies 0 <= (#[trigger] rs[i]).position.0 < w && 0 <= rs[i].position.1 < h by {
        assert(rs[i].position == stepped(old_rs[i], w, h));
    }
    assert(rs =~= step_all(old_rs, w, h));
}

impl Day for Instance {
    /// The safety factor after 100 seconds, and the first later second (up to
    /// 10100) at which no two robots share a cell.
    fn run(&self, input: String) -> (r: Result<DayResult, String>)
        ensures
            r is Ok <==> (robots_of(encode_utf8(input@)) is Some && size_ok(self.width)
                && size_ok(self.height) && self.width * self.height <= usize::MAX),
            r matches Ok(d) ==> {
                let rs = robots_of(encode_utf8(input@))->Some_0;
                let w = self.width as int;
                let h = self.height as int;
                &&& d.part1@ == super::text::decimal(capped(safety(advanced(rs, 100, w, h), w, h)) as nat)
                &&& match first_spread(rs, w, h) {
                    Some(k) => d.part2 is Some && d.part2->Some_0@ == super::text::decimal(k),
                    None => d.part2 is None,
                }
            },
    {
        if self.width == 0 || self.width > 2147483647 || self.height == 0 || self.height > 2147483647 {
            return Err("grid size out of range".to_owned());
        }
        if self.width > usize::MAX / self.height {
            assert(self.width * self.height > usize::MAX) by (nonlinear_arith)
                requires
                    self.width > usize::MAX / self.height,
                    self.height >= 1,
            ;
            return Err("grid too large".to_owned());
        }
        assert(self.width * self.height <= usize::MAX) by (nonlinear_arith)
            requires
                self.width <= usize::MAX / self.height,
                self.height >= 1,
        ;
        let mut robots = Robots::parse(input.as_str().as_bytes())?;
        let ghost rs = robots.robots@;
        let ghost w = self.width as int;
        let ghost h = self.height as int;
        robots.initialise(self);
        let mut k: usize = 0;
        while k < 100
            invariant
                robots.width == self.width,
                robots.height == self.height,
                size_ok(robots.width),
                size_ok(robots.height),
                w == self.width as int,
                h == self.height as int,
                0 <= k <= 100,
                robots_of(encode_utf8(input@)) == Some(rs),
                robots.total_steps == k,
                robots.robots@ == advanced(rs, k as nat, w, h),
            decreases 100 - k,
        {
            let ghost before = robots.robots@;
            robots.step();
            proof { lemma_step_on_grid(before, robots.robots@, w, h); }
            k = k + 1;
        }
        let part1 = usize_to_string(robots.safety_factor());
        let ghost first = capped(safety(advanced(rs, 100, w, h), w, h)) as nat;
        assert(part1@ == super::text::decimal(first));
        let mut part2: Option<String> = None;
        let mut n: usize = 0;
        while n < 10000
            invariant
                robots.width == self.width,
                robots.height == self.height,
                size_ok(robots.width),
                size_ok(robots.height),
                self.width * self.height <= usize::MAX,
                w == self.width as int,
                h == self.height as int,
                0 <= n <= 10000,
                robots_of(encode_utf8(input@)) == Some(rs),
                part1@ == super::text::decimal(first),
                first == capped(safety(advanced(rs, 100, w, h), w, h)) as nat,
                part2 is None,
                robots.total_steps == 100 + n,
                robots.robots@ == advanced(rs, (100 + n) as nat, w, h),
                forall|j: nat| 101 <= j <= 100 + n ==> !spread_out(rs, j, w, h),
            decreases 10000 - n,
        {
            let ghost before = robots.robots@;
            robots.step();
            proof { lemma_step_on_grid(before, robots.robots@, w, h); }
            n = n + 1;
            if robots.overlap_count() == 0 {
                let t = robots.total_steps;
                proof {
                    assert(spread_out(rs, t as nat, w, h));
                    let c = choose|k: nat| 101 <= k <= 10100 && spread_out(rs, k, w, h) && forall|j: nat| 101 <= j < k ==> !spread_out(rs, j, w, h);
                    assert(101 <= c <= 10100 && spread_out(rs, c, w, h) && forall|j: nat| 101 <= j < c ==> !spread_out(rs, j, w, h));
                    if c < t {
                        assert(!spread_out(rs, c, w, h));
                    }
                    if c > t {
                        assert(!spread_out(rs, t as nat, w, h));
                    }
                }
                part2 = Some(usize_to_string(t));
                return Ok(DayResult { part1, part2 });
            }
        }
        proof {
            if exists|k: nat| 101 <= k <= 10100 && spread_out(rs, k, w, h) {
                let k = choose|k: nat| 101 <= k <= 10100 && spread_out(rs, k, w, h);
                assert(!spread_out(rs, k, w, h));
            }
        }
        Ok(DayResult { part1, part2 })
    }
}

} // verus!
