use vstd::prelude::*;
use vstd::slice::slice_to_vec;
use vstd::utf8::encode_utf8;

use super::day::{Day, DayResult};
use super::util::{capped, lemma_capped_add, lemma_capped_mul, saturating_product};
use super::text::{lines, number_of, parse_number, split_lines, usize_to_string, views};

verus! {

/// Keypad chain: robots typing codes on a numeric keypad through a chain of
/// directional keypads.
pub struct Instance;

/// A button of a directional keypad.
#[derive(Debug, PartialEq, Eq, Clone, Copy, Structural)]
pub enum DirectionalKey {
    Up,
    Down,
    Left,
    Right,
    Activate,
}

/// A button of the numeric keypad.
#[derive(Debug, PartialEq, Eq, Clone, Copy, Structural)]
pub enum NumericKey {
    Zero,
    One,
    Two,
    Three,
    Four,
    Five,
    Six,
    Seven,
    Eight,
    Nine,
    Activate,
}

/// A cell of a keypad grid: column `x`, row `y`, rows counted downwards.
#[derive(Debug, PartialEq, Eq, Clone, Copy, Structural)]
pub struct Coord {
    pub x: usize,
    pub y: usize,
}

// ---------------------------------------------------------------------------
// Layout
// ---------------------------------------------------------------------------

/// The empty cell of the directional keypad (top left).
pub open spec fn directional_gap() -> Coord {
    Coord { x: 0, y: 0 }
}

/// The empty cell of the numeric keypad (bottom left).
pub open spec fn numeric_gap() -> Coord {
    Coord { x: 0, y: 3 }
}

pub open spec fn directional_position(k: DirectionalKey) -> Coord {
    match k {
        DirectionalKey::Up => Coord { x: 1, y: 0 },
        DirectionalKey::Activate => Coord { x: 2, y: 0 },
        DirectionalKey::Left => Coord { x: 0, y: 1 },
        DirectionalKey::Down => Coord { x: 1, y: 1 },
        DirectionalKey::Right => Coord { x: 2, y: 1 },
    }
}

pub open spec fn numeric_position(k: NumericKey) -> Coord {
    match k {
        NumericKey::Seven => Coord { x: 0, y: 0 },
        NumericKey::Eight => Coord { x: 1, y: 0 },
        NumericKey::Nine => Coord { x: 2, y: 0 },
        NumericKey::Four => Coord { x: 0, y: 1 },
        NumericKey::Five => Coord { x: 1, y: 1 },
        NumericKey::Six => Coord { x: 2, y: 1 },
        NumericKey::One => Coord { x: 0, y: 2 },
        NumericKey::Two => Coord { x: 1, y: 2 },
        NumericKey::Three => Coord { x: 2, y: 2 },
        NumericKey::Zero => Coord { x: 1, y: 3 },
        NumericKey::Activate => Coord { x: 2, y: 3 },
    }
}

/// A cell that holds a button of the directional keypad.
pub open spec fn on_directional_pad(c: Coord) -> bool {
    c.x <= 2 && c.y <= 1 && c != directional_gap()
}

/// A cell that holds a button of the numeric keypad.
pub open spec fn on_numeric_pad(c: Coord) -> bool {
    c.x <= 2 && c.y <= 3 && c != numeric_gap()
}

/// The cell reached by one move, in unbounded integer coordinates.
pub open spec fn moved(x: int, y: int, d: DirectionalKey) -> (int, int) {
    match d {
        DirectionalKey::Up => (x, y - 1),
        DirectionalKey::Down => (x, y + 1),
        DirectionalKey::Left => (x - 1, y),
        DirectionalKey::Right => (x + 1, y),
        DirectionalKey::Activate => (x, y),
    }
}

/// Applying `moves` one by one from `(x, y)` never leaves the grid's corner
/// quadrant and never lands on `gap`.
pub open spec fn avoids(x: int, y: int, moves: Seq<DirectionalKey>, gap: Coord) -> bool
    decreases moves.len(),
{
    if moves.len() == 0 {
        true
    } else {
        let (nx, ny) = moved(x, y, moves[0]);
        nx >= 0 && ny >= 0 && !(nx == gap.x && ny == gap.y) && avoids(
            nx,
            ny,
            moves.drop_first(),
            gap,
        )
    }
}

pub open spec fn valid_directional(start: Coord, moves: Seq<DirectionalKey>) -> bool {
    avoids(start.x as int, start.y as int, moves, directional_gap())
}

pub open spec fn valid_numeric(start: Coord, moves: Seq<DirectionalKey>) -> bool {
    avoids(start.x as int, start.y as int, moves, numeric_gap())
}

// ---------------------------------------------------------------------------
// Routes
// ---------------------------------------------------------------------------

pub open spec fn repeated(k: DirectionalKey, n: nat) -> Seq<DirectionalKey> {
    Seq::new(n, |_i: int| k)
}

/// The left or right moves from `from`'s column to `to`'s.
pub open spec fn horizontal_moves(from: Coord, to: Coord) -> Seq<DirectionalKey> {
    if from.x < to.x {
        repeated(DirectionalKey::Right, (to.x - from.x) as nat)
    } else {
        repeated(DirectionalKey::Left, (from.x - to.x) as nat)
    }
}

/// The up or down moves from `from`'s row to `to`'s.
pub open spec fn vertical_moves(from: Coord, to: Coord) -> Seq<DirectionalKey> {
    if from.y < to.y {
        repeated(DirectionalKey::Down, (to.y - from.y) as nat)
    } else {
        repeated(DirectionalKey::Up, (from.y - to.y) as nat)
    }
}

/// The monotone moves from `from` to `to`, all horizontal ones first or all
/// vertical ones first.
pub open spec fn monotone_moves(from: Coord, to: Coord, vertical_first: bool) -> Seq<DirectionalKey> {
    if vertical_first {
        vertical_moves(from, to) + horizontal_moves(from, to)
    } else {
        horizontal_moves(from, to) + vertical_moves(from, to)
    }
}

/// One of the two canonical routes: the monotone moves, then a press.
pub open spec fn candidate(from: Coord, to: Coord, vertical_first: bool) -> Seq<DirectionalKey> {
    monotone_moves(from, to, vertical_first).push(DirectionalKey::Activate)
}

/// The cost of a step, given the two candidate routes, whether each is valid,
/// and what each costs: the vertical-first route where the horizontal-first one
/// is invalid or the same, else the horizontal-first one where the other is
/// invalid, else the cheaper of the two.
pub open spec fn choose_cost(
    h: Seq<DirectionalKey>,
    v: Seq<DirectionalKey>,
    h_valid: bool,
    v_valid: bool,
    h_cost: nat,
    v_cost: nat,
) -> nat {
    if !h_valid || h == v {
        v_cost
    } else if !v_valid {
        h_cost
    } else if h_cost < v_cost {
        h_cost
    } else {
        v_cost
    }
}

// ---------------------------------------------------------------------------
// Costs
// ---------------------------------------------------------------------------

/// The least number of presses by the operator that make the robot at the
/// first directional keypad type `moves`, with `depth` more directional
/// keypads between the operator and that robot. At depth 0 the operator types
/// `moves` directly.
pub open spec fn cost(moves: Seq<DirectionalKey>, depth: nat) -> nat
    decreases depth, 2nat, 0nat,
{
    if depth == 0 {
        moves.len()
    } else {
        cost_from(directional_position(DirectionalKey::Activate), moves, depth)
    }
}

/// The cost of typing `moves` at `depth` with the arm starting over `cur`.
pub open spec fn cost_from(cur: Coord, moves: Seq<DirectionalKey>, depth: nat) -> nat
    decreases depth, 1nat, moves.len(),
{
    if moves.len() == 0 {
        0
    } else {
        let next = directional_position(moves[0]);
        step_cost(cur, next, depth) + cost_from(next, moves.drop_first(), depth)
    }
}

/// The cost at `depth` of moving a directional keypad's arm from `from` to
/// `to` and pressing there: the better canonical route, priced one level down.
pub open spec fn step_cost(from: Coord, to: Coord, depth: nat) -> nat
    decreases depth, 0nat, 0nat,
{
    if depth == 0 {
        0
    } else {
        let h = candidate(from, to, false);
        let v = candidate(from, to, true);
        choose_cost(
            h,
            v,
            valid_directional(from, h),
            valid_directional(from, v),
            cost(h, (depth - 1) as nat),
            cost(v, (depth - 1) as nat),
        )
    }
}

/// The cost of moving the numeric keypad's arm from `from` to `to` and
/// pressing there, with `depth` directional keypads above the first.
pub open spec fn numeric_step_cost(from: Coord, to: Coord, depth: nat) -> nat {
    let h = candidate(from, to, false);
    let v = candidate(from, to, true);
    choose_cost(
        h,
        v,
        valid_numeric(from, h),
        valid_numeric(from, v),
        cost(h, depth),
        cost(v, depth),
    )
}

/// The presses needed to type `keys` on the numeric keypad from `cur`.
pub open spec fn presses_from(cur: Coord, keys: Seq<NumericKey>, depth: nat) -> nat
    decreases keys.len(),
{
    if keys.len() == 0 {
        0
    } else {
        let next = numeric_position(keys[0]);
        numeric_step_cost(cur, next, depth) + presses_from(next, keys.drop_first(), depth)
    }
}

/// The presses needed to type a whole code, starting over the numeric keypad's
/// activate button.
pub open spec fn presses(keys: Seq<NumericKey>, depth: nat) -> nat {
    presses_from(numeric_position(NumericKey::Activate), keys, depth)
}

/// The sum over all codes of their presses times their numeric value.
pub open spec fn total_complexity(codes: Seq<(usize, Seq<NumericKey>)>, depth: nat) -> nat
    decreases codes.len(),
{
    if codes.len() == 0 {
        0
    } else {
        total_complexity(codes.drop_last(), depth) + presses(codes.last().1, depth)
            * (codes.last().0 as nat)
    }
}

// ---------------------------------------------------------------------------
// Laws
// ---------------------------------------------------------------------------

/// With no keypad in between, every move costs exactly one press.
pub proof fn lemma_cost_at_depth_zero(moves: Seq<DirectionalKey>)
    ensures
        cost(moves, 0) == moves.len(),
{
}

/// The route from a cell to itself, either way round, is a single press.
pub proof fn lemma_route_to_self(c: Coord, vertical_first: bool)
    ensures
        candidate(c, c, vertical_first) == seq![DirectionalKey::Activate],
{
    assert(horizontal_moves(c, c) =~= Seq::<DirectionalKey>::empty());
    assert(vertical_moves(c, c) =~= Seq::<DirectionalKey>::empty());
    assert(candidate(c, c, vertical_first) =~= seq![DirectionalKey::Activate]);
}

/// One more keypad in the chain never makes a sequence cheaper to type.
pub proof fn lemma_cost_monotone(moves: Seq<DirectionalKey>, depth: nat)
    ensures
        cost(moves, depth) <= cost(moves, depth + 1),
    decreases depth, 1nat, 0nat,
{
    if depth == 0 {
        lemma_one_press_per_move(directional_position(DirectionalKey::Activate), moves);
    } else {
        lemma_cost_from_monotone(directional_position(DirectionalKey::Activate), moves, depth);
    }
}

proof fn lemma_cost_from_monotone(cur: Coord, moves: Seq<DirectionalKey>, depth: nat)
    requires
        depth > 0,
    ensures
        cost_from(cur, moves, depth) <= cost_from(cur, moves, depth + 1),
    decreases depth, 0nat, moves.len(),
{
    if moves.len() > 0 {
        let next = directional_position(moves[0]);
        let h = candidate(cur, next, false);
        let v = candidate(cur, next, true);
        let lower = (depth - 1) as nat;
        lemma_cost_monotone(h, lower);
        lemma_cost_monotone(v, lower);
        lemma_choose_monotone(
            h,
            v,
            valid_directional(cur, h),
            valid_directional(cur, v),
            cost(h, lower),
            cost(v, lower),
            cost(h, depth),
            cost(v, depth),
        );
        assert(step_cost(cur, next, depth) <= step_cost(cur, next, depth + 1));
        lemma_cost_from_monotone(next, moves.drop_first(), depth);
    }
}

proof fn lemma_choose_monotone(
    h: Seq<DirectionalKey>,
    v: Seq<DirectionalKey>,
    h_valid: bool,
    v_valid: bool,
    h_low: nat,
    v_low: nat,
    h_high: nat,
    v_high: nat,
)
    requires
        h_low <= h_high,
        v_low <= v_high,
    ensures
        choose_cost(h, v, h_valid, v_valid, h_low, v_low) <= choose_cost(
            h,
            v,
            h_valid,
            v_valid,
            h_high,
            v_high,
        ),
{
}

/// Through one keypad, each move takes at least one press.
proof fn lemma_one_press_per_move(cur: Coord, moves: Seq<DirectionalKey>)
    ensures
        cost_from(cur, moves, 1) >= moves.len(),
    decreases moves.len(),
{
    if moves.len() > 0 {
        let next = directional_position(moves[0]);
        let h = candidate(cur, next, false);
        let v = candidate(cur, next, true);
        assert(cost(h, 0) >= 1);
        assert(cost(v, 0) >= 1);
        assert(step_cost(cur, next, 1) >= 1);
        lemma_one_press_per_move(next, moves.drop_first());
    }
}

/// Where `moves`, applied one by one from `(x, y)`, end.
pub open spec fn walk_end(x: int, y: int, moves: Seq<DirectionalKey>) -> (int, int)
    decreases moves.len(),
{
    if moves.len() == 0 {
        (x, y)
    } else {
        let (nx, ny) = moved(x, y, moves[0]);
        walk_end(nx, ny, moves.drop_first())
    }
}

/// The cell `j` moves of kind `k` away from `(x, y)`.
pub open spec fn point_after(x: int, y: int, k: DirectionalKey, j: int) -> (int, int) {
    match k {
        DirectionalKey::Up => (x, y - j),
        DirectionalKey::Down => (x, y + j),
        DirectionalKey::Left => (x - j, y),
        DirectionalKey::Right => (x + j, y),
        DirectionalKey::Activate => (x, y),
    }
}

/// A cell in the grid's corner quadrant other than `gap`.
pub open spec fn cell_ok(p: (int, int), gap: Coord) -> bool {
    p.0 >= 0 && p.1 >= 0 && !(p.0 == gap.x && p.1 == gap.y)
}

proof fn lemma_avoids_concat(x: int, y: int, a: Seq<DirectionalKey>, b: Seq<DirectionalKey>, gap: Coord)
    ensures
        avoids(x, y, a + b, gap) == (avoids(x, y, a, gap) && avoids(
            walk_end(x, y, a).0,
            walk_end(x, y, a).1,
            b,
            gap,
        )),
    decreases a.len(),
{
    if a.len() == 0 {
        assert(a + b =~= b);
    } else {
        let (nx, ny) = moved(x, y, a[0]);
        assert((a + b).drop_first() =~= a.drop_first() + b);
        assert((a + b)[0] == a[0]);
        lemma_avoids_concat(nx, ny, a.drop_first(), b, gap);
    }
}

/// A run of `n` equal moves ends `n` cells away, and avoids `gap` when every
/// cell it passes does.
proof fn lemma_straight_run(x: int, y: int, k: DirectionalKey, n: nat, gap: Coord)
    ensures
        walk_end(x, y, repeated(k, n)) == point_after(x, y, k, n as int),
        (forall|j: int| 1 <= j <= n ==> #[trigger] cell_ok(point_after(x, y, k, j), gap))
            ==> avoids(x, y, repeated(k, n), gap),
    decreases n,
{
    if n > 0 {
        let (nx, ny) = moved(x, y, k);
        assert(repeated(k, n).drop_first() =~= repeated(k, (n - 1) as nat));
        assert(repeated(k, n)[0] == k);
        lemma_straight_run(nx, ny, k, (n - 1) as nat, gap);
        assert(forall|j: int| 1 <= j <= n - 1 ==> #[trigger] point_after(nx, ny, k, j) == point_after(x, y, k, j + 1));
        if forall|j: int| 1 <= j <= n ==> #[trigger] cell_ok(point_after(x, y, k, j), gap) {
            assert(cell_ok(point_after(x, y, k, 1), gap));
            assert forall|j: int| 1 <= j <= n - 1 implies #[trigger] cell_ok(point_after(nx, ny, k, j), gap) by {
                assert(cell_ok(point_after(x, y, k, j + 1), gap));
            }
        }
    } else {
        assert(repeated(k, n) =~= Seq::<DirectionalKey>::empty());
    }
}

/// The horizontal moves as one straight run: its kind and length.
pub open spec fn horizontal_run(from: Coord, to: Coord) -> (DirectionalKey, nat) {
    if from.x < to.x {
        (DirectionalKey::Right, (to.x - from.x) as nat)
    } else {
        (DirectionalKey::Left, (from.x - to.x) as nat)
    }
}

/// The vertical moves as one straight run: its kind and length.
pub open spec fn vertical_run(from: Coord, to: Coord) -> (DirectionalKey, nat) {
    if from.y < to.y {
        (DirectionalKey::Down, (to.y - from.y) as nat)
    } else {
        (DirectionalKey::Up, (from.y - to.y) as nat)
    }
}

/// A single press at a cell avoids `gap` exactly when the cell does.
proof fn lemma_press(x: int, y: int, gap: Coord)
    ensures
        avoids(x, y, seq![DirectionalKey::Activate], gap) == cell_ok((x, y), gap),
{
    let press = seq![DirectionalKey::Activate];
    assert(press.drop_first() =~= Seq::<DirectionalKey>::empty());
    assert(press[0] == DirectionalKey::Activate);
    assert(avoids(x, y, Seq::<DirectionalKey>::empty(), gap));
}

/// The run a candidate route starts with.
pub open spec fn first_run(from: Coord, to: Coord, vertical_first: bool) -> (DirectionalKey, nat) {
    if vertical_first {
        vertical_run(from, to)
    } else {
        horizontal_run(from, to)
    }
}

/// The run a candidate route continues with.
pub open spec fn second_run(from: Coord, to: Coord, vertical_first: bool) -> (DirectionalKey, nat) {
    if vertical_first {
        horizontal_run(from, to)
    } else {
        vertical_run(from, to)
    }
}

/// The cell where a candidate route turns.
pub open spec fn corner(from: Coord, to: Coord, vertical_first: bool) -> (int, int) {
    point_after(
        from.x as int,
        from.y as int,
        first_run(from, to, vertical_first).0,
        first_run(from, to, vertical_first).1 as int,
    )
}

/// A candidate route avoids `gap` when every cell of its two runs and the
/// cell it ends on do.
proof fn lemma_candidate_parts(from: Coord, to: Coord, vertical_first: bool, gap: Coord)
    requires
        forall|j: int|
            1 <= j <= first_run(from, to, vertical_first).1 ==> #[trigger] cell_ok(
                point_after(from.x as int, from.y as int, first_run(from, to, vertical_first).0, j),
                gap,
            ),
        forall|j: int|
            1 <= j <= second_run(from, to, vertical_first).1 ==> #[trigger] cell_ok(
                point_after(
                    corner(from, to, vertical_first).0,
                    corner(from, to, vertical_first).1,
                    second_run(from, to, vertical_first).0,
                    j,
                ),
                gap,
            ),
        cell_ok((to.x as int, to.y as int), gap),
    ensures
        avoids(from.x as int, from.y as int, candidate(from, to, vertical_first), gap),
{
    let (k1, n1) = first_run(from, to, vertical_first);
    let (k2, n2) = second_run(from, to, vertical_first);
    assert(horizontal_moves(from, to) =~= repeated(horizontal_run(from, to).0, horizontal_run(from, to).1));
    assert(vertical_moves(from, to) =~= repeated(vertical_run(from, to).0, vertical_run(from, to).1));
    let x = from.x as int;
    let y = from.y as int;
    let first = repeated(k1, n1);
    let second = repeated(k2, n2);
    let press = seq![DirectionalKey::Activate];
    assert(candidate(from, to, vertical_first) =~= first + (second + press));
    lemma_straight_run(x, y, k1, n1, gap);
    let c = corner(from, to, vertical_first);
    lemma_straight_run(c.0, c.1, k2, n2, gap);
    let end = point_after(c.0, c.1, k2, n2 as int);
    assert(end == (to.x as int, to.y as int));
    lemma_avoids_concat(x, y, first, second + press, gap);
    lemma_avoids_concat(c.0, c.1, second, press, gap);
    lemma_press(end.0, end.1, gap);
}

/// Between any two buttons of the numeric keypad, at least one of the two
/// canonical routes avoids the gap.
pub proof fn lemma_numeric_route_exists(from: Coord, to: Coord)
    requires
        on_numeric_pad(from),
        on_numeric_pad(to),
    ensures
        valid_numeric(from, candidate(from, to, false)) || valid_numeric(from, candidate(from, to, true)),
{
    let g = numeric_gap();
    if from.y == 3 && to.x == 0 {
        lemma_candidate_parts(from, to, true, g);
    } else {
        lemma_candidate_parts(from, to, false, g);
    }

}

/// Between any two buttons of the directional keypad, at least one of the two
/// canonical routes avoids the gap.
pub proof fn lemma_directional_route_exists(from: Coord, to: Coord)
    requires
        on_directional_pad(from),
        on_directional_pad(to),
    ensures
        valid_directional(from, candidate(from, to, false)) || valid_directional(
            from,
            candidate(from, to, true),
        ),
{
    let g = directional_gap();
    if from.y == 0 && to.x == 0 {
        lemma_candidate_parts(from, to, true, g);
    } else {
        lemma_candidate_parts(from, to, false, g);
    }

}

// ---------------------------------------------------------------------------
// Exec layout and routes
// ---------------------------------------------------------------------------

impl DirectionalKey {
    pub fn position(&self) -> (r: Coord)
        ensures
            r == directional_position(*self),
    {
        match self {
            DirectionalKey::Up => Coord { x: 1, y: 0 },
            DirectionalKey::Activate => Coord { x: 2, y: 0 },
            DirectionalKey::Left => Coord { x: 0, y: 1 },
            DirectionalKey::Down => Coord { x: 1, y: 1 },
            DirectionalKey::Right => Coord { x: 2, y: 1 },
        }
    }

    /// Whether `directions`, applied from `start`, avoid the directional
    /// keypad's gap.
    pub fn is_valid(start: &Coord, directions: &[DirectionalKey]) -> (r: bool)
        requires
            start.x + directions@.len() <= usize::MAX,
            start.y + directions@.len() <= usize::MAX,
        ensures
            r == valid_directional(*start, directions@),
    {
        walk_avoids(start, directions, Coord { x: 0, y: 0 })
    }

    /// Where the arm of a directional keypad starts.
    pub fn start() -> (r: Coord)
        ensures
            r == directional_position(DirectionalKey::Activate),
    {
        DirectionalKey::Activate.position()
    }
}

impl NumericKey {
    pub fn position(&self) -> (r: Coord)
        ensures
            r == numeric_position(*self),
    {
        match self {
            NumericKey::Seven => Coord { x: 0, y: 0 },
            NumericKey::Eight => Coord { x: 1, y: 0 },
            NumericKey::Nine => Coord { x: 2, y: 0 },
            NumericKey::Four => Coord { x: 0, y: 1 },
            NumericKey::Five => Coord { x: 1, y: 1 },
            NumericKey::Six => Coord { x: 2, y: 1 },
            NumericKey::One => Coord { x: 0, y: 2 },
            NumericKey::Two => Coord { x: 1, y: 2 },
            NumericKey::Three => Coord { x: 2, y: 2 },
            NumericKey::Zero => Coord { x: 1, y: 3 },
            NumericKey::Activate => Coord { x: 2, y: 3 },
        }
    }

    /// Whether `directions`, applied from `start`, avoid the numeric keypad's
    /// gap.
    pub fn is_valid(start: &Coord, directions: &[DirectionalKey]) -> (r: bool)
        requires
            start.x + directions@.len() <= usize::MAX,
            start.y + directions@.len() <= usize::MAX,
        ensures
            r == valid_numeric(*start, directions@),
    {
        walk_avoids(start, directions, Coord { x: 0, y: 3 })
    }

    /// Where the arm of the numeric keypad starts.
    pub fn start() -> (r: Coord)
        ensures
            r == numeric_position(NumericKey::Activate),
    {
        NumericKey::Activate.position()
    }

    /// The key written as the byte `b`, if any.
    pub fn from_byte(b: u8) -> (r: Option<NumericKey>)
        ensures
            r == numeric_key_of(b),
    {
        if b == 48 {
            Some(NumericKey::Zero)
        } else if b == 49 {
            Some(NumericKey::One)
        } else if b == 50 {
            Some(NumericKey::Two)
        } else if b == 51 {
            Some(NumericKey::Three)
        } else if b == 52 {
            Some(NumericKey::Four)
        } else if b == 53 {
            Some(NumericKey::Five)
        } else if b == 54 {
            Some(NumericKey::Six)
        } else if b == 55 {
            Some(NumericKey::Seven)
        } else if b == 56 {
            Some(NumericKey::Eight)
        } else if b == 57 {
            Some(NumericKey::Nine)
        } else if b == 65 {
            Some(NumericKey::Activate)
        } else {
            None
        }
    }
}

/// The numeric key that the character with code `b` names: a digit, or `A`.
pub open spec fn numeric_key_of(b: u8) -> Option<NumericKey> {
    if b == 48 {
        Some(NumericKey::Zero)
    } else if b == 49 {
        Some(NumericKey::One)
    } else if b == 50 {
        Some(NumericKey::Two)
    } else if b == 51 {
        Some(NumericKey::Three)
    } else if b == 52 {
        Some(NumericKey::Four)
    } else if b == 53 {
        Some(NumericKey::Five)
    } else if b == 54 {
        Some(NumericKey::Six)
    } else if b == 55 {
        Some(NumericKey::Seven)
    } else if b == 56 {
        Some(NumericKey::Eight)
    } else if b == 57 {
        Some(NumericKey::Nine)
    } else if b == 65 {
        Some(NumericKey::Activate)
    } else {
        None
    }
}

/// Walks `directions` from `start` and reports whether it avoids `gap`.
fn walk_avoids(start: &Coord, directions: &[DirectionalKey], gap: Coord) -> (r: bool)
    requires
        start.x + directions@.len() <= usize::MAX,
        start.y + directions@.len() <= usize::MAX,
    ensures
        r == avoids(start.x as int, start.y as int, directions@, gap),
{
    let mut current = *start;
    let mut i: usize = 0;
    assert(directions@.skip(0) =~= directions@);
    while i < directions.len()
        invariant
            0 <= i <= directions@.len(),
            current.x <= start.x + i,
            current.y <= start.y + i,
            start.x + directions@.len() <= usize::MAX,
            start.y + directions@.len() <= usize::MAX,
            avoids(start.x as int, start.y as int, directions@, gap) == avoids(
                current.x as int,
                current.y as int,
                directions@.skip(i as int),
                gap,
            ),
        decreases directions.len() - i,
    {
        let d = directions[i];
        assert(directions@.skip(i as int)[0] == d);
        assert(directions@.skip(i as int).drop_first() =~= directions@.skip(i as int + 1));
        if (d == DirectionalKey::Left && current.x == 0) || (d == DirectionalKey::Up && current.y
            == 0) {
            return false;
        }
        current = current.move_direction(d);
        if current == gap {
            return false;
        }
        i = i + 1;
    }
    true
}

/// Appends `n` copies of `k`.
fn push_repeated(v: &mut Vec<DirectionalKey>, k: DirectionalKey, n: usize)
    ensures
        final(v)@ == old(v)@ + repeated(k, n as nat),
{
    let mut i: usize = 0;
    while i < n
        invariant
            0 <= i <= n,
            v@ == old(v)@ + repeated(k, i as nat),
        decreases n - i,
    {
        v.push(k);
        i = i + 1;
        assert(v@ =~= old(v)@ + repeated(k, i as nat));
    }
}

/// Whether two move sequences are equal, element by element.
fn same_moves(a: &[DirectionalKey], b: &[DirectionalKey]) -> (r: bool)
    ensures
        r == (a@ == b@),
{
    if a.len() != b.len() {
        return false;
    }
    let mut i: usize = 0;
    while i < a.len()
        invariant
            0 <= i <= a@.len(),
            a@.len() == b@.len(),
            forall|j: int| 0 <= j < i ==> a@[j] == b@[j],
        decreases a.len() - i,
    {
        if a[i] != b[i] {
            return false;
        }
        i = i + 1;
    }
    assert(a@ =~= b@);
    true
}

impl Coord {
    /// The monotone moves from `self` to `other`: left or right moves, then
    /// up or down moves, or the other way round when `vertical_first`.
    pub fn directions(&self, other: &Coord, vertical_first: bool) -> (r: Vec<DirectionalKey>)
        ensures
            r@ == monotone_moves(*self, *other, vertical_first),
    {
        let mut r: Vec<DirectionalKey> = Vec::new();
        if vertical_first {
            self.push_vertical(other, &mut r);
            self.push_horizontal(other, &mut r);
        } else {
            self.push_horizontal(other, &mut r);
            self.push_vertical(other, &mut r);
        }
        assert(r@ =~= monotone_moves(*self, *other, vertical_first));
        r
    }

    fn push_horizontal(&self, other: &Coord, r: &mut Vec<DirectionalKey>)
        ensures
            final(r)@ == old(r)@ + horizontal_moves(*self, *other),
    {
        if self.x < other.x {
            push_repeated(r, DirectionalKey::Right, other.x - self.x);
        } else {
            push_repeated(r, DirectionalKey::Left, self.x - other.x);
        }
    }

    fn push_vertical(&self, other: &Coord, r: &mut Vec<DirectionalKey>)
        ensures
            final(r)@ == old(r)@ + vertical_moves(*self, *other),
    {
        if self.y < other.y {
            push_repeated(r, DirectionalKey::Down, other.y - self.y);
        } else {
            push_repeated(r, DirectionalKey::Up, self.y - other.y);
        }
    }

    /// One of the two canonical routes from `self` to `other`, with the final
    /// press.
    pub fn route(&self, other: &Coord, vertical_first: bool) -> (r: Vec<DirectionalKey>)
        ensures
            r@ == candidate(*self, *other, vertical_first),
    {
        let mut r = self.directions(other, vertical_first);
        r.push(DirectionalKey::Activate);
        r
    }

    /// The cell one move away.
    pub fn move_direction(&self, direction: DirectionalKey) -> (r: Coord)
        requires
            direction == DirectionalKey::Up ==> self.y > 0,
            direction == DirectionalKey::Down ==> self.y < usize::MAX,
            direction == DirectionalKey::Left ==> self.x > 0,
            direction == DirectionalKey::Right ==> self.x < usize::MAX,
        ensures
            (r.x as int, r.y as int) == moved(self.x as int, self.y as int, direction),
    {
        match direction {
            DirectionalKey::Up => Coord { x: self.x, y: self.y - 1 },
            DirectionalKey::Down => Coord { x: self.x, y: self.y + 1 },
            DirectionalKey::Left => Coord { x: self.x - 1, y: self.y },
            DirectionalKey::Right => Coord { x: self.x + 1, y: self.y },
            DirectionalKey::Activate => *self,
        }
    }
}


// ---------------------------------------------------------------------------
// Memoised costs
// ---------------------------------------------------------------------------

/// A cached cost: `(depth, moves, capped cost)`.
pub open spec fn cost_entry_ok(e: (usize, Vec<DirectionalKey>, usize)) -> bool {
    e.2 == capped(cost(e.1@, e.0 as nat))
}

/// A cached route choice: `(from, to, depth, route)`, where the route is one of
/// the two candidates and prices, one level down, as the step does.
pub open spec fn best_entry_ok(e: (Coord, Coord, usize, Vec<DirectionalKey>)) -> bool {
    &&& e.2 > 0
    &&& (e.3@ == candidate(e.0, e.1, false) || e.3@ == candidate(e.0, e.1, true))
    &&& capped(cost(e.3@, (e.2 - 1) as nat)) == capped(step_cost(e.0, e.1, e.2 as nat))
}

/// Costs of move sequences, memoised by depth and sequence, and the chosen
/// route between two directional-keypad cells, memoised by the two cells and
/// the depth. Both caches live as long as the solver.
#[derive(Debug)]
pub struct CachedComplexity {
    cost_cache: Vec<(usize, Vec<DirectionalKey>, usize)>,
    best_cache: Vec<(Coord, Coord, usize, Vec<DirectionalKey>)>,
    depth: usize,
}

impl CachedComplexity {
    /// Every cache entry holds what it claims.
    pub closed spec fn wf(&self) -> bool {
        &&& forall|i: int|
            0 <= i < self.cost_cache@.len() ==> #[trigger] cost_entry_ok(self.cost_cache@[i])
        &&& forall|i: int|
            0 <= i < self.best_cache@.len() ==> #[trigger] best_entry_ok(self.best_cache@[i])
    }

    /// The number of directional keypads above the first one.
    pub closed spec fn spec_depth(&self) -> nat {
        self.depth as nat
    }

    /// The cost of `moves` at `depth` is in the cache.
    pub closed spec fn has_cost(&self, depth: usize, moves: Seq<DirectionalKey>) -> bool {
        exists|i: int|
            0 <= i < self.cost_cache@.len() && (#[trigger] self.cost_cache@[i]).0 == depth
                && self.cost_cache@[i].1@ == moves
    }

    /// A solver with empty caches.
    pub fn new(depth: usize) -> (r: Self)
        ensures
            r.wf(),
            r.spec_depth() == depth,
    {
        CachedComplexity { cost_cache: Vec::new(), best_cache: Vec::new(), depth }
    }

    /// The presses needed to type `keys` on the numeric keypad, from its
    /// activate button.
    #[verifier::rlimit(40)]
    pub fn complexity(&mut self, keys: &[NumericKey]) -> (r: usize)
        requires
            old(self).wf(),
        ensures
            final(self).wf(),
            final(self).spec_depth() == old(self).spec_depth(),
            r == capped(presses(keys@, old(self).spec_depth())),
    {
        let mut current = NumericKey::start();
        let mut total: usize = 0;
        let ghost mut done: nat = 0;
        let ghost depth = self.spec_depth();
        let mut i: usize = 0;
        assert(keys@.skip(0) =~= keys@);
        while i < keys.len()
            invariant
                self.wf(),
                self.spec_depth() == depth,
                depth == old(self).spec_depth(),
                0 <= i <= keys@.len(),
                on_numeric_pad(current),
                done + presses_from(current, keys@.skip(i as int), depth) == presses(keys@, depth),
                total == capped(done),
            decreases keys.len() - i,
        {
            let next = keys[i].position();
            assert(keys@.skip(i as int)[0] == keys@[i as int]);
            assert(keys@.skip(i as int).drop_first() =~= keys@.skip(i as int + 1));
            let horizontal = current.route(&next, false);
            let vertical = current.route(&next, true);
            let ghost step = numeric_step_cost(current, next, depth);
            let ghost h_cost_spec = cost(horizontal@, depth);
            let ghost v_cost_spec = cost(vertical@, depth);
            assert(step == choose_cost(
                horizontal@,
                vertical@,
                valid_numeric(current, horizontal@),
                valid_numeric(current, vertical@),
                h_cost_spec,
                v_cost_spec,
            ));
            let c;
            if !NumericKey::is_valid(&current, horizontal.as_slice()) || same_moves(
                horizontal.as_slice(),
                vertical.as_slice(),
            ) {
                c = self.cost(vertical.as_slice());
            } else if !NumericKey::is_valid(&current, vertical.as_slice()) {
                c = self.cost(horizontal.as_slice());
            } else {
                let h_cost = self.cost(horizontal.as_slice());
                let v_cost = self.cost(vertical.as_slice());
                c = if h_cost < v_cost { h_cost } else { v_cost };
            }
            assert(c == capped(step));
            proof {
                lemma_capped_add(done, step);
                done = done + step;
            }
            total = total.saturating_add(c);
            current = next;
            i = i + 1;
        }
        total
    }

    /// The cost of `keys` at the solver's depth.
    pub fn cost(&mut self, keys: &[DirectionalKey]) -> (r: usize)
        requires
            old(self).wf(),
        ensures
            final(self).wf(),
            final(self).spec_depth() == old(self).spec_depth(),
            r == capped(cost(keys@, old(self).spec_depth())),
    {
        let depth = self.depth;
        self.cost_depth(keys, depth)
    }

    /// The cached cost of `keys` at `depth`, if there is one.
    fn lookup_cost(&self, keys: &[DirectionalKey], depth: usize) -> (r: Option<usize>)
        requires
            self.wf(),
        ensures
            r matches Some(c) ==> c == capped(cost(keys@, depth as nat)),
            r is Some <==> self.has_cost(depth, keys@),
    {
        let mut i: usize = 0;
        while i < self.cost_cache.len()
            invariant
                self.wf(),
                0 <= i <= self.cost_cache@.len(),
                forall|j: int|
                    0 <= j < i ==> !((#[trigger] self.cost_cache@[j]).0 == depth
                        && self.cost_cache@[j].1@ == keys@),
            decreases self.cost_cache.len() - i,
        {
            let entry = &self.cost_cache[i];
            if entry.0 == depth && same_moves(entry.1.as_slice(), keys) {
                assert(cost_entry_ok(self.cost_cache@[i as int]));
                assert(self.cost_cache@[i as int].0 == depth && self.cost_cache@[i as int].1@
                    == keys@);
                return Some(entry.2);
            }
            i = i + 1;
        }
        None
    }

    /// The least cost of `keys` at `depth`; memoised for every depth above 0.
    /// A sequence whose cost is already cached is answered from the cache and
    /// leaves the solver as it was.
    pub fn cost_depth(&mut self, keys: &[DirectionalKey], depth: usize) -> (r: usize)
        requires
            old(self).wf(),
        ensures
            final(self).wf(),
            final(self).spec_depth() == old(self).spec_depth(),
            r == capped(cost(keys@, depth as nat)),
            old(self).has_cost(depth, keys@) ==> *final(self) == *old(self),
            depth > 0 ==> final(self).has_cost(depth, keys@),
        decreases depth, 1nat,
    {
        match self.lookup_cost(keys, depth) {
            Some(existing) => existing,
            None => {
                if depth == 0 {
                    return keys.len();
                }
                let mut total: usize = 0;
                let ghost mut done: nat = 0;
                let ghost d = depth as nat;
                let ghost sd = self.spec_depth();
                let mut current = DirectionalKey::start();
                let mut i: usize = 0;
                assert(keys@.skip(0) =~= keys@);
                while i < keys.len()
                    invariant
                        self.wf(),
                        self.spec_depth() == sd,
                        sd == old(self).spec_depth(),
                        d == depth,
                        depth > 0,
                        0 <= i <= keys@.len(),
                        on_directional_pad(current),
                        done + cost_from(current, keys@.skip(i as int), d) == cost(keys@, d),
                        total == capped(done),
                    decreases keys.len() - i,
                {
                    let next = keys[i].position();
                    assert(keys@.skip(i as int)[0] == keys@[i as int]);
                    assert(keys@.skip(i as int).drop_first() =~= keys@.skip(i as int + 1));
                    let best = self.best_keys(current, next, depth);
                    let c = self.cost_depth(best.as_slice(), depth - 1);
                    let ghost step = step_cost(current, next, d);
                    proof {
                        lemma_capped_add(done, step);
                        done = done + step;
                    }
                    total = total.saturating_add(c);
                    current = next;
                    i = i + 1;
                }
                let ghost before = self.cost_cache@;
                self.cost_cache.push((depth, slice_to_vec(keys), total));
                assert(self.cost_cache@[before.len() as int].1@ == keys@);
                assert(self.wf()) by {
                    assert forall|j: int| 0 <= j < self.cost_cache@.len() implies
                        #[trigger] cost_entry_ok(self.cost_cache@[j]) by {
                        if j < before.len() {
                            assert(self.cost_cache@[j] == before[j]);
                        }
                    }
                }
                total
            },
        }
    }

    /// The cached route from `from` to `to` at `depth`, if there is one.
    fn lookup_best(&self, from: Coord, to: Coord, depth: usize) -> (r: Option<Vec<DirectionalKey>>)
        requires
            self.wf(),
        ensures
            r matches Some(route) ==> best_entry_ok((from, to, depth, route)),
    {
        let mut i: usize = 0;
        while i < self.best_cache.len()
            invariant
                self.wf(),
                0 <= i <= self.best_cache@.len(),
            decreases self.best_cache.len() - i,
        {
            let entry = &self.best_cache[i];
            if entry.0 == from && entry.1 == to && entry.2 == depth {
                assert(best_entry_ok(self.best_cache@[i as int]));
                let route = slice_to_vec(entry.3.as_slice());
                return Some(route);
            }
            i = i + 1;
        }
        None
    }

    /// The route between two directional-keypad cells to use at `depth`: one of
    /// the two candidates, whose cost one level down is that of the step.
    pub fn best_keys(&mut self, from: Coord, to: Coord, depth: usize) -> (r: Vec<DirectionalKey>)
        requires
            old(self).wf(),
            depth > 0,
            on_directional_pad(from),
            on_directional_pad(to),
        ensures
            final(self).wf(),
            final(self).spec_depth() == old(self).spec_depth(),
            r@ == candidate(from, to, false) || r@ == candidate(from, to, true),
            capped(cost(r@, (depth - 1) as nat)) == capped(step_cost(from, to, depth as nat)),
        decreases depth, 0nat,
    {
        if let Some(existing) = self.lookup_best(from, to, depth) {
            return existing;
        }
        let horizontal = from.route(&to, false);
        let vertical = from.route(&to, true);
        let chosen;
        if !DirectionalKey::is_valid(&from, horizontal.as_slice()) || same_moves(
            horizontal.as_slice(),
            vertical.as_slice(),
        ) {
            chosen = vertical;
            let _ = self.cost_depth(chosen.as_slice(), depth - 1);
        } else if !DirectionalKey::is_valid(&from, vertical.as_slice()) {
            chosen = horizontal;
            let _ = self.cost_depth(chosen.as_slice(), depth - 1);
        } else {
            let h_cost = self.cost_depth(horizontal.as_slice(), depth - 1);
            let v_cost = self.cost_depth(vertical.as_slice(), depth - 1);
            if h_cost < v_cost {
                chosen = horizontal;
            } else {
                chosen = vertical;
            }
        }
        let ghost before = self.best_cache@;
        self.best_cache.push((from, to, depth, slice_to_vec(chosen.as_slice())));
        assert(self.wf()) by {
            assert forall|j: int| 0 <= j < self.best_cache@.len() implies
                #[trigger] best_entry_ok(self.best_cache@[j]) by {
                if j < before.len() {
                    assert(self.best_cache@[j] == before[j]);
                }
            }
        }
        chosen
    }
}


/// The codes with their keys as sequences.
pub open spec fn codes_view(codes: Seq<(usize, Vec<NumericKey>)>) -> Seq<(usize, Seq<NumericKey>)> {
    Seq::new(codes.len(), |i: int| (codes[i].0, codes[i].1@))
}

/// The sum over all codes of presses times numeric value, with one solver
/// shared by all codes.
pub fn complexity(keys: &[(usize, Vec<NumericKey>)], depth: usize) -> (r: usize)
    ensures
        r == capped(total_complexity(codes_view(keys@), depth as nat)),
{
    let mut sum: usize = 0;
    let mut cache = CachedComplexity::new(depth);
    let mut i: usize = 0;
    while i < keys.len()
        invariant
            cache.wf(),
            cache.spec_depth() == depth,
            0 <= i <= keys@.len(),
            sum == capped(total_complexity(codes_view(keys@).take(i as int), depth as nat)),
        decreases keys.len() - i,
    {
        let value = keys[i].0;
        let c = cache.complexity(keys[i].1.as_slice());
        let p = saturating_product(c, value);
        let ghost all = codes_view(keys@);
        let ghost before = total_complexity(all.take(i as int), depth as nat);
        let ghost pr = presses(keys@[i as int].1@, depth as nat);
        proof {
            assert(all.take(i as int + 1).drop_last() =~= all.take(i as int));
            assert(all.take(i as int + 1).last() == all[i as int]);
            lemma_capped_mul(pr, value as nat);
            lemma_capped_add(before, pr * value as nat);
        }
        sum = sum.saturating_add(p);
        i = i + 1;
    }
    assert(codes_view(keys@).take(i as int) =~= codes_view(keys@));
    sum
}

// ---------------------------------------------------------------------------
// Input
// ---------------------------------------------------------------------------

/// `s` without its trailing `A` characters.
pub open spec fn trim_activate(s: Seq<u8>) -> Seq<u8>
    decreases s.len(),
{
    if s.len() > 0 && s.last() == 65 {
        trim_activate(s.drop_last())
    } else {
        s
    }
}

pub open spec fn all_keys(s: Seq<u8>) -> bool {
    forall|i: int| 0 <= i < s.len() ==> (#[trigger] numeric_key_of(s[i])) is Some
}

pub open spec fn keys_of(s: Seq<u8>) -> Seq<NumericKey> {
    Seq::new(s.len(), |i: int| numeric_key_of(s[i])->Some_0)
}

/// A code line: it ends with `A`, its numeric value is the number before the
/// trailing `A`s, and every character of it is a key.
pub open spec fn code_of(line: Seq<u8>) -> Option<(usize, Seq<NumericKey>)> {
    if line.len() == 0 || line.last() != 65 {
        None
    } else {
        code_value_and_keys(line)
    }
}

/// The numeric value and keys of a line, if both parse.
pub open spec fn code_value_and_keys(line: Seq<u8>) -> Option<(usize, Seq<NumericKey>)> {
    match number_of(trim_activate(line)) {
        Some(n) => if all_keys(line) {
            Some((n, keys_of(line)))
        } else {
            None
        },
        None => None,
    }
}

/// Every line of `text` is a code.
pub open spec fn all_codes(text: Seq<u8>) -> bool {
    forall|i: int| 0 <= i < lines(text).len() ==> (#[trigger] code_of(lines(text)[i])) is Some
}

/// The codes of `text`, one per line.
pub open spec fn codes_of(text: Seq<u8>) -> Seq<(usize, Seq<NumericKey>)> {
    Seq::new(lines(text).len(), |i: int| code_of(lines(text)[i])->Some_0)
}

/// Parses one code line.
fn parse_code(line: &[u8]) -> (r: Result<(usize, Vec<NumericKey>), String>)
    ensures
        r is Ok <==> code_of(line@) is Some,
        r matches Ok(c) ==> code_of(line@) == Some((c.0, c.1@)),
{
    if line.len() == 0 || line[line.len() - 1] != 65 {
        return Err("missing trailing A".to_owned());
    }
    let mut end: usize = line.len();
    assert(line@.take(end as int) =~= line@);
    while end > 0 && line[end - 1] == 65
        invariant
            0 <= end <= line@.len(),
            trim_activate(line@) == trim_activate(line@.take(end as int)),
        decreases end,
    {
        assert(line@.take(end as int).drop_last() =~= line@.take(end as int - 1));
        end = end - 1;
    }
    let digits = vstd::slice::slice_subrange(line, 0, end);
    assert(digits@ =~= line@.take(end as int));
    let numeric = match parse_number(digits) {
        Some(n) => n,
        None => {
            return Err("invalid number in code".to_owned());
        },
    };
    let mut keys: Vec<NumericKey> = Vec::new();
    let mut i: usize = 0;
    while i < line.len()
        invariant
            0 <= i <= line@.len(),
            keys@ == keys_of(line@.take(i as int)),
            all_keys(line@.take(i as int)),
        decreases line.len() - i,
    {
        match NumericKey::from_byte(line[i]) {
            Some(k) => {
                keys.push(k);
            },
            None => {
                assert(!all_keys(line@)) by {
                    assert(numeric_key_of(line@[i as int]) is None);
                }
                return Err("Invalid key".to_owned());
            },
        }
        i = i + 1;
        assert(keys@ =~= keys_of(line@.take(i as int)));
        assert(all_keys(line@.take(i as int))) by {
            assert forall|j: int| 0 <= j < i implies (#[trigger] numeric_key_of(
                line@.take(i as int)[j],
            )) is Some by {
                if j < i - 1 {
                    assert(line@.take(i as int)[j] == line@.take(i as int - 1)[j]);
                }
            }
        }
    }
    assert(line@.take(i as int) =~= line@);
    Ok((numeric, keys))
}

/// Parses the puzzle input: one code per line.
pub fn parse_input(input: &str) -> (r: Result<Vec<(usize, Vec<NumericKey>)>, String>)
    ensures
        r is Ok <==> all_codes(encode_utf8(input@)),
        r matches Ok(codes) ==> codes_view(codes@) == codes_of(encode_utf8(input@)),
{
    let bytes = input.as_bytes();
    let ls = split_lines(bytes);
    let ghost text = encode_utf8(input@);
    let mut codes: Vec<(usize, Vec<NumericKey>)> = Vec::new();
    let mut i: usize = 0;
    while i < ls.len()
        invariant
            text == encode_utf8(input@),
            views(ls@) == lines(text),
            0 <= i <= ls@.len(),
            codes@.len() == i,
            forall|j: int| 0 <= j < i ==> (#[trigger] code_of(lines(text)[j])) is Some,
            forall|j: int| 0 <= j < i ==> codes_view(codes@)[j] == code_of(lines(text)[j])->Some_0,
        decreases ls.len() - i,
    {
        assert(ls@[i as int]@ == lines(text)[i as int]);
        match parse_code(ls[i].as_slice()) {
            Ok(c) => {
                let ghost before = codes@;
                codes.push(c);
                assert forall|j: int| 0 <= j < i + 1 implies codes_view(codes@)[j] == code_of(
                    lines(text)[j],
                )->Some_0 by {
                    if j < i {
                        assert(codes@[j] == before[j]);
                        assert(codes_view(before)[j] == codes_view(codes@)[j]);
                    }
                }
            },
            Err(e) => {
                assert(code_of(lines(text)[i as int]) is None);
                assert(views(ls@).len() == ls@.len());
                assert(!all_codes(text));
                return Err(e);
            },
        }
        i = i + 1;
    }
    assert(codes_view(codes@) =~= codes_of(text));
    Ok(codes)
}

impl Day for Instance {
    /// Both answers: the total complexity with two directional keypads
    /// between the operator and the first robot's keypad, and with 25.
    fn run(&self, input: String) -> (r: Result<DayResult, String>)
        ensures
            r is Ok <==> all_codes(encode_utf8(input@)),
            r matches Ok(d) ==> d.reports(
                capped(total_complexity(codes_of(encode_utf8(input@)), 2)) as nat,
                capped(total_complexity(codes_of(encode_utf8(input@)), 25)) as nat,
            ),
    {
        let numeric_keys = parse_input(input.as_str())?;
        let part1 = usize_to_string(complexity(numeric_keys.as_slice(), 2));
        let part2 = Some(usize_to_string(complexity(numeric_keys.as_slice(), 25)));
        Ok(DayResult { part1, part2 })
    }
}

} // verus!
