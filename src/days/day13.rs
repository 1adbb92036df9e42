use vstd::prelude::*;
use vstd::slice::slice_subrange;
use vstd::utf8::encode_utf8;

use super::day::{Day, DayResult};
use super::text::{find_from, groups, lines, number_of, occurrence_from, parse_number, split_bytes, split_groups, split_lines, split_on, usize_to_string, views};
use super::util::{capped, lemma_capped_add};

verus! {

/// Claw contraption: the cheapest presses of two buttons that reach a prize.
pub struct Instance;

/// How far each button moves the claw, and where the prize is.
pub struct ClawMachine {
    pub button_a: (i64, i64),
    pub button_b: (i64, i64),
    pub prize: (i64, i64),
}

/// How far the prize moves on recalibration, in each axis.
pub const PRIZE_SHIFT: i64 = 10000000000000;

/// Button moves up to 2^20 and prizes up to 2^50 in absolute value.
pub open spec fn in_range(m: ClawMachine) -> bool {
    &&& -0x100000 <= m.button_a.0 <= 0x100000
    &&& -0x100000 <= m.button_a.1 <= 0x100000
    &&& -0x100000 <= m.button_b.0 <= 0x100000
    &&& -0x100000 <= m.button_b.1 <= 0x100000
    &&& -0x4000000000000 <= m.prize.0 <= 0x4000000000000
    &&& -0x4000000000000 <= m.prize.1 <= 0x4000000000000
}

/// The two buttons move the claw in independent directions, and A moves it
/// sideways.
pub open spec fn solvable_shape(m: ClawMachine) -> bool {
    &&& m.button_a.0 * m.button_b.1 - m.button_a.1 * m.button_b.0 != 0
    &&& m.button_a.0 != 0
}

/// `a` presses of A and `b` of B take the claw to the prize.
pub open spec fn reaches(m: ClawMachine, a: int, b: int) -> bool {
    &&& a * m.button_a.0 + b * m.button_b.0 == m.prize.0
    &&& a * m.button_a.1 + b * m.button_b.1 == m.prize.1
}

/// Some numbers of presses, neither negative, take the claw to the prize.
pub open spec fn winnable(m: ClawMachine) -> bool {
    exists|a: int, b: int| a >= 0 && b >= 0 && #[trigger] reaches(m, a, b)
}

/// The tokens that `a` presses of A (3 each) and `b` of B (1 each) cost.
pub open spec fn tokens(a: int, b: int) -> nat {
    (3 * a + b) as nat
}

/// With independent buttons, a solution fixes the presses of B.
proof fn lemma_solution_b(m: ClawMachine, a: int, b: int)
    requires
        reaches(m, a, b),
    ensures
        b * (m.button_a.0 * m.button_b.1 - m.button_a.1 * m.button_b.0) == m.button_a.0 * m.prize.1
            - m.button_a.1 * m.prize.0,
{
    let (ax, ay) = (m.button_a.0 as int, m.button_a.1 as int);
    let (bx, by) = (m.button_b.0 as int, m.button_b.1 as int);
    let (px, py) = (m.prize.0 as int, m.prize.1 as int);
    assert(b * (ax * by - ay * bx) == ax * py - ay * px) by (nonlinear_arith)
        requires
            a * ax + b * bx == px,
            a * ay + b * by == py,
    ;
}

/// With independent buttons, the presses of B and the first axis fix the
/// second axis.
proof fn lemma_second_axis(m: ClawMachine, a: int, b: int)
    requires
        a * m.button_a.0 + b * m.button_b.0 == m.prize.0,
        b * (m.button_a.0 * m.button_b.1 - m.button_a.1 * m.button_b.0) == m.button_a.0 * m.prize.1
            - m.button_a.1 * m.prize.0,
        m.button_a.0 != 0,
    ensures
        reaches(m, a, b),
{
    let (ax, ay) = (m.button_a.0 as int, m.button_a.1 as int);
    let (bx, by) = (m.button_b.0 as int, m.button_b.1 as int);
    let (px, py) = (m.prize.0 as int, m.prize.1 as int);
    assert(ax * (a * ay + b * by) == ax * py) by (nonlinear_arith)
        requires
            a * ax + b * bx == px,
            b * (ax * by - ay * bx) == ax * py - ay * px,
    ;
    assert(a * ay + b * by == py) by (nonlinear_arith)
        requires
            ax * (a * ay + b * by) == ax * py,
            ax != 0,
    ;
}

proof fn lemma_exact_division(x: int, d: int, q: int)
    requires
        d > 0,
        x == q * d,
    ensures
        x % d == 0,
        x / d == q,
{
    vstd::arithmetic::div_mod::lemma_fundamental_div_mod_converse(x, d, q, 0);
}

/// With independent buttons, at most one pair of press counts reaches the
/// prize.
proof fn lemma_unique(m: ClawMachine, a1: int, b1: int, a2: int, b2: int)
    requires
        solvable_shape(m),
        reaches(m, a1, b1),
        reaches(m, a2, b2),
    ensures
        a1 == a2 && b1 == b2,
{
    lemma_solution_b(m, a1, b1);
    lemma_solution_b(m, a2, b2);
    let d = m.button_a.0 * m.button_b.1 - m.button_a.1 * m.button_b.0;
    assert(b1 == b2) by (nonlinear_arith)
        requires
            b1 * d == b2 * d,
            d != 0,
    ;
    let ax = m.button_a.0 as int;
    assert(a1 == a2) by (nonlinear_arith)
        requires
            a1 * ax == a2 * ax,
            ax != 0,
    ;
}

/// The tokens the winning presses cost (the presses are unique where the
/// buttons are independent).
pub open spec fn prize_tokens(m: ClawMachine) -> nat {
    let (a, b) = choose|a: int, b: int| a >= 0 && b >= 0 && #[trigger] reaches(m, a, b);
    tokens(a, b)
}

/// What a machine costs to win: its prize tokens, or nothing where no presses
/// reach the prize.
pub open spec fn cost_to_win(m: ClawMachine) -> nat {
    if winnable(m) {
        prize_tokens(m)
    } else {
        0
    }
}

impl ClawMachine {
    /// The fewest tokens that win the prize, or `None` where no presses
    /// reach it.
    pub fn min_tokens(&self) -> (r: Option<usize>)
        requires
            in_range(*self),
            solvable_shape(*self),
        ensures
            r == if winnable(*self) {
                Some(capped(prize_tokens(*self)))
            } else {
                None::<usize>
            },
    {
        let ax = self.button_a.0 as i128;
        let ay = self.button_a.1 as i128;
        let bx = self.button_b.0 as i128;
        let by = self.button_b.1 as i128;
        let px = self.prize.0 as i128;
        let py = self.prize.1 as i128;
        assert(-0x10000000000 <= ax * by <= 0x10000000000) by (nonlinear_arith)
            requires
                -0x100000 <= ax <= 0x100000,
                -0x100000 <= by <= 0x100000,
        ;
        assert(-0x10000000000 <= ay * bx <= 0x10000000000) by (nonlinear_arith)
            requires
                -0x100000 <= ay <= 0x100000,
                -0x100000 <= bx <= 0x100000,
        ;
        assert(-0x400000000000000000 <= ax * py <= 0x400000000000000000) by (nonlinear_arith)
            requires
                -0x100000 <= ax <= 0x100000,
                -0x4000000000000 <= py <= 0x4000000000000,
        ;
        assert(-0x400000000000000000 <= ay * px <= 0x400000000000000000) by (nonlinear_arith)
            requires
                -0x100000 <= ay <= 0x100000,
                -0x4000000000000 <= px <= 0x4000000000000,
        ;
        let l0 = ax * py - ay * px;
        let r0 = ax * by - ay * bx;
        // Divide by a positive determinant.
        let l = if r0 < 0 { -l0 } else { l0 };
        let r = if r0 < 0 { -r0 } else { r0 };
        assert(forall|b: int| b * r0 == l0 <==> #[trigger] (b * r) == l) by {
            assert forall|b: int| b * r0 == l0 <==> #[trigger] (b * r) == l by {
                if r0 < 0 {
                    assert(b * r == -(b * r0)) by (nonlinear_arith)
                        requires
                            r == -r0,
                    ;
                }
            }
        }
        if l < 0 {
            proof {
                if winnable(*self) {
                    let (a2, b2) = choose|a: int, b: int| a >= 0 && b >= 0 && #[trigger] reaches(*self, a, b);
                    lemma_solution_b(*self, a2, b2);
                    assert(b2 * r == l);
                    assert(b2 * r >= 0) by (nonlinear_arith)
                        requires
                            b2 >= 0,
                            r > 0,
                    ;
                }
            }
            return None;
        }
        let lu = l as u128;
        let ru = r as u128;
        if lu % ru != 0 {
            proof {
                if winnable(*self) {
                    let (a2, b2) = choose|a: int, b: int| a >= 0 && b >= 0 && #[trigger] reaches(*self, a, b);
                    lemma_solution_b(*self, a2, b2);
                    assert(b2 * r == l);
                    lemma_exact_division(l as int, r as int, b2);
                }
            }
            return None;
        }
        let b = (lu / ru) as i128;
        proof {
            vstd::arithmetic::div_mod::lemma_fundamental_div_mod(l as int, r as int);
            assert(lu / ru <= lu) by (nonlinear_arith)
                requires
                    ru >= 1,
            ;
        }
        assert(lu as int == l as int && ru as int == r as int);
        assert(b as int == (l as int) / (r as int));
        assert((l as int) % (r as int) == 0);
        assert(b * r == l) by (nonlinear_arith)
            requires
                l == r * (l / r) + l % r,
                l % r == 0,
                b == l / r,
        ;
        assert(0 <= b <= 0x800000000000000000);
        assert(-0x80000000000000000000000000 <= b * bx <= 0x80000000000000000000000000) by (nonlinear_arith)
            requires
                0 <= b <= 0x800000000000000000,
                -0x100000 <= bx <= 0x100000,
        ;
        let rem0 = px - b * bx;
        let rem = if ax < 0 { -rem0 } else { rem0 };
        let axp = if ax < 0 { -ax } else { ax };
        assert(forall|a: int| a * ax == rem0 <==> #[trigger] (a * axp) == rem) by {
            assert forall|a: int| a * ax == rem0 <==> #[trigger] (a * axp) == rem by {
                if ax < 0 {
                    assert(a * axp == -(a * ax)) by (nonlinear_arith)
                        requires
                            axp == -ax,
                    ;
                }
            }
        }
        if rem < 0 || (rem as u128) % (axp as u128) != 0 {
            proof {
                if winnable(*self) {
                    let (a2, b2) = choose|a: int, b: int| a >= 0 && b >= 0 && #[trigger] reaches(*self, a, b);
                    lemma_solution_b(*self, a2, b2);
                    assert(b2 * r == l);
                    lemma_exact_division(l as int, r as int, b2);
                    assert(a2 * ax == rem0);
                    assert(a2 * axp == rem);
                    assert(a2 * axp >= 0) by (nonlinear_arith)
                        requires
                            a2 >= 0,
                            axp > 0,
                    ;
                    lemma_exact_division(rem as int, axp as int, a2);
                }
            }
            return None;
        }
        let a = ((rem as u128) / (axp as u128)) as i128;
        proof {
            vstd::arithmetic::div_mod::lemma_fundamental_div_mod(rem as int, axp as int);
            assert((rem as u128) / (axp as u128) <= rem as u128) by (nonlinear_arith)
                requires
                    axp >= 1,
            ;
        }
        assert(a as int == (rem as int) / (axp as int));
        assert((rem as int) % (axp as int) == 0);
        assert(a * axp == rem) by (nonlinear_arith)
            requires
                rem == axp * (rem / axp) + rem % axp,
                rem % axp == 0,
                a == rem / axp,
        ;
        assert(a * ax == rem0);
        proof {
            lemma_second_axis(*self, a as int, b as int);
        }
        proof {
            let (a2, b2) = choose|a: int, b: int| a >= 0 && b >= 0 && #[trigger] reaches(*self, a, b);
            assert(reaches(*self, a as int, b as int));
            lemma_unique(*self, a as int, b as int, a2, b2);
        }
        let t = 3 * a + b;
        let tokens_used: usize = if t > usize::MAX as i128 {
            usize::MAX
        } else {
            t as usize
        };
        Some(tokens_used)
    }

    /// Moves the prize by `PRIZE_SHIFT` in both axes.
    pub fn recalibrate(&mut self)
        requires
            old(self).prize.0 <= i64::MAX - PRIZE_SHIFT,
            old(self).prize.1 <= i64::MAX - PRIZE_SHIFT,
        ensures
            final(self).button_a == old(self).button_a,
            final(self).button_b == old(self).button_b,
            final(self).prize == (
                (old(self).prize.0 + PRIZE_SHIFT) as i64,
                (old(self).prize.1 + PRIZE_SHIFT) as i64,
            ),
    {
        self.prize.0 = self.prize.0 + PRIZE_SHIFT;
        self.prize.1 = self.prize.1 + PRIZE_SHIFT;
    }
}

/// The pieces before the first `", "` and between it and the next one (or the
/// end).
pub open spec fn first_two(s: Seq<u8>) -> Option<(Seq<u8>, Seq<u8>)> {
    match occurrence_from(s, seq![44u8, 32], 0) {
        None => None,
        Some(k) => {
            let end = match occurrence_from(s, seq![44u8, 32], k + 2) {
                Some(e) => e,
                None => s.len() as int,
            };
            Some((s.take(k), s.subrange(k + 2, end)))
        },
    }
}

/// The number after the first `c` in `s`, up to the next `c`.
pub open spec fn value_after(s: Seq<u8>, c: u8) -> Option<i64> {
    let parts = split_on(s, c);
    if parts.len() >= 2 {
        match number_of(parts[1]) {
            Some(n) => if n <= i64::MAX {
                Some(n as i64)
            } else {
                None
            },
            None => None,
        }
    } else {
        None
    }
}

/// A line `..X<c>x, Y<c>y`.
pub open spec fn coordinates_of(s: Seq<u8>, c: u8) -> Option<(i64, i64)> {
    match first_two(s) {
        None => None,
        Some((xs, ys)) => match (value_after(xs, c), value_after(ys, c)) {
            (Some(x), Some(y)) => Some((x, y)),
            _ => None,
        },
    }
}

proof fn lemma_occurrence_bounds(s: Seq<u8>, p: Seq<u8>, k: int)
    requires
        occurrence_from(s, p, k) is Some,
    ensures
        k <= occurrence_from(s, p, k)->Some_0,
        occurrence_from(s, p, k)->Some_0 + p.len() <= s.len(),
    decreases s.len() - k,
{
    if !(k < 0 || k + p.len() > s.len()) && !(0 <= k && k + p.len() <= s.len() && s.subrange(
        k,
        k + p.len(),
    ) == p) && k < s.len() {
        lemma_occurrence_bounds(s, p, k + 1);
    }
}

/// Splits at the first two `", "`.
fn split_first_two(s: &[u8]) -> (r: Option<(&[u8], &[u8])>)
    ensures
        r is Some <==> first_two(s@) is Some,
        r matches Some(p) ==> first_two(s@) == Some((p.0@, p.1@)),
{
    let sep: Vec<u8> = vec![44u8, 32];
    assert(sep@ =~= seq![44u8, 32]);
    let k = match find_from(s, sep.as_slice(), 0) {
        Some(k) => k,
        None => {
            return None;
        },
    };
    proof {
        lemma_occurrence_bounds(s@, sep@, 0);
    }
    let n = s.len();
    assert(k + 2 <= n);
    let end = match find_from(s, sep.as_slice(), k + 2) {
        Some(e) => e,
        None => n,
    };
    proof {
        if occurrence_from(s@, sep@, k + 2) is Some {
            lemma_occurrence_bounds(s@, sep@, k as int + 2);
        }
    }
    let first = slice_subrange(s, 0, k);
    let second = slice_subrange(s, k + 2, end);
    assert(first@ =~= s@.take(k as int));
    Some((first, second))
}

/// The number after the first `c`, up to the next one.
fn parse_value_after(s: &[u8], c: u8) -> (r: Option<i64>)
    ensures
        r == value_after(s@, c),
{
    let parts = split_bytes(s, c);
    assert(views(parts@).len() == parts@.len());
    if parts.len() < 2 {
        return None;
    }
    assert(parts@[1]@ == split_on(s@, c)[1]);
    match parse_number(parts[1].as_slice()) {
        Some(n) => if n as u128 <= 9223372036854775807u128 {
            Some(n as i64)
        } else {
            None
        },
        None => None,
    }
}

/// Parses `..X<c>x, Y<c>y`.
fn parse_coordinates(s: &[u8], c: u8) -> (r: Option<(i64, i64)>)
    ensures
        r == coordinates_of(s@, c),
{
    match split_first_two(s) {
        None => None,
        Some((xs, ys)) => {
            let x = parse_value_after(xs, c);
            let y = parse_value_after(ys, c);
            match (x, y) {
                (Some(x), Some(y)) => Some((x, y)),
                _ => None,
            }
        },
    }
}

/// Parses `Button A: X+ax, Y+ay`.
pub fn parse_button(s: &[u8]) -> (r: Result<(i64, i64), String>)
    ensures
        r is Ok <==> coordinates_of(s@, 43) is Some,
        r matches Ok(v) ==> coordinates_of(s@, 43) == Some(v),
{
    match parse_coordinates(s, 43) {
        Some(v) => Ok(v),
        None => Err("failed to parse button".to_owned()),
    }
}

/// Parses `Prize: X=px, Y=py`.
pub fn parse_prize(s: &[u8]) -> (r: Result<(i64, i64), String>)
    ensures
        r is Ok <==> coordinates_of(s@, 61) is Some,
        r matches Ok(v) ==> coordinates_of(s@, 61) == Some(v),
{
    match parse_coordinates(s, 61) {
        Some(v) => Ok(v),
        None => Err("failed to parse prize".to_owned()),
    }
}

/// A machine: its two buttons and its prize on the first three lines.
pub open spec fn machine_of(block: Seq<Seq<u8>>) -> Option<ClawMachine> {
    if block.len() < 3 {
        None
    } else {
        match (coordinates_of(block[0], 43), coordinates_of(block[1], 43), coordinates_of(block[2], 61)) {
            (Some(a), Some(b), Some(p)) => Some(ClawMachine { button_a: a, button_b: b, prize: p }),
            _ => None,
        }
    }
}

impl ClawMachine {
    /// Parses a machine from its lines.
    pub fn parse(block: &[Vec<u8>]) -> (r: Result<ClawMachine, String>)
        ensures
            r is Ok <==> machine_of(views(block@)) is Some,
            r matches Ok(m) ==> machine_of(views(block@)) == Some(m),
    {
        if block.len() < 3 {
            return Err("missing button_a".to_owned());
        }
        assert(block@[0]@ == views(block@)[0]);
        assert(block@[1]@ == views(block@)[1]);
        assert(block@[2]@ == views(block@)[2]);
        let button_a = parse_button(block[0].as_slice())?;
        let button_b = parse_button(block[1].as_slice())?;
        let prize = parse_prize(block[2].as_slice())?;
        Ok(ClawMachine { button_a, button_b, prize })
    }
}

/// The machines of the input, one per group of lines.
pub open spec fn machines_of(text: Seq<u8>) -> Option<Seq<ClawMachine>> {
    let gs = groups(lines(text));
    if forall|i: int| 0 <= i < gs.len() ==> (#[trigger] machine_of(gs[i])) is Some {
        Some(Seq::new(gs.len(), |i: int| machine_of(gs[i])->Some_0))
    } else {
        None
    }
}

/// A machine this solver handles, before and after recalibration.
pub open spec fn supported(m: ClawMachine) -> bool {
    &&& in_range(m)
    &&& solvable_shape(m)
    &&& in_range(recalibrated(m))
}

pub open spec fn recalibrated(m: ClawMachine) -> ClawMachine {
    ClawMachine {
        button_a: m.button_a,
        button_b: m.button_b,
        prize: ((m.prize.0 + PRIZE_SHIFT) as i64, (m.prize.1 + PRIZE_SHIFT) as i64),
    }
}

/// The tokens to win every prize that can be won.
pub open spec fn total_cost(ms: Seq<ClawMachine>) -> nat
    decreases ms.len(),
{
    if ms.len() == 0 {
        0
    } else {
        total_cost(ms.drop_last()) + cost_to_win(ms.last())
    }
}

/// Sums what the machines cost to win.
fn sum_costs(machines: &Vec<ClawMachine>) -> (r: usize)
    requires
        forall|i: int| 0 <= i < machines@.len() ==> in_range(#[trigger] machines@[i]) && solvable_shape(machines@[i]),
    ensures
        r == capped(total_cost(machines@)),
{
    let mut sum: usize = 0;
    let mut i: usize = 0;
    while i < machines.len()
        invariant
            forall|i: int| 0 <= i < machines@.len() ==> in_range(#[trigger] machines@[i]) && solvable_shape(machines@[i]),
            0 <= i <= machines@.len(),
            sum == capped(total_cost(machines@.take(i as int))),
        decreases machines.len() - i,
    {
        assert(machines@.take(i as int + 1).drop_last() =~= machines@.take(i as int));
        assert(in_range(machines@[i as int]));
        let add = match machines[i].min_tokens() {
            Some(t) => t,
            None => 0,
        };
        proof {
            lemma_capped_add(total_cost(machines@.take(i as int)), cost_to_win(machines@[i as int]));
        }
        sum = sum.saturating_add(add);
        i = i + 1;
    }
    assert(machines@.take(i as int) =~= machines@);
    sum
}

impl Day for Instance {
    /// The tokens to win every winnable prize, before and after the prizes
    /// move by `PRIZE_SHIFT`.
    fn run(&self, input: String) -> (r: Result<DayResult, String>)
        ensures
            r is Ok <==> (machines_of(encode_utf8(input@)) matches Some(ms) && forall|i: int|
                0 <= i < ms.len() ==> supported(#[trigger] ms[i])),
            r matches Ok(d) ==> {
                let ms = machines_of(encode_utf8(input@))->Some_0;
                d.reports(
                    capped(total_cost(ms)) as nat,
                    capped(total_cost(Seq::new(ms.len(), |i: int| recalibrated(ms[i])))) as nat,
                )
            },
    {
        let ls = split_lines(input.as_str().as_bytes());
        let ghost text = encode_utf8(input@);
        let gs = split_groups(&ls);
        let ghost gv = groups(lines(text));
        let mut machines: Vec<ClawMachine> = Vec::new();
        let mut i: usize = 0;
        while i < gs.len()
            invariant
                text == encode_utf8(input@),
                gv == groups(lines(text)),
                gs@.len() == gv.len(),
                forall|j: int| 0 <= j < gs@.len() ==> views(#[trigger] gs@[j]@) == gv[j],
                0 <= i <= gs@.len(),
                machines@.len() == i,
                forall|j: int| 0 <= j < i ==> #[trigger] machine_of(gv[j]) == Some(machines@[j]),
                forall|j: int| 0 <= j < i ==> supported(#[trigger] machines@[j]),
            decreases gs.len() - i,
        {
            assert(views(gs@[i as int]@) == gv[i as int]);
            let m = ClawMachine::parse(gs[i].as_slice())?;
            if !machine_supported(&m) {
                proof {
                    assert(machine_of(gv[i as int]) == Some(m));
                    if machines_of(text) is Some {
                        assert(machines_of(text)->Some_0[i as int] == m);
                    }
                }
                return Err("machine outside the supported range".to_owned());
            }
            machines.push(m);
            i = i + 1;
        }
        let ghost ms = machines@;
        assert(Seq::new(gv.len(), |j: int| machine_of(gv[j])->Some_0) =~= ms);
        let part1 = usize_to_string(sum_costs(&machines));
        let mut k: usize = 0;
        while k < machines.len()
            invariant
                machines@.len() == ms.len(),
                0 <= k <= machines@.len(),
                forall|j: int| 0 <= j < ms.len() ==> supported(#[trigger] ms[j]),
                forall|j: int| 0 <= j < k ==> #[trigger] machines@[j] == recalibrated(ms[j]),
                forall|j: int| k <= j < machines@.len() ==> #[trigger] machines@[j] == ms[j],
            decreases machines.len() - k,
        {
            let mut m = machines.remove(k);
            assert(m == ms[k as int]);
            assert(supported(m));
            m.recalibrate();
            machines.insert(k, m);
            k = k + 1;
        }
        assert(machines@ =~= Seq::new(ms.len(), |j: int| recalibrated(ms[j])));
        assert forall|j: int| 0 <= j < machines@.len() implies in_range(#[trigger] machines@[j]) && solvable_shape(machines@[j]) by {
            assert(supported(ms[j]));
        }
        let part2 = Some(usize_to_string(sum_costs(&machines)));
        Ok(DayResult { part1, part2 })
    }
}

/// Whether `-bound <= v <= bound`.
fn within(v: i64, bound: i64) -> (r: bool)
    requires
        bound >= 0,
    ensures
        r == (-bound <= v <= bound),
{
    -bound <= v && v <= bound
}

/// Whether the machine is one this solver handles.
fn machine_supported(m: &ClawMachine) -> (r: bool)
    ensures
        r == supported(*m),
{
    let buttons = within(m.button_a.0, 0x100000) && within(m.button_a.1, 0x100000) && within(m.button_b.0, 0x100000) && within(m.button_b.1, 0x100000);
    let prizes = within(m.prize.0, 0x4000000000000) && within(m.prize.1, 0x4000000000000);
    if !(buttons && prizes) {
        return false;
    }
    let moved = within(m.prize.0 + PRIZE_SHIFT, 0x4000000000000) && within(
        m.prize.1 + PRIZE_SHIFT,
        0x4000000000000,
    );
    let ax = m.button_a.0 as i128;
    let ay = m.button_a.1 as i128;
    let bx = m.button_b.0 as i128;
    let by = m.button_b.1 as i128;
    assert(-0x10000000000 <= ax * by <= 0x10000000000) by (nonlinear_arith)
        requires
            -0x100000 <= ax <= 0x100000,
            -0x100000 <= by <= 0x100000,
    ;
    assert(-0x10000000000 <= ay * bx <= 0x10000000000) by (nonlinear_arith)
        requires
            -0x100000 <= ay <= 0x100000,
            -0x100000 <= bx <= 0x100000,
    ;
    moved && ax * by - ay * bx != 0 && ax != 0
}

} // verus!
