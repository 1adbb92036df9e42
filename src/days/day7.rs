use vstd::prelude::*;
use vstd::slice::slice_subrange;
use vstd::utf8::encode_utf8;

use super::day::{Day, DayResult};
use super::text::{lines, number_of, parse_number, split_bytes, split_lines, split_on, usize_to_string, views};
use super::util::{capped, lemma_capped_add};

verus! {

/// Bridge repair: which equations some chain of operators makes true.
pub struct Instance;

/// A test value and the numbers that should combine into it.
pub struct Equation {
    pub answer: usize,
    pub numbers: Vec<usize>,
}

/// The smallest power of ten above `n` (10 for 0): shifting a number left by
/// that many digits makes room for `n`.
pub open spec fn digit_shift(n: nat) -> nat
    decreases n,
{
    if n < 10 {
        10
    } else {
        10 * digit_shift(n / 10)
    }
}

/// The digits of `a` followed by those of `n`.
pub open spec fn concat(a: nat, n: nat) -> nat {
    a * digit_shift(n) + n
}

/// Some chain of `+`, `*` and, with `with_concat`, `||`, applied left to right
/// from `acc` over `rest`, gives `target`.
pub open spec fn can_reach(rest: Seq<usize>, acc: nat, target: nat, with_concat: bool) -> bool
    decreases rest.len(),
{
    if rest.len() == 0 {
        acc == target
    } else {
        let n = rest[0] as nat;
        can_reach(rest.drop_first(), acc + n, target, with_concat) || can_reach(
            rest.drop_first(),
            acc * n,
            target,
            with_concat,
        ) || (with_concat && can_reach(rest.drop_first(), concat(acc, n), target, with_concat))
    }
}

impl Equation {
    /// The equation holds for some chain of operators.
    pub open spec fn solvable(&self, with_concat: bool) -> bool {
        can_reach(self.numbers@.drop_first(), self.numbers@[0] as nat, self.answer as nat, with_concat)
    }
}

/// From two values above the largest `usize`, the same targets are reached.
proof fn lemma_large_accumulators(
    rest: Seq<usize>,
    a: nat,
    b: nat,
    target: nat,
    with_concat: bool,
)
    requires
        a > usize::MAX,
        b > usize::MAX,
        target <= usize::MAX,
    ensures
        can_reach(rest, a, target, with_concat) == can_reach(rest, b, target, with_concat),
    decreases rest.len(),
{
    if rest.len() > 0 {
        let n = rest[0] as nat;
        let tail = rest.drop_first();
        lemma_large_accumulators(tail, a + n, b + n, target, with_concat);
        if n > 0 {
            assert(a * n >= a) by (nonlinear_arith)
                requires
                    n > 0,
            ;
            assert(b * n >= b) by (nonlinear_arith)
                requires
                    n > 0,
            ;
            lemma_large_accumulators(tail, a * n, b * n, target, with_concat);
        } else {
            assert(a * n == 0 && b * n == 0) by (nonlinear_arith)
                requires
                    n == 0,
            ;
        }
        lemma_digit_shift_positive(n);
        assert(a * digit_shift(n) >= a) by (nonlinear_arith)
            requires
                digit_shift(n) >= 1,
        ;
        assert(b * digit_shift(n) >= b) by (nonlinear_arith)
            requires
                digit_shift(n) >= 1,
        ;
        lemma_large_accumulators(tail, concat(a, n), concat(b, n), target, with_concat);
    }
}

proof fn lemma_digit_shift_positive(n: nat)
    ensures
        digit_shift(n) >= 10,
    decreases n,
{
    if n >= 10 {
        lemma_digit_shift_positive(n / 10);
    }
}

/// The room that `n` needs, as a power of ten.
fn shift_of(n: usize) -> (r: u128)
    ensures
        r == digit_shift(n as nat),
        r <= 10 * n + 10,
        n >= 1 ==> r <= 10 * n,
    decreases n,
{
    if n < 10 {
        10
    } else {
        let m = n / 10;
        let s = shift_of(m);
        assert(10 * m <= n);
        assert(10 * s <= 10 * n) by (nonlinear_arith)
            requires
                s <= 10 * m,
                10 * m <= n,
        ;
        10 * s
    }
}

/// The concatenation of `a` and `n`, where it fits.
fn concat_numbers(a: usize, n: usize) -> (r: Option<usize>)
    ensures
        r == if concat(a as nat, n as nat) <= usize::MAX {
            Some(concat(a as nat, n as nat) as usize)
        } else {
            None
        },
{
    let shift = shift_of(n);
    match (a as u128).checked_mul(shift) {
        None => None,
        Some(p) => match p.checked_add(n as u128) {
            None => None,
            Some(v) => if v <= usize::MAX as u128 {
                Some(v as usize)
            } else {
                None
            },
        },
    }
}

/// The value of an accumulator: `None` stands for any value above the largest
/// `usize`.
pub open spec fn reaches_from(rest: Seq<usize>, acc: Option<usize>, target: usize, with_concat: bool) -> bool {
    match acc {
        Some(v) => can_reach(rest, v as nat, target as nat, with_concat),
        None => can_reach(rest, usize::MAX as nat + 1, target as nat, with_concat),
    }
}

fn add_or_big(acc: Option<usize>, n: usize) -> (r: Option<usize>)
    ensures
        match acc {
            Some(v) => r == if v + n <= usize::MAX { Some((v + n) as usize) } else { None::<usize> },
            None => r is None,
        },
{
    match acc {
        Some(v) => v.checked_add(n),
        None => None,
    }
}

fn mul_or_big(acc: Option<usize>, n: usize) -> (r: Option<usize>)
    ensures
        match acc {
            Some(v) => r == if v * n <= usize::MAX { Some((v * n) as usize) } else { None::<usize> },
            None => r == if n == 0 { Some(0usize) } else { None::<usize> },
        },
{
    match acc {
        Some(v) => v.checked_mul(n),
        None => if n == 0 {
            Some(0)
        } else {
            None
        },
    }
}

fn concat_or_big(acc: Option<usize>, n: usize) -> (r: Option<usize>)
    ensures
        match acc {
            Some(v) => r == if concat(v as nat, n as nat) <= usize::MAX {
                Some(concat(v as nat, n as nat) as usize)
            } else {
                None::<usize>
            },
            None => r is None,
        },
{
    match acc {
        Some(v) => concat_numbers(v, n),
        None => None,
    }
}

/// Whether some chain of operators over `numbers[i..]`, from `acc`, gives
/// `target`.
fn reaches(numbers: &[usize], i: usize, acc: Option<usize>, target: usize, with_concat: bool) -> (r: bool)
    requires
        i <= numbers@.len(),
    ensures
        r == reaches_from(numbers@.skip(i as int), acc, target, with_concat),
    decreases numbers@.len() - i,
{
    let ghost rest = numbers@.skip(i as int);
    if i == numbers.len() {
        return match acc {
            Some(v) => v == target,
            None => false,
        };
    }
    let n = numbers[i];
    assert(rest[0] == n);
    assert(rest.drop_first() =~= numbers@.skip(i as int + 1));
    let ghost big = usize::MAX as nat + 1;
    let added = add_or_big(acc, n);
    let multiplied = mul_or_big(acc, n);
    let joined = concat_or_big(acc, n);
    proof {
        let tail = rest.drop_first();
        let a: nat = match acc {
            Some(v) => v as nat,
            None => big,
        };
        let nn = n as nat;
        if a + nn > usize::MAX {
            lemma_large_accumulators(tail, a + nn, big, target as nat, with_concat);
        }
        if a * nn > usize::MAX {
            lemma_large_accumulators(tail, a * nn, big, target as nat, with_concat);
        }
        if acc is None {
            if nn == 0 {
                assert(a * nn == 0);
            } else {
                assert(a * nn >= a) by (nonlinear_arith)
                    requires
                        nn >= 1,
                ;
            }
            lemma_digit_shift_positive(nn);
            assert(a * digit_shift(nn) >= a) by (nonlinear_arith)
                requires
                    digit_shift(nn) >= 10,
            ;
        }
        if concat(a, nn) > usize::MAX {
            lemma_large_accumulators(tail, concat(a, nn), big, target as nat, with_concat);
        }
        assert(reaches_from(tail, added, target, with_concat) == can_reach(tail, a + nn, target as nat, with_concat));
        assert(reaches_from(tail, multiplied, target, with_concat) == can_reach(tail, a * nn, target as nat, with_concat));
        assert(reaches_from(tail, joined, target, with_concat) == can_reach(tail, concat(a, nn), target as nat, with_concat));
        assert(reaches_from(rest, acc, target, with_concat) == can_reach(rest, a, target as nat, with_concat));
    }
    if reaches(numbers, i + 1, added, target, with_concat) {
        return true;
    }
    if reaches(numbers, i + 1, multiplied, target, with_concat) {
        return true;
    }
    with_concat && reaches(numbers, i + 1, joined, target, with_concat)
}

impl Equation {
    /// Whether some chain of `+`, `*` (and `||` with `with_concat`), applied
    /// left to right, gives the answer.
    pub fn solves(&self, with_concat: bool) -> (r: bool)
        requires
            self.numbers@.len() >= 1,
        ensures
            r == self.solvable(with_concat),
    {
        let r = reaches(self.numbers.as_slice(), 1, Some(self.numbers[0]), self.answer, with_concat);
        assert(self.numbers@.skip(1) =~= self.numbers@.drop_first());
        r
    }
}

/// The numbers written in `pieces`, skipping empty ones; `None` if a
/// non-empty piece is not a number.
pub open spec fn numbers_in(pieces: Seq<Seq<u8>>) -> Option<Seq<usize>>
    decreases pieces.len(),
{
    if pieces.len() == 0 {
        Some(Seq::empty())
    } else {
        match numbers_in(pieces.drop_last()) {
            None => None,
            Some(ns) => if pieces.last().len() == 0 {
                Some(ns)
            } else {
                match number_of(pieces.last()) {
                    Some(n) => Some(ns.push(n)),
                    None => None,
                }
            },
        }
    }
}

/// The numbers of a space-separated list.
pub open spec fn words_numbers(s: Seq<u8>) -> Option<Seq<usize>> {
    numbers_in(split_on(s, 32))
}

proof fn lemma_numbers_in_fails(pieces: Seq<Seq<u8>>, n: int)
    requires
        0 <= n <= pieces.len(),
        numbers_in(pieces.take(n)) is None,
    ensures
        numbers_in(pieces) is None,
    decreases pieces.len() - n,
{
    if n < pieces.len() {
        assert(pieces.take(n + 1).drop_last() =~= pieces.take(n));
        lemma_numbers_in_fails(pieces, n + 1);
    } else {
        assert(pieces.take(n) =~= pieces);
    }
}

/// Parses the space-separated numbers of `s`.
fn parse_words(s: &[u8]) -> (r: Option<Vec<usize>>)
    ensures
        r is Some <==> words_numbers(s@) is Some,
        r matches Some(v) ==> words_numbers(s@) == Some(v@),
{
    let pieces = split_bytes(s, 32);
    let ghost all = views(pieces@);
    let mut numbers: Vec<usize> = Vec::new();
    let mut i: usize = 0;
    assert(all.take(0) =~= Seq::<Seq<u8>>::empty());
    while i < pieces.len()
        invariant
            all == views(pieces@),
            all == split_on(s@, 32),
            0 <= i <= pieces@.len(),
            numbers_in(all.take(i as int)) == Some(numbers@),
        decreases pieces.len() - i,
    {
        assert(all.take(i as int + 1).drop_last() =~= all.take(i as int));
        assert(pieces@[i as int]@ == all[i as int]);
        if pieces[i].len() > 0 {
            match parse_number(pieces[i].as_slice()) {
                Some(n) => {
                    numbers.push(n);
                },
                None => {
                    proof { lemma_numbers_in_fails(all, i as int + 1); }
                    return None;
                },
            }
        }
        i = i + 1;
    }
    assert(all.take(i as int) =~= all);
    Some(numbers)
}

/// An equation line: `answer: n1 n2 ...`, split at the first `": "`.
pub open spec fn colon_at(s: Seq<u8>, k: int) -> bool {
    0 <= k && k + 1 < s.len() && s[k] == 58 && s[k + 1] == 32
}

/// Where the first `": "` at or after `k` starts, if anywhere.
pub open spec fn colon_from(s: Seq<u8>, k: int) -> Option<int>
    decreases s.len() - k,
{
    if k < 0 || k + 1 >= s.len() {
        None
    } else if colon_at(s, k) {
        Some(k)
    } else {
        colon_from(s, k + 1)
    }
}

/// Where the first `": "` starts, if anywhere.
pub open spec fn first_colon(s: Seq<u8>) -> Option<int> {
    colon_from(s, 0)
}

/// What an equation line holds, if it is well formed: the number before the
/// first `": "`, and the numbers after it.
pub open spec fn equation_of(s: Seq<u8>) -> Option<(usize, Seq<usize>)> {
    match first_colon(s) {
        None => None,
        Some(k) => match number_of(s.take(k)) {
            None => None,
            Some(a) => match words_numbers(s.skip(k + 2)) {
                None => None,
                Some(ns) => Some((a, ns)),
            },
        },
    }
}

/// Finds the first `": "`.
fn find_colon(s: &[u8]) -> (r: Option<usize>)
    ensures
        r matches Some(k) ==> first_colon(s@) == Some(k as int) && colon_at(s@, k as int),
        r is None ==> first_colon(s@) is None,
{
    let mut k: usize = 0;
    while s.len() >= 2 && k < s.len() - 1
        invariant
            0 <= k,
            first_colon(s@) == colon_from(s@, k as int),
        decreases s.len() - k,
    {
        if s[k] == 58 && s[k + 1] == 32 {
            return Some(k);
        }
        k = k + 1;
    }
    None
}

impl Equation {
    /// Parses `answer: n1 n2 ...`.
    pub fn parse(s: &[u8]) -> (r: Result<Equation, String>)
        ensures
            r is Ok <==> equation_of(s@) is Some,
            r matches Ok(e) ==> equation_of(s@) == Some((e.answer, e.numbers@)),
    {
        let k = match find_colon(s) {
            Some(k) => k,
            None => {
                return Err("missing ': '".to_owned());
            },
        };
        assert(colon_at(s@, k as int));
        let len = s.len();
        assert(k + 2 <= len);
        let after = slice_subrange(s, k + 2, len);
        assert(after@ =~= s@.skip(k as int + 2));
        let numbers = match parse_words(after) {
            Some(v) => v,
            None => {
                return Err("bad number format".to_owned());
            },
        };
        let before = slice_subrange(s, 0, k);
        assert(before@ =~= s@.take(k as int));
        let answer = match parse_number(before) {
            Some(a) => a,
            None => {
                return Err("bad answer format".to_owned());
            },
        };
        Ok(Equation { answer, numbers })
    }
}

impl std::str::FromStr for Equation {
    type Err = String;

    fn from_str(s: &str) -> (r: Result<Self, Self::Err>)
        ensures
            r is Ok <==> equation_of(encode_utf8(s@)) is Some,
            r matches Ok(e) ==> equation_of(encode_utf8(s@)) == Some((e.answer, e.numbers@)),
    {
        Equation::parse(s.as_bytes())
    }
}

/// A parsed line that holds at least one number.
pub open spec fn line_ok(e: Option<(usize, Seq<usize>)>) -> bool {
    e matches Some(e) && e.1.len() >= 1
}

/// Every line is an equation with at least one number.
pub open spec fn equations_of(text: Seq<u8>) -> Option<Seq<(usize, Seq<usize>)>> {
    if forall|i: int| 0 <= i < lines(text).len() ==> line_ok(#[trigger] equation_of(lines(text)[i])) {
        Some(Seq::new(lines(text).len(), |i: int| equation_of(lines(text)[i])->Some_0))
    } else {
        None
    }
}

/// The sum of the answers of the equations that some chain of operators makes
/// true.
pub open spec fn calibration(eqs: Seq<(usize, Seq<usize>)>, with_concat: bool) -> nat
    decreases eqs.len(),
{
    if eqs.len() == 0 {
        0
    } else {
        let e = eqs.last();
        calibration(eqs.drop_last(), with_concat) + if can_reach(e.1.drop_first(), e.1[0] as nat, e.0 as nat, with_concat) {
            e.0 as nat
        } else {
            0
        }
    }
}

/// The calibration total of parsed equations.
fn total_calibration(eqs: &Vec<Equation>, with_concat: bool) -> (r: usize)
    requires
        forall|i: int| 0 <= i < eqs@.len() ==> (#[trigger] eqs@[i]).numbers@.len() >= 1,
    ensures
        r == capped(calibration(Seq::new(eqs@.len(), |i: int| (eqs@[i].answer, eqs@[i].numbers@)), with_concat)),
{
    let ghost all = Seq::new(eqs@.len(), |i: int| (eqs@[i].answer, eqs@[i].numbers@));
    let mut sum: usize = 0;
    let mut i: usize = 0;
    while i < eqs.len()
        invariant
            all == Seq::new(eqs@.len(), |i: int| (eqs@[i].answer, eqs@[i].numbers@)),
            forall|i: int| 0 <= i < eqs@.len() ==> (#[trigger] eqs@[i]).numbers@.len() >= 1,
            0 <= i <= eqs@.len(),
            sum == capped(calibration(all.take(i as int), with_concat)),
        decreases eqs.len() - i,
    {
        assert(all.take(i as int + 1).drop_last() =~= all.take(i as int));
        assert(eqs@[i as int].numbers@.len() >= 1);
        let add = if eqs[i].solves(with_concat) { eqs[i].answer } else { 0 };
        proof {
            lemma_capped_add(calibration(all.take(i as int), with_concat), add as nat);
        }
        sum = sum.saturating_add(add);
        i = i + 1;
    }
    assert(all.take(i as int) =~= all);
    sum
}

impl Day for Instance {
    /// The calibration totals with `+` and `*`, and with `||` as well.
    fn run(&self, input: String) -> (r: Result<DayResult, String>)
        ensures
            r is Ok <==> equations_of(encode_utf8(input@)) is Some,
            r matches Ok(d) ==> d.reports(
                capped(calibration(equations_of(encode_utf8(input@))->Some_0, false)) as nat,
                capped(calibration(equations_of(encode_utf8(input@))->Some_0, true)) as nat,
            ),
    {
        let ls = split_lines(input.as_str().as_bytes());
        let ghost text = encode_utf8(input@);
        let mut eqs: Vec<Equation> = Vec::new();
        let mut i: usize = 0;
        while i < ls.len()
            invariant
                text == encode_utf8(input@),
                views(ls@) == lines(text),
                0 <= i <= ls@.len(),
                eqs@.len() == i,
                forall|j: int| 0 <= j < i ==> (#[trigger] equation_of(lines(text)[j])) == Some((eqs@[j].answer, eqs@[j].numbers@)),
                forall|j: int| 0 <= j < i ==> (#[trigger] eqs@[j]).numbers@.len() >= 1,
            decreases ls.len() - i,
        {
            assert(ls@[i as int]@ == lines(text)[i as int]);
            assert(views(ls@).len() == ls@.len());
            match Equation::parse(ls[i].as_slice()) {
                Ok(e) => {
                    if e.numbers.len() == 0 {
                        return Err("equation without numbers".to_owned());
                    }
                    eqs.push(e);
                },
                Err(msg) => {
                    return Err(msg);
                },
            }
            i = i + 1;
        }
        assert(views(ls@).len() == ls@.len());
        assert(Seq::new(lines(text).len(), |j: int| equation_of(lines(text)[j])->Some_0) =~= Seq::new(eqs@.len(), |j: int| (eqs@[j].answer, eqs@[j].numbers@)));
        let part1 = usize_to_string(total_calibration(&eqs, false));
        let part2 = Some(usize_to_string(total_calibration(&eqs, true)));
        Ok(DayResult { part1, part2 })
    }
}

} // verus!
