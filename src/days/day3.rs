use vstd::prelude::*;
use vstd::slice::slice_subrange;
use vstd::utf8::encode_utf8;

use super::day::{Day, DayResult};
use super::text::{is_digit, number_of, parse_number, usize_to_string};
use super::util::{capped, lemma_capped_add, saturating_product};

verus! {

/// Corrupted memory: summing the intact `mul(a,b)` instructions.
pub struct Instance;

/// The program text, as written.
pub struct CorruptedCode {
    pub line: String,
}

pub open spec fn dont_pattern() -> Seq<u8> {
    seq![100u8, 111, 110, 39, 116, 40, 41]
}

pub open spec fn do_pattern() -> Seq<u8> {
    seq![100u8, 111, 40, 41]
}

pub open spec fn mul_pattern() -> Seq<u8> {
    seq![109u8, 117, 108, 40]
}

pub open spec fn comma_pattern() -> Seq<u8> {
    seq![44u8]
}

pub open spec fn close_pattern() -> Seq<u8> {
    seq![41u8]
}

pub open spec fn starts_with(s: Seq<u8>, p: Seq<u8>) -> bool {
    p.len() <= s.len() && s.take(p.len() as int) == p
}

/// The number of leading digits of `s`.
pub open spec fn digit_run(s: Seq<u8>) -> nat
    decreases s.len(),
{
    if s.len() > 0 && is_digit(s[0]) {
        1 + digit_run(s.drop_first())
    } else {
        0
    }
}

/// `s` without its leading digits.
pub open spec fn after_digits(s: Seq<u8>) -> Seq<u8> {
    let k = digit_run(s);
    // `k` never exceeds the length; the guard only keeps the definition total.
    if k <= s.len() {
        s.skip(k as int)
    } else {
        s
    }
}

/// The number at the front of `s`: its leading digits as a number, or 0 where
/// there are none or they do not fit.
pub open spec fn leading_number(s: Seq<u8>) -> usize {
    match number_of(s.take(digit_run(s) as int)) {
        Some(n) => n,
        None => 0,
    }
}

/// The sum of the products of the `mul(a,b)` instructions in `rest`, reading
/// from left to right. With `respect_enabled`, `don't()` switches them off and
/// `do()` on again.
pub open spec fn scan(rest: Seq<u8>, respect_enabled: bool, enabled: bool) -> nat
    decreases rest.len(),
{
    if rest.len() == 0 {
        0
    } else if respect_enabled && enabled && starts_with(rest, dont_pattern()) {
        scan(rest.skip(7), respect_enabled, false)
    } else if starts_with(rest, do_pattern()) {
        scan(rest.skip(4), respect_enabled, true)
    } else if enabled && starts_with(rest, mul_pattern()) {
        let r1 = rest.skip(4);
        let n1 = leading_number(r1);
        let r2 = after_digits(r1);
        if !starts_with(r2, comma_pattern()) {
            scan(r2, respect_enabled, enabled)
        } else {
            let r3 = r2.skip(1);
            let n2 = leading_number(r3);
            let r4 = after_digits(r3);
            if !starts_with(r4, close_pattern()) {
                scan(r4, respect_enabled, enabled)
            } else {
                n1 as nat * n2 as nat + scan(r4.skip(1), respect_enabled, enabled)
            }
        }
    } else {
        scan(rest.drop_first(), respect_enabled, enabled)
    }
}

proof fn lemma_digit_run_bound(s: Seq<u8>)
    ensures
        digit_run(s) <= s.len(),
    decreases s.len(),
{
    if s.len() > 0 && is_digit(s[0]) {
        lemma_digit_run_bound(s.drop_first());
    }
}

/// The text still to be read.
pub struct Line<'a> {
    pub remaining: &'a [u8],
}

impl<'a> Line<'a> {
    pub fn new(s: &'a [u8]) -> (r: Self)
        ensures
            r.remaining@ == s@,
    {
        Line { remaining: s }
    }

    /// Consumes `s` if the text starts with it.
    pub fn match_str(&mut self, s: &[u8]) -> (r: bool)
        ensures
            r == starts_with(old(self).remaining@, s@),
            r ==> final(self).remaining@ == old(self).remaining@.skip(s@.len() as int),
            !r ==> final(self).remaining@ == old(self).remaining@,
    {
        if s.len() > self.remaining.len() {
            return false;
        }
        let mut i: usize = 0;
        while i < s.len()
            invariant
                s@.len() <= self.remaining@.len(),
                0 <= i <= s@.len(),
                forall|j: int| 0 <= j < i ==> self.remaining@[j] == s@[j],
            decreases s.len() - i,
        {
            if self.remaining[i] != s[i] {
                assert(self.remaining@.take(s@.len() as int)[i as int] != s@[i as int]);
                return false;
            }
            i = i + 1;
        }
        assert(self.remaining@.take(s@.len() as int) =~= s@);
        self.remaining = slice_subrange(self.remaining, s.len(), self.remaining.len());
        true
    }

    /// Consumes the leading digits and gives their value, or 0 where there are
    /// none or they do not fit.
    pub fn match_num(&mut self) -> (r: usize)
        ensures
            r == leading_number(old(self).remaining@),
            final(self).remaining@ == after_digits(old(self).remaining@),
    {
        let mut digits: usize = 0;
        assert(self.remaining@.skip(0) =~= self.remaining@);
        while digits < self.remaining.len() && 48 <= self.remaining[digits]
            && self.remaining[digits] <= 57
            invariant
                0 <= digits <= self.remaining@.len(),
                digit_run(self.remaining@) == digits + digit_run(
                    self.remaining@.skip(digits as int),
                ),
            decreases self.remaining.len() - digits,
        {
            assert(self.remaining@.skip(digits as int).drop_first() =~= self.remaining@.skip(
                digits as int + 1,
            ));
            digits = digits + 1;
        }
        assert(digit_run(self.remaining@.skip(digits as int)) == 0);
        let num = match parse_number(slice_subrange(self.remaining, 0, digits)) {
            Some(n) => n,
            None => 0,
        };
        assert(self.remaining@.subrange(0, digits as int) =~= self.remaining@.take(
            digit_run(self.remaining@) as int,
        ));
        self.remaining = slice_subrange(self.remaining, digits, self.remaining.len());
        num
    }

    /// Skips one byte.
    pub fn next_char(&mut self)
        requires
            old(self).remaining@.len() > 0,
        ensures
            final(self).remaining@ == old(self).remaining@.drop_first(),
    {
        self.remaining = slice_subrange(self.remaining, 1, self.remaining.len());
    }

    pub fn has_remaining(&self) -> (r: bool)
        ensures
            r == (self.remaining@.len() > 0),
    {
        self.remaining.len() > 0
    }
}

impl CorruptedCode {
    /// The text as bytes.
    pub open spec fn bytes(&self) -> Seq<u8> {
        encode_utf8(self.line@)
    }

    /// The sum of all intact products.
    pub fn mul_always(&self) -> (r: usize)
        ensures
            r == capped(scan(self.bytes(), false, true)),
    {
        self.mul(false)
    }

    /// The sum of the intact products that `do()` and `don't()` leave enabled.
    pub fn mul_if_enabled(&self) -> (r: usize)
        ensures
            r == capped(scan(self.bytes(), true, true)),
    {
        self.mul(true)
    }

    /// The sum of the intact products, optionally switched by `do()` and
    /// `don't()`.
    pub fn mul(&self, respect_enabled: bool) -> (r: usize)
        ensures
            r == capped(scan(self.bytes(), respect_enabled, true)),
    {
        let dont: Vec<u8> = vec![100u8, 111, 110, 39, 116, 40, 41];
        let do_: Vec<u8> = vec![100u8, 111, 40, 41];
        let mul_: Vec<u8> = vec![109u8, 117, 108, 40];
        let comma: Vec<u8> = vec![44u8];
        let close: Vec<u8> = vec![41u8];
        assert(dont@ =~= dont_pattern());
        assert(do_@ =~= do_pattern());
        assert(mul_@ =~= mul_pattern());
        assert(comma@ =~= comma_pattern());
        assert(close@ =~= close_pattern());
        let mut result: usize = 0;
        let ghost mut done: nat = 0;
        let mut line = Line::new(self.line.as_str().as_bytes());
        let mut enabled = true;
        while line.has_remaining()
            invariant
                dont@ == dont_pattern(),
                do_@ == do_pattern(),
                mul_@ == mul_pattern(),
                comma@ == comma_pattern(),
                close@ == close_pattern(),
                done + scan(line.remaining@, respect_enabled, enabled) == scan(
                    self.bytes(),
                    respect_enabled,
                    true,
                ),
                result == capped(done),
            decreases line.remaining@.len(),
        {
            let ghost rest = line.remaining@;
            if respect_enabled && enabled && line.match_str(dont.as_slice()) {
                enabled = false;
            } else if line.match_str(do_.as_slice()) {
                enabled = true;
            } else if enabled && line.match_str(mul_.as_slice()) {
                let ghost r1 = line.remaining@;
                proof { lemma_digit_run_bound(r1); }
                let num1 = line.match_num();
                if !line.match_str(comma.as_slice()) {
                    continue;
                }
                let ghost r3 = line.remaining@;
                proof { lemma_digit_run_bound(r3); }
                let num2 = line.match_num();
                if !line.match_str(close.as_slice()) {
                    continue;
                }
                let p = saturating_product(num1, num2);
                proof {
                    lemma_capped_add(done, num1 as nat * num2 as nat);
                    done = done + num1 as nat * num2 as nat;
                }
                result = result.saturating_add(p);
            } else {
                line.next_char();
            }
        }
        result
    }
}

impl std::str::FromStr for CorruptedCode {
    type Err = String;

    fn from_str(s: &str) -> (r: Result<Self, Self::Err>) {
        Ok(CorruptedCode { line: s.to_owned() })
    }
}

impl Day for Instance {
    /// The sum of all intact products, and of those left enabled.
    fn run(&self, input: String) -> (r: Result<DayResult, String>)
        ensures
            r matches Ok(d) && d.reports(
                capped(scan(encode_utf8(input@), false, true)) as nat,
                capped(scan(encode_utf8(input@), true, true)) as nat,
            ),
    {
        let code = CorruptedCode { line: input };
        let part1 = usize_to_string(code.mul_always());
        let part2 = Some(usize_to_string(code.mul_if_enabled()));
        Ok(DayResult { part1, part2 })
    }
}

} // verus!
