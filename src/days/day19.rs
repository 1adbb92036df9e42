use vstd::prelude::*;
use vstd::utf8::encode_utf8;

use super::day::{Day, DayResult};
use super::text::{lines, split_lines, usize_to_string, views};
use super::util::{capped, lemma_capped_add};

verus! {

/// Linen layout: in how many ways towel patterns make up each design.
pub struct Instance;

/// A stripe colour.
#[derive(Debug, PartialEq, Eq, Clone, Copy, Structural)]
pub enum Colour {
    White,
    Blue,
    Black,
    Red,
    Green,
}

/// The colour that the character with code `b` names: `w`, `u`, `b`, `r` or `g`.
pub open spec fn colour_of(b: u8) -> Option<Colour> {
    if b == 119 {
        Some(Colour::White)
    } else if b == 117 {
        Some(Colour::Blue)
    } else if b == 98 {
        Some(Colour::Black)
    } else if b == 114 {
        Some(Colour::Red)
    } else if b == 103 {
        Some(Colour::Green)
    } else {
        None
    }
}

impl Colour {
    pub fn from_byte(b: u8) -> (r: Option<Colour>)
        ensures
            r == colour_of(b),
    {
        if b == 119 {
            Some(Colour::White)
        } else if b == 117 {
            Some(Colour::Blue)
        } else if b == 98 {
            Some(Colour::Black)
        } else if b == 114 {
            Some(Colour::Red)
        } else if b == 103 {
            Some(Colour::Green)
        } else {
            None
        }
    }
}

/// The towel patterns available and the designs to make.
pub struct TowelPatterns {
    pub patterns: Vec<Vec<Colour>>,
    pub towels: Vec<Vec<Colour>>,
}

/// The patterns as sequences.
pub open spec fn pattern_views(ps: Seq<Vec<Colour>>) -> Seq<Seq<Colour>> {
    Seq::new(ps.len(), |i: int| ps[i]@)
}

/// No pattern is empty.
pub open spec fn patterns_ok(ps: Seq<Seq<Colour>>) -> bool {
    forall|i: int| 0 <= i < ps.len() ==> (#[trigger] ps[i]).len() > 0
}

/// The ways to finish `t` with patterns, where the first pattern used is
/// among the first `k`.
pub open spec fn ways_with(t: Seq<Colour>, ps: Seq<Seq<Colour>>, k: int) -> nat
    decreases t.len(), k,
{
    if k <= 0 || k > ps.len() {
        0
    } else {
        let p = ps[k - 1];
        ways_with(t, ps, k - 1) + if p.len() > t.len() || p.len() == 0 {
            0nat
        } else if t == p {
            1nat
        } else if t.take(p.len() as int) == p {
            ways_with(t.skip(p.len() as int), ps, ps.len() as int)
        } else {
            0nat
        }
    }
}

/// The number of ways to lay out the design `t` as a row of patterns.
pub open spec fn ways(t: Seq<Colour>, ps: Seq<Seq<Colour>>) -> nat {
    ways_with(t, ps, ps.len() as int)
}

/// Whether `p` is a prefix of `t[from..]`.
fn starts_with_at(t: &[Colour], from: usize, p: &[Colour]) -> (r: bool)
    requires
        from <= t@.len(),
    ensures
        r == (p@.len() <= t@.len() - from && t@.skip(from as int).take(p@.len() as int) == p@),
{
    let n = t.len();
    if p.len() > n - from {
        return false;
    }
    let mut i: usize = 0;
    while i < p.len()
        invariant
            n == t@.len(),
            from + p@.len() <= n,
            0 <= i <= p@.len(),
            forall|j: int| 0 <= j < i ==> t@[from + j] == p@[j],
        decreases p.len() - i,
    {
        if t[from + i] != p[i] {
            assert(t@.skip(from as int).take(p@.len() as int)[i as int] != p@[i as int]);
            return false;
        }
        i = i + 1;
    }
    assert(t@.skip(from as int).take(p@.len() as int) =~= p@);
    true
}

/// The ways (capped) to finish the suffix of `towel` of length `len`, given
/// those of every shorter suffix in `counts`.
fn suffix_ways(towel: &[Colour], patterns: &[Vec<Colour>], counts: &Vec<usize>, len: usize) -> (r: usize)
    requires
        patterns_ok(pattern_views(patterns@)),
        len <= towel@.len(),
        counts@.len() == len,
        forall|j: int|
            0 <= j < len ==> #[trigger] counts@[j] == capped(
                ways(towel@.skip(towel@.len() - j), pattern_views(patterns@)),
            ),
    ensures
        r == capped(ways(towel@.skip(towel@.len() - len), pattern_views(patterns@))),
{
    let ghost ps = pattern_views(patterns@);
    let n = towel.len();
    let from = n - len;
    let ghost t = towel@.skip(from as int);
    let mut total: usize = 0;
    let mut k: usize = 0;
    while k < patterns.len()
        invariant
            ps == pattern_views(patterns@),
            patterns_ok(ps),
            n == towel@.len(),
            len <= n,
            from == n - len,
            t == towel@.skip(from as int),
            counts@.len() == len,
            forall|j: int|
                0 <= j < len ==> #[trigger] counts@[j] == capped(ways(towel@.skip(n - j), ps)),
            0 <= k <= patterns@.len(),
            total == capped(ways_with(t, ps, k as int)),
        decreases patterns.len() - k,
    {
        let p = &patterns[k];
        assert(p@ == ps[k as int]);
        assert(p@.len() > 0);
        let add: usize;
        if p.len() > len {
            add = 0;
        } else if p.len() == len && starts_with_at(towel, from, p.as_slice()) {
            assert(t.take(p@.len() as int) =~= t);
            add = 1;
        } else if starts_with_at(towel, from, p.as_slice()) {
            assert(t != p@);
            let rest = len - p.len();
            assert(towel@.skip(n - rest) =~= t.skip(p@.len() as int));
            add = counts[rest];
        } else {
            assert(t != p@) by {
                if t == p@ {
                    assert(t.take(p@.len() as int) =~= t);
                }
            }
            add = 0;
        }
        proof {
            lemma_capped_add(
                ways_with(t, ps, k as int),
                (ways_with(t, ps, k as int + 1) - ways_with(t, ps, k as int)) as nat,
            );
        }
        total = total.saturating_add(add);
        k = k + 1;
    }
    total
}

/// The number of ways (capped) to lay out `towel` as a row of patterns.
pub fn valid_count(towel: &[Colour], patterns: &[Vec<Colour>]) -> (r: usize)
    requires
        patterns_ok(pattern_views(patterns@)),
    ensures
        r == capped(ways(towel@, pattern_views(patterns@))),
{
    let n = towel.len();
    // counts[j] holds the ways to finish the suffix of length `j`.
    let mut counts: Vec<usize> = Vec::new();
    let mut len: usize = 0;
    while len < n
        invariant
            patterns_ok(pattern_views(patterns@)),
            n == towel@.len(),
            0 <= len <= n,
            counts@.len() == len,
            forall|j: int|
                0 <= j < len ==> #[trigger] counts@[j] == capped(
                    ways(towel@.skip(n - j), pattern_views(patterns@)),
                ),
        decreases n - len,
    {
        let total = suffix_ways(towel, patterns, &counts, len);
        counts.push(total);
        len = len + 1;
    }
    assert(towel@.skip(0) =~= towel@);
    suffix_ways(towel, patterns, &counts, n)
}

impl TowelPatterns {
    /// For each design, the ways to make it: how many can be made, and the
    /// ways summed.
    pub fn count_valid_and_patterns(&self) -> (r: (usize, usize))
        requires
            patterns_ok(pattern_views(self.patterns@)),
        ensures
            r.0 == makeable(self.towel_views(), pattern_views(self.patterns@)),
            r.1 == capped(total_ways(self.towel_views(), pattern_views(self.patterns@))),
    {
        let ghost ps = pattern_views(self.patterns@);
        let ghost ts = self.towel_views();
        let mut possible: usize = 0;
        let mut sum: usize = 0;
        let mut i: usize = 0;
        while i < self.towels.len()
            invariant
                ps == pattern_views(self.patterns@),
                ts == self.towel_views(),
                patterns_ok(ps),
                0 <= i <= self.towels@.len(),
                possible == makeable(ts.take(i as int), ps),
                possible <= i,
                sum == capped(total_ways(ts.take(i as int), ps)),
            decreases self.towels.len() - i,
        {
            assert(ts.take(i as int + 1).drop_last() =~= ts.take(i as int));
            assert(self.towels@[i as int]@ == ts[i as int]);
            let c = valid_count(self.towels[i].as_slice(), self.patterns.as_slice());
            if c > 0 {
                possible = possible + 1;
            }
            proof {
                lemma_capped_add(total_ways(ts.take(i as int), ps), ways(ts[i as int], ps));
            }
            sum = sum.saturating_add(c);
            i = i + 1;
        }
        assert(ts.take(i as int) =~= ts);
        (possible, sum)
    }

    pub open spec fn towel_views(&self) -> Seq<Seq<Colour>> {
        pattern_views(self.towels@)
    }
}

/// How many designs can be made.
pub open spec fn makeable(ts: Seq<Seq<Colour>>, ps: Seq<Seq<Colour>>) -> nat
    decreases ts.len(),
{
    if ts.len() == 0 {
        0
    } else {
        makeable(ts.drop_last(), ps) + if ways(ts.last(), ps) > 0 {
            1nat
        } else {
            0nat
        }
    }
}

/// The ways to make each design, summed.
pub open spec fn total_ways(ts: Seq<Seq<Colour>>, ps: Seq<Seq<Colour>>) -> nat
    decreases ts.len(),
{
    if ts.len() == 0 {
        0
    } else {
        total_ways(ts.drop_last(), ps) + ways(ts.last(), ps)
    }
}

/// The colours of `s`, if every character names one.
pub open spec fn colours_of(s: Seq<u8>) -> Option<Seq<Colour>> {
    if forall|i: int| 0 <= i < s.len() ==> (#[trigger] colour_of(s[i])) is Some {
        Some(Seq::new(s.len(), |i: int| colour_of(s[i])->Some_0))
    } else {
        None
    }
}

fn parse_colours(s: &[u8]) -> (r: Option<Vec<Colour>>)
    ensures
        r is Some <==> colours_of(s@) is Some,
        r matches Some(v) ==> colours_of(s@) == Some(v@),
{
    let mut v: Vec<Colour> = Vec::new();
    let mut i: usize = 0;
    while i < s.len()
        invariant
            0 <= i <= s@.len(),
            v@.len() == i,
            forall|j: int| 0 <= j < i ==> (#[trigger] colour_of(s@[j])) == Some(v@[j]),
        decreases s.len() - i,
    {
        match Colour::from_byte(s[i]) {
            Some(c) => v.push(c),
            None => {
                return None;
            },
        }
        i = i + 1;
    }
    assert(Seq::new(s@.len(), |j: int| colour_of(s@[j])->Some_0) =~= v@);
    Some(v)
}

/// Splits the first line at `", "` into patterns.
fn parse_patterns(s: &[u8]) -> (r: Option<Vec<Vec<Colour>>>)
    ensures
        r matches Some(ps) ==> patterns_ok(pattern_views(ps@)),
{
    let sep: Vec<u8> = vec![44u8, 32];
    let mut patterns: Vec<Vec<Colour>> = Vec::new();
    let mut start: usize = 0;
    let n = s.len();
    while start <= n
        invariant
            n == s@.len(),
            patterns_ok(pattern_views(patterns@)),
        decreases n + 1 - start,
    {
        let end = match super::text::find_from(s, sep.as_slice(), start) {
            Some(e) => e,
            None => n,
        };
        if end < start || end > n {
            return None;
        }
        let piece = vstd::slice::slice_subrange(s, start, end);
        match parse_colours(piece) {
            Some(p) => {
                if p.len() == 0 {
                    return None;
                }
                let ghost before = patterns@;
                patterns.push(p);
                assert forall|i: int| 0 <= i < pattern_views(patterns@).len() implies (#[trigger] pattern_views(patterns@)[i]).len() > 0 by {
                    if i < before.len() {
                        assert(pattern_views(patterns@)[i] == pattern_views(before)[i]);
                    }
                }
            },
            None => {
                return None;
            },
        }
        if end == n {
            return Some(patterns);
        }
        if end > n - 2 {
            return None;
        }
        start = end + 2;
    }
    Some(patterns)
}

impl TowelPatterns {
    /// Parses the patterns on the first line, then (after one line) a design
    /// per line.
    pub fn parse(s: &[u8]) -> (r: Result<TowelPatterns, String>)
        ensures
            r matches Ok(tp) ==> patterns_ok(pattern_views(tp.patterns@)),
            r matches Ok(tp) ==> {
                &&& lines(s@).len() >= 1
                &&& tp.towel_views().len() == if lines(s@).len() >= 2 { lines(s@).len() - 2 } else { 0 }
                &&& forall|i: int| 0 <= i < tp.towel_views().len() ==> colours_of(lines(s@)[i + 2]) == Some(#[trigger] tp.towel_views()[i])
            },
    {
        let ls = split_lines(s);
        if ls.len() == 0 {
            return Err("No patterns".to_owned());
        }
        let patterns = match parse_patterns(ls[0].as_slice()) {
            Some(p) => p,
            None => {
                return Err("Invalid colour".to_owned());
            },
        };
        let mut towels: Vec<Vec<Colour>> = Vec::new();
        let mut i: usize = 2;
        while i < ls.len()
            invariant
                views(ls@) == lines(s@),
                2 <= i,
                i >= ls@.len() ==> i == 2 || i == ls@.len(),
                i <= ls@.len() || i == 2,
                towels@.len() == i - 2,
                forall|j: int| 0 <= j < towels@.len() ==> colours_of(lines(s@)[j + 2]) == Some(#[trigger] pattern_views(towels@)[j]),
            decreases ls.len() - i,
        {
            assert(ls@[i as int]@ == lines(s@)[i as int]);
            match parse_colours(ls[i].as_slice()) {
                Some(t) => {
                    let ghost before = towels@;
                    towels.push(t);
                    assert forall|j: int| 0 <= j < towels@.len() implies colours_of(lines(s@)[j + 2]) == Some(#[trigger] pattern_views(towels@)[j]) by {
                        if j < before.len() {
                            assert(pattern_views(towels@)[j] == pattern_views(before)[j]);
                        }
                    }
                },
                None => {
                    return Err("Invalid colour".to_owned());
                },
            }
            i = i + 1;
        }
        assert(views(ls@).len() == ls@.len());
        Ok(TowelPatterns { patterns, towels })
    }
}

impl Day for Instance {
    /// How many designs can be made, and in how many ways in all.
    fn run(&self, input: String) -> (r: Result<DayResult, String>)
        ensures
            r matches Ok(d) ==> exists|tp: TowelPatterns| {
                &&& patterns_ok(pattern_views(tp.patterns@))
                &&& tp.towel_views().len() == if lines(encode_utf8(input@)).len() >= 2 {
                    lines(encode_utf8(input@)).len() - 2
                } else {
                    0
                }
                &&& forall|i: int| 0 <= i < tp.towel_views().len() ==> colours_of(lines(encode_utf8(input@))[i + 2]) == Some(#[trigger] tp.towel_views()[i])
                &&& d.reports(
                    makeable(tp.towel_views(), pattern_views(tp.patterns@)),
                    capped(total_ways(tp.towel_views(), pattern_views(tp.patterns@))) as nat,
                )
            },
    {
        let towel_patterns = TowelPatterns::parse(input.as_str().as_bytes())?;
        let (part1, part2) = towel_patterns.count_valid_and_patterns();
        let part1 = usize_to_string(part1);
        let part2 = Some(usize_to_string(part2));
        Ok(DayResult { part1, part2 })
    }
}

} // verus!
