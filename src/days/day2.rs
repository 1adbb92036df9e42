use vstd::prelude::*;
use vstd::utf8::encode_utf8;

use super::day::{Day, DayResult};
use super::text::{lines, number_of, parse_number, split_bytes, split_lines, split_on, usize_to_string, views};

verus! {

/// Red-nosed reports: which level sequences are safe.
pub struct Instance;

/// One report: a sequence of levels.
pub struct Report {
    pub entries: Vec<usize>,
}

/// Never decreasing.
pub open spec fn ascending(s: Seq<usize>) -> bool {
    forall|i: int| 0 <= i < s.len() - 1 ==> #[trigger] s[i] <= s[i + 1]
}

/// Never increasing.
pub open spec fn descending(s: Seq<usize>) -> bool {
    forall|i: int| 0 <= i < s.len() - 1 ==> #[trigger] s[i] >= s[i + 1]
}

/// The distance between two levels.
pub open spec fn step_size(a: usize, b: usize) -> int {
    if a > b {
        a - b
    } else {
        b - a
    }
}

/// Neighbouring levels differ by one to three.
pub open spec fn gentle(s: Seq<usize>) -> bool {
    forall|i: int| 0 <= i < s.len() - 1 ==> 1 <= #[trigger] step_size(s[i], s[i + 1]) <= 3
}

/// A safe report is monotone with gentle steps.
pub open spec fn safe(s: Seq<usize>) -> bool {
    (ascending(s) || descending(s)) && gentle(s)
}

/// Safe, or safe once one level is taken out.
pub open spec fn tolerably_safe(s: Seq<usize>) -> bool {
    safe(s) || exists|i: int| 0 <= i < s.len() && #[trigger] safe(s.remove(i))
}

impl Report {
    /// Whether the levels are monotone with steps of one to three.
    pub fn is_safe(&self) -> (r: bool)
        ensures
            r == safe(self.entries@),
    {
        let s = &self.entries;
        let n = s.len();
        if n == 0 {
            return true;
        }
        let mut up = true;
        let mut down = true;
        let mut small = true;
        let mut i: usize = 0;
        while i + 1 < n
            invariant
                n == s@.len(),
                n >= 1,
                0 <= i <= n - 1,
                up == forall|j: int| 0 <= j < i ==> #[trigger] s@[j] <= s@[j + 1],
                down == forall|j: int| 0 <= j < i ==> #[trigger] s@[j] >= s@[j + 1],
                small == forall|j: int| 0 <= j < i ==> 1 <= #[trigger] step_size(s@[j], s@[j + 1]) <= 3,
            decreases n - i,
        {
            let a = s[i];
            let b = s[i + 1];
            if a > b {
                up = false;
            }
            if a < b {
                down = false;
            }
            let diff = if a > b { a - b } else { b - a };
            assert(diff as int == step_size(s@[i as int], s@[i as int + 1]));
            let ghost was_small = small;
            if diff < 1 || diff > 3 {
                small = false;
            }
            assert(small == forall|j: int| 0 <= j < i + 1 ==> 1 <= #[trigger] step_size(s@[j], s@[j + 1]) <= 3) by {
                if was_small && !small {
                    assert(!(1 <= step_size(s@[i as int], s@[i as int + 1]) <= 3));
                }
            }
            i = i + 1;
        }
        (up || down) && small
    }

    /// Whether the report is safe, or becomes safe without one of its levels.
    pub fn is_safe_tolerant(&self) -> (r: bool)
        ensures
            r == tolerably_safe(self.entries@),
    {
        if self.is_safe() {
            return true;
        }
        let mut i: usize = 0;
        while i < self.entries.len()
            invariant
                0 <= i <= self.entries@.len(),
                forall|j: int| 0 <= j < i ==> !safe(#[trigger] self.entries@.remove(j)),
            decreases self.entries.len() - i,
        {
            let mut entries = vstd::slice::slice_to_vec(self.entries.as_slice());
            entries.remove(i);
            let shorter = Report { entries };
            assert(shorter.entries@ =~= self.entries@.remove(i as int));
            if shorter.is_safe() {
                return true;
            }
            i = i + 1;
        }
        false
    }
}

/// The levels of a line: numbers separated by single spaces.
pub open spec fn levels_of(s: Seq<u8>) -> Option<Seq<usize>> {
    let pieces = split_on(s, 32);
    if forall|i: int| 0 <= i < pieces.len() ==> (#[trigger] number_of(pieces[i])) is Some {
        Some(Seq::new(pieces.len(), |i: int| number_of(pieces[i])->Some_0))
    } else {
        None
    }
}

impl Report {
    /// Parses levels separated by single spaces.
    pub fn parse(s: &[u8]) -> (r: Result<Report, String>)
        ensures
            r is Ok <==> levels_of(s@) is Some,
            r matches Ok(rep) ==> levels_of(s@) == Some(rep.entries@),
    {
        let pieces = split_bytes(s, 32);
        let ghost all = views(pieces@);
        let mut entries: Vec<usize> = Vec::new();
        let mut i: usize = 0;
        while i < pieces.len()
            invariant
                all == views(pieces@),
                all == split_on(s@, 32),
                0 <= i <= pieces@.len(),
                entries@.len() == i,
                forall|j: int| 0 <= j < i ==> (#[trigger] number_of(all[j])) == Some(entries@[j]),
            decreases pieces.len() - i,
        {
            assert(pieces@[i as int]@ == all[i as int]);
            match parse_number(pieces[i].as_slice()) {
                Some(n) => entries.push(n),
                None => {
                    return Err("failed to parse entry".to_owned());
                },
            }
            i = i + 1;
        }
        assert(Seq::new(all.len(), |j: int| number_of(all[j])->Some_0) =~= entries@);
        Ok(Report { entries })
    }
}

impl std::str::FromStr for Report {
    type Err = String;

    fn from_str(s: &str) -> (r: Result<Self, Self::Err>) {
        Report::parse(s.as_bytes())
    }
}

/// The reports of a text, one per line.
pub open spec fn reports_of(text: Seq<u8>) -> Option<Seq<Seq<usize>>> {
    if forall|i: int| 0 <= i < lines(text).len() ==> (#[trigger] levels_of(lines(text)[i])) is Some {
        Some(Seq::new(lines(text).len(), |i: int| levels_of(lines(text)[i])->Some_0))
    } else {
        None
    }
}

/// How many reports are safe (or tolerably safe).
pub open spec fn count_safe(reports: Seq<Seq<usize>>, tolerant: bool) -> nat
    decreases reports.len(),
{
    if reports.len() == 0 {
        0
    } else {
        count_safe(reports.drop_last(), tolerant) + if (if tolerant {
            tolerably_safe(reports.last())
        } else {
            safe(reports.last())
        }) {
            1nat
        } else {
            0nat
        }
    }
}

impl Day for Instance {
    /// The number of safe reports, and of those safe after dropping a level.
    fn run(&self, input: String) -> (r: Result<DayResult, String>)
        ensures
            r is Ok <==> reports_of(encode_utf8(input@)) is Some,
            r matches Ok(d) ==> d.reports(
                count_safe(reports_of(encode_utf8(input@))->Some_0, false),
                count_safe(reports_of(encode_utf8(input@))->Some_0, true),
            ),
    {
        let ls = split_lines(input.as_str().as_bytes());
        let ghost text = encode_utf8(input@);
        let mut reports: Vec<Report> = Vec::new();
        let mut i: usize = 0;
        while i < ls.len()
            invariant
                text == encode_utf8(input@),
                views(ls@) == lines(text),
                0 <= i <= ls@.len(),
                reports@.len() == i,
                forall|j: int| 0 <= j < i ==> (#[trigger] levels_of(lines(text)[j])) == Some(reports@[j].entries@),
            decreases ls.len() - i,
        {
            assert(ls@[i as int]@ == lines(text)[i as int]);
            assert(views(ls@).len() == ls@.len());
            match Report::parse(ls[i].as_slice()) {
                Ok(rep) => reports.push(rep),
                Err(e) => {
                    return Err(e);
                },
            }
            i = i + 1;
        }
        assert(views(ls@).len() == ls@.len());
        let ghost all = Seq::new(reports@.len(), |j: int| reports@[j].entries@);
        assert(reports_of(text)->Some_0 =~= all);
        let mut safe_count: usize = 0;
        let mut tolerant_count: usize = 0;
        let mut k: usize = 0;
        while k < reports.len()
            invariant
                all == Seq::new(reports@.len(), |j: int| reports@[j].entries@),
                0 <= k <= reports@.len(),
                safe_count == count_safe(all.take(k as int), false),
                tolerant_count == count_safe(all.take(k as int), true),
                safe_count <= k,
                tolerant_count <= k,
            decreases reports.len() - k,
        {
            assert(all.take(k as int + 1).drop_last() =~= all.take(k as int));
            if reports[k].is_safe() {
                safe_count = safe_count + 1;
            }
            if reports[k].is_safe_tolerant() {
                tolerant_count = tolerant_count + 1;
            }
            k = k + 1;
        }
        assert(all.take(k as int) =~= all);
        let part1 = usize_to_string(safe_count);
        let part2 = Some(usize_to_string(tolerant_count));
        Ok(DayResult { part1, part2 })
    }
}

} // verus!
