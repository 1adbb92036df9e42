use vstd::prelude::*;
use vstd::relations::{sorted_by, total_ordering};
use vstd::slice::slice_subrange;
use vstd::utf8::encode_utf8;

use super::day::{Day, DayResult};
use super::text::{find_from, lines, number_of, occurrence_from, parse_number, split_lines, usize_to_string, views};
use super::util::{capped, lemma_capped_add, saturating_product};

verus! {

/// Historian hysteria: comparing two lists of location ids.
pub struct Instance;

/// The two columns of the input.
pub struct Lists {
    pub left: Vec<usize>,
    pub right: Vec<usize>,
}

pub open spec fn ascending() -> spec_fn(usize, usize) -> bool {
    |a: usize, b: usize| a <= b
}

/// Relies on `slice::sort`: the slice is put in ascending order, keeping its
/// elements.
#[verifier::external_body]
fn sort_ascending(v: &mut Vec<usize>)
    ensures
        final(v)@.to_multiset() == old(v)@.to_multiset(),
        sorted_by(final(v)@, ascending()),
{
    v.sort();
}

/// The sum of the distances between the elements at the same place, up to the
/// shorter length.
pub open spec fn distance_sum(a: Seq<usize>, b: Seq<usize>) -> nat
    decreases a.len(),
{
    if a.len() == 0 || b.len() == 0 {
        0
    } else {
        (if a[0] < b[0] {
            b[0] - a[0]
        } else {
            a[0] - b[0]
        }) as nat + distance_sum(a.drop_first(), b.drop_first())
    }
}

/// The number of times `x` occurs in `s`.
pub open spec fn occurrences(s: Seq<usize>, x: usize) -> nat
    decreases s.len(),
{
    if s.len() == 0 {
        0
    } else {
        occurrences(s.drop_last(), x) + if s.last() == x {
            1nat
        } else {
            0nat
        }
    }
}

/// Each left number times how often it occurs on the right, summed.
pub open spec fn similarity_score(left: Seq<usize>, right: Seq<usize>) -> nat
    decreases left.len(),
{
    if left.len() == 0 {
        0
    } else {
        similarity_score(left.drop_last(), right) + occurrences(right, left.last()) * (left.last() as nat)
    }
}

proof fn lemma_ascending_total()
    ensures
        total_ordering(ascending()),
{
}

/// The sorted arrangement of `s` is the one `sort_ascending` gives.
proof fn lemma_sorted_is_sort(s: Seq<usize>, t: Seq<usize>)
    requires
        t.to_multiset() == s.to_multiset(),
        sorted_by(t, ascending()),
    ensures
        t == s.sort_by(ascending()),
{
    lemma_ascending_total();
    s.lemma_sort_by_ensures(ascending());
    vstd::seq_lib::lemma_sorted_unique(t, s.sort_by(ascending()), ascending());
}

impl Lists {
    /// The total distance between the two lists, each taken in ascending
    /// order.
    pub fn total_distance(&self) -> (r: usize)
        ensures
            r == capped(distance_sum(self.left@.sort_by(ascending()), self.right@.sort_by(ascending()))),
    {
        let mut left = vstd::slice::slice_to_vec(self.left.as_slice());
        let mut right = vstd::slice::slice_to_vec(self.right.as_slice());
        sort_ascending(&mut left);
        sort_ascending(&mut right);
        proof {
            lemma_sorted_is_sort(self.left@, left@);
            lemma_sorted_is_sort(self.right@, right@);
        }
        let ghost total = distance_sum(left@, right@);
        let mut sum: usize = 0;
        let ghost mut done: nat = 0;
        let mut i: usize = 0;
        assert(left@.skip(0) =~= left@);
        assert(right@.skip(0) =~= right@);
        while i < left.len() && i < right.len()
            invariant
                0 <= i <= left@.len(),
                i <= right@.len(),
                total == distance_sum(left@, right@),
                done + distance_sum(left@.skip(i as int), right@.skip(i as int)) == total,
                sum == capped(done),
            decreases left.len() - i,
        {
            let l = left[i];
            let r = right[i];
            let d = if l < r { r - l } else { l - r };
            assert(left@.skip(i as int).drop_first() =~= left@.skip(i as int + 1));
            assert(right@.skip(i as int).drop_first() =~= right@.skip(i as int + 1));
            proof {
                lemma_capped_add(done, d as nat);
                done = done + d as nat;
            }
            sum = sum.saturating_add(d);
            i = i + 1;
        }
        sum
    }

    /// Each left number times how often it occurs on the right, summed.
    pub fn similarity(&self) -> (r: usize)
        ensures
            r == capped(similarity_score(self.left@, self.right@)),
    {
        let mut sum: usize = 0;
        let mut i: usize = 0;
        while i < self.left.len()
            invariant
                0 <= i <= self.left@.len(),
                sum == capped(similarity_score(self.left@.take(i as int), self.right@)),
            decreases self.left.len() - i,
        {
            let l = self.left[i];
            let mut count: usize = 0;
            let mut j: usize = 0;
            while j < self.right.len()
                invariant
                    0 <= j <= self.right@.len(),
                    count == occurrences(self.right@.take(j as int), l),
                    count <= j,
                decreases self.right.len() - j,
            {
                assert(self.right@.take(j as int + 1).drop_last() =~= self.right@.take(j as int));
                if self.right[j] == l {
                    count = count + 1;
                }
                j = j + 1;
            }
            assert(self.right@.take(j as int) =~= self.right@);
            assert(self.left@.take(i as int + 1).drop_last() =~= self.left@.take(i as int));
            let p = saturating_product(count, l);
            proof {
                lemma_capped_add(similarity_score(self.left@.take(i as int), self.right@), count as nat * l as nat);
            }
            sum = sum.saturating_add(p);
            i = i + 1;
        }
        assert(self.left@.take(i as int) =~= self.left@);
        sum
    }
}

pub open spec fn three_spaces() -> Seq<u8> {
    seq![32u8, 32, 32]
}

/// A line `a   b`: the numbers before the first three spaces and between them
/// and the next three spaces (or the end).
pub open spec fn pair_of(s: Seq<u8>) -> Option<(usize, usize)> {
    match occurrence_from(s, three_spaces(), 0) {
        None => None,
        Some(k) => {
            let end = match occurrence_from(s, three_spaces(), k + 3) {
                Some(e) => e,
                None => s.len() as int,
            };
            match (number_of(s.take(k)), number_of(s.subrange(k + 3, end))) {
                (Some(a), Some(b)) => Some((a, b)),
                _ => None,
            }
        },
    }
}

/// Every line holds a pair.
pub open spec fn pairs_of(text: Seq<u8>) -> Option<Seq<(usize, usize)>> {
    if forall|i: int| 0 <= i < lines(text).len() ==> (#[trigger] pair_of(lines(text)[i])) is Some {
        Some(Seq::new(lines(text).len(), |i: int| pair_of(lines(text)[i])->Some_0))
    } else {
        None
    }
}

/// Parses one line.
fn parse_pair(s: &[u8]) -> (r: Option<(usize, usize)>)
    ensures
        r == pair_of(s@),
{
    let sep: Vec<u8> = vec![32u8, 32, 32];
    assert(sep@ =~= three_spaces());
    let k = match find_from(s, sep.as_slice(), 0) {
        Some(k) => k,
        None => {
            return None;
        },
    };
    proof {
        lemma_occurrence_after(s@, three_spaces(), 0);
    }
    let n = s.len();
    assert(k + 3 <= n);
    let end = match find_from(s, sep.as_slice(), k + 3) {
        Some(e) => e,
        None => n,
    };
    proof {
        if occurrence_from(s@, three_spaces(), k + 3) is Some {
            lemma_occurrence_after(s@, three_spaces(), k as int + 3);
        }
    }
    assert(k + 3 <= end && end <= n);
    let first = slice_subrange(s, 0, k);
    assert(first@ =~= s@.take(k as int));
    let second = slice_subrange(s, k + 3, end);
    assert(second@ =~= s@.subrange(k as int + 3, end as int));
    let a = parse_number(first);
    let b = parse_number(second);
    match (a, b) {
        (Some(a), Some(b)) => Some((a, b)),
        _ => None,
    }
}

proof fn lemma_occurrence_after(s: Seq<u8>, p: Seq<u8>, k: int)
    requires
        occurrence_from(s, p, k) is Some,
    ensures
        k <= occurrence_from(s, p, k)->Some_0,
        occurrence_from(s, p, k)->Some_0 + p.len() <= s.len(),
    decreases s.len() - k,
{
    if !(k < 0 || k + p.len() > s.len()) && !(0 <= k && k + p.len() <= s.len() && s.subrange(k, k + p.len()) == p) && k < s.len() {
        lemma_occurrence_after(s, p, k + 1);
    }
}

impl Lists {
    /// Parses the two columns, one pair per line.
    pub fn parse(s: &[u8]) -> (r: Result<Lists, String>)
        ensures
            r is Ok <==> pairs_of(s@) is Some,
            r matches Ok(l) ==> pairs_of(s@) == Some(Seq::new(l.left@.len(), |i: int| (l.left@[i], l.right@[i]))) && l.left@.len() == l.right@.len(),
    {
        let ls = split_lines(s);
        let mut left: Vec<usize> = Vec::new();
        let mut right: Vec<usize> = Vec::new();
        let mut i: usize = 0;
        while i < ls.len()
            invariant
                views(ls@) == lines(s@),
                0 <= i <= ls@.len(),
                left@.len() == i,
                right@.len() == i,
                forall|j: int| 0 <= j < i ==> (#[trigger] pair_of(lines(s@)[j])) == Some((left@[j], right@[j])),
            decreases ls.len() - i,
        {
            assert(ls@[i as int]@ == lines(s@)[i as int]);
            assert(views(ls@).len() == ls@.len());
            match parse_pair(ls[i].as_slice()) {
                Some((a, b)) => {
                    left.push(a);
                    right.push(b);
                },
                None => {
                    return Err("failed to parse line".to_owned());
                },
            }
            i = i + 1;
        }
        assert(views(ls@).len() == ls@.len());
        assert(Seq::new(lines(s@).len(), |j: int| pair_of(lines(s@)[j])->Some_0) =~= Seq::new(left@.len(), |j: int| (left@[j], right@[j])));
        Ok(Lists { left, right })
    }
}

impl std::str::FromStr for Lists {
    type Err = String;

    fn from_str(s: &str) -> (r: Result<Self, Self::Err>) {
        Lists::parse(s.as_bytes())
    }
}

/// The left and right columns of parsed pairs.
pub open spec fn lefts(p: Seq<(usize, usize)>) -> Seq<usize> {
    Seq::new(p.len(), |i: int| p[i].0)
}

pub open spec fn rights(p: Seq<(usize, usize)>) -> Seq<usize> {
    Seq::new(p.len(), |i: int| p[i].1)
}

impl Day for Instance {
    /// The total distance of the sorted lists, and their similarity score.
    fn run(&self, input: String) -> (r: Result<DayResult, String>)
        ensures
            r is Ok <==> pairs_of(encode_utf8(input@)) is Some,
            r matches Ok(d) ==> {
                let p = pairs_of(encode_utf8(input@))->Some_0;
                d.reports(
                    capped(distance_sum(lefts(p).sort_by(ascending()), rights(p).sort_by(ascending()))) as nat,
                    capped(similarity_score(lefts(p), rights(p))) as nat,
                )
            },
    {
        let lists = Lists::parse(input.as_str().as_bytes())?;
        let ghost p = pairs_of(encode_utf8(input@))->Some_0;
        assert(lefts(p) =~= lists.left@);
        assert(rights(p) =~= lists.right@);
        let part1 = usize_to_string(lists.total_distance());
        let part2 = Some(usize_to_string(lists.similarity()));
        Ok(DayResult { part1, part2 })
    }
}

} // verus!
