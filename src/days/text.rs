use vstd::prelude::*;

verus! {

/// The character of a decimal digit `d < 10`.
pub open spec fn digit_char(d: nat) -> char {
    if d == 0 { '0' } else if d == 1 { '1' } else if d == 2 { '2' } else if d == 3 { '3' }
    else if d == 4 { '4' } else if d == 5 { '5' } else if d == 6 { '6' } else if d == 7 { '7' }
    else if d == 8 { '8' } else { '9' }
}

/// The decimal notation of `n`, without sign or leading zeros.
pub open spec fn decimal(n: nat) -> Seq<char>
    decreases n,
{
    if n < 10 {
        seq![digit_char(n)]
    } else {
        decimal(n / 10).push(digit_char(n % 10))
    }
}

/// Relies on `ToString` for `usize` (through its `Display` impl): the plain
/// decimal notation of the number.
#[verifier::external_body]
pub(crate) fn usize_to_string(n: usize) -> (r: String)
    ensures
        r@ == decimal(n as nat),
{
    n.to_string()
}

pub open spec fn is_digit(b: u8) -> bool {
    48 <= b <= 57
}

/// The value of a run of decimal digits (0 for the empty run).
pub open spec fn digits_value(s: Seq<u8>) -> nat
    decreases s.len(),
{
    if s.len() == 0 {
        0
    } else {
        digits_value(s.drop_last()) * 10 + (s.last() - 48) as nat
    }
}

pub open spec fn all_digits(s: Seq<u8>) -> bool {
    forall|i: int| 0 <= i < s.len() ==> is_digit(#[trigger] s[i])
}

/// What parsing `s` as an unsigned decimal number gives: `None` unless `s` is a
/// non-empty run of digits whose value fits in a `usize`.
pub open spec fn number_of(s: Seq<u8>) -> Option<usize> {
    if s.len() > 0 && all_digits(s) && digits_value(s) <= usize::MAX {
        Some(digits_value(s) as usize)
    } else {
        None
    }
}

/// Parses a non-empty run of ASCII digits into a `usize`.
pub fn parse_number(s: &[u8]) -> (r: Option<usize>)
    ensures
        r == number_of(s@),
{
    if s.len() == 0 {
        return None;
    }
    let mut value: usize = 0;
    let mut i: usize = 0;
    while i < s.len()
        invariant
            0 <= i <= s.len(),
            all_digits(s@.take(i as int)),
            value as nat == digits_value(s@.take(i as int)),
        decreases s.len() - i,
    {
        assert(s@.take(i as int + 1).drop_last() =~= s@.take(i as int));
        if !(48 <= s[i] && s[i] <= 57) {
            assert(!all_digits(s@)) by {
                assert(!is_digit(s@[i as int]));
            }
            return None;
        }
        let d = (s[i] - 48) as usize;
        match value.checked_mul(10) {
            None => {
                proof { lemma_too_large(s@, i as int); }
                return None;
            }
            Some(v) => match v.checked_add(d) {
                None => {
                    proof { lemma_too_large(s@, i as int + 1); }
                    return None;
                }
                Some(w) => {
                    value = w;
                }
            },
        }
        i = i + 1;
        assert(all_digits(s@.take(i as int))) by {
            assert forall|j: int| 0 <= j < i implies is_digit(#[trigger] s@.take(i as int)[j]) by {
                if j < i - 1 {
                    assert(s@.take(i as int)[j] == s@.take(i as int - 1)[j]);
                }
            }
        }
    }
    assert(s@.take(i as int) =~= s@);
    Some(value)
}

/// Once a prefix of digits is too large, so is every longer run of digits.
proof fn lemma_too_large(s: Seq<u8>, k: int)
    requires
        0 <= k <= s.len(),
        k < s.len() ==> digits_value(s.take(k)) * 10 > usize::MAX,
        k == s.len() ==> digits_value(s.take(k)) > usize::MAX,
        all_digits(s.take(k)),
    ensures
        number_of(s) is None,
    decreases s.len() - k,
{
    if all_digits(s) && s.len() > 0 {
        lemma_prefix_value_grows(s, k);
    }
}

/// The value of a digit run is at least that of any prefix, scaled.
proof fn lemma_prefix_value_grows(s: Seq<u8>, k: int)
    requires
        0 <= k <= s.len(),
        all_digits(s),
    ensures
        k < s.len() ==> digits_value(s) >= digits_value(s.take(k)) * 10,
        digits_value(s) >= digits_value(s.take(k)),
    decreases s.len() - k,
{
    if k < s.len() {
        if k + 1 < s.len() {
            lemma_prefix_value_grows(s, k + 1);
        } else {
            assert(s.take(k + 1) =~= s);
        }
        assert(s.take(k + 1).drop_last() =~= s.take(k));
        assert(digits_value(s.take(k + 1)) >= digits_value(s.take(k)) * 10);
        if k + 1 < s.len() {
            assert(digits_value(s.take(k + 1)) * 10 >= digits_value(s.take(k + 1)));
        }
    } else {
        assert(s.take(k) =~= s);
    }
}

/// Splitting `s` at every `sep` byte: `n` separators give `n + 1` pieces.
pub open spec fn split_on(s: Seq<u8>, sep: u8) -> Seq<Seq<u8>>
    decreases s.len(),
{
    if s.len() == 0 {
        seq![Seq::empty()]
    } else {
        let rest = split_on(s.drop_last(), sep);
        if s.last() == sep {
            rest.push(Seq::empty())
        } else {
            rest.update(rest.len() - 1, rest.last().push(s.last()))
        }
    }
}

proof fn lemma_split_nonempty(s: Seq<u8>, sep: u8)
    ensures
        split_on(s, sep).len() >= 1,
    decreases s.len(),
{
    if s.len() > 0 {
        lemma_split_nonempty(s.drop_last(), sep);
    }
}

/// The lines of a text: the pieces between newlines, where a final newline
/// ends the last line rather than starting an empty one.
pub open spec fn lines(s: Seq<u8>) -> Seq<Seq<u8>> {
    let p = split_on(s, 10);
    if p.last().len() == 0 {
        p.drop_last()
    } else {
        p
    }
}

/// The contents of a sequence of byte vectors.
pub open spec fn views(v: Seq<Vec<u8>>) -> Seq<Seq<u8>> {
    Seq::new(v.len(), |i: int| v[i]@)
}

/// Splits a text into its pieces between `sep` bytes.
pub fn split_bytes(s: &[u8], sep: u8) -> (r: Vec<Vec<u8>>)
    ensures
        views(r@) == split_on(s@, sep),
{
    let mut pieces: Vec<Vec<u8>> = Vec::new();
    let mut current: Vec<u8> = Vec::new();
    let mut i: usize = 0;
    while i < s.len()
        invariant
            0 <= i <= s.len(),
            views(pieces@).push(current@) == split_on(s@.take(i as int), sep),
        decreases s.len() - i,
    {
        assert(s@.take(i as int + 1).drop_last() =~= s@.take(i as int));
        if s[i] == sep {
            let ghost before = views(pieces@);
            let done = current;
            pieces.push(done);
            current = Vec::new();
            assert(views(pieces@) =~= before.push(done@));
            assert(views(pieces@).push(current@) =~= split_on(s@.take(i as int + 1), sep));
        } else {
            let ghost before = views(pieces@);
            current.push(s[i]);
            assert(views(pieces@).push(current@) =~= split_on(s@.take(i as int + 1), sep));
        }
        i = i + 1;
    }
    assert(s@.take(i as int) =~= s@);
    let ghost before = views(pieces@);
    let last = current;
    pieces.push(last);
    assert(views(pieces@) =~= before.push(last@));
    pieces
}

/// Splits a text into its lines.
pub fn split_lines(s: &[u8]) -> (r: Vec<Vec<u8>>)
    ensures
        views(r@) == lines(s@),
{
    let mut pieces = split_bytes(s, 10);
    proof { lemma_split_nonempty(s@, 10); }
    let n = pieces.len();
    if pieces[n - 1].len() == 0 {
        let ghost before = views(pieces@);
        pieces.pop();
        assert(views(pieces@) =~= before.drop_last());
    }
    pieces
}

/// `p` occurs in `s` at `k`.
pub open spec fn occurs_at(s: Seq<u8>, p: Seq<u8>, k: int) -> bool {
    0 <= k && k + p.len() <= s.len() && s.subrange(k, k + p.len()) == p
}

/// The first place at or after `k` where `p` occurs in `s`, if any.
pub open spec fn occurrence_from(s: Seq<u8>, p: Seq<u8>, k: int) -> Option<int>
    decreases s.len() - k,
{
    if k < 0 || k + p.len() > s.len() {
        None
    } else if occurs_at(s, p, k) {
        Some(k)
    } else if k >= s.len() {
        None
    } else {
        occurrence_from(s, p, k + 1)
    }
}

/// Finds the first occurrence of `p` in `s` at or after `from`.
pub fn find_from(s: &[u8], p: &[u8], from: usize) -> (r: Option<usize>)
    ensures
        r == match occurrence_from(s@, p@, from as int) {
            Some(k) => Some(k as usize),
            None => None::<usize>,
        },
        r matches Some(k) ==> occurs_at(s@, p@, k as int),
{
    let mut k: usize = from;
    while k <= s.len() && p.len() <= s.len() - k
        invariant
            from <= k,
            occurrence_from(s@, p@, from as int) == occurrence_from(s@, p@, k as int),
        decreases s.len() - k,
    {
        let mut i: usize = 0;
        let mut same = true;
        let n = s.len();
        while i < p.len()
            invariant
                n == s@.len(),
                k + p@.len() <= s@.len(),
                0 <= i <= p@.len(),
                same == forall|j: int| 0 <= j < i ==> s@[k + j] == p@[j],
            decreases p.len() - i,
        {
            if s[k + i] != p[i] {
                same = false;
            }
            i = i + 1;
        }
        if same {
            assert(s@.subrange(k as int, k + p@.len()) =~= p@);
            return Some(k);
        } else {
            assert(!occurs_at(s@, p@, k as int)) by {
                let j = choose|j: int| 0 <= j < p@.len() && s@[k + j] != p@[j];
                assert(s@.subrange(k as int, k + p@.len())[j] != p@[j]);
            }
        }
        if k >= s.len() {
            return None;
        }
        k = k + 1;
    }
    None
}

/// The groups of lines between empty lines.
pub open spec fn groups(ls: Seq<Seq<u8>>) -> Seq<Seq<Seq<u8>>>
    decreases ls.len(),
{
    if ls.len() == 0 {
        seq![Seq::empty()]
    } else {
        let g = groups(ls.drop_last());
        if ls.last().len() == 0 {
            g.push(Seq::empty())
        } else {
            g.update(g.len() - 1, g.last().push(ls.last()))
        }
    }
}

proof fn lemma_groups_nonempty(ls: Seq<Seq<u8>>)
    ensures
        groups(ls).len() >= 1,
    decreases ls.len(),
{
    if ls.len() > 0 {
        lemma_groups_nonempty(ls.drop_last());
    }
}

/// Splits lines into groups at empty lines.
pub fn split_groups(ls: &Vec<Vec<u8>>) -> (r: Vec<Vec<Vec<u8>>>)
    ensures
        r@.len() == groups(views(ls@)).len(),
        forall|i: int| 0 <= i < r@.len() ==> views(#[trigger] r@[i]@) == groups(views(ls@))[i],
{
    let ghost all = views(ls@);
    let mut done: Vec<Vec<Vec<u8>>> = Vec::new();
    let mut current: Vec<Vec<u8>> = Vec::new();
    let mut i: usize = 0;
    assert(all.take(0) =~= Seq::<Seq<u8>>::empty());
    while i < ls.len()
        invariant
            all == views(ls@),
            0 <= i <= ls@.len(),
            done@.len() + 1 == groups(all.take(i as int)).len(),
            forall|j: int| 0 <= j < done@.len() ==> views(#[trigger] done@[j]@) == groups(all.take(i as int))[j],
            views(current@) == groups(all.take(i as int)).last(),
        decreases ls.len() - i,
    {
        assert(all.take(i as int + 1).drop_last() =~= all.take(i as int));
        assert(ls@[i as int]@ == all[i as int]);
        proof { lemma_groups_nonempty(all.take(i as int)); }
        if ls[i].len() == 0 {
            let finished = current;
            done.push(finished);
            current = Vec::new();
            assert(views(current@) =~= Seq::<Seq<u8>>::empty());
        } else {
            let ghost before = current@;
            current.push(vstd::slice::slice_to_vec(ls[i].as_slice()));
            assert(views(current@) =~= views(before).push(all[i as int]));
        }
        i = i + 1;
    }
    assert(all.take(i as int) =~= all);
    done.push(current);
    done
}

} // verus!
