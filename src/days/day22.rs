use vstd::arithmetic::div_mod::lemma_fundamental_div_mod_converse;
use vstd::prelude::*;
use vstd::utf8::encode_utf8;

use super::day::{Day, DayResult};
use super::util::capped;
use super::text::{lines, number_of, parse_number, split_lines, usize_to_string, views};

verus! {

/// Monkey market: pseudo-random secret numbers and the prices they give.
pub struct Instance;

/// Secrets are kept below this bound.
pub const PRUNE_MODULUS: u64 = 16777216;

/// The largest secret that can be multiplied by 64 without overflow.
pub open spec fn secret_fits(s: usize) -> bool {
    s <= usize::MAX / 64
}

/// One step of the secret-number generator.
pub open spec fn next_secret(s: u64) -> u64 {
    let a = (s ^ ((s * 64) as u64)) % 16777216;
    let b = (a ^ (a / 32)) % 16777216;
    (b ^ ((b * 2048) as u64)) % 16777216
}

/// The secret after `k` steps from `s`.
pub open spec fn secret_after(s: u64, k: nat) -> u64
    decreases k,
{
    if k == 0 {
        s
    } else {
        next_secret(secret_after(s, (k - 1) as nat))
    }
}

/// The sum of the 2000th secrets of all buyers.
pub open spec fn sum_of_secrets(numbers: Seq<usize>) -> nat
    decreases numbers.len(),
{
    if numbers.len() == 0 {
        0
    } else {
        sum_of_secrets(numbers.drop_last()) + secret_after(numbers.last() as u64, 2000) as nat
    }
}

/// Combines a value into the secret.
pub fn mix(secret: u64, number: u64) -> (r: u64)
    ensures
        r == secret ^ number,
{
    secret ^ number
}

/// Keeps the secret below the modulus.
pub fn prune(secret: u64) -> (r: u64)
    ensures
        r == secret % 16777216,
        r < 16777216,
{
    secret % PRUNE_MODULUS
}

/// The next secret number.
pub fn next_number(secret: usize) -> (r: usize)
    requires
        secret_fits(secret),
    ensures
        r as u64 == next_secret(secret as u64),
        r < 16777216,
{
    let secret = secret as u64;
    let secret = mix(secret, secret * 64);
    let secret = prune(secret);
    let secret = mix(secret, secret / 32);
    let secret = prune(secret);
    let secret = mix(secret, secret * 2048);
    let secret = prune(secret);
    secret as usize
}

/// The secret after 2000 steps.
pub fn secret_2000(initial: usize) -> (r: usize)
    requires
        secret_fits(initial),
    ensures
        r as u64 == secret_after(initial as u64, 2000),
{
    let mut secret = initial;
    let mut i: usize = 0;
    while i < 2000
        invariant
            0 <= i <= 2000,
            secret as u64 == secret_after(initial as u64, i as nat),
            secret_fits(secret),
        decreases 2000 - i,
    {
        secret = next_number(secret);
        i = i + 1;
    }
    secret
}

/// The sum of every buyer's 2000th secret.
pub fn part1(numbers: &[usize]) -> (r: usize)
    requires
        forall|i: int| 0 <= i < numbers@.len() ==> secret_fits(#[trigger] numbers@[i]),
    ensures
        r == capped(sum_of_secrets(numbers@)),
{
    let mut sum: usize = 0;
    let mut i: usize = 0;
    while i < numbers.len()
        invariant
            0 <= i <= numbers@.len(),
            forall|j: int| 0 <= j < numbers@.len() ==> secret_fits(#[trigger] numbers@[j]),
            sum == capped(sum_of_secrets(numbers@.take(i as int))),
        decreases numbers.len() - i,
    {
        assert(numbers@.take(i as int + 1).drop_last() =~= numbers@.take(i as int));
        sum = sum.saturating_add(secret_2000(numbers[i]));
        i = i + 1;
    }
    assert(numbers@.take(i as int) =~= numbers@);
    sum
}

/// The price offered at step `k`: the last digit of the secret.
pub open spec fn price_at(s: usize, k: nat) -> i8 {
    (secret_after(s as u64, k) % 10) as i8
}

/// The 2001 prices of a buyer: the initial one and one after each step.
pub fn prices(number: usize) -> (r: Vec<i8>)
    requires
        secret_fits(number),
    ensures
        r@.len() == 2001,
        forall|k: int| 0 <= k < 2001 ==> r@[k] == price_at(number, k as nat),
{
    let mut prices: Vec<i8> = Vec::new();
    let mut secret = number;
    let mut i: usize = 0;
    while i <= 2000
        invariant
            0 <= i <= 2001,
            prices@.len() == i,
            secret as u64 == secret_after(number as u64, i as nat),
            secret_fits(secret),
            forall|k: int| 0 <= k < i ==> prices@[k] == price_at(number, k as nat),
        decreases 2001 - i,
    {
        prices.push((secret % 10) as i8);
        secret = next_number(secret);
        i = i + 1;
    }
    prices
}

/// A price is a decimal digit.
pub open spec fn is_price(p: i8) -> bool {
    0 <= p <= 9
}

/// Pairs each price after the first with the change from the price before.
pub fn add_price_deltas(prices: &[i8]) -> (r: Vec<(i8, i8)>)
    requires
        forall|i: int| 0 <= i < prices@.len() ==> is_price(#[trigger] prices@[i]),
    ensures
        r@.len() == if prices@.len() == 0 { 0 } else { prices@.len() - 1 },
        forall|i: int|
            0 <= i < r@.len() ==> #[trigger] r@[i] == (prices@[i + 1], (prices@[i + 1]
                - prices@[i]) as i8),
{
    let mut r: Vec<(i8, i8)> = Vec::new();
    let mut i: usize = 1;
    if prices.len() == 0 {
        return r;
    }
    while i < prices.len()
        invariant
            1 <= i <= prices@.len(),
            forall|j: int| 0 <= j < prices@.len() ==> is_price(#[trigger] prices@[j]),
            r@.len() == i - 1,
            forall|j: int|
                0 <= j < r@.len() ==> #[trigger] r@[j] == (prices@[j + 1], (prices@[j + 1]
                    - prices@[j]) as i8),
        decreases prices.len() - i,
    {
        let b = prices[i];
        let a = prices[i - 1];
        assert(is_price(prices@[i as int]) && is_price(prices@[i - 1]));
        r.push((b, b - a));
        i = i + 1;
    }
    r
}

/// A price together with a change in -9..=9.
pub open spec fn is_price_delta(e: (i8, i8)) -> bool {
    is_price(e.0) && -9 <= e.1 <= 9
}

/// Four changes that can key a table: each in -16..=15.
pub open spec fn run_in_range(run: (i8, i8, i8, i8)) -> bool {
    &&& -16 <= run.0 <= 15
    &&& -16 <= run.1 <= 15
    &&& -16 <= run.2 <= 15
    &&& -16 <= run.3 <= 15
}

/// The table slot of a run of four changes.
pub open spec fn run_index(run: (i8, i8, i8, i8)) -> int {
    (run.0 + 16) * 32768 + (run.1 + 16) * 1024 + (run.2 + 16) * 32 + (run.3 + 16)
}

pub const RUN_SLOTS: usize = 1048576;

/// The run whose table slot is `idx`.
pub open spec fn run_at(idx: int) -> (i8, i8, i8, i8) {
    (
        (idx / 32768 - 16) as i8,
        (idx % 32768 / 1024 - 16) as i8,
        (idx % 1024 / 32 - 16) as i8,
        (idx % 32 - 16) as i8,
    )
}

proof fn lemma_run_index_bounds(run: (i8, i8, i8, i8))
    requires
        run_in_range(run),
    ensures
        0 <= run_index(run) < 1048576,
{
}

/// Different runs use different slots.
proof fn lemma_run_index_injective(r1: (i8, i8, i8, i8), r2: (i8, i8, i8, i8))
    requires
        run_in_range(r1),
        run_in_range(r2),
        run_index(r1) == run_index(r2),
    ensures
        r1 == r2,
{
    let x = run_index(r1);
    let low1 = (r1.1 + 16) * 1024 + (r1.2 + 16) * 32 + (r1.3 + 16);
    let low2 = (r2.1 + 16) * 1024 + (r2.2 + 16) * 32 + (r2.3 + 16);
    lemma_fundamental_div_mod_converse(x, 32768, r1.0 + 16, low1);
    lemma_fundamental_div_mod_converse(x, 32768, r2.0 + 16, low2);
    let mid1 = (r1.2 + 16) * 32 + (r1.3 + 16);
    let mid2 = (r2.2 + 16) * 32 + (r2.3 + 16);
    lemma_fundamental_div_mod_converse(low1, 1024, r1.1 + 16, mid1);
    lemma_fundamental_div_mod_converse(low1, 1024, r2.1 + 16, mid2);
    lemma_fundamental_div_mod_converse(mid1, 32, r1.2 + 16, r1.3 + 16);
    lemma_fundamental_div_mod_converse(mid1, 32, r2.2 + 16, r2.3 + 16);
}

/// Every slot belongs to a run.
proof fn lemma_run_at(idx: int)
    requires
        0 <= idx < 1048576,
    ensures
        run_in_range(run_at(idx)),
        run_index(run_at(idx)) == idx,
{
    let q = idx / 32768;
    let rem = idx % 32768;
    assert(idx == q * 32768 + rem);
    assert(rem % 1024 == idx % 1024);
}

/// The four changes ending at entry `j + 3`.
pub open spec fn window(pd: Seq<(i8, i8)>, j: int) -> (i8, i8, i8, i8) {
    (pd[j].1, pd[j + 1].1, pd[j + 2].1, pd[j + 3].1)
}

/// The number of runs of four changes.
pub open spec fn window_count(pd: Seq<(i8, i8)>) -> nat {
    if pd.len() >= 3 {
        (pd.len() - 3) as nat
    } else {
        0
    }
}

/// The price at the end of the first of the first `n` windows that shows `run`.
pub open spec fn first_price_before(pd: Seq<(i8, i8)>, run: (i8, i8, i8, i8), n: nat) -> Option<i8>
    decreases n,
{
    if n == 0 {
        None
    } else {
        match first_price_before(pd, run, (n - 1) as nat) {
            Some(p) => Some(p),
            None => if window(pd, n - 1) == run {
                Some(pd[n + 2 as int].0)
            } else {
                None
            },
        }
    }
}

/// The price at which a buyer sells on `run`: that at its first occurrence.
pub open spec fn first_price(pd: Seq<(i8, i8)>, run: (i8, i8, i8, i8)) -> Option<i8> {
    first_price_before(pd, run, window_count(pd))
}

/// For each run of four changes, the price at its first occurrence.
pub struct PriceRuns {
    first: Vec<Option<i8>>,
}

impl PriceRuns {
    /// What the table gives for `run`.
    pub closed spec fn price_for(&self, run: (i8, i8, i8, i8)) -> Option<i8> {
        if run_in_range(run) {
            self.first@[run_index(run)]
        } else {
            None
        }
    }

    pub closed spec fn wf(&self) -> bool {
        self.first@.len() == 1048576
    }

    /// The price at the first occurrence of `run`, if it occurs.
    pub fn get(&self, run: &(i8, i8, i8, i8)) -> (r: Option<&i8>)
        requires
            self.wf(),
        ensures
            r matches Some(p) ==> self.price_for(*run) == Some(*p),
            r is None ==> self.price_for(*run) is None,
    {
        let (a, b, c, d) = *run;
        if a < -16 || a > 15 || b < -16 || b > 15 || c < -16 || c > 15 || d < -16 || d > 15 {
            return None;
        }
        proof { lemma_run_index_bounds(*run); }
        let idx = run_slot(a, b, c, d);
        match &self.first[idx] {
            Some(p) => Some(p),
            None => None,
        }
    }
}

fn run_slot(a: i8, b: i8, c: i8, d: i8) -> (r: usize)
    requires
        run_in_range((a, b, c, d)),
    ensures
        r == run_index((a, b, c, d)),
        r < 1048576,
{
    ((a + 16) as usize) * 32768 + ((b + 16) as usize) * 1024 + ((c + 16) as usize) * 32 + ((d
        + 16) as usize)
}

/// The price at the first occurrence of each run of four changes.
pub fn four_runs(prices_and_deltas: &[(i8, i8)]) -> (r: PriceRuns)
    requires
        forall|i: int|
            0 <= i < prices_and_deltas@.len() ==> is_price_delta(#[trigger] prices_and_deltas@[i]),
    ensures
        r.wf(),
        forall|run: (i8, i8, i8, i8)| #[trigger]
            r.price_for(run) == first_price(prices_and_deltas@, run),
{
    let ghost pd = prices_and_deltas@;
    let mut first: Vec<Option<i8>> = Vec::new();
    let mut k: usize = 0;
    while k < RUN_SLOTS
        invariant
            0 <= k <= 1048576,
            first@.len() == k,
            forall|j: int| 0 <= j < k ==> (#[trigger] first@[j]) is None,
        decreases RUN_SLOTS - k,
    {
        first.push(None);
        k = k + 1;
    }
    let n = if prices_and_deltas.len() >= 3 {
        prices_and_deltas.len() - 3
    } else {
        0
    };
    let mut i: usize = 0;
    while i < n
        invariant
            pd == prices_and_deltas@,
            n == window_count(pd),
            0 <= i <= n,
            first@.len() == 1048576,
            forall|j: int| 0 <= j < pd.len() ==> is_price_delta(#[trigger] pd[j]),
            forall|run: (i8, i8, i8, i8)|
                run_in_range(run) ==> #[trigger] first@[run_index(run)] == first_price_before(
                    pd,
                    run,
                    i as nat,
                ),
        decreases n - i,
    {
        let run = (
            prices_and_deltas[i].1,
            prices_and_deltas[i + 1].1,
            prices_and_deltas[i + 2].1,
            prices_and_deltas[i + 3].1,
        );
        assert(is_price_delta(pd[i as int]) && is_price_delta(pd[i + 1]) && is_price_delta(
            pd[i + 2],
        ) && is_price_delta(pd[i + 3]));
        assert(run == window(pd, i as int));
        let price = prices_and_deltas[i + 3].0;
        let idx = run_slot(run.0, run.1, run.2, run.3);
        let ghost before = first@;
        if first[idx].is_none() {
            first.set(idx, Some(price));
        }
        assert forall|other: (i8, i8, i8, i8)| run_in_range(other) implies #[trigger] first@[run_index(
            other,
        )] == first_price_before(pd, other, i as nat + 1) by {
            lemma_run_index_bounds(other);
            if other != run {
                if run_index(other) == run_index(run) {
                    lemma_run_index_injective(other, run);
                }
                assert(first@[run_index(other)] == before[run_index(other)]);
            }
        }
        i = i + 1;
    }
    let r = PriceRuns { first };
    assert forall|run: (i8, i8, i8, i8)| #[trigger] r.price_for(run) == first_price(pd, run) by {
        if !run_in_range(run) {
            lemma_first_price_in_range(pd, run, n as nat);
        }
    }
    r
}

/// A run outside the table's range never occurs among price changes.
proof fn lemma_first_price_in_range(pd: Seq<(i8, i8)>, run: (i8, i8, i8, i8), n: nat)
    requires
        !run_in_range(run),
        n <= window_count(pd),
        forall|j: int| 0 <= j < pd.len() ==> is_price_delta(#[trigger] pd[j]),
    ensures
        first_price_before(pd, run, n) is None,
    decreases n,
{
    if n > 0 {
        lemma_first_price_in_range(pd, run, (n - 1) as nat);
        let j = n - 1;
        assert(is_price_delta(pd[j]) && is_price_delta(pd[j + 1]) && is_price_delta(pd[j + 2])
            && is_price_delta(pd[j + 3]));
    }
}

/// The prices and changes of a buyer's 2001 prices.
pub open spec fn price_deltas(number: usize) -> Seq<(i8, i8)> {
    Seq::new(2000, |i: int| (price_at(number, (i + 1) as nat), (price_at(number, (i + 1) as nat)
        - price_at(number, i as nat)) as i8))
}

proof fn lemma_price_is_digit(number: usize, k: nat)
    ensures
        is_price(price_at(number, k)),
{
}

/// The first-occurrence prices of every run for one buyer.
pub fn four_runs_from_initial(number: usize) -> (r: PriceRuns)
    requires
        secret_fits(number),
    ensures
        r.wf(),
        forall|run: (i8, i8, i8, i8)| #[trigger]
            r.price_for(run) == first_price(price_deltas(number), run),
{
    let prices = prices(number);
    assert forall|i: int| 0 <= i < prices@.len() implies is_price(#[trigger] prices@[i]) by {
        lemma_price_is_digit(number, i as nat);
    }
    let deltas = add_price_deltas(prices.as_slice());
    assert(deltas@ =~= price_deltas(number));
    assert forall|i: int| 0 <= i < deltas@.len() implies is_price_delta(#[trigger] deltas@[i]) by {
        lemma_price_is_digit(number, i as nat);
        lemma_price_is_digit(number, (i + 1) as nat);
    }
    four_runs(deltas.as_slice())
}

/// What a buyer pays on `run`: its first-occurrence price, or nothing.
pub open spec fn paid(number: usize, run: (i8, i8, i8, i8)) -> nat {
    match first_price(price_deltas(number), run) {
        Some(p) => p as nat,
        None => 0,
    }
}

/// What all buyers together pay on `run`.
pub open spec fn bananas(numbers: Seq<usize>, run: (i8, i8, i8, i8)) -> nat
    decreases numbers.len(),
{
    if numbers.len() == 0 {
        0
    } else {
        bananas(numbers.drop_last(), run) + paid(numbers.last(), run)
    }
}

/// The most bananas that one run of four changes can buy, over all runs.
pub fn part2(numbers: &[usize]) -> (r: usize)
    requires
        forall|i: int| 0 <= i < numbers@.len() ==> secret_fits(#[trigger] numbers@[i]),
        numbers@.len() * 9 <= usize::MAX,
    ensures
        forall|run: (i8, i8, i8, i8)| run_in_range(run) ==> bananas(numbers@, run) <= r,
        exists|run: (i8, i8, i8, i8)| run_in_range(run) && bananas(numbers@, run) == r,
{
    let mut totals: Vec<usize> = Vec::new();
    let mut k: usize = 0;
    while k < RUN_SLOTS
        invariant
            0 <= k <= 1048576,
            totals@.len() == k,
            forall|j: int| 0 <= j < k ==> #[trigger] totals@[j] == 0,
        decreases RUN_SLOTS - k,
    {
        totals.push(0);
        k = k + 1;
    }
    let mut b: usize = 0;
    while b < numbers.len()
        invariant
            0 <= b <= numbers@.len(),
            numbers@.len() * 9 <= usize::MAX,
            forall|i: int| 0 <= i < numbers@.len() ==> secret_fits(#[trigger] numbers@[i]),
            totals@.len() == 1048576,
            forall|run: (i8, i8, i8, i8)|
                run_in_range(run) ==> #[trigger] totals@[run_index(run)] == bananas(
                    numbers@.take(b as int),
                    run,
                ),
            forall|run: (i8, i8, i8, i8)|
                run_in_range(run) ==> #[trigger] bananas(numbers@.take(b as int), run) <= 9 * b,
        decreases numbers.len() - b,
    {
        let runs = four_runs_from_initial(numbers[b]);
        let ghost taken = numbers@.take(b as int + 1);
        assert(taken.drop_last() =~= numbers@.take(b as int));
        let mut idx: usize = 0;
        while idx < RUN_SLOTS
            invariant
                0 <= idx <= 1048576,
                runs.wf(),
                taken == numbers@.take(b as int + 1),
                taken.drop_last() == numbers@.take(b as int),
                taken.last() == numbers@[b as int],
                b < numbers@.len(),
                numbers@.len() * 9 <= usize::MAX,
                forall|run: (i8, i8, i8, i8)| #[trigger]
                    runs.price_for(run) == first_price(price_deltas(numbers@[b as int]), run),
                totals@.len() == 1048576,
                forall|run: (i8, i8, i8, i8)|
                    run_in_range(run) ==> #[trigger] totals@[run_index(run)] == if run_index(run)
                        < idx {
                        bananas(taken, run)
                    } else {
                        bananas(taken.drop_last(), run)
                    },
                forall|run: (i8, i8, i8, i8)|
                    run_in_range(run) ==> #[trigger] bananas(taken.drop_last(), run) <= 9 * b,
            decreases RUN_SLOTS - idx,
        {
            proof { lemma_run_at(idx as int); }
            let ghost here = run_at(idx as int);
            assert(runs.price_for(here) == first_price(price_deltas(numbers@[b as int]), here));
            proof {
                lemma_paid_bound(numbers@[b as int], here);
                assert(bananas(taken.drop_last(), here) <= 9 * b);
            }
            let add = runs.table_entry(idx);
            let ghost before = totals@;
            let current = totals[idx];
            totals.set(idx, current + add);
            assert forall|run: (i8, i8, i8, i8)| run_in_range(run) implies #[trigger] totals@[run_index(
                run,
            )] == if run_index(run) < idx + 1 {
                bananas(taken, run)
            } else {
                bananas(taken.drop_last(), run)
            } by {
                lemma_run_index_bounds(run);
                if run_index(run) == idx {
                    lemma_run_index_injective(run, here);
                } else {
                    assert(totals@[run_index(run)] == before[run_index(run)]);
                }
            }
            idx = idx + 1;
        }
        assert forall|run: (i8, i8, i8, i8)| run_in_range(run) implies #[trigger] bananas(
            numbers@.take(b as int + 1),
            run,
        ) <= 9 * (b + 1) by {
            lemma_paid_bound(numbers@[b as int], run);
            assert(bananas(taken, run) == bananas(taken.drop_last(), run) + paid(taken.last(), run));
        }
        b = b + 1;
    }
    assert(numbers@.take(b as int) =~= numbers@);
    let mut best: usize = totals[0];
    let mut best_at: usize = 0;
    let mut idx: usize = 0;
    while idx < RUN_SLOTS
        invariant
            0 <= idx <= 1048576,
            best_at < 1048576,
            totals@.len() == 1048576,
            best == totals@[best_at as int],
            forall|j: int| 0 <= j < idx ==> #[trigger] totals@[j] <= best,
        decreases RUN_SLOTS - idx,
    {
        if totals[idx] > best {
            best = totals[idx];
            best_at = idx;
        }
        idx = idx + 1;
    }
    proof {
        lemma_run_at(best_at as int);
        let w = run_at(best_at as int);
        assert(bananas(numbers@, w) == best);
        assert forall|run: (i8, i8, i8, i8)| run_in_range(run) implies bananas(numbers@, run)
            <= best by {
            lemma_run_index_bounds(run);
            assert(totals@[run_index(run)] <= best);
        }
    }
    best
}

proof fn lemma_price_deltas_ok(number: usize)
    ensures
        forall|j: int|
            0 <= j < price_deltas(number).len() ==> is_price_delta(#[trigger] price_deltas(number)[j]),
{
    assert forall|j: int| 0 <= j < price_deltas(number).len() implies is_price_delta(
        #[trigger] price_deltas(number)[j],
    ) by {
        lemma_price_is_digit(number, j as nat);
        lemma_price_is_digit(number, (j + 1) as nat);
    }
}

proof fn lemma_paid_bound(number: usize, run: (i8, i8, i8, i8))
    ensures
        paid(number, run) <= 9,
        first_price(price_deltas(number), run) matches Some(p) ==> is_price(p),
{
    lemma_price_deltas_ok(number);
    lemma_first_price_is_price(price_deltas(number), run, window_count(price_deltas(number)));
}

proof fn lemma_first_price_is_price(pd: Seq<(i8, i8)>, run: (i8, i8, i8, i8), n: nat)
    requires
        n <= window_count(pd),
        forall|j: int| 0 <= j < pd.len() ==> is_price_delta(#[trigger] pd[j]),
    ensures
        first_price_before(pd, run, n) matches Some(p) ==> is_price(p),
    decreases n,
{
    if n > 0 {
        lemma_first_price_is_price(pd, run, (n - 1) as nat);
        assert(is_price_delta(pd[n + 2 as int]));
    }
}

impl PriceRuns {
    /// The price stored in slot `idx`, or 0 where the slot's run never occurs.
    fn table_entry(&self, idx: usize) -> (r: usize)
        requires
            self.wf(),
            idx < 1048576,
            self.price_for(run_at(idx as int)) matches Some(p) ==> is_price(p),
        ensures
            r == match self.price_for(run_at(idx as int)) {
                Some(p) => p as nat,
                None => 0,
            },
    {
        proof { lemma_run_at(idx as int); }
        match self.first[idx] {
            Some(p) => p as usize,
            None => 0,
        }
    }
}

/// The buyers' initial secrets, one per line.
pub open spec fn numbers_of(text: Seq<u8>) -> Option<Seq<usize>> {
    if forall|i: int| 0 <= i < lines(text).len() ==> (#[trigger] number_of(lines(text)[i])) is Some {
        Some(Seq::new(lines(text).len(), |i: int| number_of(lines(text)[i])->Some_0))
    } else {
        None
    }
}

/// Parses one initial secret per line.
pub fn parse_input(input: &str) -> (r: Result<Vec<usize>, String>)
    ensures
        r is Ok <==> numbers_of(encode_utf8(input@)) is Some,
        r matches Ok(v) ==> numbers_of(encode_utf8(input@)) == Some(v@),
{
    let ls = split_lines(input.as_bytes());
    let ghost text = encode_utf8(input@);
    let mut numbers: Vec<usize> = Vec::new();
    let mut i: usize = 0;
    while i < ls.len()
        invariant
            text == encode_utf8(input@),
            views(ls@) == lines(text),
            0 <= i <= ls@.len(),
            numbers@.len() == i,
            forall|j: int| 0 <= j < i ==> (#[trigger] number_of(lines(text)[j])) == Some(numbers@[j]),
        decreases ls.len() - i,
    {
        assert(ls@[i as int]@ == lines(text)[i as int]);
        match parse_number(ls[i].as_slice()) {
            Some(n) => numbers.push(n),
            None => {
                assert(views(ls@).len() == ls@.len());
                assert(number_of(lines(text)[i as int]) is None);
                return Err("invalid secret number".to_owned());
            },
        }
        i = i + 1;
    }
    assert(views(ls@).len() == ls@.len());
    assert(Seq::new(lines(text).len(), |j: int| number_of(lines(text)[j])->Some_0) =~= numbers@);
    Ok(numbers)
}

/// The buyers' secrets can be stepped and their prices summed.
pub open spec fn numbers_fit(numbers: Seq<usize>) -> bool {
    &&& forall|i: int| 0 <= i < numbers.len() ==> secret_fits(#[trigger] numbers[i])
    &&& numbers.len() * 9 <= usize::MAX
}

impl Day for Instance {
    /// The sum of the 2000th secrets, and the most bananas one run of four
    /// price changes buys.
    fn run(&self, input: String) -> (r: Result<DayResult, String>)
        ensures
            r is Ok <==> (numbers_of(encode_utf8(input@)) matches Some(ns) && numbers_fit(ns)),
            r matches Ok(d) ==> {
                let ns = numbers_of(encode_utf8(input@))->Some_0;
                &&& d.part1@ == super::text::decimal(capped(sum_of_secrets(ns)) as nat)
                &&& d.part2 is Some
                &&& exists|run: (i8, i8, i8, i8)|
                    run_in_range(run) && d.part2->Some_0@ == super::text::decimal(
                        #[trigger] bananas(ns, run),
                    ) && forall|other: (i8, i8, i8, i8)|
                        run_in_range(other) ==> #[trigger] bananas(ns, other) <= bananas(ns, run)
            },
    {
        let numbers = parse_input(input.as_str())?;
        let mut i: usize = 0;
        while i < numbers.len()
            invariant
                numbers_of(encode_utf8(input@)) == Some(numbers@),
                0 <= i <= numbers@.len(),
                forall|j: int| 0 <= j < i ==> secret_fits(#[trigger] numbers@[j]),
            decreases numbers.len() - i,
        {
            if numbers[i] > usize::MAX / 64 {
                assert(!secret_fits(numbers@[i as int]));
                return Err("secret number too large".to_owned());
            }
            i = i + 1;
        }
        if numbers.len() > usize::MAX / 9 {
            return Err("too many buyers".to_owned());
        }
        let part1 = usize_to_string(part1(numbers.as_slice()));
        let best = part2(numbers.as_slice());
        let part2 = Some(usize_to_string(best));
        Ok(DayResult { part1, part2 })
    }
}

} // verus!
