use vstd::prelude::*;
use vstd::utf8::encode_utf8;

use super::day::{Day, DayResult};
use super::text::{groups, lines, split_groups, split_lines, usize_to_string, views};
use super::util::{capped, lemma_capped_add};

verus! {

/// Code chronicle: which keys fit which locks.
pub struct Instance;

/// A lock: how many `#` each of its five columns holds.
pub struct Lock {
    pub pins: [u8; 5],
}

/// A key: how many `#` each of its five columns holds.
pub struct Key {
    pub height: [u8; 5],
}

/// A schematic: a lock where its first row is filled, else a key.
pub enum LockKey {
    Lock(Lock),
    Key(Key),
}

/// The number of rows of `rows` with a `#` in column `i`.
pub open spec fn column_count(rows: Seq<Seq<u8>>, i: int) -> nat
    decreases rows.len(),
{
    if rows.len() == 0 {
        0
    } else {
        column_count(rows.drop_last(), i) + if 0 <= i < rows.last().len() && rows.last()[i] == 35 {
            1nat
        } else {
            0nat
        }
    }
}

/// The schematic has no `#` beyond the fifth column and at most 255 rows.
pub open spec fn schematic_fits(rows: Seq<Seq<u8>>) -> bool {
    &&& rows.len() <= 255
    &&& forall|r: int, c: int|
        0 <= r < rows.len() && 5 <= c < rows[r].len() ==> #[trigger] rows[r][c] != 35
}

/// The five column counts of a schematic.
pub open spec fn counts_of(rows: Seq<Seq<u8>>) -> Seq<nat> {
    Seq::new(5, |i: int| column_count(rows, i))
}

/// Counts the `#` in each of the five columns.
fn count_columns(rows: &[Vec<u8>]) -> (r: Result<[u8; 5], String>)
    ensures
        r is Ok <==> schematic_fits(views(rows@)),
        r matches Ok(a) ==> forall|i: int| 0 <= i < 5 ==> a@[i] as nat == counts_of(views(rows@))[i],
{
    let ghost all = views(rows@);
    if rows.len() > 255 {
        return Err("schematic too tall".to_owned());
    }
    let mut counts: [u8; 5] = [0, 0, 0, 0, 0];
    let mut r: usize = 0;
    while r < rows.len()
        invariant
            all == views(rows@),
            rows@.len() <= 255,
            0 <= r <= rows@.len(),
            forall|i: int| 0 <= i < 5 ==> counts@[i] as nat == column_count(all.take(r as int), i),
            forall|i: int| 0 <= i < 5 ==> column_count(all.take(r as int), i) <= r,
            forall|q: int, c: int|
                0 <= q < r && 5 <= c < all[q].len() ==> #[trigger] all[q][c] != 35,
        decreases rows.len() - r,
    {
        let row = &rows[r];
        assert(row@ == all[r as int]);
        assert(all.take(r as int + 1).drop_last() =~= all.take(r as int));
        let mut c: usize = 0;
        let ghost before = counts@;
        while c < row.len()
            invariant
                all == views(rows@),
                row@ == all[r as int],
                rows@.len() <= 255,
                0 <= r < rows@.len(),
                0 <= c <= row@.len(),
                forall|i: int| 0 <= i < 5 ==> before[i] as nat == column_count(all.take(r as int), i),
                forall|i: int| 0 <= i < 5 ==> column_count(all.take(r as int), i) <= r,
                forall|i: int|
                    0 <= i < 5 ==> counts@[i] == before[i] + if i < c && row@[i] == 35 {
                        1int
                    } else {
                        0int
                    },
                forall|q: int| 5 <= q < c ==> #[trigger] row@[q] != 35,
            decreases row.len() - c,
        {
            if row[c] == 35 {
                if c >= 5 {
                    assert(all[r as int][c as int] == 35);
                    assert(!schematic_fits(all));
                    return Err("pin outside the five columns".to_owned());
                }
                counts[c] = counts[c] + 1;
            }
            c = c + 1;
        }
        assert forall|i: int| 0 <= i < 5 implies column_count(all.take(r as int + 1), i) == column_count(
            all.take(r as int),
            i,
        ) + if i < row@.len() && row@[i] == 35 {
            1nat
        } else {
            0nat
        } by {
            assert(all.take(r as int + 1).last() == all[r as int]);
        }
        assert forall|i: int| 0 <= i < 5 implies #[trigger] column_count(all.take(r as int + 1), i) <= r + 1 by {
            assert(column_count(all.take(r as int), i) <= r);
        }
        r = r + 1;
    }
    assert(all.take(r as int) =~= all);
    Ok(counts)
}

impl Lock {
    pub open spec fn spec_pins(&self) -> Seq<nat> {
        Seq::new(5, |i: int| self.pins@[i] as nat)
    }
}

impl Key {
    pub open spec fn spec_height(&self) -> Seq<nat> {
        Seq::new(5, |i: int| self.height@[i] as nat)
    }

    /// In no column do key and lock together exceed the seven rows.
    pub fn fits(&self, lock: &Lock) -> (r: bool)
        ensures
            r == fits_spec(self.spec_height(), lock.spec_pins()),
    {
        let mut i: usize = 0;
        while i < 5
            invariant
                0 <= i <= 5,
                forall|j: int| 0 <= j < i ==> self.height@[j] + lock.pins@[j] <= 7,
            decreases 5 - i,
        {
            if self.height[i] as u16 + lock.pins[i] as u16 > 7 {
                assert(self.spec_height()[i as int] + lock.spec_pins()[i as int] > 7);
                return false;
            }
            i = i + 1;
        }
        true
    }
}

/// A key fits a lock when no column holds more than seven `#` in total.
pub open spec fn fits_spec(key: Seq<nat>, lock: Seq<nat>) -> bool {
    forall|i: int| 0 <= i < 5 ==> key[i] + lock[i] <= 7
}

/// The column counts of the keys and of the locks among `lks`, in order.
pub open spec fn keys_in(lks: Seq<LockKey>) -> Seq<Seq<nat>>
    decreases lks.len(),
{
    if lks.len() == 0 {
        Seq::empty()
    } else {
        match lks.last() {
            LockKey::Key(k) => keys_in(lks.drop_last()).push(k.spec_height()),
            LockKey::Lock(_) => keys_in(lks.drop_last()),
        }
    }
}

pub open spec fn locks_in(lks: Seq<LockKey>) -> Seq<Seq<nat>>
    decreases lks.len(),
{
    if lks.len() == 0 {
        Seq::empty()
    } else {
        match lks.last() {
            LockKey::Lock(l) => locks_in(lks.drop_last()).push(l.spec_pins()),
            LockKey::Key(_) => locks_in(lks.drop_last()),
        }
    }
}

/// The number of locks that `key` fits.
pub open spec fn fitting_locks(key: Seq<nat>, locks: Seq<Seq<nat>>) -> nat
    decreases locks.len(),
{
    if locks.len() == 0 {
        0
    } else {
        fitting_locks(key, locks.drop_last()) + if fits_spec(key, locks.last()) {
            1nat
        } else {
            0nat
        }
    }
}

/// The number of (key, lock) pairs that fit.
pub open spec fn fitting_pairs(keys: Seq<Seq<nat>>, locks: Seq<Seq<nat>>) -> nat
    decreases keys.len(),
{
    if keys.len() == 0 {
        0
    } else {
        fitting_pairs(keys.drop_last(), locks) + fitting_locks(keys.last(), locks)
    }
}

/// The number of (key, lock) pairs among the schematics that fit together.
pub fn count_matches(lock_keys: &[LockKey]) -> (r: usize)
    ensures
        r == capped(fitting_pairs(keys_in(lock_keys@), locks_in(lock_keys@))),
{
    let mut locks: Vec<&Lock> = Vec::new();
    let mut keys: Vec<&Key> = Vec::new();
    let mut i: usize = 0;
    while i < lock_keys.len()
        invariant
            0 <= i <= lock_keys@.len(),
            Seq::new(locks@.len(), |j: int| locks@[j].spec_pins()) == locks_in(lock_keys@.take(i as int)),
            Seq::new(keys@.len(), |j: int| keys@[j].spec_height()) == keys_in(lock_keys@.take(i as int)),
        decreases lock_keys.len() - i,
    {
        assert(lock_keys@.take(i as int + 1).drop_last() =~= lock_keys@.take(i as int));
        match &lock_keys[i] {
            LockKey::Lock(l) => {
                locks.push(l);
                assert(Seq::new(locks@.len(), |j: int| locks@[j].spec_pins()) =~= locks_in(lock_keys@.take(i as int + 1)));
                assert(Seq::new(keys@.len(), |j: int| keys@[j].spec_height()) =~= keys_in(lock_keys@.take(i as int + 1)));
            },
            LockKey::Key(k) => {
                keys.push(k);
                assert(Seq::new(locks@.len(), |j: int| locks@[j].spec_pins()) =~= locks_in(lock_keys@.take(i as int + 1)));
                assert(Seq::new(keys@.len(), |j: int| keys@[j].spec_height()) =~= keys_in(lock_keys@.take(i as int + 1)));
            },
        }
        i = i + 1;
    }
    assert(lock_keys@.take(i as int) =~= lock_keys@);
    let ghost lock_views = Seq::new(locks@.len(), |j: int| locks@[j].spec_pins());
    let ghost key_views = Seq::new(keys@.len(), |j: int| keys@[j].spec_height());
    let mut count: usize = 0;
    let mut k: usize = 0;
    while k < keys.len()
        invariant
            lock_views == Seq::new(locks@.len(), |j: int| locks@[j].spec_pins()),
            key_views == Seq::new(keys@.len(), |j: int| keys@[j].spec_height()),
            0 <= k <= keys@.len(),
            count == capped(fitting_pairs(key_views.take(k as int), lock_views)),
        decreases keys.len() - k,
    {
        assert(key_views.take(k as int + 1).drop_last() =~= key_views.take(k as int));
        let ghost done = fitting_pairs(key_views.take(k as int), lock_views);
        let ghost base = count;
        let mut l: usize = 0;
        while l < locks.len()
            invariant
                lock_views == Seq::new(locks@.len(), |j: int| locks@[j].spec_pins()),
                key_views == Seq::new(keys@.len(), |j: int| keys@[j].spec_height()),
                0 <= k < keys@.len(),
                0 <= l <= locks@.len(),
                count == capped(done + fitting_locks(key_views[k as int], lock_views.take(l as int))),
            decreases locks.len() - l,
        {
            assert(lock_views.take(l as int + 1).drop_last() =~= lock_views.take(l as int));
            let ghost so_far = done + fitting_locks(key_views[k as int], lock_views.take(l as int));
            if keys[k].fits(locks[l]) {
                proof { lemma_capped_add(so_far, 1); }
                count = count.saturating_add(1);
            }
            l = l + 1;
        }
        assert(lock_views.take(l as int) =~= lock_views);
        k = k + 1;
    }
    assert(key_views.take(k as int) =~= key_views);
    count
}

/// The schematic of a group of rows, if it fits.
fn parse_schematic(rows: &[Vec<u8>]) -> (r: Result<LockKey, String>)
    ensures
        r is Ok <==> schematic_fits(views(rows@)),
        r matches Ok(lk) ==> schematic_of(views(rows@)) == lock_key_view(lk),
{
    let counts = count_columns(rows)?;
    proof {
        assert(Seq::new(5, |i: int| counts@[i] as nat) =~= counts_of(views(rows@)));
    }
    if rows.len() > 0 && rows[0].len() > 0 && rows[0][0] == 35 {
        Ok(LockKey::Lock(Lock { pins: counts }))
    } else {
        Ok(LockKey::Key(Key { height: counts }))
    }
}

/// Whether a schematic is a lock, and its column counts.
pub open spec fn schematic_of(rows: Seq<Seq<u8>>) -> (bool, Seq<nat>) {
    (rows.len() > 0 && rows[0].len() > 0 && rows[0][0] == 35, counts_of(rows))
}

pub open spec fn lock_key_view(lk: LockKey) -> (bool, Seq<nat>) {
    match lk {
        LockKey::Lock(l) => (true, l.spec_pins()),
        LockKey::Key(k) => (false, k.spec_height()),
    }
}

/// The schematics of the input, one per group of lines.
pub open spec fn schematics_of(text: Seq<u8>) -> Seq<(bool, Seq<nat>)> {
    Seq::new(groups(lines(text)).len(), |i: int| schematic_of(groups(lines(text))[i]))
}

/// Every group of lines is a schematic that fits.
pub open spec fn all_fit(text: Seq<u8>) -> bool {
    forall|i: int| 0 <= i < groups(lines(text)).len() ==> #[trigger] schematic_fits(groups(lines(text))[i])
}

pub open spec fn keys_of_schematics(s: Seq<(bool, Seq<nat>)>) -> Seq<Seq<nat>>
    decreases s.len(),
{
    if s.len() == 0 {
        Seq::empty()
    } else if s.last().0 {
        keys_of_schematics(s.drop_last())
    } else {
        keys_of_schematics(s.drop_last()).push(s.last().1)
    }
}

pub open spec fn locks_of_schematics(s: Seq<(bool, Seq<nat>)>) -> Seq<Seq<nat>>
    decreases s.len(),
{
    if s.len() == 0 {
        Seq::empty()
    } else if s.last().0 {
        locks_of_schematics(s.drop_last()).push(s.last().1)
    } else {
        locks_of_schematics(s.drop_last())
    }
}

proof fn lemma_keys_locks(lks: Seq<LockKey>, s: Seq<(bool, Seq<nat>)>)
    requires
        lks.len() == s.len(),
        forall|i: int| 0 <= i < s.len() ==> s[i] == lock_key_view(#[trigger] lks[i]),
    ensures
        keys_in(lks) == keys_of_schematics(s),
        locks_in(lks) == locks_of_schematics(s),
    decreases lks.len(),
{
    if lks.len() > 0 {
        lemma_keys_locks(lks.drop_last(), s.drop_last());
        assert(s.last() == lock_key_view(lks.last()));
    }
}

impl Day for Instance {
    /// The number of fitting (key, lock) pairs; the second answer is a
    /// greeting.
    fn run(&self, input: String) -> (r: Result<DayResult, String>)
        ensures
            r is Ok <==> all_fit(encode_utf8(input@)),
            r matches Ok(d) ==> d.part1@ == super::text::decimal(
                capped(fitting_pairs(
                    keys_of_schematics(schematics_of(encode_utf8(input@))),
                    locks_of_schematics(schematics_of(encode_utf8(input@))),
                )) as nat,
            ) && d.part2 is Some,
    {
        let ls = split_lines(input.as_str().as_bytes());
        let ghost text = encode_utf8(input@);
        let gs = split_groups(&ls);
        let ghost gv = groups(lines(text));
        let mut lock_keys: Vec<LockKey> = Vec::new();
        let mut i: usize = 0;
        while i < gs.len()
            invariant
                text == encode_utf8(input@),
                gv == groups(lines(text)),
                gs@.len() == gv.len(),
                forall|j: int| 0 <= j < gs@.len() ==> views(#[trigger] gs@[j]@) == gv[j],
                0 <= i <= gs@.len(),
                lock_keys@.len() == i,
                forall|j: int| 0 <= j < i ==> #[trigger] schematic_fits(gv[j]),
                forall|j: int| 0 <= j < i ==> schematic_of(gv[j]) == lock_key_view(#[trigger] lock_keys@[j]),
            decreases gs.len() - i,
        {
            assert(views(gs@[i as int]@) == gv[i as int]);
            match parse_schematic(gs[i].as_slice()) {
                Ok(lk) => {
                    lock_keys.push(lk);
                },
                Err(e) => {
                    return Err(e);
                },
            }
            i = i + 1;
        }
        proof {
            lemma_keys_locks(lock_keys@, schematics_of(text));
        }
        let part1 = usize_to_string(count_matches(lock_keys.as_slice()));
        let part2 = Some("Merry Christmas!".to_owned());
        Ok(DayResult { part1, part2 })
    }
}

} // verus!
