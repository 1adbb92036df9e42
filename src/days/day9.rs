use vstd::prelude::*;
use vstd::utf8::encode_utf8;

use super::day::{Day, DayResult};
use super::text::usize_to_string;
use super::util::{capped, lemma_capped_add, saturating_product};

verus! {

/// Disk fragmenter: compacting files on a disk of blocks.
pub struct Instance;

/// The dense disk map: file lengths and free lengths, alternating.
pub struct DiskMap {
    pub map: Vec<u32>,
}

/// The disk's blocks, each free or holding a file id.
pub struct FileSystem {
    data: Vec<Option<u32>>,
    free_space: usize,
    max_id: u32,
}

/// `n` copies of `v`.
pub open spec fn copies(v: Option<u32>, n: nat) -> Seq<Option<u32>> {
    Seq::new(n, |_i: int| v)
}

/// The blocks of a disk map: entry `i` is file `i / 2` for even `i` and free
/// space for odd `i`.
pub open spec fn expand(map: Seq<u32>) -> Seq<Option<u32>>
    decreases map.len(),
{
    if map.len() == 0 {
        Seq::empty()
    } else {
        let i = map.len() - 1;
        expand(map.drop_last()) + copies(
            if i % 2 == 0 {
                Some((i / 2) as u32)
            } else {
                None
            },
            map.last() as nat,
        )
    }
}

/// The number of free blocks.
pub open spec fn count_free(d: Seq<Option<u32>>) -> nat
    decreases d.len(),
{
    if d.len() == 0 {
        0
    } else {
        count_free(d.drop_last()) + if d.last() is None {
            1nat
        } else {
            0nat
        }
    }
}

/// The first free block at or after `i`.
pub open spec fn first_free_from(d: Seq<Option<u32>>, i: int) -> Option<int>
    decreases d.len() - i,
{
    if i < 0 || i >= d.len() {
        None
    } else if d[i] is None {
        Some(i)
    } else {
        first_free_from(d, i + 1)
    }
}

/// The last block moves into the first free block before it (or is dropped
/// when it is the only free one).
pub open spec fn move_one(d: Seq<Option<u32>>) -> Seq<Option<u32>> {
    let rest = d.drop_last();
    match first_free_from(rest, 0) {
        Some(p) => rest.update(p, d.last()),
        None => rest,
    }
}

/// The blocks after `k` single-block moves.
pub open spec fn after_moves(d: Seq<Option<u32>>, k: nat) -> Seq<Option<u32>>
    decreases k,
{
    if k == 0 {
        d
    } else {
        move_one(after_moves(d, (k - 1) as nat))
    }
}

/// The checksum: each block's position times its file id, summed.
pub open spec fn checksum_of(d: Seq<Option<u32>>) -> nat
    decreases d.len(),
{
    if d.len() == 0 {
        0
    } else {
        checksum_of(d.drop_last()) + (d.len() - 1) as nat * match d.last() {
            Some(id) => id as nat,
            None => 0nat,
        }
    }
}

/// The first block at or after `i` that holds `v`.
pub open spec fn first_of_from(d: Seq<Option<u32>>, v: Option<u32>, i: int) -> Option<int>
    decreases d.len() - i,
{
    if i < 0 || i >= d.len() {
        None
    } else if d[i] == v {
        Some(i)
    } else {
        first_of_from(d, v, i + 1)
    }
}

/// Where the run of `v` starting at `i` ends.
pub open spec fn run_end(d: Seq<Option<u32>>, v: Option<u32>, i: int) -> int
    decreases d.len() - i,
{
    if i < 0 || i >= d.len() || d[i] != v {
        i
    } else {
        run_end(d, v, i + 1)
    }
}

/// The blocks `[w, w + len)` are all free.
pub open spec fn all_free(d: Seq<Option<u32>>, w: int, len: int) -> bool {
    forall|k: int| w <= k < w + len ==> (#[trigger] d[k]) is None
}

/// The first `w` at or after `from` whose `len` blocks are all free and end at
/// or before `limit`.
pub open spec fn window_from(d: Seq<Option<u32>>, len: int, from: int, limit: int) -> Option<int>
    decreases limit - from,
{
    if from < 0 || from + len > limit || limit > d.len() {
        None
    } else if all_free(d, from, len) {
        Some(from)
    } else {
        window_from(d, len, from + 1, limit)
    }
}

/// File `id` moves, whole, to the first run of free blocks before it that is
/// long enough, if there is one.
pub open spec fn block_move(d: Seq<Option<u32>>, id: u32) -> Seq<Option<u32>> {
    match first_of_from(d, Some(id), 0) {
        None => d,
        Some(start) => {
            let end = run_end(d, Some(id), start);
            let len = end - start;
            match window_from(d, len, 0, start) {
                None => d,
                Some(w) => Seq::new(
                    d.len(),
                    |k: int|
                        if w <= k < w + len {
                            Some(id)
                        } else if start <= k < end {
                            None
                        } else {
                            d[k]
                        },
                ),
            }
        },
    }
}

/// Files `id`, `id - 1`, ..., 1 moved in turn.
pub open spec fn moves_down(d: Seq<Option<u32>>, id: u32) -> Seq<Option<u32>>
    decreases id,
{
    if id == 0 {
        d
    } else {
        moves_down(block_move(d, id), (id - 1) as u32)
    }
}

/// The largest file id of a disk map with `n` entries.
pub open spec fn last_id(n: nat) -> u32 {
    if n == 0 {
        0
    } else {
        ((n - 1) / 2) as u32
    }
}

proof fn lemma_count_free_update(d: Seq<Option<u32>>, p: int, v: Option<u32>)
    requires
        0 <= p < d.len(),
    ensures
        count_free(d.update(p, v)) + (if d[p] is None {
            1nat
        } else {
            0nat
        }) == count_free(d) + (if v is None {
            1nat
        } else {
            0nat
        }),
    decreases d.len(),
{
    if p < d.len() - 1 {
        assert(d.update(p, v).drop_last() =~= d.drop_last().update(p, v));
        lemma_count_free_update(d.drop_last(), p, v);
    } else {
        assert(d.update(p, v).drop_last() =~= d.drop_last());
    }
}

proof fn lemma_first_free(d: Seq<Option<u32>>, i: int)
    requires
        0 <= i <= d.len(),
    ensures
        first_free_from(d, i) matches Some(p) ==> i <= p < d.len() && d[p] is None,
        first_free_from(d, i) is None ==> forall|k: int| i <= k < d.len() ==> (#[trigger] d[k]) is Some,
    decreases d.len() - i,
{
    if i < d.len() && d[i] is Some {
        lemma_first_free(d, i + 1);
    }
}

proof fn lemma_no_free(d: Seq<Option<u32>>)
    requires
        forall|k: int| 0 <= k < d.len() ==> (#[trigger] d[k]) is Some,
    ensures
        count_free(d) == 0,
    decreases d.len(),
{
    if d.len() > 0 {
        lemma_no_free(d.drop_last());
    }
}

/// One move frees one block.
proof fn lemma_move_one_count(d: Seq<Option<u32>>)
    requires
        count_free(d) > 0,
    ensures
        count_free(move_one(d)) == count_free(d) - 1,
        move_one(d).len() == d.len() - 1,
{
    let rest = d.drop_last();
    lemma_first_free(rest, 0);
    match first_free_from(rest, 0) {
        Some(p) => {
            lemma_count_free_update(rest, p, d.last());
        },
        None => {
            lemma_no_free(rest);
        },
    }
}

proof fn lemma_count_free_bound(d: Seq<Option<u32>>)
    ensures
        count_free(d) <= d.len(),
    decreases d.len(),
{
    if d.len() > 0 {
        lemma_count_free_bound(d.drop_last());
    }
}

/// Windows that cover the occupied block `q` are skipped.
proof fn lemma_skip_windows(d: Seq<Option<u32>>, len: int, w: int, q: int, limit: int)
    requires
        0 <= w <= q < w + len,
        0 <= q < d.len(),
        d[q] is Some,
    ensures
        window_from(d, len, w, limit) == window_from(d, len, q + 1, limit),
    decreases q + 1 - w,
{
    if w + len > limit || limit > d.len() {
        assert(window_from(d, len, q + 1, limit) is None);
    } else {
        assert(!all_free(d, w, len));
        if w + 1 <= q {
            lemma_skip_windows(d, len, w + 1, q, limit);
        }
    }
}

impl FileSystem {
    pub closed spec fn blocks(&self) -> Seq<Option<u32>> {
        self.data@
    }

    pub closed spec fn wf(&self) -> bool {
        self.free_space == count_free(self.data@)
    }

    pub closed spec fn spec_max_id(&self) -> u32 {
        self.max_id
    }

    /// An empty disk.
    pub fn new() -> (r: Self)
        ensures
            r.wf(),
            r.blocks() == Seq::<Option<u32>>::empty(),
            r.spec_max_id() == 0,
    {
        FileSystem { data: Vec::new(), free_space: 0, max_id: 0 }
    }

    /// Appends `amount` blocks of file `id`.
    pub fn add(&mut self, id: u32, amount: usize)
        requires
            old(self).wf(),
        ensures
            final(self).wf(),
            final(self).blocks() == old(self).blocks() + copies(Some(id), amount as nat),
            final(self).spec_max_id() == if id > old(self).spec_max_id() {
                id
            } else {
                old(self).spec_max_id()
            },
    {
        let mut i: usize = 0;
        while i < amount
            invariant
                0 <= i <= amount,
                self.free_space == count_free(old(self).data@),
                self.max_id == old(self).max_id,
                self.data@ == old(self).data@ + copies(Some(id), i as nat),
                count_free(self.data@) == count_free(old(self).data@),
            decreases amount - i,
        {
            self.data.push(Some(id));
            i = i + 1;
            assert(self.data@ =~= old(self).data@ + copies(Some(id), i as nat));
            assert(self.data@.drop_last() =~= old(self).data@ + copies(Some(id), (i - 1) as nat));
        }
        if id > self.max_id {
            self.max_id = id;
        }
    }

    /// Appends `amount` free blocks.
    pub fn add_free(&mut self, amount: usize)
        requires
            old(self).wf(),
        ensures
            final(self).wf(),
            final(self).blocks() == old(self).blocks() + copies(None, amount as nat),
            final(self).spec_max_id() == old(self).spec_max_id(),
    {
        let mut i: usize = 0;
        while i < amount
            invariant
                0 <= i <= amount,
                self.max_id == old(self).max_id,
                self.data@ == old(self).data@ + copies(None, i as nat),
                self.free_space == count_free(self.data@),
            decreases amount - i,
        {
            self.data.push(None);
            assert(self.data@.len() == self.data.len());
            proof {
                lemma_count_free_bound(self.data@);
                assert(self.data@.drop_last() =~= old(self).data@ + copies(None, i as nat));
            }
            i = i + 1;
            assert(self.data@ =~= old(self).data@ + copies(None, i as nat));
            assert(self.data@.drop_last() =~= old(self).data@ + copies(None, (i - 1) as nat));
            self.free_space = self.free_space + 1;
        }
    }

    /// Some block is free.
    pub fn has_free(&self) -> (r: bool)
        requires
            self.wf(),
        ensures
            r == (count_free(self.blocks()) > 0),
    {
        self.free_space > 0
    }

    /// Moves the last block into the first free block.
    pub fn move_one_left(&mut self)
        requires
            old(self).wf(),
            count_free(old(self).blocks()) > 0,
        ensures
            final(self).wf(),
            final(self).blocks() == move_one(old(self).blocks()),
            final(self).spec_max_id() == old(self).spec_max_id(),
    {
        proof {
            lemma_move_one_count(self.data@);
            if self.data@.len() == 0 {
                assert(count_free(self.data@) == 0);
            }
        }
        let last = match self.data.pop() {
            Some(v) => v,
            None => None,
        };
        let ghost rest = self.data@;
        let mut p: usize = 0;
        assert(first_free_from(rest, 0) == first_free_from(rest, p as int));
        while p < self.data.len() && self.data[p].is_some()
            invariant
                0 <= p <= self.data@.len(),
                self.data@ == rest,
                first_free_from(rest, 0) == first_free_from(rest, p as int),
            decreases self.data.len() - p,
        {
            p = p + 1;
        }
        if p < self.data.len() {
            self.data.set(p, last);
        }
        self.free_space = self.free_space - 1;
    }

    /// Moves file `id`, whole, to the first run of free blocks before it that
    /// is long enough, if there is one.
    pub fn move_block_left(&mut self, id: u32)
        requires
            old(self).wf(),
        ensures
            final(self).wf(),
            final(self).blocks() == block_move(old(self).blocks(), id),
            final(self).spec_max_id() == old(self).spec_max_id(),
    {
        let ghost d = self.data@;
        let n = self.data.len();
        // Find the file.
        let mut start: usize = 0;
        while start < n && self.data[start] != Some(id)
            invariant
                n == d.len(),
                self.data@ == d,
                0 <= start <= n,
                first_of_from(d, Some(id), 0) == first_of_from(d, Some(id), start as int),
            decreases n - start,
        {
            start = start + 1;
        }
        if start == n {
            return;
        }
        let mut end: usize = start;
        while end < n && self.data[end] == Some(id)
            invariant
                n == d.len(),
                self.data@ == d,
                start <= end <= n,
                run_end(d, Some(id), start as int) == run_end(d, Some(id), end as int),
                forall|k: int| start <= k < end ==> #[trigger] d[k] == Some(id),
            decreases n - end,
        {
            end = end + 1;
        }
        let len = end - start;
        // Find the first long enough run of free blocks before it.
        assert(end > start);
        let mut w: usize = 0;
        let mut found = false;
        assert(window_from(d, len as int, 0, start as int) == window_from(d, len as int, w as int, start as int));
        while !found && w <= start && len <= start - w
            invariant
                n == d.len(),
                self.data@ == d,
                start < n,
                start + len <= n,
                len >= 1,
                window_from(d, len as int, 0, start as int) == window_from(d, len as int, w as int, start as int),
                found ==> all_free(d, w as int, len as int) && w + len <= start,
                w <= start + 1,
            decreases start + 1 - w, (if found { 0int } else { 1int }),
        {
            let mut j: usize = 0;
            while j < len && self.data[w + j].is_none()
                invariant
                    n == d.len(),
                    self.data@ == d,
                    w + len <= start,
                    start < n,
                    0 <= j <= len,
                    forall|k: int| w <= k < w + j ==> (#[trigger] d[k]) is None,
                decreases len - j,
            {
                j = j + 1;
            }
            if j == len {
                assert(all_free(d, w as int, len as int));
                found = true;
            } else {
                proof { lemma_skip_windows(d, len as int, w as int, (w + j) as int, start as int); }
                w = w + j + 1;
            }
        }
        if !found {
            assert(window_from(d, len as int, w as int, start as int) is None);
            return;
        }
        assert(window_from(d, len as int, 0, start as int) == Some(w as int));
        assert(all_free(d, w as int, len as int));
        let mut i: usize = 0;
        while i < len
            invariant
                n == d.len(),
                self.data@.len() == n,
                w + len <= start,
                start + len <= n,
                end == start + len,
                0 <= i <= len,
                all_free(d, w as int, len as int),
                forall|k: int| start <= k < end ==> #[trigger] d[k] == Some(id),
                count_free(self.data@) == count_free(d),
                self.free_space == count_free(d),
                self.max_id == old(self).max_id,
                forall|k: int|
                    0 <= k < n ==> #[trigger] self.data@[k] == if w <= k < w + i {
                        Some(id)
                    } else if start <= k < start + i {
                        None
                    } else {
                        d[k]
                    },
            decreases len - i,
        {
            let ghost before = self.data@;
            assert(before[start + i] == Some(id));
            proof { lemma_count_free_update(before, start + i, None); }
            self.data.set(start + i, None);
            let ghost middle = self.data@;
            assert(middle[w + i] is None);
            proof { lemma_count_free_update(middle, w + i, Some(id)); }
            self.data.set(w + i, Some(id));
            i = i + 1;
        }
        assert(self.data@ =~= block_move(d, id));
    }
}

impl FileSystem {
    /// The checksum of the blocks.
    pub fn checksum(&self) -> (r: usize)
        ensures
            r == capped(checksum_of(self.blocks())),
    {
        let mut sum: usize = 0;
        let mut i: usize = 0;
        while i < self.data.len()
            invariant
                0 <= i <= self.data@.len(),
                sum == capped(checksum_of(self.data@.take(i as int))),
            decreases self.data.len() - i,
        {
            assert(self.data@.take(i as int + 1).drop_last() =~= self.data@.take(i as int));
            let v: usize = match self.data[i] {
                Some(id) => id as usize,
                None => 0,
            };
            let p = saturating_product(i, v);
            proof {
                lemma_capped_add(checksum_of(self.data@.take(i as int)), i as nat * v as nat);
            }
            sum = sum.saturating_add(p);
            i = i + 1;
        }
        assert(self.data@.take(i as int) =~= self.data@);
        sum
    }

    /// The blocks that a disk map describes.
    pub fn from_disk_map(map: &DiskMap) -> (r: Self)
        requires
            map.map@.len() <= u32::MAX,
        ensures
            r.wf(),
            r.blocks() == expand(map.map@),
            r.spec_max_id() == last_id(map.map@.len()),
    {
        let mut filesystem = FileSystem::new();
        let mut i: usize = 0;
        while i < map.map.len()
            invariant
                map.map@.len() <= u32::MAX,
                0 <= i <= map.map@.len(),
                filesystem.wf(),
                filesystem.blocks() == expand(map.map@.take(i as int)),
                filesystem.spec_max_id() == last_id(i as nat),
            decreases map.map.len() - i,
        {
            assert(map.map@.take(i as int + 1).drop_last() =~= map.map@.take(i as int));
            let c = map.map[i] as usize;
            if i % 2 == 0 {
                filesystem.add(i as u32 / 2, c);
            } else {
                filesystem.add_free(c);
            }
            i = i + 1;
        }
        assert(map.map@.take(i as int) =~= map.map@);
        filesystem
    }
}

impl DiskMap {
    /// The checksum after moving blocks one at a time from the end into the
    /// first free block, until none is free.
    pub fn filesystem_checksum(&self) -> (r: usize)
        requires
            self.map@.len() <= u32::MAX,
        ensures
            r == capped(checksum_of(after_moves(expand(self.map@), count_free(expand(self.map@))))),
    {
        let mut filesystem = FileSystem::from_disk_map(self);
        let ghost e = expand(self.map@);
        let ghost total = count_free(e);
        let ghost mut k: nat = 0;
        while filesystem.has_free()
            invariant
                filesystem.wf(),
                filesystem.blocks() == after_moves(e, k),
                k + count_free(filesystem.blocks()) == total,
                total == count_free(e),
            decreases count_free(filesystem.blocks()),
        {
            proof { lemma_move_one_count(filesystem.blocks()); }
            filesystem.move_one_left();
            proof { k = k + 1; }
        }
        filesystem.checksum()
    }

    /// The checksum after moving each file, from the highest id down, whole
    /// to the first free run before it that holds it.
    pub fn defragment(&self) -> (r: usize)
        requires
            self.map@.len() <= u32::MAX,
        ensures
            r == capped(checksum_of(moves_down(expand(self.map@), last_id(self.map@.len())))),
    {
        let mut filesystem = FileSystem::from_disk_map(self);
        let ghost goal = moves_down(expand(self.map@), last_id(self.map@.len()));
        let mut i = filesystem.max_id;
        while i >= 1
            invariant
                filesystem.wf(),
                moves_down(filesystem.blocks(), i) == goal,
            decreases i,
        {
            filesystem.move_block_left(i);
            i = i - 1;
        }
        filesystem.checksum()
    }
}

/// The digits of the input, if every character is one.
pub open spec fn disk_map_of(text: Seq<u8>) -> Option<Seq<u32>> {
    if forall|i: int| 0 <= i < text.len() ==> super::text::is_digit(#[trigger] text[i]) {
        Some(Seq::new(text.len(), |i: int| (text[i] - 48) as u32))
    } else {
        None
    }
}

impl DiskMap {
    /// Parses a line of digits.
    pub fn parse(s: &[u8]) -> (r: Result<DiskMap, String>)
        ensures
            r is Ok <==> disk_map_of(s@) is Some,
            r matches Ok(m) ==> disk_map_of(s@) == Some(m.map@),
    {
        let mut map: Vec<u32> = Vec::new();
        let mut i: usize = 0;
        while i < s.len()
            invariant
                0 <= i <= s@.len(),
                map@.len() == i,
                forall|j: int| 0 <= j < i ==> super::text::is_digit(#[trigger] s@[j]) && map@[j] == (s@[j] - 48) as u32,
            decreases s.len() - i,
        {
            if s[i] < 48 || s[i] > 57 {
                assert(!super::text::is_digit(s@[i as int]));
                return Err("invalid digit".to_owned());
            }
            map.push((s[i] - 48) as u32);
            i = i + 1;
        }
        assert(Seq::new(s@.len(), |j: int| (s@[j] - 48) as u32) =~= map@);
        Ok(DiskMap { map })
    }
}

impl std::str::FromStr for DiskMap {
    type Err = String;

    fn from_str(s: &str) -> (r: Result<Self, Self::Err>) {
        DiskMap::parse(s.as_bytes())
    }
}

impl Day for Instance {
    /// The checksum after compacting block by block, and after moving whole
    /// files.
    fn run(&self, input: String) -> (r: Result<DayResult, String>)
        ensures
            r is Ok <==> (disk_map_of(encode_utf8(input@)) matches Some(m) && m.len() <= u32::MAX),
            r matches Ok(d) ==> {
                let e = expand(disk_map_of(encode_utf8(input@))->Some_0);
                let n = disk_map_of(encode_utf8(input@))->Some_0.len();
                d.reports(
                    capped(checksum_of(after_moves(e, count_free(e)))) as nat,
                    capped(checksum_of(moves_down(e, last_id(n)))) as nat,
                )
            },
    {
        let map = DiskMap::parse(input.as_str().as_bytes())?;
        if map.map.len() > 4294967295 {
            return Err("disk map too long".to_owned());
        }
        let part1 = usize_to_string(map.filesystem_checksum());
        let part2 = Some(usize_to_string(map.defragment()));
        Ok(DayResult { part1, part2 })
    }
}

} // verus!
