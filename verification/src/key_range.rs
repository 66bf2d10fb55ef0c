//! The key range of each table: its smallest and largest key, by which a
//! read leaves out the tables that cannot hold the key it looks for.

use crate::keys::{key_le, key_order, lemma_key_lt_total, KeyOrder};
use crate::sst::{SSTablePath, SSTablePathView};
use vstd::prelude::*;

verus! {

/// The keys of one table lie from `smallest_key` to `biggest_key`.
#[derive(Debug)]
pub struct Range {
    pub smallest_key: Vec<u8>,
    pub biggest_key: Vec<u8>,
    pub sstable: SSTablePath,
}

/// The mathematical value of a [`Range`].
pub struct RangeView {
    pub smallest_key: Seq<u8>,
    pub biggest_key: Seq<u8>,
    pub sstable: SSTablePathView,
}

impl View for Range {
    type V = RangeView;

    open spec fn view(&self) -> RangeView {
        RangeView { smallest_key: self.smallest_key@, biggest_key: self.biggest_key@, sstable: self.sstable@ }
    }
}

impl RangeView {
    /// Whether `key` lies in the range, both ends included.
    pub open spec fn covers(self, key: Seq<u8>) -> bool {
        key_le(self.smallest_key, key) && key_le(key, self.biggest_key)
    }
}

/// The key ranges of the tables, each under the path of its data file, in
/// the order in which the paths were first set.
#[derive(Debug)]
pub struct KeyRange {
    pub paths: Vec<String>,
    pub ranges: Vec<Range>,
}

/// The mathematical value of a [`KeyRange`]: paths and ranges, side by side.
pub struct KeyRangeView {
    pub paths: Seq<Seq<char>>,
    pub ranges: Seq<RangeView>,
}

/// The values of the paths, in order.
pub open spec fn string_views(paths: Seq<String>) -> Seq<Seq<char>> {
    paths.map_values(|p: String| p@)
}

/// The values of the ranges, in order.
pub open spec fn range_views(ranges: Seq<Range>) -> Seq<RangeView> {
    ranges.map_values(|r: Range| r@)
}

impl View for KeyRange {
    type V = KeyRangeView;

    open spec fn view(&self) -> KeyRangeView {
        KeyRangeView { paths: string_views(self.paths@), ranges: range_views(self.ranges@) }
    }
}

impl KeyRangeView {
    /// Every path has its range, and no path occurs twice.
    pub open spec fn wf(self) -> bool {
        &&& self.paths.len() == self.ranges.len()
        &&& forall|i: int, j: int| 0 <= i < j < self.paths.len() ==> #[trigger] self.paths[i] != #[trigger] self.paths[j]
    }

    /// Where `path` stands, or -1.
    pub open spec fn position(self, path: Seq<char>, from: int) -> int
        decreases self.paths.len() - from,
    {
        if from < 0 || from >= self.paths.len() {
            -1
        } else if self.paths[from] == path {
            from
        } else {
            self.position(path, from + 1)
        }
    }

    /// The ranges after `range` has been set under `path`: in place of the
    /// range that the path had, or last where it had none.
    pub open spec fn with_range(self, path: Seq<char>, range: RangeView) -> KeyRangeView {
        let at = self.position(path, 0);
        if at >= 0 {
            KeyRangeView { paths: self.paths, ranges: self.ranges.update(at, range) }
        } else {
            KeyRangeView { paths: self.paths.push(path), ranges: self.ranges.push(range) }
        }
    }

    /// The ranges without the one under `path`.
    pub open spec fn without(self, path: Seq<char>) -> KeyRangeView {
        let at = self.position(path, 0);
        if at >= 0 {
            KeyRangeView { paths: self.paths.remove(at), ranges: self.ranges.remove(at) }
        } else {
            self
        }
    }

    /// The tables whose range covers `key`, in order.
    pub open spec fn candidates(self, key: Seq<u8>) -> Seq<SSTablePathView> {
        self.ranges.filter(|r: RangeView| r.covers(key)).map_values(|r: RangeView| r.sstable)
    }
}

/// Where a path stands, if it does, lies within the list and holds the path;
/// where it does not stand, no position holds it.
pub proof fn lemma_position(v: KeyRangeView, path: Seq<char>, from: int)
    requires
        0 <= from,
    ensures
        v.position(path, from) < v.paths.len(),
        v.position(path, from) >= 0 ==> v.position(path, from) >= from && v.paths[v.position(path, from)] == path,
        v.position(path, from) < 0 ==> forall|i: int| from <= i < v.paths.len() ==> #[trigger] v.paths[i] != path,
    decreases v.paths.len() - from,
{
    if from < v.paths.len() && v.paths[from] != path {
        lemma_position(v, path, from + 1);
    }
}

impl KeyRange {
    /// No ranges.
    pub fn new() -> (k: Self)
        ensures
            k@.wf(),
            k@.paths.len() == 0,
    {
        let k = Self { paths: Vec::new(), ranges: Vec::new() };
        proof {
            assert(k@.paths =~= Seq::<Seq<char>>::empty());
            assert(k@.ranges =~= Seq::<RangeView>::empty());
        }
        k
    }

    /// Where `path` stands.
    pub fn find(&self, path: &String) -> (r: Option<usize>)
        ensures
            r matches Some(i) ==> i == self@.position(path@, 0),
            r is None ==> self@.position(path@, 0) < 0,
    {
        let mut i: usize = 0;
        while i < self.paths.len()
            invariant
                i <= self.paths@.len(),
                self@.position(path@, 0) == self@.position(path@, i as int),
            decreases self.paths@.len() - i,
        {
            proof {
                assert(self@.paths[i as int] == self.paths@[i as int]@);
            }
            if self.paths[i] == *path {
                return Some(i);
            }
            i += 1;
        }
        None
    }

    /// Sets the key range of the table whose data file is `data_file_path`,
    /// in place of the range that the path had, or as a new one.
    pub fn set(&mut self, data_file_path: String, smallest_key: Vec<u8>, biggest_key: Vec<u8>, sstable: SSTablePath)
        requires
            old(self)@.wf(),
        ensures
            final(self)@.wf(),
            final(self)@ == old(self)@.with_range(data_file_path@, RangeView { smallest_key: smallest_key@, biggest_key: biggest_key@, sstable: sstable@ }),
    {
        let ghost before = self@;
        let range = Range { smallest_key, biggest_key, sstable };
        let ghost range_view = range@;
        proof {
            lemma_position(before, data_file_path@, 0);
        }
        match self.find(&data_file_path) {
            Some(i) => {
                self.ranges.set(i, range);
                proof {
                    assert(self@.ranges =~= before.ranges.update(i as int, range_view));
                    assert(self@.paths =~= before.paths);
                }
            },
            None => {
                self.paths.push(data_file_path);
                self.ranges.push(range);
                proof {
                    assert(self@.paths =~= before.paths.push(data_file_path@));
                    assert(self@.ranges =~= before.ranges.push(range_view));
                }
            },
        }
    }

    /// Forgets the key range of the table whose data file is
    /// `data_file_path`, as when the table has been compacted away.
    pub fn remove(&mut self, data_file_path: &String)
        requires
            old(self)@.wf(),
        ensures
            final(self)@.wf(),
            final(self)@ == old(self)@.without(data_file_path@),
    {
        let ghost before = self@;
        proof {
            lemma_position(before, data_file_path@, 0);
        }
        match self.find(data_file_path) {
            Some(i) => {
                self.paths.remove(i);
                self.ranges.remove(i);
                proof {
                    assert(self@.paths =~= before.paths.remove(i as int));
                    assert(self@.ranges =~= before.ranges.remove(i as int));
                    let after = self@.paths;
                    assert forall|a: int, b: int| 0 <= a < b < after.len() implies #[trigger] after[a] != #[trigger] after[b] by {
                        let x = if a < i { a } else { a + 1 };
                        let y = if b < i { b } else { b + 1 };
                        assert(after[a] == before.paths[x]);
                        assert(after[b] == before.paths[y]);
                    }
                }
            },
            None => {},
        }
    }

    /// The tables that may hold `key`: those whose range covers it, in
    /// order.
    pub fn filter(&self, key: &[u8]) -> (found: Vec<SSTablePath>)
        ensures
            crate::bucket_coordinator::path_views(found@) == self@.candidates(key@),
    {
        let mut found: Vec<SSTablePath> = Vec::new();
        let mut i: usize = 0;
        let ghost all = self@.ranges;
        let ghost covers = |r: RangeView| r.covers(key@);
        let ghost table = |r: RangeView| r.sstable;
        proof {
            reveal(Seq::filter);
            assert(all.take(0) =~= Seq::<RangeView>::empty());
            assert(crate::bucket_coordinator::path_views(found@) =~= all.take(0).filter(covers).map_values(table));
        }
        while i < self.ranges.len()
            invariant
                i <= self.ranges@.len(),
                all == self@.ranges,
                covers == (|r: RangeView| r.covers(key@)),
                table == (|r: RangeView| r.sstable),
                crate::bucket_coordinator::path_views(found@) == all.take(i as int).filter(covers).map_values(table),
            decreases self.ranges@.len() - i,
        {
            let r = &self.ranges[i];
            let low = key_order(r.smallest_key.as_slice(), key);
            let high = key_order(key, r.biggest_key.as_slice());
            let ghost done = all.take(i as int).filter(covers);
            proof {
                reveal(Seq::filter);
                lemma_key_lt_total(r.smallest_key@, key@);
                lemma_key_lt_total(key@, r.biggest_key@);
                assert(all.take(i + 1).drop_last() =~= all.take(i as int));
                assert(all.take(i + 1).last() == r@);
            }
            let below: bool = match low {
                KeyOrder::Greater => true,
                _ => false,
            };
            let above: bool = match high {
                KeyOrder::Greater => true,
                _ => false,
            };
            if !below && !above {
                let ghost before = crate::bucket_coordinator::path_views(found@);
                found.push(r.sstable.clone());
                proof {
                    assert(crate::bucket_coordinator::path_views(found@) =~= before.push(r@.sstable));
                    assert(done.push(r@).map_values(table) =~= done.map_values(table).push(table(r@)));
                }
            }
            i += 1;
        }
        proof {
            assert(all.take(self.ranges@.len() as int) =~= all);
        }
        found
    }
}

impl KeyRange {
    /// Whether every path has its range and no path occurs twice.
    pub fn is_valid(&self) -> (ok: bool)
        ensures
            ok == self@.wf(),
    {
        if self.paths.len() != self.ranges.len() {
            return false;
        }
        let n: usize = self.paths.len();
        let ghost paths = self@.paths;
        let mut b: usize = 0;
        while b < n
            invariant
                b <= n,
                n == self.paths@.len(),
                paths == self@.paths,
                forall|x: int, y: int| 0 <= x < y < b ==> #[trigger] paths[x] != #[trigger] paths[y],
            decreases n - b,
        {
            let mut a: usize = 0;
            while a < b
                invariant
                    a <= b < n,
                    n == self.paths@.len(),
                    paths == self@.paths,
                    forall|x: int| 0 <= x < a ==> #[trigger] paths[x] != paths[b as int],
                decreases b - a,
            {
                if self.paths[a] == self.paths[b] {
                    proof {
                        assert(paths[a as int] == paths[b as int]);
                    }
                    return false;
                }
                a += 1;
            }
            b += 1;
        }
        true
    }
}

} // verus!
