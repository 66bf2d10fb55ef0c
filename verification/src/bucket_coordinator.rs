//! Size-tiered placement: tables of similar size share a bucket, and a
//! bucket that has gathered enough tables is handed to compaction.
//!
//! A table fits a bucket when its size lies strictly between half and one
//! and a half times the bucket's average, or when both are below the
//! small-table limit.  Buckets are tried in the order they were created; a
//! table that fits none founds a new one.
use crate::clock::creation_stamp;
use crate::err::StorageEngineError;
use crate::paths::{digit_char, join_path, joined, push_str};
use crate::skip_index::ordered_entries;
use crate::sst::{raised, ProvideSizeInBytes, SSTable, SSTablePath, SSTablePathView, TableImage};
use crate::table_format::{buildable, fits_blocks, sparse_index_of, table_data};
use uuid::Uuid;
use vstd::prelude::*;

verus! {

/// Below this size, in bytes, tables share a bucket whatever the ratio of
/// their sizes.
pub const MIN_SSTABLE_SIZE: usize = 32;

/// A bucket is compacted once it holds this many tables.
pub const MIN_TRESHOLD: usize = 4;

/// At most this many tables of a bucket are compacted in one round.
pub const MAX_TRESHOLD: usize = 32;

/// The character of a hexadecimal digit, in lower case.
pub open spec fn hex_char(d: nat) -> char {
    if d < 10 {
        digit_char(d)
    } else if d == 10 {
        'a'
    } else if d == 11 {
        'b'
    } else if d == 12 {
        'c'
    } else if d == 13 {
        'd'
    } else if d == 14 {
        'e'
    } else {
        'f'
    }
}

/// The `width` low-order hexadecimal digits of `n`, most significant first.
pub open spec fn hex_digits(n: nat, width: nat) -> Seq<char>
    decreases width,
{
    if width == 0 {
        Seq::empty()
    } else {
        hex_digits(n / 16, (width - 1) as nat).push(hex_char(n % 16))
    }
}

/// A bucket id as text: its 32 hexadecimal digits in groups of 8, 4, 4, 4
/// and 12, separated by hyphens.
pub open spec fn uuid_text(id: u128) -> Seq<char> {
    let h = hex_digits(id as nat, 32);
    h.subrange(0, 8) + seq!['-'] + h.subrange(8, 12) + seq!['-'] + h.subrange(12, 16) + seq!['-'] + h.subrange(16, 20) + seq!['-'] + h.subrange(20, 32)
}

/// The directory of the bucket `id` under the store's directory `dir`.
pub open spec fn bucket_dir_of(dir: Seq<char>, id: u128) -> Seq<char> {
    joined(dir, "bucket"@ + uuid_text(id))
}

/// `Uuid::new_v4` and `Uuid::as_u128`: a random id.  Nothing is claimed of
/// the value.
#[verifier::external_body]
pub(crate) fn fresh_bucket_id() -> (id: u128) {
    Uuid::new_v4().as_u128()
}

/// `Uuid::from_u128` and the `Display` of `Uuid`: the id in the hyphenated
/// lower-case form.
#[verifier::external_body]
pub(crate) fn bucket_id_text(id: u128) -> (s: String)
    ensures
        s@ == uuid_text(id),
{
    Uuid::from_u128(id).to_string()
}

/// Whether a table of `size` bytes fits a bucket of the given average.
pub open spec fn fits_bucket(avarage_size: int, size: int) -> bool {
    (avarage_size < 2 * size && 2 * size < 3 * avarage_size) || (size < MIN_SSTABLE_SIZE && avarage_size < MIN_SSTABLE_SIZE)
}

/// The sizes of the tables' data files, in order.
pub open spec fn table_sizes(tables: Seq<SSTablePathView>) -> Seq<usize> {
    tables.map_values(|p: SSTablePathView| p.size)
}

/// The sum of the sizes.
pub open spec fn sum_sizes(sizes: Seq<usize>) -> nat
    decreases sizes.len(),
{
    if sizes.len() == 0 {
        0
    } else {
        sum_sizes(sizes.drop_last()) + sizes.last() as nat
    }
}

/// The arithmetic mean of the sizes, rounded down; 0 for none.
pub open spec fn mean_size(sizes: Seq<usize>) -> nat {
    if sizes.len() == 0 {
        0
    } else {
        sum_sizes(sizes) / sizes.len()
    }
}

/// The tables with each hotness count raised by one.
pub open spec fn all_raised(tables: Seq<SSTablePathView>) -> Seq<SSTablePathView> {
    Seq::new(
        tables.len(),
        |i: int| SSTablePathView { hotness: raised(tables[i].hotness), ..tables[i] },
    )
}

/// Whether one of the tables has the data file `path`.
pub open spec fn has_path(tables: Seq<SSTablePathView>, path: Seq<char>) -> bool {
    exists|i: int| 0 <= i < tables.len() && (#[trigger] tables[i]).data_file_path == path
}

/// A group of tables of similar size.
#[derive(Debug)]
pub struct Bucket {
    pub id: u128,
    pub dir: String,
    pub avarage_size: usize,
    /// The tables, oldest first.
    pub sstables: Vec<SSTablePath>,
}

/// The mathematical value of a [`Bucket`].
pub struct BucketView {
    pub id: u128,
    pub dir: Seq<char>,
    pub avarage_size: usize,
    pub sstables: Seq<SSTablePathView>,
}

/// The values of the tables, in order.
pub open spec fn path_views(tables: Seq<SSTablePath>) -> Seq<SSTablePathView> {
    tables.map_values(|p: SSTablePath| p@)
}

impl View for Bucket {
    type V = BucketView;

    open spec fn view(&self) -> BucketView {
        BucketView {
            id: self.id,
            dir: self.dir@,
            avarage_size: self.avarage_size,
            sstables: path_views(self.sstables@),
        }
    }
}

impl BucketView {
    /// No data file is larger than four bytes address, no two tables share
    /// a data file, and the average is the mean of the data files' sizes.
    pub open spec fn wf(self) -> bool {
        &&& forall|i: int| 0 <= i < self.sstables.len() ==> (#[trigger] self.sstables[i]).size <= u32::MAX
        &&& forall|i: int, j: int| 0 <= i < j < self.sstables.len() ==> (#[trigger] self.sstables[i]).data_file_path != (#[trigger] self.sstables[j]).data_file_path
        &&& self.avarage_size == mean_size(table_sizes(self.sstables))
    }

    /// Every table fits the bucket: its size lies strictly between half and
    /// one and a half times the average, or size and average are both below
    /// the small-table limit.
    pub open spec fn all_fit(self) -> bool {
        forall|i: int| 0 <= i < self.sstables.len() ==> fits_bucket(self.avarage_size as int, (#[trigger] self.sstables[i]).size as int)
    }

    /// The bucket after the table `path` has joined it: the table stands
    /// last, every table including it has been used once more, and the
    /// average is the new mean.
    pub open spec fn with_table(self, path: SSTablePathView) -> BucketView {
        BucketView {
            id: self.id,
            dir: self.dir,
            avarage_size: mean_size(table_sizes(self.sstables.push(path))) as usize,
            sstables: all_raised(self.sstables.push(path)),
        }
    }

    /// The bucket with the tables `tables` in place of its own.
    pub open spec fn holding(self, tables: Seq<SSTablePathView>) -> BucketView {
        BucketView {
            id: self.id,
            dir: self.dir,
            avarage_size: mean_size(table_sizes(tables)) as usize,
            sstables: tables,
        }
    }

    /// The bucket's first `count` tables, as handed to compaction.
    pub open spec fn first_tables(self, count: int) -> BucketView {
        BucketView { id: self.id, dir: self.dir, avarage_size: self.avarage_size, sstables: self.sstables.take(count) }
    }

    /// How many tables of the bucket one round of compaction takes.
    pub open spec fn batch_len(self) -> int {
        if self.sstables.len() < MAX_TRESHOLD {
            self.sstables.len() as int
        } else {
            MAX_TRESHOLD as int
        }
    }

    /// Whether the bucket is due for compaction.
    pub open spec fn due(self) -> bool {
        self.sstables.len() >= MIN_TRESHOLD
    }
}

/// A sum of sizes that each fit four bytes stays below the count times 2^32.
pub proof fn lemma_sum_bound(sizes: Seq<usize>)
    requires
        forall|i: int| 0 <= i < sizes.len() ==> #[trigger] sizes[i] <= u32::MAX,
    ensures
        sum_sizes(sizes) <= sizes.len() * u32::MAX,
        mean_size(sizes) <= u32::MAX,
    decreases sizes.len(),
{
    if sizes.len() > 0 {
        let before = sizes.drop_last();
        assert forall|i: int| 0 <= i < before.len() implies #[trigger] before[i] <= u32::MAX by {
            assert(before[i] == sizes[i]);
        }
        lemma_sum_bound(before);
        assert(sizes[sizes.len() - 1] <= u32::MAX);
        let n = sizes.len() as int;
        let total = sum_sizes(sizes) as int;
        assert((n - 1) * u32::MAX + u32::MAX == n * u32::MAX) by (nonlinear_arith);
        assert(total <= n * u32::MAX);
        assert(total / n <= u32::MAX) by (nonlinear_arith)
            requires
                total <= n * u32::MAX,
                n > 0,
        ;
    }
}

impl Bucket {
    /// An empty bucket with the id `id` under the store's directory `dir`.
    pub fn with_id(dir: &str, id: u128) -> (b: Bucket)
        ensures
            b@.wf(),
            b@.id == id,
            b@.dir == bucket_dir_of(dir@, id),
            b@.avarage_size == 0,
            b@.sstables.len() == 0,
    {
        let mut name: String = "bucket".to_owned();
        let text = bucket_id_text(id);
        push_str(&mut name, text.as_str());
        let b = Bucket { id, dir: join_path(dir, name.as_str()), avarage_size: 0, sstables: Vec::new() };
        proof {
            assert(b@.sstables =~= Seq::<SSTablePathView>::empty());
            assert(table_sizes(b@.sstables) =~= Seq::<usize>::empty());
        }
        b
    }

    /// An empty bucket with a fresh id under the store's directory `dir`.
    pub fn new(dir: &str) -> (b: Bucket)
        ensures
            b@.wf(),
            b@.dir == bucket_dir_of(dir@, b@.id),
            b@.avarage_size == 0,
            b@.sstables.len() == 0,
    {
        Bucket::with_id(dir, fresh_bucket_id())
    }

    /// Whether a table of `size` bytes fits the bucket.
    pub fn fits(&self, size: usize) -> (r: bool)
        ensures
            r == fits_bucket(self.avarage_size as int, size as int),
    {
        let avg: u128 = self.avarage_size as u128;
        let sz: u128 = size as u128;
        (avg < 2 * sz && 2 * sz < 3 * avg) || (size < MIN_SSTABLE_SIZE && self.avarage_size < MIN_SSTABLE_SIZE)
    }

    /// Whether one of the bucket's tables has the data file `path`.
    pub fn contains_path(&self, path: &String) -> (r: bool)
        ensures
            r == has_path(self@.sstables, path@),
    {
        let mut i: usize = 0;
        while i < self.sstables.len()
            invariant
                i <= self.sstables@.len(),
                forall|j: int| 0 <= j < i ==> (#[trigger] self@.sstables[j]).data_file_path != path@,
            decreases self.sstables@.len() - i,
        {
            if self.sstables[i].data_file_path == *path {
                proof {
                    assert(self@.sstables[i as int].data_file_path == path@);
                }
                return true;
            }
            i += 1;
        }
        false
    }

    /// The mean of the sizes of the tables' data files.
    pub fn mean(tables: &Vec<SSTablePath>) -> (m: usize)
        requires
            forall|i: int| 0 <= i < tables@.len() ==> (#[trigger] tables@[i]).size <= u32::MAX,
        ensures
            m == mean_size(table_sizes(path_views(tables@))),
    {
        let n: usize = tables.len();
        let ghost sizes = table_sizes(path_views(tables@));
        if n == 0 {
            return 0;
        }
        let mut total: u128 = 0;
        let mut i: usize = 0;
        proof {
            assert(sizes.take(0) =~= Seq::<usize>::empty());
        }
        while i < n
            invariant
                n == tables@.len(),
                sizes == table_sizes(path_views(tables@)),
                i <= n,
                total == sum_sizes(sizes.take(i as int)),
                total <= i * u32::MAX,
                forall|j: int| 0 <= j < tables@.len() ==> (#[trigger] tables@[j]).size <= u32::MAX,
            decreases n - i,
        {
            proof {
                assert(sizes.take(i + 1).drop_last() =~= sizes.take(i as int));
                assert(sizes[i as int] == tables@[i as int].size);
                assert(tables@[i as int].size <= u32::MAX);
                assert(i * u32::MAX + u32::MAX == (i + 1) * u32::MAX) by (nonlinear_arith);
                assert(i * u32::MAX <= usize::MAX * u32::MAX) by (nonlinear_arith)
                    requires
                        i <= usize::MAX,
                ;
            }
            total = total + tables[i].size as u128;
            i += 1;
        }
        proof {
            assert(sizes.take(n as int) =~= sizes);
            assert forall|j: int| 0 <= j < sizes.len() implies #[trigger] sizes[j] <= u32::MAX by {
                assert(sizes[j] == tables@[j].size);
            }
            lemma_sum_bound(sizes);
        }
        (total / (n as u128)) as usize
    }

    /// Lets the table `path` join the bucket: it is put last, every table
    /// including it is counted as used once more, and the average becomes
    /// the new mean.
    pub fn add_table(&mut self, path: SSTablePath)
        requires
            old(self)@.wf(),
            path.size <= u32::MAX,
            !has_path(old(self)@.sstables, path@.data_file_path),
        ensures
            final(self)@ == old(self)@.with_table(path@),
            final(self)@.wf(),
    {
        let ghost before = self@;
        self.sstables.push(path);
        let mut raised_tables: Vec<SSTablePath> = Vec::new();
        let mut i: usize = 0;
        let ghost pushed = path_views(self.sstables@);
        proof {
            assert(pushed =~= before.sstables.push(path@));
        }
        while i < self.sstables.len()
            invariant
                i <= self.sstables@.len(),
                pushed == path_views(self.sstables@),
                raised_tables@.len() == i,
                forall|j: int| 0 <= j < i ==> (#[trigger] raised_tables@[j])@ == all_raised(pushed)[j],
            decreases self.sstables@.len() - i,
        {
            let mut p = self.sstables[i].clone();
            p.increase_hotness();
            raised_tables.push(p);
            i += 1;
        }
        self.sstables = raised_tables;
        proof {
            assert(path_views(self.sstables@) =~= all_raised(pushed));
            assert forall|j: int| 0 <= j < self.sstables@.len() implies (#[trigger] self.sstables@[j]).size <= u32::MAX by {
                assert(self.sstables@[j]@ == all_raised(pushed)[j]);
                if j < before.sstables.len() {
                    assert(before.sstables[j].size <= u32::MAX);
                }
            }
            assert(table_sizes(all_raised(pushed)) =~= table_sizes(pushed));
        }
        self.avarage_size = Bucket::mean(&self.sstables);
        proof {
            let after = self@;
            let tables = after.sstables;
            assert forall|j: int| 0 <= j < tables.len() implies (#[trigger] tables[j]).size <= u32::MAX by {
                assert(tables[j] == self.sstables@[j]@);
            }
            assert forall|a: int, b: int| 0 <= a < b < tables.len() implies (#[trigger] tables[a]).data_file_path != (#[trigger] tables[b]).data_file_path by {
                assert(tables[a].data_file_path == pushed[a].data_file_path);
                assert(tables[b].data_file_path == pushed[b].data_file_path);
                if b < before.sstables.len() {
                    assert(before.sstables[a].data_file_path != before.sstables[b].data_file_path);
                } else {
                    assert(before.sstables[a].data_file_path != path@.data_file_path);
                }
            }
        }
    }
}

/// The buckets of a store, in the order they were created.
#[derive(Debug)]
pub struct BucketMap {
    pub dir: String,
    pub buckets: Vec<Bucket>,
}

/// The mathematical value of a [`BucketMap`].
pub struct BucketMapView {
    pub dir: Seq<char>,
    pub buckets: Seq<BucketView>,
}

/// The values of the buckets, in order.
pub open spec fn bucket_views(buckets: Seq<Bucket>) -> Seq<BucketView> {
    buckets.map_values(|b: Bucket| b@)
}

impl View for BucketMap {
    type V = BucketMapView;

    open spec fn view(&self) -> BucketMapView {
        BucketMapView { dir: self.dir@, buckets: bucket_views(self.buckets@) }
    }
}

/// The path of a table created at `created_at` in the directory `dir`.
pub open spec fn table_path_of(dir: Seq<char>, created_at: u64, hotness: u64, size: usize) -> SSTablePathView {
    SSTablePathView {
        dir,
        data_file_path: joined(dir, crate::paths::data_file_name_of(created_at)),
        index_file_path: joined(dir, crate::paths::index_file_name_of(created_at)),
        hotness,
        size,
    }
}

impl BucketMapView {
    /// Every bucket is well formed and holds a table, and no two buckets
    /// share an id.
    pub open spec fn wf(self) -> bool {
        &&& forall|i: int| 0 <= i < self.buckets.len() ==> (#[trigger] self.buckets[i]).wf() && self.buckets[i].sstables.len() > 0
        &&& forall|i: int, j: int| 0 <= i < j < self.buckets.len() ==> (#[trigger] self.buckets[i]).id != (#[trigger] self.buckets[j]).id
    }

    /// Whether a bucket has the id `id`.
    pub open spec fn has_id(self, id: u128) -> bool {
        exists|i: int| 0 <= i < self.buckets.len() && (#[trigger] self.buckets[i]).id == id
    }

    /// The first bucket from `from` on that a table of `size` bytes fits,
    /// or -1.
    pub open spec fn first_fit_from(self, size: int, from: int) -> int
        decreases self.buckets.len() - from,
    {
        if from < 0 || from >= self.buckets.len() {
            -1
        } else if fits_bucket(self.buckets[from].avarage_size as int, size) {
            from
        } else {
            self.first_fit_from(size, from + 1)
        }
    }

    /// The first bucket that a table of `size` bytes fits, or -1.
    pub open spec fn first_fit(self, size: int) -> int {
        self.first_fit_from(size, 0)
    }

    /// The path under which a table is placed: in the first bucket that its
    /// size fits, with the hotness given; in a new bucket where it fits
    /// none, with hotness 1.
    pub open spec fn placed_path(self, size: usize, data_len: usize, hotness: u64, created_at: u64, fresh_id: u128) -> SSTablePathView {
        let i = self.first_fit(size as int);
        if i >= 0 {
            table_path_of(self.buckets[i].dir, created_at, hotness, data_len)
        } else {
            table_path_of(bucket_dir_of(self.dir, fresh_id), created_at, 1, data_len)
        }
    }

    /// The buckets after a table has been placed, or nothing where it
    /// cannot be: where its data file exists in the bucket already, or
    /// where the id for a new bucket is taken.
    pub open spec fn placed(self, size: usize, data_len: usize, hotness: u64, created_at: u64, fresh_id: u128) -> Option<BucketMapView> {
        let i = self.first_fit(size as int);
        let path = self.placed_path(size, data_len, hotness, created_at, fresh_id);
        if i >= 0 {
            if has_path(self.buckets[i].sstables, path.data_file_path) {
                None
            } else {
                Some(BucketMapView { dir: self.dir, buckets: self.buckets.update(i, self.buckets[i].with_table(path)) })
            }
        } else if self.has_id(fresh_id) {
            None
        } else {
            Some(
                BucketMapView {
                    dir: self.dir,
                    buckets: self.buckets.push(
                        BucketView { id: fresh_id, dir: bucket_dir_of(self.dir, fresh_id), avarage_size: data_len, sstables: seq![path] },
                    ),
                },
            )
        }
    }
}

/// Where a table was placed, and what is to be written to disk for it.
#[derive(Debug)]
pub struct Placement {
    /// The table's path, with the hotness it was placed with.
    pub sstable_path: SSTablePath,
    /// The images of the table's files.
    pub image: TableImage,
    /// The bucket that holds the table.
    pub bucket_id: u128,
    /// Whether the bucket was created for the table, so that its directory
    /// is to be made.
    pub bucket_created: bool,
}

impl BucketMap {
    /// The store under `dir`, without buckets.
    pub fn new(dir: String) -> (m: BucketMap)
        ensures
            m@.wf(),
            m@.dir == dir@,
            m@.buckets.len() == 0,
    {
        let m = BucketMap { dir, buckets: Vec::new() };
        proof {
            assert(m@.buckets =~= Seq::<BucketView>::empty());
        }
        m
    }

    /// The first bucket that a table of `size` bytes fits.
    pub fn find_bucket(&self, size: usize) -> (r: Option<usize>)
        ensures
            r matches Some(i) ==> i == self@.first_fit(size as int) && i < self@.buckets.len(),
            r is None ==> self@.first_fit(size as int) < 0,
    {
        let mut i: usize = 0;
        while i < self.buckets.len()
            invariant
                i <= self.buckets@.len(),
                self@.first_fit(size as int) == self@.first_fit_from(size as int, i as int),
            decreases self.buckets@.len() - i,
        {
            proof {
                assert(self@.buckets[i as int] == self.buckets@[i as int]@);
            }
            if self.buckets[i].fits(size) {
                return Some(i);
            }
            i += 1;
        }
        None
    }

    /// Whether a bucket has the id `id`.
    pub fn contains_id(&self, id: u128) -> (r: bool)
        ensures
            r == self@.has_id(id),
    {
        let mut i: usize = 0;
        while i < self.buckets.len()
            invariant
                i <= self.buckets@.len(),
                forall|j: int| 0 <= j < i ==> (#[trigger] self@.buckets[j]).id != id,
            decreases self.buckets@.len() - i,
        {
            if self.buckets[i].id == id {
                proof {
                    assert(self@.buckets[i as int].id == id);
                }
                return true;
            }
            i += 1;
        }
        false
    }

    /// Places a table, created at `created_at`, in the first bucket that its
    /// size fits, or in a new bucket with the id `fresh_id` where it fits
    /// none, and returns where it was placed together with the images of
    /// its files.
    ///
    /// In a bucket that it joins, the table is put last with the hotness
    /// given, every table of the bucket including it is counted as used once
    /// more, and the average becomes the new mean.  A new bucket holds the
    /// table alone, at hotness 1.
    ///
    /// A table that cannot be written is refused with the error of
    /// [`SSTable::write_to_file`]; one whose data file exists in the bucket
    /// already, or for which the id of the new bucket is taken, with
    /// `FailedToInsertToBucket`.  A refusal leaves the buckets as they were.
    pub fn insert_table_at<T: ProvideSizeInBytes>(&mut self, table: &T, hotness: u64, created_at: u64, fresh_id: u128) -> (r: Result<Placement, StorageEngineError>)
        requires
            old(self)@.wf(),
        ensures
            final(self)@.wf(),
            r is Err ==> final(self)@ == old(self)@,
            !buildable(ordered_entries(table.index_view())) ==> r is Err,
            !buildable(ordered_entries(table.index_view())) ==> (r matches Err(e) ==> e == (if fits_blocks(ordered_entries(table.index_view())) {
                StorageEngineError::TableSizeOverflowError
            } else {
                StorageEngineError::BlockIsFullError
            })),
            buildable(ordered_entries(table.index_view())) ==> match old(self)@.placed(table.size_view(), table_data(ordered_entries(table.index_view())).len() as usize, hotness, created_at, fresh_id) {
                Some(after) => {
                    &&& r matches Ok(p)
                    &&& final(self)@ == after
                    &&& p.image.data@ == table_data(ordered_entries(table.index_view()))
                    &&& p.image.sparse_index@ == sparse_index_of(ordered_entries(table.index_view()))
                    &&& p.image.sparse_index.wf()
                    &&& p.sstable_path@ == old(self)@.placed_path(table.size_view(), p.image.data@.len() as usize, hotness, created_at, fresh_id)
                    &&& p.bucket_created == (old(self)@.first_fit(table.size_view() as int) < 0)
                    &&& final(self)@.has_id(p.bucket_id)
                },
                None => r matches Err(StorageEngineError::FailedToInsertToBucket(_)),
            },
    {
        let ghost before = self@;
        let ghost records = ordered_entries(table.index_view());
        let size: usize = table.size();
        match self.find_bucket(size) {
            Some(i) => {
                proof {
                    assert(before.buckets[i as int] == self.buckets@[i as int]@);
                }
                let mut sstable = SSTable::with_timestamp(self.buckets[i].dir.clone(), created_at);
                sstable.set_entries(table.get_index());
                let image = match sstable.write_to_file() {
                    Ok(image) => image,
                    Err(e) => {
                        return Err(e);
                    },
                };
                if self.buckets[i].contains_path(&sstable.data_file_path) {
                    return Err(StorageEngineError::FailedToInsertToBucket("a table with this data file is in the bucket already".to_owned()));
                }
                proof {
                    crate::table_laws::lemma_data_len(records);
                }
                let data_len: usize = image.data.len();
                let sstable_path = SSTablePath {
                    dir: sstable.sstable_dir,
                    data_file_path: sstable.data_file_path,
                    index_file_path: sstable.index_file_path,
                    hotness,
                    size: data_len,
                };
                let mut bucket = self.buckets.remove(i);
                bucket.add_table(sstable_path.clone());
                let bucket_id: u128 = bucket.id;
                let ghost joined_bucket = bucket@;
                self.buckets.insert(i, bucket);
                proof {
                    let after = self@;
                    assert(after.buckets =~= before.buckets.update(i as int, joined_bucket));
                    assert(joined_bucket.sstables.len() > 0);
                    assert(after.buckets[i as int].id == bucket_id);
                    assert forall|a: int| 0 <= a < after.buckets.len() implies (#[trigger] after.buckets[a]).wf() && after.buckets[a].sstables.len() > 0 by {
                        if a != i {
                            assert(after.buckets[a] == before.buckets[a]);
                        }
                    }
                    assert forall|a: int, b: int| 0 <= a < b < after.buckets.len() implies (#[trigger] after.buckets[a]).id != (#[trigger] after.buckets[b]).id by {
                        assert(after.buckets[a].id == before.buckets[a].id);
                        assert(after.buckets[b].id == before.buckets[b].id);
                    }
                }
                Ok(Placement { sstable_path, image, bucket_id, bucket_created: false })
            },
            None => {
                let mut bucket = Bucket::with_id(self.dir.as_str(), fresh_id);
                let mut sstable = SSTable::with_timestamp(bucket.dir.clone(), created_at);
                sstable.set_entries(table.get_index());
                let image = match sstable.write_to_file() {
                    Ok(image) => image,
                    Err(e) => {
                        return Err(e);
                    },
                };
                if self.contains_id(fresh_id) {
                    return Err(StorageEngineError::FailedToInsertToBucket("the id of the new bucket is taken".to_owned()));
                }
                proof {
                    crate::table_laws::lemma_data_len(records);
                }
                let data_len: usize = image.data.len();
                let sstable_path = SSTablePath {
                    dir: sstable.sstable_dir,
                    data_file_path: sstable.data_file_path,
                    index_file_path: sstable.index_file_path,
                    hotness: 1,
                    size: data_len,
                };
                bucket.sstables.push(sstable_path.clone());
                bucket.avarage_size = data_len;
                let ghost founded = bucket@;
                self.buckets.push(bucket);
                proof {
                    let after = self@;
                    assert(founded.sstables =~= seq![sstable_path@]);
                    assert(table_sizes(founded.sstables) =~= seq![data_len]);
                    assert(sum_sizes(seq![data_len]) == data_len) by {
                        let one = seq![data_len];
                        assert(one.len() == 1);
                        assert(one.last() == data_len);
                        assert(one.drop_last() =~= Seq::<usize>::empty());
                        assert(sum_sizes(one.drop_last()) == 0);
                        assert(sum_sizes(one) == sum_sizes(one.drop_last()) + one.last() as nat);
                    }
                    assert(founded.wf());
                    assert(after.buckets =~= before.buckets.push(founded));
                    assert(after.buckets[after.buckets.len() - 1].id == fresh_id);
                    assert forall|a: int| 0 <= a < after.buckets.len() implies (#[trigger] after.buckets[a]).wf() && after.buckets[a].sstables.len() > 0 by {
                        if a < before.buckets.len() {
                            assert(after.buckets[a] == before.buckets[a]);
                        }
                    }
                    assert forall|a: int, b: int| 0 <= a < b < after.buckets.len() implies (#[trigger] after.buckets[a]).id != (#[trigger] after.buckets[b]).id by {
                        assert(after.buckets[a] == before.buckets[a]);
                        if b < before.buckets.len() {
                            assert(after.buckets[b] == before.buckets[b]);
                        }
                    }
                }
                Ok(Placement { sstable_path, image, bucket_id: fresh_id, bucket_created: true })
            },
        }
    }

    /// Places a table in the first bucket that its size fits, or in a new
    /// bucket where it fits none, as [`BucketMap::insert_table_at`] does
    /// with the present time and a random id.
    pub fn insert_to_appropriate_bucket<T: ProvideSizeInBytes>(&mut self, table: &T, hotness: u64) -> (r: Result<Placement, StorageEngineError>)
        requires
            old(self)@.wf(),
        ensures
            final(self)@.wf(),
            r is Err ==> final(self)@ == old(self)@,
            !buildable(ordered_entries(table.index_view())) ==> r is Err,
            buildable(ordered_entries(table.index_view())) && old(self)@.buckets.len() == 0 ==> r is Ok,
            r matches Ok(p) ==> {
                &&& p.image.data@ == table_data(ordered_entries(table.index_view()))
                &&& p.image.sparse_index@ == sparse_index_of(ordered_entries(table.index_view()))
                &&& p.bucket_created == (old(self)@.first_fit(table.size_view() as int) < 0)
                &&& exists|created_at: u64, fresh_id: u128| #[trigger] old(self)@.placed(table.size_view(), p.image.data@.len() as usize, hotness, created_at, fresh_id) == Some(final(self)@)
            },
    {
        let created_at: u64 = creation_stamp();
        let fresh_id: u128 = fresh_bucket_id();
        let r = self.insert_table_at(table, hotness, created_at, fresh_id);
        proof {
            crate::table_laws::lemma_data_len(ordered_entries(table.index_view()));
        }
        r
    }
}

/// The value of a list of tables to delete.
pub open spec fn deletion_views(list: Seq<(u128, Vec<SSTablePath>)>) -> Seq<(u128, Seq<SSTablePathView>)> {
    list.map_values(|e: (u128, Vec<SSTablePath>)| (e.0, path_views(e.1@)))
}

/// Whether the data file `path` is listed for the bucket `id`.
pub open spec fn listed(list: Seq<(u128, Seq<SSTablePathView>)>, id: u128, path: Seq<char>) -> bool {
    exists|k: int| 0 <= k < list.len() && (#[trigger] list[k]).0 == id && has_path(list[k].1, path)
}

impl BucketView {
    /// The bucket without the tables listed for it.
    pub open spec fn pruned(self, list: Seq<(u128, Seq<SSTablePathView>)>) -> BucketView {
        self.holding(self.sstables.filter(|p: SSTablePathView| !listed(list, self.id, p.data_file_path)))
    }
}

impl BucketMapView {
    /// The buckets that are due for compaction, in order.
    pub open spec fn due_buckets(self) -> Seq<BucketView> {
        self.buckets.filter(|b: BucketView| b.due())
    }

    /// What compaction is to merge: of each bucket that is due, the oldest
    /// tables, up to the limit of one round.
    pub open spec fn compaction_set(self) -> Seq<BucketView> {
        self.due_buckets().map_values(|b: BucketView| b.first_tables(b.batch_len()))
    }

    /// What is to be deleted once compaction is done: for each bucket that
    /// is due, the tables that compaction merges.
    pub open spec fn deletion_list(self) -> Seq<(u128, Seq<SSTablePathView>)> {
        self.due_buckets().map_values(|b: BucketView| (b.id, b.sstables.take(b.batch_len())))
    }

    /// The buckets without the listed tables; a bucket left without tables
    /// is dropped.
    pub open spec fn without_tables(self, list: Seq<(u128, Seq<SSTablePathView>)>) -> BucketMapView {
        BucketMapView {
            dir: self.dir,
            buckets: self.buckets.map_values(|b: BucketView| b.pruned(list)).filter(|b: BucketView| b.sstables.len() > 0),
        }
    }
}

/// Copies the first `count` tables.
pub fn copy_first(tables: &Vec<SSTablePath>, count: usize) -> (r: Vec<SSTablePath>)
    requires
        count <= tables@.len(),
    ensures
        path_views(r@) == path_views(tables@).take(count as int),
{
    let mut r: Vec<SSTablePath> = Vec::new();
    let mut i: usize = 0;
    while i < count
        invariant
            i <= count <= tables@.len(),
            r@.len() == i,
            forall|j: int| 0 <= j < i ==> (#[trigger] r@[j])@ == tables@[j]@,
        decreases count - i,
    {
        r.push(tables[i].clone());
        i += 1;
    }
    proof {
        assert(path_views(r@) =~= path_views(tables@).take(count as int));
    }
    r
}

/// Whether the data file `path` is listed for the bucket `id`.
pub fn is_listed(list: &Vec<(u128, Vec<SSTablePath>)>, id: u128, path: &String) -> (r: bool)
    ensures
        r == listed(deletion_views(list@), id, path@),
{
    let ghost views = deletion_views(list@);
    let mut k: usize = 0;
    while k < list.len()
        invariant
            k <= list@.len(),
            views == deletion_views(list@),
            forall|a: int| 0 <= a < k ==> !((#[trigger] views[a]).0 == id && has_path(views[a].1, path@)),
        decreases list@.len() - k,
    {
        if list[k].0 == id {
            let tables = &list[k].1;
            let mut i: usize = 0;
            proof {
                assert(views[k as int].1 == path_views(tables@));
            }
            while i < tables.len()
                invariant
                    i <= tables@.len(),
                    k < list@.len(),
                    views == deletion_views(list@),
                    views[k as int].0 == id,
                    views[k as int].1 == path_views(tables@),
                    forall|j: int| 0 <= j < i ==> (#[trigger] path_views(tables@)[j]).data_file_path != path@,
                decreases tables@.len() - i,
            {
                if tables[i].data_file_path == *path {
                    proof {
                        assert(path_views(tables@)[i as int].data_file_path == path@);
                        assert(has_path(views[k as int].1, path@));
                    }
                    return true;
                }
                i += 1;
            }
        }
        k += 1;
    }
    false
}

impl BucketMap {
    /// Selects what to compact: of every bucket that holds at least
    /// `MIN_TRESHOLD` tables, its oldest tables, at most `MAX_TRESHOLD` of
    /// them.  Returns these buckets, cut down to the selected tables, and the
    /// list of the tables to delete once they are merged.
    pub fn extract_buckets_to_compact(&self) -> (r: (Vec<Bucket>, Vec<(u128, Vec<SSTablePath>)>))
        ensures
            bucket_views(r.0@) == self@.compaction_set(),
            deletion_views(r.1@) == self@.deletion_list(),
    {
        let mut sstables_to_delete: Vec<(u128, Vec<SSTablePath>)> = Vec::new();
        let mut buckets_to_compact: Vec<Bucket> = Vec::new();
        let mut i: usize = 0;
        let ghost all = self@.buckets;
        let ghost is_due = |b: BucketView| b.due();
        let ghost cut = |b: BucketView| b.first_tables(b.batch_len());
        let ghost entry = |b: BucketView| (b.id, b.sstables.take(b.batch_len()));
        proof {
            reveal(Seq::filter);
            assert(all.take(0) =~= Seq::<BucketView>::empty());
            assert(bucket_views(buckets_to_compact@) =~= all.take(0).filter(is_due).map_values(cut));
            assert(deletion_views(sstables_to_delete@) =~= all.take(0).filter(is_due).map_values(entry));
        }
        while i < self.buckets.len()
            invariant
                i <= self.buckets@.len(),
                all == self@.buckets,
                is_due == (|b: BucketView| b.due()),
                cut == (|b: BucketView| b.first_tables(b.batch_len())),
                entry == (|b: BucketView| (b.id, b.sstables.take(b.batch_len()))),
                bucket_views(buckets_to_compact@) == all.take(i as int).filter(is_due).map_values(cut),
                deletion_views(sstables_to_delete@) == all.take(i as int).filter(is_due).map_values(entry),
            decreases self.buckets@.len() - i,
        {
            let b = &self.buckets[i];
            let ghost done = all.take(i as int).filter(is_due);
            proof {
                reveal(Seq::filter);
                assert(all.take(i + 1).drop_last() =~= all.take(i as int));
                assert(all.take(i + 1).last() == b@);
            }
            if b.sstables.len() >= MIN_TRESHOLD {
                let count: usize = if b.sstables.len() < MAX_TRESHOLD {
                    b.sstables.len()
                } else {
                    MAX_TRESHOLD
                };
                let ghost compact_before = bucket_views(buckets_to_compact@);
                let ghost delete_before = deletion_views(sstables_to_delete@);
                let listed_tables = copy_first(&b.sstables, count);
                let ghost listed_views = path_views(listed_tables@);
                sstables_to_delete.push((b.id, listed_tables));
                let selected = Bucket { sstables: copy_first(&b.sstables, count), id: b.id, dir: b.dir.clone(), avarage_size: b.avarage_size };
                let ghost selected_view = selected@;
                buckets_to_compact.push(selected);
                proof {
                    assert(selected_view == cut(b@));
                    assert((b.id, listed_views) == entry(b@));
                    assert(bucket_views(buckets_to_compact@) =~= compact_before.push(selected_view));
                    assert(deletion_views(sstables_to_delete@) =~= delete_before.push((b.id, listed_views)));
                    assert(done.push(b@).map_values(cut) =~= done.map_values(cut).push(cut(b@)));
                    assert(done.push(b@).map_values(entry) =~= done.map_values(entry).push(entry(b@)));
                }
            }
            i += 1;
        }
        proof {
            assert(all.take(self.buckets@.len() as int) =~= all);
        }
        (buckets_to_compact, sstables_to_delete)
    }
}

/// Filtering keeps what is told apart by a key told apart, and keeps
/// only elements of the sequence that satisfy the predicate.
pub proof fn lemma_filter_injective<A, K>(s: Seq<A>, pred: spec_fn(A) -> bool, key: spec_fn(A) -> K)
    requires
        forall|i: int, j: int| 0 <= i < j < s.len() ==> #[trigger] key(s[i]) != #[trigger] key(s[j]),
    ensures
        forall|i: int, j: int| 0 <= i < j < s.filter(pred).len() ==> #[trigger] key(s.filter(pred)[i]) != #[trigger] key(s.filter(pred)[j]),
        forall|i: int| 0 <= i < s.filter(pred).len() ==> s.contains(#[trigger] s.filter(pred)[i]) && pred(s.filter(pred)[i]),
    decreases s.len(),
{
    reveal(Seq::filter);
    let kept = s.filter(pred);
    if s.len() > 0 {
        let before = s.drop_last();
        let last = s.last();
        let kept_before = before.filter(pred);
        assert forall|i: int, j: int| 0 <= i < j < before.len() implies #[trigger] key(before[i]) != #[trigger] key(before[j]) by {
            assert(key(s[i]) != key(s[j]));
        }
        lemma_filter_injective(before, pred, key);
        assert forall|i: int| 0 <= i < kept.len() implies s.contains(#[trigger] kept[i]) && pred(kept[i]) by {
            if i < kept_before.len() {
                assert(before.contains(kept_before[i]));
                let w = choose|w: int| 0 <= w < before.len() && before[w] == kept_before[i];
                assert(s[w] == kept[i]);
            } else {
                assert(s[s.len() - 1] == kept[i]);
            }
        }
        assert forall|i: int, j: int| 0 <= i < j < kept.len() implies #[trigger] key(kept[i]) != #[trigger] key(kept[j]) by {
            if j < kept_before.len() {
                assert(key(kept_before[i]) != key(kept_before[j]));
            } else {
                assert(before.contains(kept_before[i]));
                let w = choose|w: int| 0 <= w < before.len() && before[w] == kept_before[i];
                assert(key(s[w]) != key(s[s.len() - 1]));
            }
        }
    }
}

/// Filtering by a predicate that holds of no element leaves nothing, and
/// by one that holds of every element leaves the sequence.
pub proof fn lemma_filter_none_or_all<A>(s: Seq<A>, pred: spec_fn(A) -> bool)
    ensures
        (forall|i: int| 0 <= i < s.len() ==> !pred(#[trigger] s[i])) ==> s.filter(pred) == Seq::<A>::empty(),
        (forall|i: int| 0 <= i < s.len() ==> pred(#[trigger] s[i])) ==> s.filter(pred) == s,
    decreases s.len(),
{
    reveal(Seq::filter);
    if s.len() > 0 {
        let before = s.drop_last();
        lemma_filter_none_or_all(before, pred);
        if forall|i: int| 0 <= i < s.len() ==> !pred(#[trigger] s[i]) {
            assert forall|i: int| 0 <= i < before.len() implies !pred(#[trigger] before[i]) by {
                assert(before[i] == s[i]);
            }
            assert(!pred(s[s.len() - 1]));
        }
        if forall|i: int| 0 <= i < s.len() ==> pred(#[trigger] s[i]) {
            assert forall|i: int| 0 <= i < before.len() implies pred(#[trigger] before[i]) by {
                assert(before[i] == s[i]);
            }
            assert(pred(s[s.len() - 1]));
            assert(before.push(s.last()) =~= s);
        }
    } else {
        assert(s.filter(pred) =~= Seq::<A>::empty());
        assert(s =~= Seq::<A>::empty());
    }
}

/// A bucket without some of its tables is well formed.
pub proof fn lemma_pruned_wf(b: BucketView, list: Seq<(u128, Seq<SSTablePathView>)>)
    requires
        b.wf(),
    ensures
        b.pruned(list).wf(),
        b.pruned(list).id == b.id,
{
    let pred = |p: SSTablePathView| !listed(list, b.id, p.data_file_path);
    let key = |p: SSTablePathView| p.data_file_path;
    let kept = b.sstables.filter(pred);
    assert forall|i: int, j: int| 0 <= i < j < b.sstables.len() implies #[trigger] key(b.sstables[i]) != #[trigger] key(b.sstables[j]) by {
        assert(b.sstables[i].data_file_path != b.sstables[j].data_file_path);
    }
    lemma_filter_injective(b.sstables, pred, key);
    assert forall|i: int| 0 <= i < kept.len() implies (#[trigger] kept[i]).size <= u32::MAX by {
        assert(b.sstables.contains(kept[i]));
        let w = choose|w: int| 0 <= w < b.sstables.len() && b.sstables[w] == kept[i];
        assert(b.sstables[w].size <= u32::MAX);
    }
    assert forall|i: int, j: int| 0 <= i < j < kept.len() implies (#[trigger] kept[i]).data_file_path != (#[trigger] kept[j]).data_file_path by {
        assert(key(kept[i]) != key(kept[j]));
    }
    let sizes = table_sizes(kept);
    assert forall|i: int| 0 <= i < sizes.len() implies #[trigger] sizes[i] <= u32::MAX by {
        assert(sizes[i] == kept[i].size);
    }
    lemma_sum_bound(sizes);
}

/// Buckets without some of their tables are well formed.
pub proof fn lemma_without_tables_wf(m: BucketMapView, list: Seq<(u128, Seq<SSTablePathView>)>)
    requires
        m.wf(),
    ensures
        m.without_tables(list).wf(),
{
    let prune = |b: BucketView| b.pruned(list);
    let nonempty = |b: BucketView| b.sstables.len() > 0;
    let key = |b: BucketView| b.id;
    let pruned = m.buckets.map_values(prune);
    let after = pruned.filter(nonempty);
    assert forall|i: int| 0 <= i < pruned.len() implies (#[trigger] pruned[i]).wf() && pruned[i].id == m.buckets[i].id by {
        lemma_pruned_wf(m.buckets[i], list);
    }
    assert forall|i: int, j: int| 0 <= i < j < pruned.len() implies #[trigger] key(pruned[i]) != #[trigger] key(pruned[j]) by {
        assert(m.buckets[i].id != m.buckets[j].id);
    }
    lemma_filter_injective(pruned, nonempty, key);
    assert forall|i: int| 0 <= i < after.len() implies (#[trigger] after[i]).wf() && after[i].sstables.len() > 0 by {
        assert(pruned.contains(after[i]));
        let w = choose|w: int| 0 <= w < pruned.len() && pruned[w] == after[i];
        assert(pruned[w].wf());
        assert(nonempty(after[i]));
    }
    assert forall|i: int, j: int| 0 <= i < j < after.len() implies (#[trigger] after[i]).id != (#[trigger] after[j]).id by {
        assert(key(after[i]) != key(after[j]));
    }
}

impl Bucket {
    /// Copies of the bucket's tables that are not listed for it.
    pub fn unlisted_tables(&self, list: &Vec<(u128, Vec<SSTablePath>)>) -> (kept: Vec<SSTablePath>)
        ensures
            path_views(kept@) == self@.pruned(deletion_views(list@)).sstables,
    {
        let mut kept: Vec<SSTablePath> = Vec::new();
        let mut i: usize = 0;
        let ghost tables = self@.sstables;
        let ghost views = deletion_views(list@);
        let ghost pred = |p: SSTablePathView| !listed(views, self.id, p.data_file_path);
        proof {
            reveal(Seq::filter);
            assert(tables.take(0) =~= Seq::<SSTablePathView>::empty());
            assert(path_views(kept@) =~= tables.take(0).filter(pred));
        }
        while i < self.sstables.len()
            invariant
                i <= self.sstables@.len(),
                tables == self@.sstables,
                views == deletion_views(list@),
                pred == (|p: SSTablePathView| !listed(views, self.id, p.data_file_path)),
                path_views(kept@) == tables.take(i as int).filter(pred),
            decreases self.sstables@.len() - i,
        {
            let p = &self.sstables[i];
            proof {
                reveal(Seq::filter);
                assert(tables.take(i + 1).drop_last() =~= tables.take(i as int));
                assert(tables.take(i + 1).last() == p@);
            }
            if !is_listed(list, self.id, &p.data_file_path) {
                let ghost before = path_views(kept@);
                kept.push(p.clone());
                proof {
                    assert(path_views(kept@) =~= before.push(p@));
                }
            }
            i += 1;
        }
        proof {
            assert(tables.take(self.sstables@.len() as int) =~= tables);
        }
        kept
    }
}

impl BucketMap {
    /// Forgets the listed tables, bucket by bucket; to be called once
    /// compaction has merged them.  Each bucket's average becomes the mean
    /// of the tables it keeps, and a bucket that keeps none is dropped.
    pub fn delete_sstables(&mut self, sstables_to_delete: Vec<(u128, Vec<SSTablePath>)>)
        requires
            old(self)@.wf(),
        ensures
            final(self)@ == old(self)@.without_tables(deletion_views(sstables_to_delete@)),
            final(self)@.wf(),
    {
        let ghost before = self@;
        let ghost list = deletion_views(sstables_to_delete@);
        let ghost prune = |b: BucketView| b.pruned(list);
        let ghost nonempty = |b: BucketView| b.sstables.len() > 0;
        let mut remaining: Vec<Bucket> = Vec::new();
        let mut i: usize = 0;
        proof {
            reveal(Seq::filter);
            assert(before.buckets.take(0) =~= Seq::<BucketView>::empty());
            assert(bucket_views(remaining@) =~= before.buckets.take(0).map_values(prune).filter(nonempty));
        }
        while i < self.buckets.len()
            invariant
                i <= self.buckets@.len(),
                before == self@,
                before.wf(),
                list == deletion_views(sstables_to_delete@),
                prune == (|b: BucketView| b.pruned(list)),
                nonempty == (|b: BucketView| b.sstables.len() > 0),
                bucket_views(remaining@) == before.buckets.take(i as int).map_values(prune).filter(nonempty),
            decreases self.buckets@.len() - i,
        {
            let b = &self.buckets[i];
            let kept = b.unlisted_tables(&sstables_to_delete);
            proof {
                reveal(Seq::filter);
                let done = before.buckets.take(i as int).map_values(prune);
                let next = before.buckets.take(i + 1).map_values(prune);
                assert(before.buckets[i as int] == b@);
                assert(next.drop_last() =~= done);
                assert(next.last() == b@.pruned(list));
                lemma_pruned_wf(b@, list);
                assert forall|j: int| 0 <= j < kept@.len() implies (#[trigger] kept@[j]).size <= u32::MAX by {
                    assert(path_views(kept@)[j] == kept@[j]@);
                }
            }
            if kept.len() > 0 {
                let avarage_size: usize = Bucket::mean(&kept);
                let ghost views_before = bucket_views(remaining@);
                let pruned_bucket = Bucket { id: b.id, dir: b.dir.clone(), avarage_size, sstables: kept };
                let ghost pruned_view = pruned_bucket@;
                remaining.push(pruned_bucket);
                proof {
                    assert(pruned_view == b@.pruned(list));
                    assert(bucket_views(remaining@) =~= views_before.push(pruned_view));
                }
            }
            i += 1;
        }
        proof {
            assert(before.buckets.take(self.buckets@.len() as int) =~= before.buckets);
            lemma_without_tables_wf(before, list);
        }
        self.buckets = remaining;
    }
}

/// What compaction leaves of a bucket: without its oldest tables, up to the
/// limit of one round, where the bucket was due; the bucket as it is
/// where it was not.
pub open spec fn after_compaction(b: BucketView) -> BucketView {
    if b.due() {
        b.holding(b.sstables.skip(b.batch_len()))
    } else {
        b
    }
}

/// Deleting what was selected for compaction removes the selected tables
/// and no others: of every bucket that was due, exactly the tables after
/// the compacted ones remain, in their order; every other bucket is as it
/// was; and a bucket of which nothing remains is dropped.
pub proof fn lemma_delete_after_compaction_leaves_tail(m: BucketMapView)
    requires
        m.wf(),
    ensures
        m.without_tables(m.deletion_list()).buckets == m.buckets.map_values(|b: BucketView| after_compaction(b)).filter(|b: BucketView| b.sstables.len() > 0),
        m.without_tables(m.deletion_list()).wf(),
{
    let list = m.deletion_list();
    let prune = |b: BucketView| b.pruned(list);
    let leave = |b: BucketView| after_compaction(b);
    assert forall|i: int| 0 <= i < m.buckets.len() implies #[trigger] prune(m.buckets[i]) == leave(m.buckets[i]) by {
        lemma_pruned_is_tail(m, i);
    }
    assert(m.buckets.map_values(prune) =~= m.buckets.map_values(leave));
    lemma_without_tables_wf(m, list);
}

/// What the deletion list holds for a bucket that is due.
pub open spec fn deletion_entry(b: BucketView) -> (u128, Seq<SSTablePathView>) {
    (b.id, b.sstables.take(b.batch_len()))
}

/// Every entry of the deletion list belongs to a bucket that is due.
pub proof fn lemma_deletion_entry_source(m: BucketMapView, k: int) -> (i: int)
    requires
        0 <= k < m.deletion_list().len(),
    ensures
        0 <= i < m.buckets.len(),
        m.buckets[i].due(),
        m.deletion_list()[k] == deletion_entry(m.buckets[i]),
{
    let is_due = |b: BucketView| b.due();
    let due = m.buckets.filter(is_due);
    m.buckets.lemma_filter_pred(is_due, k);
    assert(due.contains(due[k]));
    m.buckets.lemma_filter_contains_rev(is_due, due[k]);
    let i = choose|i: int| 0 <= i < m.buckets.len() && m.buckets[i] == due[k];
    assert(is_due(due[k]));
    i
}

/// Every bucket that is due has its entry in the deletion list.
pub proof fn lemma_deletion_entry_exists(m: BucketMapView, i: int) -> (k: int)
    requires
        0 <= i < m.buckets.len(),
        m.buckets[i].due(),
    ensures
        0 <= k < m.deletion_list().len(),
        m.deletion_list()[k] == deletion_entry(m.buckets[i]),
{
    let is_due = |b: BucketView| b.due();
    let due = m.buckets.filter(is_due);
    assert(is_due(m.buckets[i]));
    m.buckets.lemma_filter_contains(is_due, i);
    let k = choose|k: int| 0 <= k < due.len() && due[k] == m.buckets[i];
    k
}

/// A table of a bucket is listed for deletion exactly when the bucket is
/// due and the table is among those that one round of compaction takes.
pub proof fn lemma_listed_is_batch(m: BucketMapView, i: int, j: int)
    requires
        m.wf(),
        0 <= i < m.buckets.len(),
        0 <= j < m.buckets[i].sstables.len(),
    ensures
        listed(m.deletion_list(), m.buckets[i].id, m.buckets[i].sstables[j].data_file_path) <==> (m.buckets[i].due() && j < m.buckets[i].batch_len()),
{
    let b = m.buckets[i];
    let list = m.deletion_list();
    let batch = b.batch_len();
    let path = b.sstables[j].data_file_path;
    if b.due() && j < batch {
        let k = lemma_deletion_entry_exists(m, i);
        assert(list[k].1[j].data_file_path == path);
        assert(has_path(list[k].1, path));
        assert(list[k].0 == b.id);
    }
    if listed(list, b.id, path) {
        let k = choose|k: int| 0 <= k < list.len() && (#[trigger] list[k]).0 == b.id && has_path(list[k].1, path);
        let other = lemma_deletion_entry_source(m, k);
        if other < i {
            assert(m.buckets[other].id != m.buckets[i].id);
        } else if i < other {
            assert(m.buckets[i].id != m.buckets[other].id);
        }
        assert(other == i);
        let a = choose|a: int| 0 <= a < list[k].1.len() && (#[trigger] list[k].1[a]).data_file_path == path;
        assert(list[k].1[a] == b.sstables[a]);
        if a < j {
            assert(b.sstables[a].data_file_path != b.sstables[j].data_file_path);
        } else if j < a {
            assert(b.sstables[j].data_file_path != b.sstables[a].data_file_path);
        }
        assert(a == j);
    }
}

/// Of one bucket, deleting what was selected for compaction leaves what
/// [`after_compaction`] says.
pub proof fn lemma_pruned_is_tail(m: BucketMapView, i: int)
    requires
        m.wf(),
        0 <= i < m.buckets.len(),
    ensures
        m.buckets[i].pruned(m.deletion_list()) == after_compaction(m.buckets[i]),
{
    let b = m.buckets[i];
    let list = m.deletion_list();
    let batch = b.batch_len();
    let pred = |p: SSTablePathView| !listed(list, b.id, p.data_file_path);
    if b.due() {
        let head = b.sstables.take(batch);
        let tail = b.sstables.skip(batch);
        assert forall|j: int| 0 <= j < head.len() implies !pred(#[trigger] head[j]) by {
            assert(head[j] == b.sstables[j]);
            lemma_listed_is_batch(m, i, j);
        }
        assert forall|j: int| 0 <= j < tail.len() implies pred(#[trigger] tail[j]) by {
            assert(tail[j] == b.sstables[batch + j]);
            lemma_listed_is_batch(m, i, batch + j);
        }
        lemma_filter_none_or_all(head, pred);
        lemma_filter_none_or_all(tail, pred);
        assert(b.sstables =~= head + tail);
        Seq::filter_distributes_over_add(head, tail, pred);
        assert(b.sstables.filter(pred) =~= tail);
    } else {
        assert forall|j: int| 0 <= j < b.sstables.len() implies pred(#[trigger] b.sstables[j]) by {
            lemma_listed_is_batch(m, i, j);
        }
        lemma_filter_none_or_all(b.sstables, pred);
        assert(b.holding(b.sstables) == b);
    }
}

/// The first fit, where there is one, is a bucket that the size fits.
pub proof fn lemma_first_fit(m: BucketMapView, size: int, from: int)
    requires
        0 <= from,
    ensures
        m.first_fit_from(size, from) < m.buckets.len(),
        m.first_fit_from(size, from) >= 0 ==> m.first_fit_from(size, from) >= from && fits_bucket(m.buckets[m.first_fit_from(size, from)].avarage_size as int, size),
    decreases m.buckets.len() - from,
{
    if from < m.buckets.len() && !fits_bucket(m.buckets[from].avarage_size as int, size) {
        lemma_first_fit(m, size, from + 1);
    }
}

/// The mean of sizes that are all at most a bound is at most the bound.
pub proof fn lemma_mean_within(sizes: Seq<usize>, bound: int)
    requires
        0 <= bound,
        forall|i: int| 0 <= i < sizes.len() ==> #[trigger] sizes[i] <= bound,
    ensures
        sum_sizes(sizes) <= sizes.len() * bound,
        mean_size(sizes) <= bound,
    decreases sizes.len(),
{
    if sizes.len() > 0 {
        let before = sizes.drop_last();
        assert forall|i: int| 0 <= i < before.len() implies #[trigger] before[i] <= bound by {
            assert(before[i] == sizes[i]);
        }
        lemma_mean_within(before, bound);
        assert(sizes[sizes.len() - 1] <= bound);
        let n = sizes.len() as int;
        let total = sum_sizes(sizes) as int;
        assert((n - 1) * bound + bound == n * bound) by (nonlinear_arith);
        assert(total <= n * bound);
        assert(total / n <= bound) by (nonlinear_arith)
            requires
                total <= n * bound,
                n > 0,
        ;
    }
}

/// A bucket founded for a table fits it: a bucket that holds one table,
/// with that table's size as its average.
pub proof fn lemma_founded_bucket_fits(b: BucketView)
    requires
        b.sstables.len() == 1,
        b.avarage_size == b.sstables[0].size,
    ensures
        b.all_fit(),
{
}

/// Small tables share a bucket: a bucket all of whose tables are below the
/// small-table limit fits every one of them.
pub proof fn lemma_small_tables_fit(b: BucketView)
    requires
        b.wf(),
        forall|i: int| 0 <= i < b.sstables.len() ==> (#[trigger] b.sstables[i]).size < MIN_SSTABLE_SIZE,
    ensures
        b.all_fit(),
{
    let sizes = table_sizes(b.sstables);
    assert forall|i: int| 0 <= i < sizes.len() implies #[trigger] sizes[i] <= MIN_SSTABLE_SIZE - 1 by {
        assert(sizes[i] == b.sstables[i].size);
    }
    lemma_mean_within(sizes, MIN_SSTABLE_SIZE - 1);
}

/// Placing a table keeps every bucket fitting its tables, as long as the
/// bucket that the table joins still fits them with its new average: every
/// other bucket is as it was, and a bucket founded for the table fits it.
pub proof fn lemma_placement_keeps_tables_fitting(m: BucketMapView, size: usize, data_len: usize, hotness: u64, created_at: u64, fresh_id: u128)
    requires
        m.wf(),
        forall|i: int| 0 <= i < m.buckets.len() ==> (#[trigger] m.buckets[i]).all_fit(),
        m.placed(size, data_len, hotness, created_at, fresh_id) is Some,
        m.first_fit(size as int) >= 0 ==> m.buckets[m.first_fit(size as int)].with_table(m.placed_path(size, data_len, hotness, created_at, fresh_id)).all_fit(),
    ensures
        forall|i: int| 0 <= i < m.placed(size, data_len, hotness, created_at, fresh_id).unwrap().buckets.len() ==> (#[trigger] m.placed(size, data_len, hotness, created_at, fresh_id).unwrap().buckets[i]).all_fit(),
        m.first_fit(size as int) >= 0 ==> fits_bucket(m.buckets[m.first_fit(size as int)].avarage_size as int, size as int),
{
    let after = m.placed(size, data_len, hotness, created_at, fresh_id).unwrap();
    let at = m.first_fit(size as int);
    lemma_first_fit(m, size as int, 0);
    assert forall|i: int| 0 <= i < after.buckets.len() implies (#[trigger] after.buckets[i]).all_fit() by {
        if at >= 0 {
            if i != at {
                assert(after.buckets[i] == m.buckets[i]);
            }
        } else if i < m.buckets.len() {
            assert(after.buckets[i] == m.buckets[i]);
        } else {
            lemma_founded_bucket_fits(after.buckets[i]);
        }
    }
}

impl Bucket {
    /// Whether the bucket is well formed.
    pub fn is_valid(&self) -> (ok: bool)
        ensures
            ok == self@.wf(),
    {
        let n: usize = self.sstables.len();
        let ghost tables = self@.sstables;
        let mut i: usize = 0;
        while i < n
            invariant
                i <= n,
                n == self.sstables@.len(),
                tables == self@.sstables,
                forall|j: int| 0 <= j < i ==> (#[trigger] tables[j]).size <= u32::MAX,
            decreases n - i,
        {
            if self.sstables[i].size > u32::MAX as usize {
                proof {
                    assert(tables[i as int].size > u32::MAX);
                }
                return false;
            }
            i += 1;
        }
        let mut b: usize = 0;
        while b < n
            invariant
                b <= n,
                n == self.sstables@.len(),
                tables == self@.sstables,
                forall|x: int, y: int| 0 <= x < y < b ==> (#[trigger] tables[x]).data_file_path != (#[trigger] tables[y]).data_file_path,
            decreases n - b,
        {
            let mut a: usize = 0;
            while a < b
                invariant
                    a <= b < n,
                    n == self.sstables@.len(),
                    tables == self@.sstables,
                    forall|x: int| 0 <= x < a ==> (#[trigger] tables[x]).data_file_path != tables[b as int].data_file_path,
                decreases b - a,
            {
                if self.sstables[a].data_file_path == self.sstables[b].data_file_path {
                    proof {
                        assert(tables[a as int].data_file_path == tables[b as int].data_file_path);
                    }
                    return false;
                }
                a += 1;
            }
            b += 1;
        }
        proof {
            assert forall|j: int| 0 <= j < self.sstables@.len() implies (#[trigger] self.sstables@[j]).size <= u32::MAX by {
                assert(tables[j].size <= u32::MAX);
            }
        }
        self.avarage_size == Bucket::mean(&self.sstables)
    }
}

impl BucketMap {
    /// Whether the buckets are well formed.
    pub fn is_valid(&self) -> (ok: bool)
        ensures
            ok == self@.wf(),
    {
        let n: usize = self.buckets.len();
        let ghost all = self@.buckets;
        let mut b: usize = 0;
        while b < n
            invariant
                b <= n,
                n == self.buckets@.len(),
                all == self@.buckets,
                forall|x: int| 0 <= x < b ==> (#[trigger] all[x]).wf() && all[x].sstables.len() > 0,
                forall|x: int, y: int| 0 <= x < y < b ==> (#[trigger] all[x]).id != (#[trigger] all[y]).id,
            decreases n - b,
        {
            proof {
                assert(all[b as int] == self.buckets@[b as int]@);
            }
            if self.buckets[b].sstables.len() == 0 || !self.buckets[b].is_valid() {
                proof {
                    assert(!(all[b as int].wf() && all[b as int].sstables.len() > 0));
                }
                return false;
            }
            let mut a: usize = 0;
            while a < b
                invariant
                    a <= b < n,
                    n == self.buckets@.len(),
                    all == self@.buckets,
                    forall|x: int| 0 <= x < a ==> (#[trigger] all[x]).id != all[b as int].id,
                decreases b - a,
            {
                if self.buckets[a].id == self.buckets[b].id {
                    proof {
                        assert(all[a as int].id == all[b as int].id);
                    }
                    return false;
                }
                a += 1;
            }
            b += 1;
        }
        true
    }
}

} // verus!
