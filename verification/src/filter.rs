//! The membership filters of the tables, and the order in which readers
//! consult them: hottest table first.
//!
//! A filter's bits are computed where the keys are hashed; here a filter is
//! carried with the table it belongs to.
use crate::sst::{SSTablePath, SSTablePathView};
use vstd::prelude::*;

verus! {

/// The membership filter of one table.
#[derive(Debug)]
pub struct BloomFilter {
    /// The table the filter belongs to, once it is written.
    pub sstable_path: Option<SSTablePath>,
    pub no_of_hash_func: usize,
    pub no_of_elements: usize,
    pub bit_vec: Vec<bool>,
}

/// The mathematical value of a [`BloomFilter`].
pub struct BloomFilterView {
    pub sstable_path: Option<SSTablePathView>,
    pub no_of_hash_func: usize,
    pub no_of_elements: usize,
    pub bit_vec: Seq<bool>,
}

impl View for BloomFilter {
    type V = BloomFilterView;

    open spec fn view(&self) -> BloomFilterView {
        BloomFilterView {
            sstable_path: match self.sstable_path {
                Some(p) => Some(p@),
                None => None,
            },
            no_of_hash_func: self.no_of_hash_func,
            no_of_elements: self.no_of_elements,
            bit_vec: self.bit_vec@,
        }
    }
}

/// The values of the filters, in order.
pub open spec fn filter_views(filters: Seq<BloomFilter>) -> Seq<BloomFilterView> {
    filters.map_values(|f: BloomFilter| f@)
}

impl BloomFilterView {
    /// The hotness of the filter's table; 0 for a filter without a table.
    pub open spec fn hotness(self) -> u64 {
        match self.sstable_path {
            Some(p) => p.hotness,
            None => 0,
        }
    }
}

/// The filters are ordered by the hotness of their tables, hottest first.
pub open spec fn hottest_first(filters: Seq<BloomFilterView>) -> bool {
    forall|i: int, j: int| 0 <= i < j < filters.len() ==> (#[trigger] filters[i]).hotness() >= (#[trigger] filters[j]).hotness()
}

/// Where a filter goes into a list: before the first filter that is less
/// hot, so that it comes after those that are as hot.
pub open spec fn insertion_point(filters: Seq<BloomFilterView>, hotness: u64) -> int
    decreases filters.len(),
{
    if filters.len() == 0 {
        0
    } else if filters[0].hotness() < hotness {
        0
    } else {
        1 + insertion_point(filters.drop_first(), hotness)
    }
}

/// The filters sorted by hotness, hottest first, filters of the same
/// hotness in the order they had.
pub open spec fn sorted_by_hotness(filters: Seq<BloomFilterView>) -> Seq<BloomFilterView>
    decreases filters.len(),
{
    if filters.len() == 0 {
        filters
    } else {
        let sorted = sorted_by_hotness(filters.drop_last());
        sorted.insert(insertion_point(sorted, filters.last().hotness()), filters.last())
    }
}

/// The insertion point lies within the list; before it no filter is less
/// hot than the one to insert, and the filter at it is.
pub proof fn lemma_insertion_point(filters: Seq<BloomFilterView>, hotness: u64)
    ensures
        0 <= insertion_point(filters, hotness) <= filters.len(),
        forall|i: int| 0 <= i < insertion_point(filters, hotness) ==> (#[trigger] filters[i]).hotness() >= hotness,
        insertion_point(filters, hotness) < filters.len() ==> filters[insertion_point(filters, hotness)].hotness() < hotness,
    decreases filters.len(),
{
    if filters.len() > 0 && filters[0].hotness() >= hotness {
        let rest = filters.drop_first();
        lemma_insertion_point(rest, hotness);
        let p = insertion_point(rest, hotness);
        assert forall|i: int| 0 <= i < 1 + p implies (#[trigger] filters[i]).hotness() >= hotness by {
            if i > 0 {
                assert(rest[i - 1] == filters[i]);
            }
        }
        if p < rest.len() {
            assert(rest[p] == filters[p + 1]);
        }
    }
}

/// Inserting at the insertion point keeps a list hottest first.
pub proof fn lemma_insert_keeps_order(filters: Seq<BloomFilterView>, f: BloomFilterView)
    requires
        hottest_first(filters),
    ensures
        hottest_first(filters.insert(insertion_point(filters, f.hotness()), f)),
{
    let p = insertion_point(filters, f.hotness());
    lemma_insertion_point(filters, f.hotness());
    let after = filters.insert(p, f);
    assert forall|i: int, j: int| 0 <= i < j < after.len() implies (#[trigger] after[i]).hotness() >= (#[trigger] after[j]).hotness() by {
        if j < p {
            assert(after[i] == filters[i] && after[j] == filters[j]);
        } else if j == p {
            assert(after[i] == filters[i]);
        } else if i < p {
            assert(after[i] == filters[i] && after[j] == filters[j - 1]);
            if j - 1 > i {
                assert(filters[i].hotness() >= filters[j - 1].hotness());
            }
        } else if i == p {
            assert(after[j] == filters[j - 1]);
            if j - 1 > p {
                assert(filters[p].hotness() >= filters[j - 1].hotness());
            }
        } else {
            assert(after[i] == filters[i - 1] && after[j] == filters[j - 1]);
        }
    }
}

/// Sorting orders the filters hottest first and neither adds nor drops one.
pub proof fn lemma_sorted_by_hotness(filters: Seq<BloomFilterView>)
    ensures
        hottest_first(sorted_by_hotness(filters)),
        sorted_by_hotness(filters).to_multiset() == filters.to_multiset(),
        sorted_by_hotness(filters).len() == filters.len(),
    decreases filters.len(),
{
    broadcast use vstd::seq_lib::group_to_multiset_ensures;

    if filters.len() > 0 {
        let before = filters.drop_last();
        let last = filters.last();
        lemma_sorted_by_hotness(before);
        let sorted = sorted_by_hotness(before);
        lemma_insertion_point(sorted, last.hotness());
        lemma_insert_keeps_order(sorted, last);
        let p = insertion_point(sorted, last.hotness());
        assert(filters =~= before.push(last));
        assert(before.push(last).to_multiset() =~= before.to_multiset().insert(last));
        let inserted = sorted.insert(p, last);
        assert(inserted.remove(p) =~= sorted);
        assert(inserted[p] == last);
        vstd::seq_lib::to_multiset_remove(inserted, p);
        assert(inserted.contains(last));
        assert(inserted.to_multiset().count(last) > 0);
        assert(inserted.to_multiset() =~= sorted.to_multiset().insert(last));
    }
}

impl Clone for BloomFilter {
    fn clone(&self) -> (copy: Self)
        ensures
            copy@ == self@,
    {
        let mut bit_vec: Vec<bool> = Vec::new();
        let mut i: usize = 0;
        while i < self.bit_vec.len()
            invariant
                i <= self.bit_vec@.len(),
                bit_vec@ == self.bit_vec@.take(i as int),
            decreases self.bit_vec@.len() - i,
        {
            bit_vec.push(self.bit_vec[i]);
            proof {
                assert(bit_vec@ =~= self.bit_vec@.take(i + 1));
            }
            i += 1;
        }
        proof {
            assert(self.bit_vec@.take(self.bit_vec@.len() as int) =~= self.bit_vec@);
        }
        BloomFilter {
            sstable_path: match &self.sstable_path {
                Some(p) => Some(p.clone()),
                None => None,
            },
            no_of_hash_func: self.no_of_hash_func,
            no_of_elements: self.no_of_elements,
            bit_vec,
        }
    }
}

impl BloomFilter {
    /// A filter of the given bits that belongs to no table yet.
    pub fn new(no_of_hash_func: usize, no_of_elements: usize, bit_vec: Vec<bool>) -> (f: Self)
        ensures
            f@ == (BloomFilterView { sstable_path: None, no_of_hash_func, no_of_elements, bit_vec: bit_vec@ }),
    {
        Self { sstable_path: None, no_of_hash_func, no_of_elements, bit_vec }
    }

    /// Binds the filter to its table.
    pub fn set_sstable_path(&mut self, sstable_path: SSTablePath)
        ensures
            final(self)@ == (BloomFilterView { sstable_path: Some(sstable_path@), ..old(self)@ }),
    {
        self.sstable_path = Some(sstable_path);
    }

    /// The table the filter belongs to.
    pub fn get_sstable_path(&self) -> (p: Option<SSTablePath>)
        ensures
            match p {
                Some(path) => self@.sstable_path == Some(path@),
                None => self@.sstable_path is None,
            },
    {
        match &self.sstable_path {
            Some(p) => Some(p.clone()),
            None => None,
        }
    }

    /// The hotness of the filter's table; 0 for a filter without a table.
    pub fn hotness(&self) -> (h: u64)
        ensures
            h == self@.hotness(),
    {
        match &self.sstable_path {
            Some(p) => p.hotness,
            None => 0,
        }
    }
}

/// Sorts the filters by the hotness of their tables, hottest first;
/// filters of the same hotness keep their order.
pub fn sort_by_hotness(filters: Vec<BloomFilter>) -> (sorted: Vec<BloomFilter>)
    ensures
        filter_views(sorted@) == sorted_by_hotness(filter_views(filters@)),
        hottest_first(filter_views(sorted@)),
        filter_views(sorted@).to_multiset() == filter_views(filters@).to_multiset(),
{
    let mut sorted: Vec<BloomFilter> = Vec::new();
    let mut rest = filters;
    let ghost all = filter_views(filters@);
    let ghost mut done: int = 0;
    proof {
        assert(all.take(0) =~= Seq::<BloomFilterView>::empty());
        assert(filter_views(sorted@) =~= sorted_by_hotness(all.take(0)));
        assert(filter_views(rest@) =~= all.skip(0));
    }
    while rest.len() > 0
        invariant
            0 <= done <= all.len(),
            filter_views(rest@) == all.skip(done),
            filter_views(sorted@) == sorted_by_hotness(all.take(done)),
        decreases rest@.len(),
    {
        let ghost rest_before = rest@;
        proof {
            assert(filter_views(rest_before).len() == rest_before.len());
            assert(done < all.len());
            assert(all.skip(done)[0] == rest_before[0]@);
        }
        let f = rest.remove(0);
        let h: u64 = f.hotness();
        let ghost sorted_before = filter_views(sorted@);
        let mut p: usize = 0;
        proof {
            assert(sorted_before.skip(0) =~= sorted_before);
            assert(f@ == all[done]);
            assert forall|i: int| 0 <= i < rest@.len() implies filter_views(rest@)[i] == all.skip(done + 1)[i] by {
                assert(rest@[i] == rest_before[i + 1]);
                assert(filter_views(rest_before)[i + 1] == all.skip(done)[i + 1]);
            }
            assert(filter_views(rest@) =~= all.skip(done + 1));
        }
        while p < sorted.len() && sorted[p].hotness() >= h
            invariant
                p <= sorted@.len(),
                sorted_before == filter_views(sorted@),
                insertion_point(sorted_before, h) == p + insertion_point(sorted_before.skip(p as int), h),
            decreases sorted@.len() - p,
        {
            proof {
                let tail = sorted_before.skip(p as int);
                assert(tail[0] == sorted@[p as int]@);
                assert(tail.drop_first() =~= sorted_before.skip(p + 1));
            }
            p += 1;
        }
        proof {
            let tail = sorted_before.skip(p as int);
            if p < sorted@.len() {
                assert(tail[0] == sorted@[p as int]@);
            }
            assert(insertion_point(sorted_before, h) == p);
            assert(all.take(done + 1).drop_last() =~= all.take(done));
            assert(all.take(done + 1).last() == f@);
        }
        let ghost fv = f@;
        sorted.insert(p, f);
        proof {
            assert(filter_views(sorted@) =~= sorted_before.insert(p as int, fv));
            done = done + 1;
        }
    }
    proof {
        assert(all.take(all.len() as int) =~= all);
        lemma_sorted_by_hotness(all);
    }
    sorted
}

} // verus!
