//! The size-candidate map: stage two of the pipeline groups enumerated
//! records by exact byte size. Only groups with at least two members are
//! ever promoted to content hashing; a file of unique size cannot have a
//! content duplicate and is pruned as soon as this is known.

use vstd::prelude::*;

use crate::record::{FileRecord, RecordView};

verus! {

/// One bucket of the size-candidate map: every member has byte size
/// exactly `size`, in insertion order.
pub struct SizeBucket {
    pub size: u64,
    pub members: Vec<FileRecord>,
}

impl SizeBucket {
    /// The members as ghost record views, in insertion order.
    pub open spec fn model(&self) -> Seq<RecordView> {
        self.members@.map_values(|r: FileRecord| r@)
    }
}

/// Grouping a sequence of records by exact byte size: the mathematical
/// meaning of the size-candidate map after those records were inserted.
pub open spec fn size_partition(rs: Seq<RecordView>) -> Map<u64, Seq<RecordView>>
    decreases rs.len(),
{
    if rs.len() == 0 {
        Map::empty()
    } else {
        let m = size_partition(rs.drop_last());
        let r = rs.last();
        let prior = if m.contains_key(r.size) {
            m[r.size]
        } else {
            Seq::empty()
        };
        m.insert(r.size, prior.push(r))
    }
}

/// The abstract value of a bucket sequence: byte size to members.
pub open spec fn map_of(bs: Seq<SizeBucket>) -> Map<u64, Seq<RecordView>>
    decreases bs.len(),
{
    if bs.len() == 0 {
        Map::empty()
    } else {
        map_of(bs.drop_last()).insert(bs.last().size, bs.last().model())
    }
}

/// No two buckets share a byte size.
pub open spec fn unique_sizes(bs: Seq<SizeBucket>) -> bool {
    forall|i: int, j: int|
        0 <= i < j < bs.len() ==> (#[trigger] bs[i].size) != (#[trigger] bs[j].size)
}

proof fn lemma_map_of_lookup(bs: Seq<SizeBucket>, i: int)
    requires
        unique_sizes(bs),
        0 <= i < bs.len(),
    ensures
        map_of(bs).contains_key(bs[i].size),
        map_of(bs)[bs[i].size] == bs[i].model(),
    decreases bs.len(),
{
    if i < bs.len() - 1 {
        lemma_map_of_lookup(bs.drop_last(), i);
    }
}

proof fn lemma_map_of_dom(bs: Seq<SizeBucket>, k: u64)
    ensures
        map_of(bs).contains_key(k) <==> exists|i: int| 0 <= i < bs.len() && (#[trigger] bs[i].size) == k,
    decreases bs.len(),
{
    if bs.len() > 0 {
        lemma_map_of_dom(bs.drop_last(), k);
        if bs.last().size == k {
            assert(bs[bs.len() - 1].size == k);
        } else if map_of(bs).contains_key(k) {
            let i = choose|i: int| 0 <= i < bs.drop_last().len() && (#[trigger] bs.drop_last()[i].size) == k;
            assert(bs[i].size == k);
        } else {
            assert forall|i: int| 0 <= i < bs.len() && (#[trigger] bs[i].size) == k implies false by {
                assert(bs.drop_last()[i].size == k);
            }
        }
    }
}

proof fn lemma_map_of_update(bs: Seq<SizeBucket>, i: int, b: SizeBucket)
    requires
        unique_sizes(bs),
        0 <= i < bs.len(),
        b.size == bs[i].size,
    ensures
        map_of(bs.update(i, b)) == map_of(bs).insert(b.size, b.model()),
    decreases bs.len(),
{
    let bs2 = bs.update(i, b);
    if i == bs.len() - 1 {
        assert(bs2.drop_last() =~= bs.drop_last());
        assert(bs2.last() == b);
        assert(map_of(bs.drop_last()).insert(bs.last().size, bs.last().model()).insert(b.size, b.model())
            =~= map_of(bs.drop_last()).insert(b.size, b.model()));
    } else {
        assert(bs2.drop_last() =~= bs.drop_last().update(i, b));
        assert(bs2.last() == bs.last());
        assert(bs.drop_last()[i] == bs[i]);
        lemma_map_of_update(bs.drop_last(), i, b);
        assert(b.size != bs.last().size);
        assert(map_of(bs.drop_last()).insert(b.size, b.model()).insert(bs.last().size, bs.last().model())
            =~= map_of(bs.drop_last()).insert(bs.last().size, bs.last().model()).insert(b.size, b.model()));
    }
}

/// Relates the size partition to a plain filter: the bucket for byte
/// size `k` holds exactly the records of size `k`, in insertion order.
pub proof fn lemma_size_partition_filter(rs: Seq<RecordView>, k: u64)
    ensures
        size_partition(rs).contains_key(k) <==> rs.filter(|r: RecordView| r.size == k).len() > 0,
        size_partition(rs).contains_key(k) ==> size_partition(rs)[k] == rs.filter(|r: RecordView| r.size == k),
    decreases rs.len(),
{
    reveal(Seq::filter);
    if rs.len() > 0 {
        lemma_size_partition_filter(rs.drop_last(), k);
    }
}

/// Every record in the bucket for byte size `k` has byte size `k`.
pub proof fn lemma_partition_member_sizes(rs: Seq<RecordView>, k: u64)
    requires
        size_partition(rs).contains_key(k),
    ensures
        forall|j: int|
            0 <= j < size_partition(rs)[k].len() ==> (#[trigger] size_partition(rs)[k][j]).size == k,
{
    lemma_size_partition_filter(rs, k);
    let pred = |r: RecordView| r.size == k;
    assert forall|j: int|
        0 <= j < size_partition(rs)[k].len() implies (#[trigger] size_partition(rs)[k][j]).size == k by {
        rs.lemma_filter_pred(pred, j);
    }
}

/// Size-based pruning: a record whose byte size `k` is shared by no
/// other inserted record sits alone in its bucket, so the bucket never
/// reaches the two members that would promote it to hashing work.
pub proof fn lemma_unique_size_stays_alone(rs: Seq<RecordView>, k: u64)
    requires
        rs.filter(|r: RecordView| r.size == k).len() == 1,
    ensures
        size_partition(rs).contains_key(k),
        size_partition(rs)[k].len() == 1,
{
    lemma_size_partition_filter(rs, k);
}

/// The size classifier: drains enumerated records and accumulates the
/// size-candidate map. Its abstract value is always the size partition
/// of exactly the records inserted so far.
pub struct SizeClassifier {
    buckets: Vec<SizeBucket>,
    history: Ghost<Seq<RecordView>>,
}

impl SizeClassifier {
    /// The records inserted so far, in insertion order.
    pub closed spec fn inserted(&self) -> Seq<RecordView> {
        self.history@
    }

    /// The size-candidate map: byte size to members in insertion order.
    pub closed spec fn model(&self) -> Map<u64, Seq<RecordView>> {
        map_of(self.buckets@)
    }

    /// The byte sizes that own a bucket, in bucket creation order.
    pub closed spec fn sizes_in_order(&self) -> Seq<u64> {
        self.buckets@.map_values(|b: SizeBucket| b.size)
    }

    #[verifier::opaque]
    pub closed spec fn buckets_ok(&self) -> bool {
        &&& unique_sizes(self.buckets@)
        &&& forall|i: int|
            0 <= i < self.buckets@.len() ==> (#[trigger] self.buckets@[i]).members@.len() >= 1
    }

    /// Well-formed: the classifier's abstract value is the size
    /// partition of exactly the records inserted so far.
    pub open spec fn wf(&self) -> bool {
        &&& self.buckets_ok()
        &&& self.model() == size_partition(self.inserted())
    }

    /// An empty size-candidate map: nothing inserted yet.
    pub fn new() -> (r: SizeClassifier)
        ensures
            r.wf(),
            r.inserted() == Seq::<RecordView>::empty(),
            r.model() == Map::<u64, Seq<RecordView>>::empty(),
    {
        let r = SizeClassifier { buckets: Vec::new(), history: Ghost(Seq::empty()) };
        proof {
            reveal(SizeClassifier::buckets_ok);
        }
        r
    }

    fn find_bucket(&self, size: u64) -> (r: Option<usize>)
        ensures
            match r {
                Some(i) => i < self.buckets@.len() && self.buckets@[i as int].size == size,
                None => forall|i: int| 0 <= i < self.buckets@.len() ==> (#[trigger] self.buckets@[i].size) != size,
            },
    {
        let mut i: usize = 0;
        while i < self.buckets.len()
            invariant
                i <= self.buckets@.len(),
                forall|t: int| 0 <= t < i ==> (#[trigger] self.buckets@[t].size) != size,
            decreases self.buckets@.len() - i,
        {
            if self.buckets[i].size == size {
                return Some(i);
            }
            i = i + 1;
        }
        None
    }

    /// Inserts one enumerated record into its size bucket, creating the
    /// bucket if this is the first record of that byte size.
    pub fn insert(&mut self, rec: FileRecord)
        requires
            old(self).wf(),
        ensures
            final(self).wf(),
            final(self).inserted() == old(self).inserted().push(rec@),
    {
        proof {
            reveal(SizeClassifier::buckets_ok);
        }
        let ghost rv = rec@;
        let ghost h0 = self.history@;
        let ghost pre = self.buckets@;
        match self.find_bucket(rec.size) {
            Some(i) => {
                proof {
                    lemma_map_of_lookup(pre, i as int);
                }
                let mut b = self.buckets.remove(i);
                b.members.push(rec);
                self.buckets.insert(i, b);
                proof {
                    let b2 = self.buckets@[i as int];
                    assert(self.buckets@ =~= pre.update(i as int, b2));
                    assert(b2.size == pre[i as int].size);
                    assert(b2.model() =~= pre[i as int].model().push(rv));
                    lemma_map_of_update(pre, i as int, b2);
                    assert(map_of(self.buckets@) == map_of(pre).insert(rv.size, pre[i as int].model().push(rv)));
                    assert forall|t: int| 0 <= t < self.buckets@.len() implies (#[trigger] self.buckets@[t]).size
                        == pre[t].size by {}
                    assert(unique_sizes(self.buckets@));
                }
            },
            None => {
                let size = rec.size;
                let mut ms: Vec<FileRecord> = Vec::new();
                ms.push(rec);
                let b = SizeBucket { size, members: ms };
                self.buckets.push(b);
                proof {
                    let b2 = self.buckets@.last();
                    assert(self.buckets@.drop_last() =~= pre);
                    assert(b2.model() =~= Seq::<RecordView>::empty().push(rv));
                    lemma_map_of_dom(pre, rv.size);
                    assert(!map_of(pre).contains_key(rv.size));
                    assert(map_of(self.buckets@) == map_of(pre).insert(rv.size, Seq::<RecordView>::empty().push(rv)));
                    assert(unique_sizes(self.buckets@));
                }
            },
        }
        proof {
            self.history@ = h0.push(rv);
            assert(self.history@.drop_last() =~= h0);
            assert(self.history@.last() == rv);
            assert(size_partition(self.history@) == map_of(self.buckets@));
        }
    }

    /// How many records of byte size `k` were inserted so far: the
    /// size of `k`'s bucket, or zero when no record of that size came.
    pub fn size_count(&self, k: u64) -> (n: usize)
        requires
            self.wf(),
        ensures
            n as nat == if self.model().contains_key(k) {
                self.model()[k].len()
            } else {
                0
            },
    {
        proof {
            reveal(SizeClassifier::buckets_ok);
        }
        match self.find_bucket(k) {
            Some(i) => {
                proof {
                    lemma_map_of_lookup(self.buckets@, i as int);
                }
                self.buckets[i].members.len()
            },
            None => {
                proof {
                    lemma_map_of_dom(self.buckets@, k);
                }
                0
            },
        }
    }

    /// How many size buckets exist so far.
    pub fn bucket_count(&self) -> (n: usize)
        ensures
            n == self.sizes_in_order().len(),
    {
        self.buckets.len()
    }

    /// The byte size owning bucket `i`.
    pub fn bucket_size(&self, i: usize) -> (k: u64)
        requires
            self.wf(),
            i < self.sizes_in_order().len(),
        ensures
            k == self.sizes_in_order()[i as int],
            self.model().contains_key(k),
    {
        proof {
            reveal(SizeClassifier::buckets_ok);
            lemma_map_of_lookup(self.buckets@, i as int);
        }
        self.buckets[i].size
    }

    /// How many records bucket `i` currently holds.
    pub fn bucket_len(&self, i: usize) -> (n: usize)
        requires
            self.wf(),
            i < self.sizes_in_order().len(),
        ensures
            n == self.model()[self.sizes_in_order()[i as int]].len(),
    {
        proof {
            reveal(SizeClassifier::buckets_ok);
            lemma_map_of_lookup(self.buckets@, i as int);
        }
        self.buckets[i].members.len()
    }

    /// A copy of record `j` of bucket `i`.
    pub fn bucket_member(&self, i: usize, j: usize) -> (r: FileRecord)
        requires
            self.wf(),
            i < self.sizes_in_order().len(),
            j < self.model()[self.sizes_in_order()[i as int]].len(),
        ensures
            r@ == self.model()[self.sizes_in_order()[i as int]][j as int],
    {
        proof {
            reveal(SizeClassifier::buckets_ok);
            lemma_map_of_lookup(self.buckets@, i as int);
        }
        self.buckets[i].members[j].clone()
    }
}

} // verus!
