//! The content classifier: stage three of the pipeline walks the
//! size-candidate map, fingerprints every record of a bucket holding at
//! least two members, and groups records by byte size and content
//! fingerprint. A fingerprint collision between files of equal size but
//! different content is accepted as a duplicate match: the design takes
//! the inherent false-positive probability of a 128-bit digest instead
//! of a byte-level confirmation pass.

use vstd::prelude::*;

use crate::fingerprint::{fingerprint_bytes, fingerprint_of};
use crate::record::{FileRecord, RecordView};
use crate::sizewise::SizeClassifier;

verus! {

/// Ghost-level image of one duplicate group: the shared byte size, the
/// shared content fingerprint, the members in insertion order, and the
/// content each member was fingerprinted from.
pub struct GroupView {
    pub size: u64,
    pub fp: u128,
    pub members: Seq<RecordView>,
    pub contents: Seq<Seq<u8>>,
}

/// One duplicate group of the confirmed-duplicate map.
struct DupGroup {
    size: u64,
    fp: u128,
    members: Vec<FileRecord>,
    contents: Ghost<Seq<Seq<u8>>>,
}

impl DupGroup {
    spec fn model(&self) -> GroupView {
        GroupView {
            size: self.size,
            fp: self.fp,
            members: self.members@.map_values(|r: FileRecord| r@),
            contents: self.contents@,
        }
    }
}

/// No two groups share both byte size and fingerprint.
pub open spec fn group_keys_unique(gs: Seq<GroupView>) -> bool {
    forall|i: int, j: int|
        0 <= i < j < gs.len() ==> !((#[trigger] gs[i]).size == (#[trigger] gs[j]).size && gs[i].fp
            == gs[j].fp)
}

/// A single well-formed group under run seed `seed`: non-empty, one
/// content per member, every member of the group's byte size, every
/// content fingerprinting to the group's key.
pub open spec fn group_wf(seed: u64, g: GroupView) -> bool {
    &&& g.members.len() >= 1
    &&& g.contents.len() == g.members.len()
    &&& forall|j: int| 0 <= j < g.members.len() ==> (#[trigger] g.members[j]).size == g.size
    &&& forall|j: int|
        0 <= j < g.contents.len() ==> fingerprint_of(seed, #[trigger] g.contents[j]) == g.fp
}

/// All groups well-formed.
pub open spec fn groups_wf(seed: u64, gs: Seq<GroupView>) -> bool {
    forall|i: int| 0 <= i < gs.len() ==> group_wf(seed, #[trigger] gs[i])
}

/// Classifying one fingerprinted record into the group sequence: the
/// record joins the group keyed by its byte size and fingerprint, or
/// founds a new group at the end.
pub open spec fn add_to_groups(gs: Seq<GroupView>, r: RecordView, c: Seq<u8>, fp: u128) -> Seq<
    GroupView,
> {
    if exists|i: int| 0 <= i < gs.len() && (#[trigger] gs[i]).size == r.size && gs[i].fp == fp {
        let i = choose|i: int|
            0 <= i < gs.len() && (#[trigger] gs[i]).size == r.size && gs[i].fp == fp;
        gs.update(
            i,
            GroupView {
                size: gs[i].size,
                fp: gs[i].fp,
                members: gs[i].members.push(r),
                contents: gs[i].contents.push(c),
            },
        )
    } else {
        gs.push(GroupView { size: r.size, fp, members: seq![r], contents: seq![c] })
    }
}

/// The groups surfaced as confirmed duplicate sets: those with at least
/// two members.
pub open spec fn confirmed_of(gs: Seq<GroupView>) -> Seq<GroupView> {
    gs.filter(|g: GroupView| g.members.len() >= 2)
}

/// Every element of a filtered sequence comes from the original one.
proof fn lemma_filter_subset<A>(s: Seq<A>, pred: spec_fn(A) -> bool, i: int)
    requires
        0 <= i < s.filter(pred).len(),
    ensures
        s.contains(s.filter(pred)[i]),
    decreases s.len(),
{
    reveal(Seq::filter);
    if s.len() > 0 {
        let sub = s.drop_last().filter(pred);
        if i < sub.len() {
            lemma_filter_subset(s.drop_last(), pred, i);
            let x = sub[i];
            let t = choose|t: int| 0 <= t < s.drop_last().len() && s.drop_last()[t] == x;
            assert(s[t] == x);
        } else {
            assert(s.filter(pred)[i] == s.last());
        }
    }
}

/// The progress counter a sequence of per-bucket counters holds for
/// bucket `i`: zero for a bucket the sequence does not reach yet.
pub open spec fn progress_in(s: Seq<usize>, i: int) -> nat {
    if 0 <= i < s.len() {
        s[i] as nat
    } else {
        0
    }
}

/// The content classifier: consumes size-candidate buckets, hands out
/// not-yet-fingerprinted candidates, and accumulates the
/// confirmed-duplicate map.
pub struct ContentClassifier {
    seed: u64,
    groups: Vec<DupGroup>,
    progress: Vec<usize>,
    emitted: Ghost<Seq<(int, int)>>,
}

impl ContentClassifier {
    /// The run seed every fingerprint of this run is computed under.
    pub closed spec fn seed(&self) -> u64 {
        self.seed
    }

    /// The confirmed-duplicate map under construction, in group
    /// creation order.
    pub closed spec fn groups_model(&self) -> Seq<GroupView> {
        self.groups@.map_values(|g: DupGroup| g.model())
    }

    /// How many members of size bucket `i` have already been handed out
    /// for fingerprinting.
    pub closed spec fn progress_of(&self, i: int) -> nat {
        progress_in(self.progress@, i)
    }

    /// Every (bucket, member) position handed out so far, in order.
    pub closed spec fn emitted(&self) -> Seq<(int, int)> {
        self.emitted@
    }

    /// Well-formed: groups are keyed uniquely by byte size and
    /// fingerprint and internally consistent, and the positions handed
    /// out for fingerprinting are pairwise distinct and lie below the
    /// per-bucket progress counter.
    pub open spec fn wf(&self) -> bool {
        &&& group_keys_unique(self.groups_model())
        &&& groups_wf(self.seed(), self.groups_model())
        &&& forall|t: int|
            0 <= t < self.emitted().len() ==> {
                &&& 0 <= (#[trigger] self.emitted()[t]).0
                &&& 0 <= self.emitted()[t].1 < self.progress_of(self.emitted()[t].0)
            }
        &&& forall|t1: int, t2: int|
            0 <= t1 < t2 < self.emitted().len() ==> (#[trigger] self.emitted()[t1]) != (
            #[trigger] self.emitted()[t2])
    }

    /// A fresh classifier for one run under the given seed.
    pub fn new(seed: u64) -> (r: ContentClassifier)
        ensures
            r.wf(),
            r.seed() == seed,
            r.groups_model() == Seq::<GroupView>::empty(),
            r.emitted() == Seq::<(int, int)>::empty(),
            forall|i: int| r.progress_of(i) == 0,
    {
        let r = ContentClassifier {
            seed,
            groups: Vec::new(),
            progress: Vec::new(),
            emitted: Ghost(Seq::empty()),
        };
        proof {
            assert(r.groups_model() =~= Seq::<GroupView>::empty());
        }
        r
    }

    fn find_group(&self, size: u64, fp: u128) -> (r: Option<usize>)
        ensures
            match r {
                Some(i) => i < self.groups_model().len() && self.groups_model()[i as int].size
                    == size && self.groups_model()[i as int].fp == fp,
                None => forall|i: int|
                    0 <= i < self.groups_model().len() ==> !((#[trigger] self.groups_model()[i]).size
                        == size && self.groups_model()[i].fp == fp),
            },
    {
        let mut i: usize = 0;
        while i < self.groups.len()
            invariant
                i <= self.groups@.len(),
                forall|t: int|
                    0 <= t < i ==> !((#[trigger] self.groups_model()[t]).size == size
                        && self.groups_model()[t].fp == fp),
            decreases self.groups@.len() - i,
        {
            if self.groups[i].size == size && self.groups[i].fp == fp {
                return Some(i);
            }
            i = i + 1;
        }
        None
    }

    /// Fingerprints one candidate record over its full content and
    /// inserts it into the confirmed-duplicate map, keyed by byte size
    /// and fingerprint. Fingerprinting the same content again can only
    /// reach the same group: the fingerprint is a pure function of the
    /// run seed and the bytes.
    pub fn process(&mut self, rec: &FileRecord, content: &Vec<u8>)
        requires
            old(self).wf(),
        ensures
            final(self).wf(),
            final(self).seed() == old(self).seed(),
            final(self).emitted() == old(self).emitted(),
            forall|i: int| final(self).progress_of(i) == old(self).progress_of(i),
            final(self).groups_model() == add_to_groups(
                old(self).groups_model(),
                rec@,
                content@,
                fingerprint_of(old(self).seed(), content@),
            ),
    {
        let ghost pre = self.groups_model();
        let fp = fingerprint_bytes(self.seed, content);
        match self.find_group(rec.size, fp) {
            Some(i) => {
                let mut g = self.groups.remove(i);
                g.members.push(rec.clone());
                proof {
                    g.contents@ = g.contents@.push(content@);
                }
                self.groups.insert(i, g);
                proof {
                    let post = self.groups_model();
                    let g2 = post[i as int];
                    assert(post =~= pre.update(i as int, g2));
                    assert(g2.members =~= pre[i as int].members.push(rec@));
                    assert(g2.contents =~= pre[i as int].contents.push(content@));
                    let iw = choose|t: int|
                        0 <= t < pre.len() && (#[trigger] pre[t]).size == rec@.size && pre[t].fp
                            == fp;
                    assert(iw == i as int);
                    assert(add_to_groups(pre, rec@, content@, fp) =~= post);
                    assert forall|t: int| 0 <= t < post.len() implies (#[trigger] post[t]).size
                        == pre[t].size && post[t].fp == pre[t].fp by {}
                    assert forall|t: int| 0 <= t < post.len() implies group_wf(
                        old(self).seed(),
                        #[trigger] post[t],
                    ) by {
                        assert(group_wf(old(self).seed(), pre[t]));
                        if t == i as int {
                            assert(forall|j: int|
                                0 <= j < pre[t].members.len() ==> (#[trigger] g2.members[j])
                                    == pre[t].members[j]);
                            assert(g2.members[g2.members.len() - 1] == rec@);
                            assert(forall|j: int|
                                0 <= j < pre[t].contents.len() ==> (#[trigger] g2.contents[j])
                                    == pre[t].contents[j]);
                            assert(g2.contents[g2.contents.len() - 1] == content@);
                        }
                    }
                }
            },
            None => {
                let size = rec.size;
                let mut ms: Vec<FileRecord> = Vec::new();
                ms.push(rec.clone());
                let mut g = DupGroup { size, fp, members: ms, contents: Ghost(Seq::empty()) };
                proof {
                    g.contents@ = seq![content@];
                }
                self.groups.push(g);
                proof {
                    let post = self.groups_model();
                    let g2 = post.last();
                    assert(post =~= pre.push(g2));
                    assert(g2.members =~= seq![rec@]);
                    assert(g2.contents =~= seq![content@]);
                    assert(add_to_groups(pre, rec@, content@, fp) =~= post);
                    assert forall|t: int| 0 <= t < post.len() implies group_wf(
                        old(self).seed(),
                        #[trigger] post[t],
                    ) by {
                        if t < pre.len() {
                            assert(post[t] == pre[t]);
                            assert(group_wf(old(self).seed(), pre[t]));
                        } else {
                            assert(post[t] == g2);
                            assert(g2.members[0] == rec@);
                            assert(g2.contents[0] == content@);
                        }
                    }
                    assert forall|a: int, b: int| 0 <= a < b < post.len() implies !((
                    #[trigger] post[a]).size == (#[trigger] post[b]).size && post[a].fp
                        == post[b].fp) by {
                        if b < pre.len() {
                            assert(post[a] == pre[a] && post[b] == pre[b]);
                        } else {
                            assert(post[a] == pre[a] && post[b] == g2);
                        }
                    }
                }
            },
        }
        proof {
            assert(self.emitted() == old(self).emitted());
            assert forall|t: int|
                0 <= t < self.emitted().len() implies {
                &&& 0 <= (#[trigger] self.emitted()[t]).0
                &&& 0 <= self.emitted()[t].1 < self.progress_of(self.emitted()[t].0)
            } by {
                let p = old(self).emitted()[t];
                assert(self.emitted()[t] == p);
                assert(0 <= p.1 < old(self).progress_of(p.0));
                assert(self.progress_of(p.0) == old(self).progress_of(p.0));
            }
            assert forall|t1: int, t2: int|
                0 <= t1 < t2 < self.emitted().len() implies (#[trigger] self.emitted()[t1]) != (
            #[trigger] self.emitted()[t2]) by {
                assert(self.emitted()[t1] == old(self).emitted()[t1]);
                assert(self.emitted()[t2] == old(self).emitted()[t2]);
            }
        }
    }

    fn progress_get(&self, i: usize) -> (n: usize)
        ensures
            n == self.progress_of(i as int),
    {
        if i < self.progress.len() {
            self.progress[i]
        } else {
            0
        }
    }

    /// Hands out the next candidate for fingerprinting: a record of a
    /// size bucket holding at least two members that has not been
    /// handed out before. Records of buckets with a single member are
    /// never handed out: a file of unique byte size is pruned without
    /// ever being fingerprinted. Each position is handed out at most
    /// once, so no record is fingerprinted twice within one run.
    pub fn next_candidate(&mut self, sizes: &SizeClassifier) -> (r: Option<(usize, FileRecord)>)
        requires
            old(self).wf(),
            sizes.wf(),
        ensures
            final(self).wf(),
            final(self).seed() == old(self).seed(),
            final(self).groups_model() == old(self).groups_model(),
            match r {
                Some(pair) => {
                    let i = pair.0 as int;
                    let k = sizes.sizes_in_order()[i];
                    &&& 0 <= i < sizes.sizes_in_order().len()
                    &&& sizes.model().contains_key(k)
                    &&& sizes.model()[k].len() >= 2
                    &&& old(self).progress_of(i) < sizes.model()[k].len()
                    &&& pair.1@ == sizes.model()[k][old(self).progress_of(i) as int]
                    &&& final(self).progress_of(i) == old(self).progress_of(i) + 1
                    &&& forall|t: int| t != i ==> final(self).progress_of(t) == old(self).progress_of(t)
                    &&& final(self).emitted() == old(self).emitted().push(
                        (i, old(self).progress_of(i) as int),
                    )
                },
                None => {
                    &&& final(self).emitted() == old(self).emitted()
                    &&& forall|t: int| final(self).progress_of(t) == old(self).progress_of(t)
                    &&& forall|i: int|
                        0 <= i < sizes.sizes_in_order().len() ==> {
                            let k = #[trigger] sizes.sizes_in_order()[i];
                            sizes.model()[k].len() < 2 || final(self).progress_of(i)
                                >= sizes.model()[k].len()
                        }
                },
            },
    {
        let total = sizes.bucket_count();
        let mut i: usize = 0;
        while i < total
            invariant
                self.wf(),
                sizes.wf(),
                self.seed() == old(self).seed(),
                self.groups_model() == old(self).groups_model(),
                self.emitted() == old(self).emitted(),
                forall|t: int| self.progress_of(t) == old(self).progress_of(t),
                total == sizes.sizes_in_order().len(),
                i <= total,
                forall|t: int|
                    0 <= t < i ==> {
                        let k = #[trigger] sizes.sizes_in_order()[t];
                        sizes.model()[k].len() < 2 || self.progress_of(t) >= sizes.model()[k].len()
                    },
            decreases total - i,
        {
            let k = sizes.bucket_size(i);
            let n = sizes.bucket_len(i);
            if n >= 2 {
                let c = self.progress_get(i);
                if c < n {
                    let rec = sizes.bucket_member(i, c);
                    self.bump_progress(i, c);
                    return Some((i, rec));
                }
            }
            i = i + 1;
        }
        None
    }

    fn bump_progress(&mut self, i: usize, c: usize)
        requires
            old(self).wf(),
            old(self).progress_of(i as int) == c,
            c < usize::MAX,
        ensures
            final(self).wf(),
            final(self).seed() == old(self).seed(),
            final(self).groups_model() == old(self).groups_model(),
            final(self).progress_of(i as int) == c + 1,
            forall|t: int| t != i ==> final(self).progress_of(t) == old(self).progress_of(t),
            final(self).emitted() == old(self).emitted().push((i as int, c as int)),
    {
        let ghost pre = *self;
        while self.progress.len() <= i
            invariant
                forall|t: int| self.progress_of(t) == pre.progress_of(t),
                self.groups@ == pre.groups@,
                self.emitted@ == pre.emitted@,
                self.seed == pre.seed,
            decreases i + 1 - self.progress@.len(),
        {
            self.progress.push(0);
        }
        let ghost ext = self.progress@;
        proof {
            assert forall|t: int| progress_in(ext, t) == pre.progress_of(t) by {}
        }
        let _prior = self.progress.remove(i);
        self.progress.insert(i, c + 1);
        proof {
            assert(self.progress@ =~= ext.update(i as int, (c + 1) as usize));
            assert(self.progress_of(i as int) == c + 1);
            assert forall|t: int| t != i as int implies self.progress_of(t) == pre.progress_of(
                t,
            ) by {
                assert(progress_in(ext, t) == pre.progress_of(t));
            }
            self.emitted@ = self.emitted@.push((i as int, c as int));
            assert(self.emitted() == pre.emitted().push((i as int, c as int)));
            assert(self.groups_model() == pre.groups_model());
            assert forall|t: int|
                0 <= t < self.emitted().len() implies {
                &&& 0 <= (#[trigger] self.emitted()[t]).0
                &&& 0 <= self.emitted()[t].1 < self.progress_of(self.emitted()[t].0)
            } by {
                if t < pre.emitted().len() {
                    assert(self.emitted()[t] == pre.emitted()[t]);
                    let p = pre.emitted()[t];
                    assert(0 <= p.1 < pre.progress_of(p.0));
                    if p.0 == i as int {
                        assert(self.progress_of(p.0) == c + 1);
                    } else {
                        assert(self.progress_of(p.0) == pre.progress_of(p.0));
                    }
                } else {
                    assert(self.emitted()[t] == (i as int, c as int));
                }
            }
            assert forall|t1: int, t2: int|
                0 <= t1 < t2 < self.emitted().len() implies (#[trigger] self.emitted()[t1]) != (
            #[trigger] self.emitted()[t2]) by {
                if t2 == self.emitted().len() - 1 {
                    let p = pre.emitted()[t1];
                    assert(self.emitted()[t1] == p);
                    assert(0 <= p.1 < pre.progress_of(p.0));
                    if p.0 == i as int {
                        assert(pre.progress_of(i as int) == c);
                    }
                } else {
                    assert(self.emitted()[t1] == pre.emitted()[t1]);
                    assert(self.emitted()[t2] == pre.emitted()[t2]);
                }
            }
        }
    }

    /// How many groups the confirmed-duplicate map holds, confirmed or
    /// still singleton.
    pub fn group_count(&self) -> (n: usize)
        ensures
            n == self.groups_model().len(),
    {
        self.groups.len()
    }

    /// The content fingerprint keying group `i`.
    pub fn group_fingerprint(&self, i: usize) -> (fp: u128)
        requires
            i < self.groups_model().len(),
        ensures
            fp == self.groups_model()[i as int].fp,
    {
        self.groups[i].fp
    }

    /// The byte size shared by every member of group `i`.
    pub fn group_size(&self, i: usize) -> (k: u64)
        requires
            i < self.groups_model().len(),
        ensures
            k == self.groups_model()[i as int].size,
    {
        self.groups[i].size
    }

    /// How many members group `i` holds.
    pub fn group_len(&self, i: usize) -> (n: usize)
        requires
            i < self.groups_model().len(),
        ensures
            n == self.groups_model()[i as int].members.len(),
    {
        self.groups[i].members.len()
    }

    /// A copy of member `j` of group `i`.
    pub fn group_member(&self, i: usize, j: usize) -> (r: FileRecord)
        requires
            i < self.groups_model().len(),
            j < self.groups_model()[i as int].members.len(),
        ensures
            r@ == self.groups_model()[i as int].members[j as int],
    {
        self.groups[i].members[j].clone()
    }

    /// Every surfaced confirmed-duplicate group has at least two
    /// members, all of the group's byte size, and every member's
    /// content fingerprints to the group's key: the two-stage filter
    /// never surfaces a group whose members differ in byte size.
    pub proof fn lemma_confirmed_groups_sound(&self)
        requires
            self.wf(),
        ensures
            forall|gi: int|
                0 <= gi < confirmed_of(self.groups_model()).len() ==> {
                    let g = #[trigger] confirmed_of(self.groups_model())[gi];
                    &&& g.members.len() >= 2
                    &&& group_wf(self.seed(), g)
                },
    {
        let gs = self.groups_model();
        let pred = |g: GroupView| g.members.len() >= 2;
        assert forall|gi: int| 0 <= gi < confirmed_of(gs).len() implies {
            let g = #[trigger] confirmed_of(gs)[gi];
            &&& g.members.len() >= 2
            &&& group_wf(self.seed(), g)
        } by {
            gs.lemma_filter_pred(pred, gi);
            lemma_filter_subset(gs, pred, gi);
            let g = confirmed_of(gs)[gi];
            let oi = choose|oi: int| 0 <= oi < gs.len() && gs[oi] == g;
            assert(group_wf(self.seed(), gs[oi]));
        }
    }

    /// No position of the size-candidate map is handed out for
    /// fingerprinting twice within one run: together with the
    /// fingerprint being a pure function of seed and content, a record
    /// is fingerprinted at most once, and a second pass could not
    /// change its group.
    pub proof fn lemma_candidates_emitted_at_most_once(&self)
        requires
            self.wf(),
        ensures
            forall|t1: int, t2: int|
                0 <= t1 < t2 < self.emitted().len() ==> (#[trigger] self.emitted()[t1]) != (
                #[trigger] self.emitted()[t2]),
    {
    }
}

} // verus!
