//! The data flow of one whole run, stage composed with stage: every
//! enumerated record enters the size-candidate map, and exactly the
//! readable records whose byte size is shared get fingerprinted, in
//! order. The concurrent driver performs these same calls under its
//! locks; this sequential composition carries the end-to-end contract.

use vstd::prelude::*;

use crate::fingerprint::fingerprint_of;
use crate::hashwise::{add_to_groups, ContentClassifier, GroupView};
use crate::record::{FileRecord, RecordView};
use crate::sizewise::{size_partition, SizeClassifier};

verus! {

/// One enumerated file together with what a later content read found:
/// its bytes, or nothing for a file that vanished or became unreadable
/// between enumeration and fingerprinting.
pub struct ScanItem {
    pub record: FileRecord,
    pub content: Option<Vec<u8>>,
}

/// Ghost-level image of a [`ScanItem`].
pub struct ItemView {
    pub record: RecordView,
    pub content: Option<Seq<u8>>,
}

impl View for ScanItem {
    type V = ItemView;

    open spec fn view(&self) -> ItemView {
        ItemView {
            record: self.record@,
            content: match self.content {
                Some(bytes) => Some(bytes@),
                None => None,
            },
        }
    }
}

/// The enumerated records of a run, in enumeration order.
pub open spec fn records_of(items: Seq<ItemView>) -> Seq<RecordView> {
    items.map_values(|it: ItemView| it.record)
}

/// Whether one item gets fingerprinted: its content could be read, and
/// at least one other enumerated record shares its byte size. A record
/// whose size no other record has is pruned without being read.
pub open spec fn is_candidate(all: Seq<ItemView>, it: ItemView) -> bool {
    &&& it.content is Some
    &&& records_of(all).filter(|r: RecordView| r.size == it.record.size).len() >= 2
}

/// The confirmed-duplicate map after the first `j` items of the run
/// were offered for fingerprinting: every candidate among them joined
/// the group keyed by its byte size and content fingerprint.
pub open spec fn groups_after(seed: u64, all: Seq<ItemView>, j: int) -> Seq<GroupView>
    decreases j,
{
    if j <= 0 {
        Seq::empty()
    } else {
        let prior = groups_after(seed, all, j - 1);
        let it = all[j - 1];
        if 0 <= j - 1 < all.len() && is_candidate(all, it) {
            add_to_groups(prior, it.record, it.content->0, fingerprint_of(seed, it.content->0))
        } else {
            prior
        }
    }
}

/// Size-based pruning over a whole run: a record whose byte size `k`
/// no other enumerated record shares sits alone in its size bucket, is
/// never offered for fingerprinting, and so no record of size `k` ever
/// appears in any group of the confirmed-duplicate map.
pub proof fn lemma_unique_size_never_fingerprinted(seed: u64, all: Seq<ItemView>, j: int, k: u64)
    requires
        records_of(all).filter(|r: RecordView| r.size == k).len() == 1,
    ensures
        size_partition(records_of(all)).contains_key(k),
        size_partition(records_of(all))[k].len() == 1,
        forall|gi: int, mi: int|
            0 <= gi < groups_after(seed, all, j).len() && 0 <= mi < groups_after(
                seed,
                all,
                j,
            )[gi].members.len() ==> (#[trigger] groups_after(seed, all, j)[gi].members[mi]).size
                != k,
    decreases j,
{
    crate::sizewise::lemma_unique_size_stays_alone(records_of(all), k);
    if j > 0 {
        lemma_unique_size_never_fingerprinted(seed, all, j - 1, k);
        let prior = groups_after(seed, all, j - 1);
        let cur = groups_after(seed, all, j);
        let it = all[j - 1];
        if 0 <= j - 1 < all.len() && is_candidate(all, it) {
            assert(it.record.size != k);
            let r = it.record;
            let c = it.content->0;
            let fp = fingerprint_of(seed, c);
            if exists|i: int| 0 <= i < prior.len() && (#[trigger] prior[i]).size == r.size
                && prior[i].fp == fp {
                let i = choose|i: int|
                    0 <= i < prior.len() && (#[trigger] prior[i]).size == r.size && prior[i].fp
                        == fp;
                assert forall|gi: int, mi: int|
                    0 <= gi < cur.len() && 0 <= mi < cur[gi].members.len() implies (
                #[trigger] cur[gi].members[mi]).size != k by {
                    if gi == i {
                        if mi < prior[i].members.len() {
                            assert(cur[gi].members[mi] == prior[i].members[mi]);
                        } else {
                            assert(cur[gi].members[mi] == r);
                        }
                    } else {
                        assert(cur[gi] == prior[gi]);
                    }
                }
            } else {
                assert forall|gi: int, mi: int|
                    0 <= gi < cur.len() && 0 <= mi < cur[gi].members.len() implies (
                #[trigger] cur[gi].members[mi]).size != k by {
                    if gi < prior.len() {
                        assert(cur[gi] == prior[gi]);
                    } else {
                        assert(cur[gi].members =~= seq![r]);
                    }
                }
            }
        }
    }
}

/// Runs the whole pipeline over one enumeration: size-classifies every
/// record, then fingerprints exactly the candidates, in order. The
/// returned size-candidate map is the size partition of every
/// enumerated record, and the returned confirmed-duplicate map is the
/// grouping of exactly the readable records of shared byte size.
pub fn run_pipeline(items: &Vec<ScanItem>, seed: u64) -> (r: (SizeClassifier, ContentClassifier))
    ensures
        r.0.wf(),
        r.0.inserted() == records_of(items@.map_values(|it: ScanItem| it@)),
        r.1.wf(),
        r.1.seed() == seed,
        r.1.groups_model() == groups_after(
            seed,
            items@.map_values(|it: ScanItem| it@),
            items@.len() as int,
        ),
{
    let ghost all = items@.map_values(|it: ScanItem| it@);
    let mut sizes = SizeClassifier::new();
    let mut idx: usize = 0;
    while idx < items.len()
        invariant
            all == items@.map_values(|it: ScanItem| it@),
            idx <= items@.len(),
            sizes.wf(),
            sizes.inserted() == records_of(all.take(idx as int)),
        decreases items@.len() - idx,
    {
        sizes.insert(items[idx].record.clone());
        proof {
            assert(records_of(all.take(idx + 1 as int)) =~= records_of(all.take(idx as int)).push(
                items@[idx as int]@.record,
            ));
        }
        idx = idx + 1;
    }
    proof {
        assert(all.take(items@.len() as int) =~= all);
    }

    let mut dups = ContentClassifier::new(seed);
    let mut j: usize = 0;
    while j < items.len()
        invariant
            all == items@.map_values(|it: ScanItem| it@),
            j <= items@.len(),
            sizes.wf(),
            sizes.inserted() == records_of(all),
            dups.wf(),
            dups.seed() == seed,
            dups.groups_model() == groups_after(seed, all, j as int),
        decreases items@.len() - j,
    {
        let it = &items[j];
        let ghost itv = all[j as int];
        match &it.content {
            Some(bytes) => {
                let shared = sizes.size_count(it.record.size);
                proof {
                    crate::sizewise::lemma_size_partition_filter(
                        records_of(all),
                        itv.record.size,
                    );
                    assert(sizes.model() == size_partition(records_of(all)));
                }
                if shared >= 2 {
                    dups.process(&it.record, bytes);
                    proof {
                        assert(itv.content == Some(bytes@));
                        assert(is_candidate(all, itv));
                    }
                } else {
                    proof {
                        assert(!is_candidate(all, itv));
                    }
                }
            },
            None => {
                proof {
                    assert(!(itv.content is Some));
                }
            },
        }
        j = j + 1;
    }
    (sizes, dups)
}

} // verus!
