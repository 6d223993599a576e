//! What holds of the store over several operations, stated over its view.

use vstd::prelude::*;
use crate::dataset::DatasetView;
use crate::error::StoreError;
use crate::links::{lemma_occurrences, occurrences, LinkView};
use crate::registry::{counted, is_slot, lookup, registered};
use crate::samples::{rows_of, Sample};
use crate::store::{lemma_appended, lemma_created, lemma_deleted, StoreView};

verus! {

/// One append request: its documents and the time at which it runs.
pub struct Batch {
    pub documents: Seq<serde_json::Value>,
    pub now: int,
}

/// The store after one append request to dataset `id`: the append
/// commits, or it is refused and nothing changes.
pub open spec fn after_request(s: StoreView, id: u128, batch: Batch) -> StoreView {
    if s.append_refusal(id, batch.documents.len()).is_none() {
        s.appended(id, batch.documents, batch.now)
    } else {
        s
    }
}

/// The store after the append requests `batches` ran against dataset `id`
/// one after the other, in this order.
pub open spec fn after_requests(s: StoreView, id: u128, batches: Seq<Batch>) -> StoreView
    decreases batches.len(),
{
    if batches.len() == 0 {
        s
    } else {
        after_request(after_requests(s, id, batches.drop_last()), id, batches.last())
    }
}

/// How many samples the requests `batches` committed, run in this order
/// against dataset `id`.
pub open spec fn committed(s: StoreView, id: u128, batches: Seq<Batch>) -> nat
    decreases batches.len(),
{
    if batches.len() == 0 {
        0
    } else {
        let earlier = after_requests(s, id, batches.drop_last());
        committed(s, id, batches.drop_last()) + if earlier.append_refusal(
            id,
            batches.last().documents.len(),
        ).is_none() {
            batches.last().documents.len()
        } else {
            0nat
        }
    }
}

/// The number of documents in all of `batches`.
pub open spec fn total(batches: Seq<Batch>) -> nat
    decreases batches.len(),
{
    if batches.len() == 0 {
        0
    } else {
        total(batches.drop_last()) + batches.last().documents.len()
    }
}

/// Appends to one dataset add up. In whatever order the requests come to
/// run, the dataset's count afterwards is its count before plus the number
/// of samples that the committed requests added, and so is the number of
/// its rows.
pub proof fn appends_add_up(s: StoreView, id: u128, batches: Seq<Batch>)
    requires
        s.wf(),
    ensures
        after_requests(s, id, batches).wf(),
        counted(after_requests(s, id, batches).datasets, id) == counted(s.datasets, id)
            + committed(s, id, batches),
        rows_of(after_requests(s, id, batches).rows, id).len() == rows_of(s.rows, id).len()
            + committed(s, id, batches),
        after_requests(s, id, batches).next_key == s.next_key + committed(s, id, batches),
        registered(after_requests(s, id, batches).datasets, id) == registered(s.datasets, id),
    decreases batches.len(),
{
    if batches.len() > 0 {
        let earlier = after_requests(s, id, batches.drop_last());
        appends_add_up(s, id, batches.drop_last());
        let last = batches.last();
        if earlier.append_refusal(id, last.documents.len()).is_none() {
            lemma_appended(earlier, id, last.documents, last.now);
        }
    }
}

/// Where the dataset exists and count and keys have room for all of the
/// documents, every request commits, so the count grows by the number of
/// all documents: a sum that no order of the requests changes.
pub proof fn appends_all_commit(s: StoreView, id: u128, batches: Seq<Batch>)
    requires
        s.wf(),
        registered(s.datasets, id),
        counted(s.datasets, id) + total(batches) <= i32::MAX,
        s.next_key + total(batches) <= u64::MAX,
    ensures
        committed(s, id, batches) == total(batches),
        counted(after_requests(s, id, batches).datasets, id) == counted(s.datasets, id) + total(
            batches,
        ),
    decreases batches.len(),
{
    appends_add_up(s, id, batches);
    if batches.len() > 0 {
        appends_all_commit(s, id, batches.drop_last());
        appends_add_up(s, id, batches.drop_last());
    }
}

/// The documents of two runs of requests add up, so it makes no difference
/// to their number which of the runs comes first.
pub proof fn total_of_runs(a: Seq<Batch>, b: Seq<Batch>)
    ensures
        total(a + b) == total(a) + total(b),
        total(a + b) == total(b + a),
    decreases a.len() + b.len(),
{
    if b.len() == 0 {
        assert(a + b =~= a);
        assert(b + a =~= a);
    } else if a.len() == 0 {
        assert(a + b =~= b);
        assert(b + a =~= b);
    } else {
        total_of_runs(a, b.drop_last());
        assert((a + b).drop_last() =~= a + b.drop_last());
        assert((a + b).last() == b.last());
        total_of_runs(b, a.drop_last());
        assert((b + a).drop_last() =~= b + a.drop_last());
        assert((b + a).last() == a.last());
    }
}

/// A dataset created with N documents counts N samples and owns exactly N
/// rows, and the store stays well formed.
pub proof fn creation_seeds_all(
    s: StoreView,
    at: int,
    row: DatasetView,
    docs: Seq<serde_json::Value>,
)
    requires
        s.wf(),
        s.creation_refusal(row.id, docs.len()).is_none(),
        is_slot(s.datasets, row.created_at, at),
        row.samples_count == 0,
        row.size_bytes >= 0,
    ensures
        s.created(at, row, docs).wf(),
        counted(s.created(at, row, docs).datasets, row.id) == docs.len(),
        rows_of(s.created(at, row, docs).rows, row.id).len() == docs.len(),
{
    lemma_created(s, at, row, docs);
}

/// After a dataset was deleted none of its rows is left and a lookup of
/// it finds nothing.
pub proof fn deletion_leaves_nothing(s: StoreView, id: u128)
    requires
        s.wf(),
    ensures
        s.deleted(id).wf(),
        rows_of(s.deleted(id).rows, id) == Seq::<Sample>::empty(),
        lookup(s.deleted(id).datasets, id).is_none(),
        s.deleted(id).append_refusal(id, 0) == Some(StoreError::NotFound),
{
    lemma_deleted(s, id);
}

/// Linking the same pair twice is linking it once: the second request
/// changes nothing, and the table holds exactly one row for the pair.
pub proof fn linking_twice_is_once(t: LinkView, finetune_id: u128, dataset_id: u128)
    requires
        t.wf(),
    ensures
        t.linked(finetune_id, dataset_id).wf(),
        t.linked(finetune_id, dataset_id).linked(finetune_id, dataset_id) == t.linked(
            finetune_id,
            dataset_id,
        ),
        occurrences(
            t.linked(finetune_id, dataset_id).linked(finetune_id, dataset_id).links,
            (finetune_id, dataset_id),
        ) == 1,
{
    let once = t.linked(finetune_id, dataset_id);
    let pair = (finetune_id, dataset_id);
    assert(once.links.contains(pair)) by {
        if t.links.contains(pair) {
        } else {
            assert(once.links[once.links.len() - 1] == pair);
        }
    }
    assert(once.finetunes.contains(finetune_id)) by {
        if t.finetunes.contains(finetune_id) {
        } else {
            assert(once.finetunes[once.finetunes.len() - 1] == finetune_id);
        }
    }
    assert(once.wf()) by {
        assert forall|i: int| 0 <= i < once.links.len() implies once.finetunes.contains(
            (#[trigger] once.links[i]).0,
        ) by {
            if i < t.links.len() {
                let f = t.links[i].0;
                assert(t.finetunes.contains(f));
                let k = choose|k: int| 0 <= k < t.finetunes.len() && t.finetunes[k] == f;
                assert(once.finetunes[k] == f);
            }
        }
    }
    lemma_occurrences(once.links, pair);
}

} // verus!
