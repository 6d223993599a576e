//! The store: registry, sample log and link table behind one interface
//! that keeps each dataset's sample count equal to the number of its rows.
//! Every operation is one atomic step: it commits as a whole or, when it is
//! refused, leaves the store exactly as it was.

use vstd::prelude::*;
use crate::dataset::{Dataset, DatasetView, description_text, fresh_row, requested_tags};
use crate::error::StoreError;
use crate::links::{LinkConfirmation, LinkTable, LinkView, occurrences};
use crate::registry::{
    bumped,
    bumped_row,
    counted,
    dropped,
    is_slot,
    lemma_bumped,
    lemma_dropped,
    lemma_inserted,
    lemma_lookup_at,
    lookup,
    newest_first,
    registered,
    registry_wf,
    row_views,
    Registry,
};
use crate::samples::{
    contents,
    keys_ascending,
    lemma_append_keeps_keys,
    lemma_purge_keeps_keys,
    lemma_rows_after_append,
    lemma_rows_after_purge,
    rows_of,
    rows_without,
    stamped,
    Sample,
    SampleLog,
};

verus! {

/// What the store holds.
pub struct StoreView {
    /// The dataset rows, newest first.
    pub datasets: Seq<DatasetView>,
    /// The sample rows, oldest first.
    pub rows: Seq<Sample>,
    /// The key of the next sample row.
    pub next_key: nat,
    /// Finetunes and their links.
    pub links: LinkView,
}

/// Every dataset's count is the number of its rows, and no row belongs to
/// a dataset that is not registered.
pub open spec fn consistent(datasets: Seq<DatasetView>, rows: Seq<Sample>) -> bool {
    forall|id: u128| (#[trigger] rows_of(rows, id)).len() == counted(datasets, id)
}

/// Whether `id` has the form of a random (version 4) identifier: version
/// bits 0100, variant bits 10.
pub open spec fn version_four(id: u128) -> bool {
    id & 0x0000_0000_0000_F000_C000_0000_0000_0000u128
        == 0x0000_0000_0000_4000_8000_0000_0000_0000u128
}

/// The documents of a request that may carry none.
pub open spec fn requested_documents(documents: Option<Vec<serde_json::Value>>) -> Seq<
    serde_json::Value,
> {
    match documents {
        Some(list) => list@,
        None => Seq::empty(),
    }
}

impl StoreView {
    pub open spec fn wf(self) -> bool {
        &&& registry_wf(self.datasets)
        &&& keys_ascending(self.rows, self.next_key)
        &&& self.links.wf()
        &&& consistent(self.datasets, self.rows)
    }

    /// Why appending `count` documents to dataset `id` is refused, if it is.
    pub open spec fn append_refusal(self, id: u128, count: nat) -> Option<StoreError> {
        if !registered(self.datasets, id) {
            Some(StoreError::NotFound)
        } else if counted(self.datasets, id) + count > i32::MAX {
            Some(StoreError::ConstraintViolation)
        } else if self.next_key + count > u64::MAX {
            Some(StoreError::StoreUnavailable)
        } else {
            None
        }
    }

    /// The store after `docs` were appended to dataset `id` at `now`.
    pub open spec fn appended(self, id: u128, docs: Seq<serde_json::Value>, now: int) -> StoreView {
        StoreView {
            datasets: bumped(self.datasets, id, docs.len() as int, now),
            rows: self.rows + stamped(self.next_key, id, docs),
            next_key: self.next_key + docs.len(),
            links: self.links,
        }
    }

    /// Why creating dataset `id` with `count` documents is refused, if it
    /// is.
    pub open spec fn creation_refusal(self, id: u128, count: nat) -> Option<StoreError> {
        if registered(self.datasets, id) || count > i32::MAX {
            Some(StoreError::ConstraintViolation)
        } else if self.next_key + count > u64::MAX {
            Some(StoreError::StoreUnavailable)
        } else {
            None
        }
    }

    /// The store after a dataset with the fresh row `row` was created in
    /// slot `at` and seeded with `docs`.
    pub open spec fn created(self, at: int, row: DatasetView, docs: Seq<serde_json::Value>) -> StoreView {
        StoreView {
            datasets: self.datasets.insert(
                at,
                bumped_row(row, docs.len() as int, row.created_at),
            ),
            rows: self.rows + stamped(self.next_key, row.id, docs),
            next_key: self.next_key + docs.len(),
            links: self.links,
        }
    }

    /// The store after dataset `id` was deleted together with its rows.
    pub open spec fn deleted(self, id: u128) -> StoreView {
        StoreView {
            datasets: dropped(self.datasets, id),
            rows: rows_without(self.rows, id),
            next_key: self.next_key,
            links: self.links,
        }
    }

    /// The store after dataset `dataset_id` was linked to finetune
    /// `finetune_id`.
    pub open spec fn linked(self, finetune_id: u128, dataset_id: u128) -> StoreView {
        StoreView {
            datasets: self.datasets,
            rows: self.rows,
            next_key: self.next_key,
            links: self.links.linked(finetune_id, dataset_id),
        }
    }
}

/// A committed append leaves the store well formed, adds its documents to
/// the rows of its dataset, raises that dataset's count by their number and
/// leaves every other dataset alone.
pub proof fn lemma_appended(s: StoreView, id: u128, docs: Seq<serde_json::Value>, now: int)
    requires
        s.wf(),
        s.append_refusal(id, docs.len()).is_none(),
    ensures
        s.appended(id, docs, now).wf(),
        registered(s.appended(id, docs, now).datasets, id),
        counted(s.appended(id, docs, now).datasets, id) == counted(s.datasets, id) + docs.len(),
        rows_of(s.appended(id, docs, now).rows, id) == rows_of(s.rows, id) + stamped(
            s.next_key,
            id,
            docs,
        ),
        forall|other: u128|
            other != id ==> #[trigger] lookup(s.appended(id, docs, now).datasets, other) == lookup(
                s.datasets,
                other,
            ),
        forall|other: u128|
            other != id ==> #[trigger] rows_of(s.appended(id, docs, now).rows, other) == rows_of(
                s.rows,
                other,
            ),
{
    let after = s.appended(id, docs, now);
    lemma_bumped(s.datasets, id, docs.len() as int, now);
    lemma_append_keeps_keys(s.rows, s.next_key, id, docs);
    assert(lookup(after.datasets, id).is_some());
    assert forall|other: u128| (#[trigger] rows_of(after.rows, other)).len() == counted(
        after.datasets,
        other,
    ) by {
        lemma_rows_after_append(s.rows, s.next_key, id, docs, other);
        assert(rows_of(s.rows, other).len() == counted(s.datasets, other));
        assert(lookup(after.datasets, other) == if other == id {
            Some(bumped_row(s.datasets[crate::registry::position(s.datasets, id)], docs.len() as int, now))
        } else {
            lookup(s.datasets, other)
        });
    }
    lemma_rows_after_append(s.rows, s.next_key, id, docs, id);
    assert forall|other: u128| other != id implies #[trigger] rows_of(after.rows, other)
        == rows_of(s.rows, other) by {
        lemma_rows_after_append(s.rows, s.next_key, id, docs, other);
    }
}

/// A committed creation leaves the store well formed; the new dataset
/// counts exactly the seeded documents and owns exactly their rows.
pub proof fn lemma_created(s: StoreView, at: int, row: DatasetView, docs: Seq<serde_json::Value>)
    requires
        s.wf(),
        s.creation_refusal(row.id, docs.len()).is_none(),
        is_slot(s.datasets, row.created_at, at),
        row.samples_count == 0,
        row.size_bytes >= 0,
    ensures
        s.created(at, row, docs).wf(),
        lookup(s.created(at, row, docs).datasets, row.id) == Some(
            bumped_row(row, docs.len() as int, row.created_at),
        ),
        counted(s.created(at, row, docs).datasets, row.id) == docs.len(),
        rows_of(s.created(at, row, docs).rows, row.id) == stamped(s.next_key, row.id, docs),
        forall|other: u128|
            other != row.id ==> #[trigger] lookup(s.created(at, row, docs).datasets, other)
                == lookup(s.datasets, other),
{
    let after = s.created(at, row, docs);
    let seeded = bumped_row(row, docs.len() as int, row.created_at);
    lemma_inserted(s.datasets, at, seeded);
    lemma_append_keeps_keys(s.rows, s.next_key, row.id, docs);
    assert(rows_of(s.rows, row.id).len() == counted(s.datasets, row.id));
    assert(rows_of(s.rows, row.id) =~= Seq::<Sample>::empty());
    assert forall|other: u128| (#[trigger] rows_of(after.rows, other)).len() == counted(
        after.datasets,
        other,
    ) by {
        lemma_rows_after_append(s.rows, s.next_key, row.id, docs, other);
        assert(rows_of(s.rows, other).len() == counted(s.datasets, other));
        assert(lookup(after.datasets, other) == if other == row.id {
            Some(seeded)
        } else {
            lookup(s.datasets, other)
        });
    }
    lemma_rows_after_append(s.rows, s.next_key, row.id, docs, row.id);
    assert(rows_of(s.rows, row.id) + stamped(s.next_key, row.id, docs) =~= stamped(
        s.next_key,
        row.id,
        docs,
    ));
    assert(lookup(after.datasets, row.id) == Some(seeded));
}

/// A deletion leaves the store well formed, the dataset unregistered and
/// without rows, and every other dataset as it was.
pub proof fn lemma_deleted(s: StoreView, id: u128)
    requires
        s.wf(),
    ensures
        s.deleted(id).wf(),
        lookup(s.deleted(id).datasets, id).is_none(),
        rows_of(s.deleted(id).rows, id) == Seq::<Sample>::empty(),
        forall|other: u128|
            other != id ==> #[trigger] lookup(s.deleted(id).datasets, other) == lookup(
                s.datasets,
                other,
            ),
        forall|other: u128|
            other != id ==> #[trigger] rows_of(s.deleted(id).rows, other) == rows_of(s.rows, other),
{
    let after = s.deleted(id);
    lemma_dropped(s.datasets, id);
    lemma_purge_keeps_keys(s.rows, s.next_key, id);
    lemma_rows_after_purge(s.rows, id, id);
    assert(lookup(after.datasets, id).is_none());
    assert forall|other: u128| (#[trigger] rows_of(after.rows, other)).len() == counted(
        after.datasets,
        other,
    ) by {
        lemma_rows_after_purge(s.rows, id, other);
        assert(rows_of(s.rows, other).len() == counted(s.datasets, other));
        assert(lookup(after.datasets, other) == if other == id {
            None
        } else {
            lookup(s.datasets, other)
        });
    }
    assert forall|other: u128| other != id implies #[trigger] rows_of(after.rows, other)
        == rows_of(s.rows, other) by {
        lemma_rows_after_purge(s.rows, id, other);
    }
}

/// What a creation asks for.
pub struct CreateDatasetReq {
    pub name: String,
    pub description: Option<String>,
    /// No tags when absent.
    pub tags: Option<Vec<String>>,
    /// Documents to seed the dataset with, if any.
    pub samples: Option<Vec<serde_json::Value>>,
}

impl CreateDatasetReq {
    /// The row of a dataset created for this request under `id` at `now`,
    /// before any sample is counted.
    pub open spec fn row(self, id: u128, now: int) -> DatasetView {
        fresh_row(
            id,
            self.name@,
            description_text(self.description),
            requested_tags(self.tags),
            now,
        )
    }
}

/// The answer to a creation or an append: the dataset's row as it stands
/// afterwards, and how many samples were added.
pub struct CreateDatasetResp {
    pub dataset: Dataset,
    pub added_samples: usize,
}

/// The answer to a deletion: the identifier asked for, whether or not
/// such a dataset existed.
#[derive(Clone, Copy, Debug, PartialEq, Eq, Structural)]
pub struct DeleteConfirmation {
    pub ok: bool,
    pub id: u128,
}

/// The store.
pub struct Store {
    registry: Registry,
    samples: SampleLog,
    links: LinkTable,
}

impl Store {
    pub closed spec fn view(&self) -> StoreView {
        StoreView {
            datasets: self.registry@,
            rows: self.samples@,
            next_key: self.samples.next_key(),
            links: self.links@,
        }
    }

    pub open spec fn wf(&self) -> bool {
        self@.wf()
    }

    /// An empty store.
    pub fn new() -> (store: Store)
        ensures
            store.wf(),
            store@.datasets == Seq::<DatasetView>::empty(),
            store@.rows == Seq::<Sample>::empty(),
            store@.next_key == 0,
            store@.links.finetunes == Seq::<u128>::empty(),
            store@.links.links == Seq::<(u128, u128)>::empty(),
    {
        let store = Store { registry: Registry::new(), samples: SampleLog::new(), links: LinkTable::new() };
        proof {
            assert forall|id: u128| (#[trigger] rows_of(store@.rows, id)).len() == counted(
                store@.datasets,
                id,
            ) by {}
        }
        store
    }

    /// An empty store whose first sample row will get the key `first_key`.
    pub fn starting_at(first_key: u64) -> (store: Store)
        ensures
            store.wf(),
            store@.datasets == Seq::<DatasetView>::empty(),
            store@.rows == Seq::<Sample>::empty(),
            store@.next_key == first_key,
            store@.links.finetunes == Seq::<u128>::empty(),
            store@.links.links == Seq::<(u128, u128)>::empty(),
    {
        let store = Store {
            registry: Registry::new(),
            samples: SampleLog::starting_at(first_key),
            links: LinkTable::new(),
        };
        proof {
            assert forall|id: u128| (#[trigger] rows_of(store@.rows, id)).len() == counted(
                store@.datasets,
                id,
            ) by {}
        }
        store
    }

    /// Every dataset, in descending order of creation time.
    pub fn list_datasets(&self) -> (rows: Vec<Dataset>)
        requires
            self.wf(),
        ensures
            row_views(rows@) == self@.datasets,
            newest_first(row_views(rows@)),
    {
        self.registry.list()
    }

    /// The row of dataset `id`, or `NotFound` when there is none.
    pub fn get_dataset(&self, id: u128) -> (r: Result<Dataset, StoreError>)
        requires
            self.wf(),
        ensures
            match r {
                Ok(row) => lookup(self@.datasets, id) == Some(row@),
                Err(e) => e == StoreError::NotFound && lookup(self@.datasets, id).is_none(),
            },
    {
        self.registry.get(id)
    }

    /// The number of sample rows that dataset `id` owns.
    pub fn sample_count(&self, id: u128) -> (count: usize)
        ensures
            count == rows_of(self@.rows, id).len(),
    {
        self.samples.count_for(id)
    }

    /// The documents of dataset `id`, oldest first.
    pub fn samples_of(&self, id: u128) -> (docs: Vec<serde_json::Value>)
        ensures
            docs@ == contents(rows_of(self@.rows, id)),
    {
        self.samples.documents_of(id)
    }

    /// Creates dataset `id` at `now` as `req` describes it and seeds it with
    /// the request's documents, all in one step: the dataset is never
    /// there with rows that its count does not show. An identifier that is
    /// taken is refused, and a refused creation changes nothing.
    pub fn create_dataset_as(&mut self, id: u128, req: CreateDatasetReq, now: i64) -> (r: Result<
        CreateDatasetResp,
        StoreError,
    >)
        requires
            old(self).wf(),
        ensures
            final(self).wf(),
            match r {
                Ok(resp) => {
                    &&& old(self)@.creation_refusal(
                        id,
                        requested_documents(req.samples).len(),
                    ).is_none()
                    &&& exists|at: int| #[trigger]
                        is_slot(old(self)@.datasets, now as int, at) && final(self)@ == old(
                            self,
                        )@.created(at, req.row(id, now as int), requested_documents(req.samples))
                    &&& resp.added_samples == requested_documents(req.samples).len()
                    &&& resp.dataset@ == bumped_row(
                        req.row(id, now as int),
                        resp.added_samples as int,
                        now as int,
                    )
                    &&& lookup(final(self)@.datasets, id) == Some(resp.dataset@)
                },
                Err(e) => {
                    &&& old(self)@.creation_refusal(id, requested_documents(req.samples).len())
                        == Some(e)
                    &&& final(self)@ == old(self)@
                },
            },
    {
        let added = match &req.samples {
            Some(list) => list.len(),
            None => 0,
        };
        if self.registry.contains(id) || added > i32::MAX as usize {
            return Err(StoreError::ConstraintViolation);
        }
        if !self.samples.has_room(added) {
            return Err(StoreError::StoreUnavailable);
        }
        let ghost before = self@;
        let ghost row = req.row(id, now as int);
        let ghost docs = requested_documents(req.samples);
        let CreateDatasetReq { name, description, tags, samples } = req;
        let fresh = match self.registry.create(id, name, description, tags, now) {
            Ok(fresh) => fresh,
            Err(e) => {
                return Err(e);
            },
        };
        let ghost at = choose|at: int| #[trigger]
            is_slot(before.datasets, now as int, at) && self.registry@ == before.datasets.insert(
                at,
                row,
            );
        proof {
            lemma_created(before, at, row, docs);
            lemma_lookup_at(self.registry@, at);
        }
        let dataset = match samples {
            Some(documents) => {
                let appended = self.samples.append(id, documents);
                let bumped = self.registry.bump(id, added, now);
                match (appended, bumped) {
                    (Ok(_), Ok(dataset)) => dataset,
                    (Err(e), _) => {
                        return Err(e);
                    },
                    (_, Err(e)) => {
                        return Err(e);
                    },
                }
            },
            None => {
                proof {
                    assert(self.samples@ + stamped(before.next_key, id, docs) =~= self.samples@);
                }
                fresh
            },
        };
        proof {
            assert(self.registry@ =~= before.created(at, row, docs).datasets);
            assert(self@ == before.created(at, row, docs));
        }
        Ok(CreateDatasetResp { dataset, added_samples: added })
    }

    /// Creates a dataset as `req` describes it under an identifier drawn at
    /// random, and seeds it with the request's documents. Should the drawn
    /// identifier be taken, the creation is refused and nothing changes.
    pub fn create_dataset(&mut self, req: CreateDatasetReq, now: i64) -> (r: Result<
        CreateDatasetResp,
        StoreError,
    >)
        requires
            old(self).wf(),
        ensures
            final(self).wf(),
            match r {
                Ok(resp) => {
                    &&& version_four(resp.dataset.id)
                    &&& old(self)@.creation_refusal(
                        resp.dataset.id,
                        requested_documents(req.samples).len(),
                    ).is_none()
                    &&& exists|at: int| #[trigger]
                        is_slot(old(self)@.datasets, now as int, at) && final(self)@ == old(
                            self,
                        )@.created(
                            at,
                            req.row(resp.dataset.id, now as int),
                            requested_documents(req.samples),
                        )
                    &&& resp.added_samples == requested_documents(req.samples).len()
                    &&& resp.dataset@ == bumped_row(
                        req.row(resp.dataset.id, now as int),
                        resp.added_samples as int,
                        now as int,
                    )
                    &&& lookup(final(self)@.datasets, resp.dataset.id) == Some(resp.dataset@)
                },
                Err(e) => {
                    &&& final(self)@ == old(self)@
                    &&& exists|id: u128|
                        version_four(id) && #[trigger] old(self)@.creation_refusal(
                            id,
                            requested_documents(req.samples).len(),
                        ) == Some(e)
                },
            },
    {
        let id = random_id();
        self.create_dataset_as(id, req, now)
    }

    /// Appends `documents` to dataset `id` at `now`, raises the dataset's
    /// count by their number and returns the row as it then stands. A
    /// refused append changes nothing.
    pub fn add_samples(&mut self, id: u128, documents: Vec<serde_json::Value>, now: i64) -> (r:
        Result<CreateDatasetResp, StoreError>)
        requires
            old(self).wf(),
        ensures
            final(self).wf(),
            match r {
                Ok(resp) => {
                    &&& old(self)@.append_refusal(id, documents@.len()).is_none()
                    &&& final(self)@ == old(self)@.appended(id, documents@, now as int)
                    &&& resp.added_samples == documents@.len()
                    &&& lookup(final(self)@.datasets, id) == Some(resp.dataset@)
                },
                Err(e) => {
                    &&& old(self)@.append_refusal(id, documents@.len()) == Some(e)
                    &&& final(self)@ == old(self)@
                },
            },
    {
        let added = documents.len();
        if let Some(e) = self.registry.check_bump(id, added) {
            return Err(e);
        }
        if !self.samples.has_room(added) {
            return Err(StoreError::StoreUnavailable);
        }
        proof {
            lemma_appended(self@, id, documents@, now as int);
        }
        let appended = self.samples.append(id, documents);
        let bumped = self.registry.bump(id, added, now);
        match (appended, bumped) {
            (Ok(_), Ok(dataset)) => Ok(CreateDatasetResp { dataset, added_samples: added }),
            (Err(e), _) => Err(e),
            (_, Err(e)) => Err(e),
        }
    }

    /// Deletes dataset `id` and, with it, every one of its sample rows.
    /// Deleting a dataset that does not exist changes nothing and is
    /// confirmed all the same.
    pub fn delete_dataset(&mut self, id: u128) -> (done: DeleteConfirmation)
        requires
            old(self).wf(),
        ensures
            final(self).wf(),
            final(self)@ == old(self)@.deleted(id),
            done == (DeleteConfirmation { ok: true, id }),
    {
        proof {
            lemma_deleted(self@, id);
        }
        self.registry.remove(id);
        self.samples.purge(id);
        DeleteConfirmation { ok: true, id }
    }

    /// Links dataset `dataset_id` to finetune `finetune_id`; a second
    /// request for the same pair changes nothing. Whether the dataset
    /// exists is not asked.
    pub fn link_dataset_to_finetune(&mut self, finetune_id: u128, dataset_id: u128) -> (done:
        LinkConfirmation)
        requires
            old(self).wf(),
        ensures
            final(self).wf(),
            final(self)@ == old(self)@.linked(finetune_id, dataset_id),
            done == (LinkConfirmation { ok: true, finetune_id, dataset_id }),
    {
        self.links.link(finetune_id, dataset_id)
    }

    /// The number of rows that link `dataset_id` to `finetune_id`.
    pub fn link_rows(&self, finetune_id: u128, dataset_id: u128) -> (count: usize)
        ensures
            count == occurrences(self@.links.links, (finetune_id, dataset_id)),
    {
        self.links.rows_for(finetune_id, dataset_id)
    }

    /// Whether the store knows finetune `finetune_id`.
    pub fn has_finetune(&self, finetune_id: u128) -> (known: bool)
        ensures
            known == self@.links.finetunes.contains(finetune_id),
    {
        self.links.has_finetune(finetune_id)
    }
}

/// `uuid::Uuid::new_v4` followed by `Uuid::as_u128`: a random identifier as
/// its 128-bit number. The value is random; all that is claimed of it is
/// that its version and variant bits are those that `new_v4` sets.
#[verifier::external_body]
fn random_id() -> (id: u128)
    ensures
        version_four(id),
{
    uuid::Uuid::new_v4().as_u128()
}

} // verus!
