//! The dataset registry: one row per dataset, newest first.

use vstd::prelude::*;
use crate::dataset::{Dataset, DatasetView, description_text, fresh_row, requested_tags};
use crate::error::StoreError;

verus! {

/// Whether some row has identifier `id`.
pub open spec fn registered(rows: Seq<DatasetView>, id: u128) -> bool {
    exists|i: int| 0 <= i < rows.len() && (#[trigger] rows[i]).id == id
}

/// Where the row with identifier `id` stands, when there is one.
pub open spec fn position(rows: Seq<DatasetView>, id: u128) -> int {
    choose|i: int| 0 <= i < rows.len() && (#[trigger] rows[i]).id == id
}

/// The row with identifier `id`, if any.
pub open spec fn lookup(rows: Seq<DatasetView>, id: u128) -> Option<DatasetView> {
    if registered(rows, id) {
        Some(rows[position(rows, id)])
    } else {
        None
    }
}

/// No identifier occurs in two rows.
pub open spec fn distinct_ids(rows: Seq<DatasetView>) -> bool {
    forall|i: int, j: int|
        0 <= i < rows.len() && 0 <= j < rows.len() && (#[trigger] rows[i]).id == (
        #[trigger] rows[j]).id ==> i == j
}

/// Rows stand in descending order of creation time.
pub open spec fn newest_first(rows: Seq<DatasetView>) -> bool {
    forall|i: int, j: int|
        0 <= i < j < rows.len() ==> (#[trigger] rows[i]).created_at >= (
        #[trigger] rows[j]).created_at
}

/// No row has a negative count or size.
pub open spec fn counts_natural(rows: Seq<DatasetView>) -> bool {
    forall|i: int|
        0 <= i < rows.len() ==> (#[trigger] rows[i]).samples_count >= 0 && rows[i].size_bytes
            >= 0
}

/// What holds of every registry.
pub open spec fn registry_wf(rows: Seq<DatasetView>) -> bool {
    &&& distinct_ids(rows)
    &&& newest_first(rows)
    &&& counts_natural(rows)
}

/// `at` is where a row created at `now` goes: behind every row created
/// later, before every row created at the same time or earlier.
pub open spec fn is_slot(rows: Seq<DatasetView>, now: int, at: int) -> bool {
    &&& 0 <= at <= rows.len()
    &&& forall|i: int| 0 <= i < at ==> (#[trigger] rows[i]).created_at > now
    &&& forall|i: int| at <= i < rows.len() ==> (#[trigger] rows[i]).created_at <= now
}

/// The row `row` after `delta` more samples were counted at `now`.
pub open spec fn bumped_row(row: DatasetView, delta: int, now: int) -> DatasetView {
    DatasetView { samples_count: row.samples_count + delta, updated_at: now, ..row }
}

/// The registry after the sample count of dataset `id` grew by `delta` at
/// `now`. Without such a dataset nothing changes.
pub open spec fn bumped(rows: Seq<DatasetView>, id: u128, delta: int, now: int) -> Seq<
    DatasetView,
> {
    if registered(rows, id) {
        rows.update(position(rows, id), bumped_row(rows[position(rows, id)], delta, now))
    } else {
        rows
    }
}

/// Why the registry would refuse to raise the count of dataset `id` by
/// `delta`, if it would.
pub open spec fn bump_refusal(rows: Seq<DatasetView>, id: u128, delta: int) -> Option<StoreError> {
    match lookup(rows, id) {
        None => Some(StoreError::NotFound),
        Some(row) => if row.samples_count + delta > i32::MAX {
            Some(StoreError::ConstraintViolation)
        } else {
            None
        },
    }
}

/// The sample count that the registry holds for dataset `id`; 0 for a
/// dataset that is not registered.
pub open spec fn counted(rows: Seq<DatasetView>, id: u128) -> int {
    match lookup(rows, id) {
        Some(row) => row.samples_count,
        None => 0,
    }
}

/// The registry without the row of dataset `id`.
pub open spec fn dropped(rows: Seq<DatasetView>, id: u128) -> Seq<DatasetView> {
    if registered(rows, id) {
        rows.remove(position(rows, id))
    } else {
        rows
    }
}

/// The views of `rows`, in order.
pub open spec fn row_views(rows: Seq<Dataset>) -> Seq<DatasetView> {
    Seq::new(rows.len(), |i: int| rows[i]@)
}

/// Among rows with distinct identifiers, a row is found by its identifier.
pub proof fn lemma_lookup_at(rows: Seq<DatasetView>, k: int)
    requires
        distinct_ids(rows),
        0 <= k < rows.len(),
    ensures
        registered(rows, rows[k].id),
        position(rows, rows[k].id) == k,
        lookup(rows, rows[k].id) == Some(rows[k]),
{
    assert(rows[k].id == rows[k].id);
    let p = position(rows, rows[k].id);
    assert(rows[p].id == rows[k].id);
}

/// Raising one count keeps the registry well formed and changes the row
/// of that dataset alone.
pub proof fn lemma_bumped(rows: Seq<DatasetView>, id: u128, delta: int, now: int)
    requires
        registry_wf(rows),
        registered(rows, id),
        delta >= 0,
    ensures
        registry_wf(bumped(rows, id, delta, now)),
        forall|other: u128| #[trigger]
            lookup(bumped(rows, id, delta, now), other) == if other == id {
                Some(bumped_row(rows[position(rows, id)], delta, now))
            } else {
                lookup(rows, other)
            },
{
    let k = position(rows, id);
    let after = bumped(rows, id, delta, now);
    assert forall|i: int| 0 <= i < after.len() implies (#[trigger] after[i]).id == rows[i].id
        && after[i].created_at == rows[i].created_at && after[i].size_bytes == rows[i].size_bytes
        && after[i].samples_count >= rows[i].samples_count by {}
    assert(distinct_ids(after)) by {
        assert forall|i: int, j: int|
            0 <= i < after.len() && 0 <= j < after.len() && (#[trigger] after[i]).id == (
            #[trigger] after[j]).id implies i == j by {
            assert(rows[i].id == rows[j].id);
        }
    }
    assert(newest_first(after)) by {
        assert forall|i: int, j: int| 0 <= i < j < after.len() implies (
        #[trigger] after[i]).created_at >= (#[trigger] after[j]).created_at by {
            assert(rows[i].created_at >= rows[j].created_at);
        }
    }
    assert(counts_natural(after)) by {
        assert forall|i: int| 0 <= i < after.len() implies (#[trigger] after[i]).samples_count
            >= 0 && after[i].size_bytes >= 0 by {
            assert(rows[i].samples_count >= 0);
        }
    }
    assert forall|other: u128| #[trigger]
        lookup(after, other) == if other == id {
            Some(bumped_row(rows[k], delta, now))
        } else {
            lookup(rows, other)
        } by {
        if registered(rows, other) {
            let p = position(rows, other);
            assert(after[p].id == other);
            lemma_lookup_at(after, p);
            lemma_lookup_at(rows, p);
        } else if registered(after, other) {
            let q = position(after, other);
            assert(rows[q].id == other);
        }
    }
}

/// A new row in its slot keeps the registry well formed and is the only
/// row that a lookup finds changed.
pub proof fn lemma_inserted(rows: Seq<DatasetView>, at: int, row: DatasetView)
    requires
        registry_wf(rows),
        !registered(rows, row.id),
        is_slot(rows, row.created_at, at),
        row.samples_count >= 0,
        row.size_bytes >= 0,
    ensures
        registry_wf(rows.insert(at, row)),
        forall|other: u128| #[trigger]
            lookup(rows.insert(at, row), other) == if other == row.id {
                Some(row)
            } else {
                lookup(rows, other)
            },
{
    let after = rows.insert(at, row);
    assert forall|i: int| 0 <= i < after.len() implies (#[trigger] after[i]) == if i < at {
        rows[i]
    } else if i == at {
        row
    } else {
        rows[i - 1]
    } by {}
    assert(distinct_ids(after)) by {
        assert forall|i: int, j: int|
            0 <= i < after.len() && 0 <= j < after.len() && (#[trigger] after[i]).id == (
            #[trigger] after[j]).id implies i == j by {
            let oi = if i < at { i } else { i - 1 };
            let oj = if j < at { j } else { j - 1 };
            if i != at && j != at {
                assert(rows[oi].id == rows[oj].id);
            } else if i != at {
                assert(rows[oi].id == row.id);
            } else if j != at {
                assert(rows[oj].id == row.id);
            }
        }
    }
    assert(newest_first(after)) by {
        assert forall|i: int, j: int| 0 <= i < j < after.len() implies (
        #[trigger] after[i]).created_at >= (#[trigger] after[j]).created_at by {
            let oi = if i < at { i } else { i - 1 };
            let oj = if j < at { j } else { j - 1 };
            if i != at && j != at {
                assert(rows[oi].created_at >= rows[oj].created_at);
            } else if i != at {
                assert(rows[oi].created_at > row.created_at);
            } else if j != at {
                assert(rows[oj].created_at <= row.created_at);
            }
        }
    }
    assert(counts_natural(after)) by {
        assert forall|i: int| 0 <= i < after.len() implies (#[trigger] after[i]).samples_count
            >= 0 && after[i].size_bytes >= 0 by {
            let oi = if i < at { i } else { i - 1 };
            if i != at {
                assert(rows[oi].samples_count >= 0);
            }
        }
    }
    assert forall|other: u128| #[trigger]
        lookup(after, other) == if other == row.id {
            Some(row)
        } else {
            lookup(rows, other)
        } by {
        if other == row.id {
            assert(after[at] == row);
            lemma_lookup_at(after, at);
        } else if registered(rows, other) {
            let p = position(rows, other);
            let np = if p < at { p } else { p + 1 };
            assert(after[np] == rows[p]);
            lemma_lookup_at(after, np);
            lemma_lookup_at(rows, p);
        } else if registered(after, other) {
            let q = position(after, other);
            let oq = if q < at { q } else { q - 1 };
            assert(rows[oq].id == other);
        }
    }
}

/// Dropping a dataset keeps the registry well formed, leaves that dataset
/// unregistered and every other row as it was.
pub proof fn lemma_dropped(rows: Seq<DatasetView>, id: u128)
    requires
        registry_wf(rows),
    ensures
        registry_wf(dropped(rows, id)),
        forall|other: u128| #[trigger]
            lookup(dropped(rows, id), other) == if other == id {
                None
            } else {
                lookup(rows, other)
            },
{
    if registered(rows, id) {
        let k = position(rows, id);
        let after = rows.remove(k);
        assert forall|i: int| 0 <= i < after.len() implies (#[trigger] after[i]) == rows[if i
            < k {
            i
        } else {
            i + 1
        }] by {}
        assert(distinct_ids(after)) by {
            assert forall|i: int, j: int|
                0 <= i < after.len() && 0 <= j < after.len() && (#[trigger] after[i]).id == (
                #[trigger] after[j]).id implies i == j by {
                let oi = if i < k { i } else { i + 1 };
                let oj = if j < k { j } else { j + 1 };
                assert(rows[oi].id == rows[oj].id);
            }
        }
        assert(newest_first(after)) by {
            assert forall|i: int, j: int| 0 <= i < j < after.len() implies (
            #[trigger] after[i]).created_at >= (#[trigger] after[j]).created_at by {
                let oi = if i < k { i } else { i + 1 };
                let oj = if j < k { j } else { j + 1 };
                assert(rows[oi].created_at >= rows[oj].created_at);
            }
        }
        assert(counts_natural(after)) by {
            assert forall|i: int| 0 <= i < after.len() implies (#[trigger] after[i]).samples_count
                >= 0 && after[i].size_bytes >= 0 by {
                let oi = if i < k { i } else { i + 1 };
                assert(rows[oi].samples_count >= 0);
            }
        }
        assert forall|other: u128| #[trigger]
            lookup(after, other) == if other == id {
                None
            } else {
                lookup(rows, other)
            } by {
            if registered(after, other) {
                let q = position(after, other);
                let oq = if q < k { q } else { q + 1 };
                assert(rows[oq].id == other);
                lemma_lookup_at(rows, oq);
                lemma_lookup_at(after, q);
            } else if other != id && registered(rows, other) {
                let p = position(rows, other);
                let np = if p < k { p } else { p - 1 };
                assert(after[np] == rows[p]);
            }
        }
    }
}

/// The dataset registry.
pub struct Registry {
    rows: Vec<Dataset>,
}

impl Registry {
    /// The rows, newest first.
    pub closed spec fn view(&self) -> Seq<DatasetView> {
        row_views(self.rows@)
    }

    pub open spec fn wf(&self) -> bool {
        registry_wf(self@)
    }

    /// A registry without rows.
    pub fn new() -> (registry: Registry)
        ensures
            registry.wf(),
            registry@ == Seq::<DatasetView>::empty(),
    {
        let registry = Registry { rows: Vec::new() };
        proof {
            assert(registry@ =~= Seq::<DatasetView>::empty());
        }
        registry
    }

    fn locate(&self, id: u128) -> (found: Option<usize>)
        requires
            self.wf(),
        ensures
            match found {
                Some(k) => k < self@.len() && self@[k as int].id == id && position(self@, id) == k
                    && lookup(self@, id) == Some(self@[k as int]),
                None => !registered(self@, id),
            },
    {
        let mut i: usize = 0;
        while i < self.rows.len()
            invariant
                self.wf(),
                i <= self.rows.len(),
                forall|j: int| 0 <= j < i ==> (#[trigger] self@[j]).id != id,
            decreases self.rows.len() - i,
        {
            if self.rows[i].id == id {
                proof {
                    lemma_lookup_at(self@, i as int);
                }
                return Some(i);
            }
            i = i + 1;
        }
        None
    }

    /// Whether a dataset with identifier `id` is registered.
    pub fn contains(&self, id: u128) -> (found: bool)
        requires
            self.wf(),
        ensures
            found == registered(self@, id),
    {
        self.locate(id).is_some()
    }

    /// The number of registered datasets.
    pub fn len(&self) -> (count: usize)
        ensures
            count == self@.len(),
    {
        self.rows.len()
    }

    /// The row of dataset `id`, or `NotFound` when there is none.
    pub fn get(&self, id: u128) -> (r: Result<Dataset, StoreError>)
        requires
            self.wf(),
        ensures
            match r {
                Ok(row) => lookup(self@, id) == Some(row@),
                Err(e) => e == StoreError::NotFound && lookup(self@, id).is_none(),
            },
    {
        match self.locate(id) {
            Some(k) => Ok(self.rows[k].snapshot()),
            None => Err(StoreError::NotFound),
        }
    }

    /// Every row, in descending order of creation time.
    pub fn list(&self) -> (rows: Vec<Dataset>)
        requires
            self.wf(),
        ensures
            row_views(rows@) == self@,
            newest_first(row_views(rows@)),
    {
        let mut rows: Vec<Dataset> = Vec::new();
        let mut i: usize = 0;
        while i < self.rows.len()
            invariant
                i <= self.rows.len(),
                rows.len() == i,
                forall|j: int| 0 <= j < i ==> rows@[j]@ == self.rows@[j]@,
            decreases self.rows.len() - i,
        {
            rows.push(self.rows[i].snapshot());
            i = i + 1;
        }
        proof {
            assert(row_views(rows@) =~= self@);
        }
        rows
    }

    /// Registers a new dataset created at `now`, with no samples yet, and
    /// returns its row. An identifier that is already registered is refused.
    pub fn create(
        &mut self,
        id: u128,
        name: String,
        description: Option<String>,
        tags: Option<Vec<String>>,
        now: i64,
    ) -> (r: Result<Dataset, StoreError>)
        requires
            old(self).wf(),
        ensures
            final(self).wf(),
            match r {
                Ok(row) => {
                    &&& !registered(old(self)@, id)
                    &&& row@ == fresh_row(
                        id,
                        name@,
                        description_text(description),
                        requested_tags(tags),
                        now as int,
                    )
                    &&& exists|at: int| #[trigger]
                        is_slot(old(self)@, now as int, at) && final(self)@ == old(self)@.insert(
                            at,
                            row@,
                        )
                },
                Err(e) => {
                    &&& e == StoreError::ConstraintViolation
                    &&& registered(old(self)@, id)
                    &&& final(self)@ == old(self)@
                },
            },
    {
        if self.contains(id) {
            return Err(StoreError::ConstraintViolation);
        }
        let row = Dataset::fresh(id, name, description, tags, now);
        let copy = row.snapshot();
        let mut at: usize = 0;
        while at < self.rows.len() && self.rows[at].created_at > now
            invariant
                at <= self.rows.len(),
                forall|j: int| 0 <= j < at ==> (#[trigger] self@[j]).created_at > now,
            decreases self.rows.len() - at,
        {
            at = at + 1;
        }
        let ghost before = self@;
        proof {
            assert forall|i: int| at <= i < before.len() implies (#[trigger] before[i]).created_at
                <= now by {
                if at < i {
                    assert(before[at as int].created_at >= before[i].created_at);
                }
            }
            assert(is_slot(before, now as int, at as int));
        }
        self.rows.insert(at, row);
        proof {
            assert(self@ =~= before.insert(at as int, copy@));
            lemma_inserted(before, at as int, copy@);
        }
        Ok(copy)
    }

    /// Why `bump` would refuse to raise the count of dataset `id` by
    /// `delta`, if it would.
    pub fn check_bump(&self, id: u128, delta: usize) -> (refusal: Option<StoreError>)
        requires
            self.wf(),
        ensures
            refusal == bump_refusal(self@, id, delta as int),
    {
        match self.locate(id) {
            None => Some(StoreError::NotFound),
            Some(k) => {
                let count = self.rows[k].samples_count;
                if delta > i32::MAX as usize || count > i32::MAX - (delta as i32) {
                    Some(StoreError::ConstraintViolation)
                } else {
                    None
                }
            },
        }
    }

    /// Adds `delta` to the sample count of dataset `id` and sets its update
    /// time to `now`; returns the row as it then stands. The count is
    /// raised relative to what the registry holds, never from a copy read
    /// earlier. An unknown dataset, or a count that would leave the range
    /// of `i32`, is refused.
    pub fn bump(&mut self, id: u128, delta: usize, now: i64) -> (r: Result<Dataset, StoreError>)
        requires
            old(self).wf(),
        ensures
            final(self).wf(),
            match r {
                Ok(row) => {
                    &&& bump_refusal(old(self)@, id, delta as int).is_none()
                    &&& final(self)@ == bumped(old(self)@, id, delta as int, now as int)
                    &&& lookup(final(self)@, id) == Some(row@)
                },
                Err(e) => {
                    &&& bump_refusal(old(self)@, id, delta as int) == Some(e)
                    &&& final(self)@ == old(self)@
                },
            },
    {
        if let Some(e) = self.check_bump(id, delta) {
            return Err(e);
        }
        let k = match self.locate(id) {
            Some(k) => k,
            None => {
                return Err(StoreError::NotFound);
            },
        };
        let ghost before = self@;
        let count = self.rows[k].samples_count;
        self.rows[k].samples_count = count + (delta as i32);
        self.rows[k].updated_at = now;
        let copy = self.rows[k].snapshot();
        proof {
            assert(self@ =~= bumped(before, id, delta as int, now as int));
            lemma_bumped(before, id, delta as int, now as int);
        }
        Ok(copy)
    }

    /// Takes the row of dataset `id` out, if there is one, and says whether
    /// there was.
    pub fn remove(&mut self, id: u128) -> (existed: bool)
        requires
            old(self).wf(),
        ensures
            final(self).wf(),
            existed == registered(old(self)@, id),
            final(self)@ == dropped(old(self)@, id),
    {
        let ghost before = self@;
        proof {
            lemma_dropped(before, id);
        }
        match self.locate(id) {
            Some(k) => {
                self.rows.remove(k);
                proof {
                    assert(self@ =~= before.remove(k as int));
                }
                true
            },
            None => false,
        }
    }
}

} // verus!
