//! The sample log: an append-only sequence of documents, each owned by one
//! dataset. Rows leave the log only when their dataset is purged.

use vstd::prelude::*;
use crate::error::StoreError;

verus! {

/// `serde_json::Value`: a JSON document. Nothing here looks inside one;
/// documents are stored, copied and handed back.
#[verifier::external_type_specification]
#[verifier::external_body]
pub struct ExDocument(serde_json::Value);

/// One row of the log.
pub struct Sample {
    /// Key assigned by the log; keys grow along the log and are never reused.
    pub id: u64,
    /// The dataset that owns the row.
    pub dataset_id: u128,
    /// The document itself; the log never looks inside it.
    pub content: serde_json::Value,
}

/// The rows of `log`, in order, that belong to `id` (`own`) or to any other
/// dataset (`!own`).
pub open spec fn select(log: Seq<Sample>, id: u128, own: bool) -> Seq<Sample>
    decreases log.len(),
{
    if log.len() == 0 {
        Seq::empty()
    } else {
        let rest = select(log.drop_last(), id, own);
        if (log.last().dataset_id == id) == own {
            rest.push(log.last())
        } else {
            rest
        }
    }
}

/// The rows of dataset `id`, in log order.
pub open spec fn rows_of(log: Seq<Sample>, id: u128) -> Seq<Sample> {
    select(log, id, true)
}

/// The log with every row of dataset `id` taken out.
pub open spec fn rows_without(log: Seq<Sample>, id: u128) -> Seq<Sample> {
    select(log, id, false)
}

/// The rows that one append adds: the documents in order, keyed from `first`.
pub open spec fn stamped(first: nat, dataset_id: u128, docs: Seq<serde_json::Value>) -> Seq<Sample> {
    Seq::new(
        docs.len(),
        |i: int| (Sample { id: (first + i) as u64, dataset_id, content: docs[i] }),
    )
}

/// The documents of `rows`, in order.
pub open spec fn contents(rows: Seq<Sample>) -> Seq<serde_json::Value> {
    Seq::new(rows.len(), |i: int| rows[i].content)
}

/// Keys grow strictly along the log and stay below `next`.
pub open spec fn keys_ascending(log: Seq<Sample>, next: nat) -> bool {
    &&& forall|i: int, j: int| 0 <= i < j < log.len() ==> log[i].id < log[j].id
    &&& forall|i: int| 0 <= i < log.len() ==> (#[trigger] log[i]).id < next
}

pub proof fn lemma_select_push(log: Seq<Sample>, row: Sample, id: u128, own: bool)
    ensures
        select(log.push(row), id, own) == if (row.dataset_id == id) == own {
            select(log, id, own).push(row)
        } else {
            select(log, id, own)
        },
{
    assert(log.push(row).drop_last() =~= log);
}

pub proof fn lemma_select_concat(a: Seq<Sample>, b: Seq<Sample>, id: u128, own: bool)
    ensures
        select(a + b, id, own) == select(a, id, own) + select(b, id, own),
    decreases b.len(),
{
    if b.len() == 0 {
        assert(a + b =~= a);
        assert(select(a, id, own) + select(b, id, own) =~= select(a, id, own));
    } else {
        lemma_select_concat(a, b.drop_last(), id, own);
        assert((a + b).drop_last() =~= a + b.drop_last());
        assert((a + b).last() == b.last());
        assert(select(a, id, own) + select(b.drop_last(), id, own).push(b.last()) =~= (select(
            a,
            id,
            own,
        ) + select(b.drop_last(), id, own)).push(b.last()));
    }
}

/// Selecting from rows that all have one owner keeps all of them or none.
pub proof fn lemma_select_uniform(rows: Seq<Sample>, owner: u128, id: u128, own: bool)
    requires
        forall|i: int| 0 <= i < rows.len() ==> (#[trigger] rows[i]).dataset_id == owner,
    ensures
        select(rows, id, own) == if (owner == id) == own {
            rows
        } else {
            Seq::<Sample>::empty()
        },
    decreases rows.len(),
{
    if rows.len() > 0 {
        lemma_select_uniform(rows.drop_last(), owner, id, own);
        assert(rows.drop_last().push(rows.last()) =~= rows);
        assert(rows.last() == rows[rows.len() - 1]);
    } else {
        assert(rows =~= Seq::<Sample>::empty());
    }
}

/// Taking one dataset's rows out leaves every other dataset's rows as they
/// were, and none of its own.
pub proof fn lemma_rows_after_purge(log: Seq<Sample>, purged: u128, id: u128)
    ensures
        rows_of(rows_without(log, purged), id) == if id == purged {
            Seq::<Sample>::empty()
        } else {
            rows_of(log, id)
        },
    decreases log.len(),
{
    if log.len() > 0 {
        lemma_rows_after_purge(log.drop_last(), purged, id);
        if log.last().dataset_id != purged {
            lemma_select_push(select(log.drop_last(), purged, false), log.last(), id, true);
        }
    }
}

/// A bound on the keys of a log bounds the keys of every selection from it.
pub proof fn lemma_select_bounded(log: Seq<Sample>, id: u128, own: bool, bound: nat)
    requires
        forall|i: int| 0 <= i < log.len() ==> (#[trigger] log[i]).id < bound,
    ensures
        forall|i: int|
            0 <= i < select(log, id, own).len() ==> (#[trigger] select(log, id, own)[i]).id
                < bound,
    decreases log.len(),
{
    if log.len() > 0 {
        assert forall|i: int| 0 <= i < log.drop_last().len() implies (
        #[trigger] log.drop_last()[i]).id < bound by {
            assert(log.drop_last()[i] == log[i]);
        }
        lemma_select_bounded(log.drop_last(), id, own, bound);
        let rest = select(log.drop_last(), id, own);
        let all = select(log, id, own);
        assert(log.last() == log[log.len() - 1]);
        assert forall|i: int| 0 <= i < all.len() implies (#[trigger] all[i]).id < bound by {
            if i < rest.len() {
                assert(all[i] == rest[i]);
            } else {
                assert(all[i] == log.last());
            }
        }
    }
}

/// Taking a dataset's rows out leaves the keys ascending and below the
/// next key.
pub proof fn lemma_purge_keeps_keys(log: Seq<Sample>, next: nat, id: u128)
    requires
        keys_ascending(log, next),
    ensures
        keys_ascending(rows_without(log, id), next),
    decreases log.len(),
{
    lemma_select_bounded(log, id, false, next);
    if log.len() > 0 {
        let rest = log.drop_last();
        assert forall|i: int| 0 <= i < rest.len() implies (#[trigger] rest[i]).id
            < log.last().id by {
            assert(rest[i] == log[i]);
            assert(log[i].id < log[log.len() - 1].id);
        }
        assert(keys_ascending(rest, next)) by {
            assert forall|i: int, j: int| 0 <= i < j < rest.len() implies rest[i].id
                < rest[j].id by {
                assert(log[i].id < log[j].id);
            }
            assert forall|i: int| 0 <= i < rest.len() implies (#[trigger] rest[i]).id < next by {
                assert(rest[i] == log[i]);
            }
        }
        lemma_purge_keeps_keys(rest, next, id);
        lemma_select_bounded(rest, id, false, log.last().id as nat);
    }
}

/// Appended rows carry the next keys in order, so the keys stay ascending.
pub proof fn lemma_append_keeps_keys(
    log: Seq<Sample>,
    next: nat,
    owner: u128,
    docs: Seq<serde_json::Value>,
)
    requires
        keys_ascending(log, next),
        next + docs.len() <= u64::MAX,
    ensures
        keys_ascending(log + stamped(next, owner, docs), next + docs.len()),
{
    let after = log + stamped(next, owner, docs);
    assert forall|i: int| 0 <= i < after.len() implies (#[trigger] after[i]).id < next
        + docs.len() && (i < log.len() ==> after[i] == log[i]) && (i >= log.len() ==> after[i].id
        == next + (i - log.len())) by {}
    assert forall|i: int, j: int| 0 <= i < j < after.len() implies after[i].id < after[j].id by {
        if j < log.len() {
            assert(log[i].id < log[j].id);
        } else if i < log.len() {
            assert(log[i].id < next);
        }
    }
}

/// An append adds its rows to the rows of its dataset and to no other's.
pub proof fn lemma_rows_after_append(
    log: Seq<Sample>,
    first: nat,
    owner: u128,
    docs: Seq<serde_json::Value>,
    id: u128,
)
    ensures
        rows_of(log + stamped(first, owner, docs), id) == if id == owner {
            rows_of(log, id) + stamped(first, owner, docs)
        } else {
            rows_of(log, id)
        },
{
    let added = stamped(first, owner, docs);
    lemma_select_concat(log, added, id, true);
    lemma_select_uniform(added, owner, id, true);
    if id != owner {
        assert(rows_of(log, id) + Seq::<Sample>::empty() =~= rows_of(log, id));
    }
}

/// The sample log.
pub struct SampleLog {
    rows: Vec<Sample>,
    next_id: u64,
}

impl SampleLog {
    /// The rows of the log, oldest first.
    pub closed spec fn view(&self) -> Seq<Sample> {
        self.rows@
    }

    /// The key that the next appended row will get.
    pub closed spec fn next_key(&self) -> nat {
        self.next_id as nat
    }

    pub open spec fn wf(&self) -> bool {
        keys_ascending(self@, self.next_key())
    }

    /// An empty log whose first key is 0.
    pub fn new() -> (log: SampleLog)
        ensures
            log.wf(),
            log@ == Seq::<Sample>::empty(),
            log.next_key() == 0,
    {
        SampleLog { rows: Vec::new(), next_id: 0 }
    }

    /// An empty log whose first key is `first_key`.
    pub fn starting_at(first_key: u64) -> (log: SampleLog)
        ensures
            log.wf(),
            log@ == Seq::<Sample>::empty(),
            log.next_key() == first_key,
    {
        SampleLog { rows: Vec::new(), next_id: first_key }
    }

    /// Whether `count` more rows can still be keyed.
    pub fn has_room(&self, count: usize) -> (fits: bool)
        ensures
            fits == (self.next_key() + count <= u64::MAX),
    {
        count as u64 <= u64::MAX - self.next_id
    }

    /// The number of rows that dataset `id` owns.
    pub fn count_for(&self, id: u128) -> (count: usize)
        ensures
            count == rows_of(self@, id).len(),
    {
        let mut count: usize = 0;
        let mut i: usize = 0;
        while i < self.rows.len()
            invariant
                i <= self.rows.len(),
                count == rows_of(self.rows@.take(i as int), id).len(),
                count <= i,
            decreases self.rows.len() - i,
        {
            proof {
                assert(self.rows@.take(i + 1).drop_last() =~= self.rows@.take(i as int));
            }
            if self.rows[i].dataset_id == id {
                count = count + 1;
            }
            i = i + 1;
        }
        proof {
            assert(self.rows@.take(i as int) =~= self.rows@);
        }
        count
    }

    /// Appends `documents`, in their order, as rows of `dataset_id`. Either
    /// every document is appended or, when the keys would run out, none.
    pub fn append(&mut self, dataset_id: u128, documents: Vec<serde_json::Value>) -> (r: Result<
        usize,
        StoreError,
    >)
        requires
            old(self).wf(),
        ensures
            final(self).wf(),
            match r {
                Ok(n) => {
                    &&& n == documents@.len()
                    &&& old(self).next_key() + n <= u64::MAX
                    &&& final(self)@ == old(self)@ + stamped(
                        old(self).next_key(),
                        dataset_id,
                        documents@,
                    )
                    &&& final(self).next_key() == old(self).next_key() + n
                },
                Err(e) => {
                    &&& e == StoreError::StoreUnavailable
                    &&& old(self).next_key() + documents@.len() > u64::MAX
                    &&& final(self)@ == old(self)@
                    &&& final(self).next_key() == old(self).next_key()
                },
            },
    {
        let n = documents.len();
        if !self.has_room(n) {
            return Err(StoreError::StoreUnavailable);
        }
        let ghost docs = documents@;
        let ghost before = self.rows@;
        let ghost first = self.next_id as nat;
        for doc in it: documents
            invariant
                it.seq() == docs,
                first + docs.len() <= u64::MAX,
                self.next_id == first + it.index(),
                self.rows@ == before + stamped(first, dataset_id, docs.take(it.index() as int)),
                keys_ascending(self.rows@, self.next_id as nat),
        {
            let ghost k = it.index() as int;
            let id = self.next_id;
            self.rows.push(Sample { id, dataset_id, content: doc });
            self.next_id = id + 1;
            proof {
                assert(before + stamped(first, dataset_id, docs.take(k)).push(
                    Sample { id, dataset_id, content: doc },
                ) =~= before + stamped(first, dataset_id, docs.take(k + 1)));
            }
        }
        proof {
            assert(docs.take(docs.len() as int) =~= docs);
        }
        Ok(n)
    }

    /// The number of rows in the log, over all datasets.
    pub fn len(&self) -> (count: usize)
        ensures
            count == self@.len(),
    {
        self.rows.len()
    }

    /// The documents of dataset `id`, oldest first.
    pub fn documents_of(&self, id: u128) -> (docs: Vec<serde_json::Value>)
        ensures
            docs@ == contents(rows_of(self@, id)),
    {
        let mut docs: Vec<serde_json::Value> = Vec::new();
        let mut i: usize = 0;
        while i < self.rows.len()
            invariant
                i <= self.rows.len(),
                docs@ == contents(rows_of(self.rows@.take(i as int), id)),
            decreases self.rows.len() - i,
        {
            proof {
                assert(self.rows@.take(i + 1).drop_last() =~= self.rows@.take(i as int));
            }
            if self.rows[i].dataset_id == id {
                let doc = copy_document(&self.rows[i].content);
                docs.push(doc);
                proof {
                    assert(docs@ =~= contents(rows_of(self.rows@.take(i + 1), id)));
                }
            }
            i = i + 1;
        }
        proof {
            assert(self.rows@.take(i as int) =~= self.rows@);
        }
        docs
    }

    /// Takes every row of dataset `id` out of the log and says how many
    /// there were. The other rows keep their order and their keys.
    pub fn purge(&mut self, id: u128) -> (removed: usize)
        requires
            old(self).wf(),
        ensures
            final(self).wf(),
            final(self)@ == rows_without(old(self)@, id),
            final(self).next_key() == old(self).next_key(),
            removed == rows_of(old(self)@, id).len(),
    {
        let ghost before = self.rows@;
        let ghost mut seen: int = 0;
        let total: usize = self.rows.len();
        let mut removed: usize = 0;
        let mut i: usize = 0;
        while i < self.rows.len()
            invariant
                0 <= seen <= before.len() == total,
                i <= self.rows.len(),
                i + removed == seen,
                self.rows@.len() - i == before.len() - seen,
                self.rows@.take(i as int) == rows_without(before.take(seen), id),
                self.rows@.skip(i as int) == before.skip(seen),
                removed == rows_of(before.take(seen), id).len(),
                self.next_id == old(self).next_id,
                keys_ascending(self.rows@, self.next_id as nat),
            decreases self.rows.len() - i,
        {
            proof {
                assert(before.take(seen + 1).drop_last() =~= before.take(seen));
                assert(self.rows@[i as int] == self.rows@.skip(i as int)[0]);
                assert(before[seen] == before.skip(seen)[0]);
            }
            let ghost current = self.rows@;
            if self.rows[i].dataset_id == id {
                self.rows.remove(i);
                removed = removed + 1;
                proof {
                    assert(self.rows@.take(i as int) =~= current.take(i as int));
                    assert(self.rows@.skip(i as int) =~= current.skip(i as int).skip(1));
                    assert(before.skip(seen + 1) =~= before.skip(seen).skip(1));
                }
            } else {
                proof {
                    assert(current.take(i + 1) =~= current.take(i as int).push(current[i as int]));
                    assert(current.skip(i + 1) =~= current.skip(i as int).skip(1));
                    assert(before.skip(seen + 1) =~= before.skip(seen).skip(1));
                }
                i = i + 1;
            }
            proof {
                seen = seen + 1;
            }
        }
        proof {
            assert(self.rows@.take(i as int) =~= self.rows@);
            assert(before.take(seen) =~= before);
        }
        removed
    }
}

/// `serde_json::Value::clone`: the copy is the same document as the one
/// it was made of.
#[verifier::external_body]
fn copy_document(doc: &serde_json::Value) -> (copy: serde_json::Value)
    ensures
        copy == *doc,
{
    doc.clone()
}

} // verus!
