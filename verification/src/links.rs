//! The link table: which datasets belong to which finetune jobs. A finetune
//! is known to the table from its first link on; a pair is linked at most
//! once, however often it is asked for.

use vstd::prelude::*;

verus! {

/// What the link table holds.
pub struct LinkView {
    /// The finetune jobs that the table knows, in order of first mention.
    pub finetunes: Seq<u128>,
    /// The pairs (finetune, dataset), in order of first mention.
    pub links: Seq<(u128, u128)>,
}

/// `items` with `item` as a member: added at the end unless already there.
pub open spec fn with_member<T>(items: Seq<T>, item: T) -> Seq<T> {
    if items.contains(item) {
        items
    } else {
        items.push(item)
    }
}

/// How many rows of `links` are the pair `pair`.
pub open spec fn occurrences(links: Seq<(u128, u128)>, pair: (u128, u128)) -> nat
    decreases links.len(),
{
    if links.len() == 0 {
        0
    } else {
        occurrences(links.drop_last(), pair) + if links.last() == pair {
            1nat
        } else {
            0nat
        }
    }
}

impl LinkView {
    /// No finetune and no pair stands twice, and every linked finetune is
    /// known.
    pub open spec fn wf(self) -> bool {
        &&& self.finetunes.no_duplicates()
        &&& self.links.no_duplicates()
        &&& forall|i: int|
            0 <= i < self.links.len() ==> self.finetunes.contains((#[trigger] self.links[i]).0)
    }

    /// The table after dataset `dataset_id` was linked to finetune
    /// `finetune_id`.
    pub open spec fn linked(self, finetune_id: u128, dataset_id: u128) -> LinkView {
        LinkView {
            finetunes: with_member(self.finetunes, finetune_id),
            links: with_member(self.links, (finetune_id, dataset_id)),
        }
    }
}

/// Among rows that never repeat, a pair stands once if at all.
pub proof fn lemma_occurrences(links: Seq<(u128, u128)>, pair: (u128, u128))
    requires
        links.no_duplicates(),
    ensures
        occurrences(links, pair) == if links.contains(pair) {
            1nat
        } else {
            0nat
        },
    decreases links.len(),
{
    if links.len() > 0 {
        let rest = links.drop_last();
        lemma_occurrences(rest, pair);
        if rest.contains(pair) {
            let i = choose|i: int| 0 <= i < rest.len() && rest[i] == pair;
            assert(links[i] == pair);
        }
        if links.contains(pair) {
            let i = choose|i: int| 0 <= i < links.len() && links[i] == pair;
            if i < rest.len() {
                assert(rest[i] == pair);
            }
        } else {
            assert(links[links.len() - 1] != pair);
        }
    }
}

/// The answer to a link request: both identifiers, and that it was done.
#[derive(Clone, Copy, Debug, PartialEq, Eq, Structural)]
pub struct LinkConfirmation {
    pub ok: bool,
    pub finetune_id: u128,
    pub dataset_id: u128,
}

/// The link table.
pub struct LinkTable {
    finetunes: Vec<u128>,
    links: Vec<(u128, u128)>,
}

impl LinkTable {
    pub closed spec fn view(&self) -> LinkView {
        LinkView { finetunes: self.finetunes@, links: self.links@ }
    }

    pub open spec fn wf(&self) -> bool {
        self@.wf()
    }

    /// A table without finetunes and without links.
    pub fn new() -> (table: LinkTable)
        ensures
            table.wf(),
            table@.finetunes == Seq::<u128>::empty(),
            table@.links == Seq::<(u128, u128)>::empty(),
    {
        LinkTable { finetunes: Vec::new(), links: Vec::new() }
    }

    /// Whether the table knows finetune `finetune_id`.
    pub fn has_finetune(&self, finetune_id: u128) -> (known: bool)
        ensures
            known == self@.finetunes.contains(finetune_id),
    {
        let mut i: usize = 0;
        while i < self.finetunes.len()
            invariant
                i <= self.finetunes.len(),
                forall|j: int| 0 <= j < i ==> self.finetunes@[j] != finetune_id,
            decreases self.finetunes.len() - i,
        {
            if self.finetunes[i] == finetune_id {
                return true;
            }
            i = i + 1;
        }
        false
    }

    /// Whether dataset `dataset_id` is linked to finetune `finetune_id`.
    pub fn has_link(&self, finetune_id: u128, dataset_id: u128) -> (linked: bool)
        ensures
            linked == self@.links.contains((finetune_id, dataset_id)),
    {
        let mut i: usize = 0;
        while i < self.links.len()
            invariant
                i <= self.links.len(),
                forall|j: int| 0 <= j < i ==> self.links@[j] != (finetune_id, dataset_id),
            decreases self.links.len() - i,
        {
            if self.links[i].0 == finetune_id && self.links[i].1 == dataset_id {
                return true;
            }
            i = i + 1;
        }
        false
    }

    /// The number of link rows in the table.
    pub fn len(&self) -> (count: usize)
        ensures
            count == self@.links.len(),
    {
        self.links.len()
    }

    /// The number of rows that link `dataset_id` to `finetune_id`.
    pub fn rows_for(&self, finetune_id: u128, dataset_id: u128) -> (count: usize)
        ensures
            count == occurrences(self@.links, (finetune_id, dataset_id)),
    {
        let mut count: usize = 0;
        let mut i: usize = 0;
        while i < self.links.len()
            invariant
                i <= self.links.len(),
                count <= i,
                count == occurrences(self.links@.take(i as int), (finetune_id, dataset_id)),
            decreases self.links.len() - i,
        {
            proof {
                assert(self.links@.take(i + 1).drop_last() =~= self.links@.take(i as int));
            }
            if self.links[i].0 == finetune_id && self.links[i].1 == dataset_id {
                count = count + 1;
            }
            i = i + 1;
        }
        proof {
            assert(self.links@.take(i as int) =~= self.links@);
        }
        count
    }

    /// Links dataset `dataset_id` to finetune `finetune_id`. The finetune
    /// becomes known if it was not; a pair that is already linked stays as
    /// it is. Whether such a dataset exists is not asked.
    pub fn link(&mut self, finetune_id: u128, dataset_id: u128) -> (done: LinkConfirmation)
        requires
            old(self).wf(),
        ensures
            final(self).wf(),
            final(self)@ == old(self)@.linked(finetune_id, dataset_id),
            done == (LinkConfirmation { ok: true, finetune_id, dataset_id }),
    {
        let ghost before = self@;
        if !self.has_finetune(finetune_id) {
            self.finetunes.push(finetune_id);
        }
        if !self.has_link(finetune_id, dataset_id) {
            self.links.push((finetune_id, dataset_id));
        }
        proof {
            let after = self@;
            assert(after.finetunes == with_member(before.finetunes, finetune_id));
            assert(after.links == with_member(before.links, (finetune_id, dataset_id)));
            assert(after.finetunes.contains(finetune_id)) by {
                if !before.finetunes.contains(finetune_id) {
                    assert(after.finetunes[after.finetunes.len() - 1] == finetune_id);
                }
            }
            assert forall|i: int| 0 <= i < after.links.len() implies after.finetunes.contains(
                (#[trigger] after.links[i]).0,
            ) by {
                if i < before.links.len() {
                    assert(after.links[i] == before.links[i]);
                    let f = before.links[i].0;
                    assert(before.finetunes.contains(f));
                    let k = choose|k: int| 0 <= k < before.finetunes.len() && before.finetunes[k] == f;
                    assert(after.finetunes[k] == f);
                }
            }
        }
        LinkConfirmation { ok: true, finetune_id, dataset_id }
    }
}

} // verus!
