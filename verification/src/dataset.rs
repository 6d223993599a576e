//! The dataset record and its mathematical view.

use vstd::prelude::*;

verus! {

/// A dataset's metadata row. Times are microseconds since the Unix epoch.
#[derive(Debug)]
pub struct Dataset {
    pub id: u128,
    pub name: String,
    pub description: Option<String>,
    pub tags: Vec<String>,
    /// The number of sample rows that the dataset owns.
    pub samples_count: i32,
    pub size_bytes: i64,
    pub created_at: i64,
    pub updated_at: i64,
}

/// What a dataset row says, as plain mathematical values.
pub struct DatasetView {
    pub id: u128,
    pub name: Seq<char>,
    pub description: Option<Seq<char>>,
    pub tags: Seq<Seq<char>>,
    pub samples_count: int,
    pub size_bytes: int,
    pub created_at: int,
    pub updated_at: int,
}

/// The texts of a sequence of tags, in order.
pub open spec fn tag_texts(tags: Seq<String>) -> Seq<Seq<char>> {
    Seq::new(tags.len(), |i: int| tags[i]@)
}

/// The text of an optional description.
pub open spec fn description_text(description: Option<String>) -> Option<Seq<char>> {
    match description {
        Some(text) => Some(text@),
        None => None,
    }
}

/// The row that a dataset has right after it was created at `now`: no
/// samples, no bytes, both times equal.
pub open spec fn fresh_row(
    id: u128,
    name: Seq<char>,
    description: Option<Seq<char>>,
    tags: Seq<Seq<char>>,
    now: int,
) -> DatasetView {
    DatasetView {
        id,
        name,
        description,
        tags,
        samples_count: 0,
        size_bytes: 0,
        created_at: now,
        updated_at: now,
    }
}

/// The tags that a creation request asks for: none when it names none.
pub open spec fn requested_tags(tags: Option<Vec<String>>) -> Seq<Seq<char>> {
    match tags {
        Some(list) => tag_texts(list@),
        None => Seq::empty(),
    }
}

impl View for Dataset {
    type V = DatasetView;

    open spec fn view(&self) -> DatasetView {
        DatasetView {
            id: self.id,
            name: self.name@,
            description: description_text(self.description),
            tags: tag_texts(self.tags@),
            samples_count: self.samples_count as int,
            size_bytes: self.size_bytes as int,
            created_at: self.created_at as int,
            updated_at: self.updated_at as int,
        }
    }
}

/// A copy of `tags` with the same texts in the same order.
pub fn copy_tags(tags: &Vec<String>) -> (copy: Vec<String>)
    ensures
        tag_texts(copy@) == tag_texts(tags@),
{
    let mut copy: Vec<String> = Vec::new();
    let mut i: usize = 0;
    while i < tags.len()
        invariant
            i <= tags.len(),
            copy.len() == i,
            forall|j: int| 0 <= j < i ==> copy@[j]@ == tags@[j]@,
        decreases tags.len() - i,
    {
        copy.push(tags[i].clone());
        i = i + 1;
    }
    proof {
        assert(tag_texts(copy@) =~= tag_texts(tags@));
    }
    copy
}

impl Dataset {
    /// A new dataset row: tags default to none, counts start at zero and
    /// both times are `now`.
    pub fn fresh(
        id: u128,
        name: String,
        description: Option<String>,
        tags: Option<Vec<String>>,
        now: i64,
    ) -> (row: Dataset)
        ensures
            row@ == fresh_row(
                id,
                name@,
                description_text(description),
                requested_tags(tags),
                now as int,
            ),
    {
        let tags = match tags {
            Some(list) => list,
            None => Vec::new(),
        };
        proof {
            assert(tag_texts(Seq::<String>::empty()) =~= Seq::<Seq<char>>::empty());
        }
        Dataset {
            id,
            name,
            description,
            tags,
            samples_count: 0,
            size_bytes: 0,
            created_at: now,
            updated_at: now,
        }
    }

    /// A copy of the row that says the same in every field.
    pub fn snapshot(&self) -> (copy: Dataset)
        ensures
            copy@ == self@,
    {
        let description = match &self.description {
            Some(text) => Some(text.clone()),
            None => None,
        };
        Dataset {
            id: self.id,
            name: self.name.clone(),
            description,
            tags: copy_tags(&self.tags),
            samples_count: self.samples_count,
            size_bytes: self.size_bytes,
            created_at: self.created_at,
            updated_at: self.updated_at,
        }
    }
}

} // verus!
