use dataset_store::error::StoreError;
use dataset_store::store::{CreateDatasetReq, Store};
use serde_json::Value;

fn doc(key: &str, n: i64) -> Value {
    let mut fields = serde_json::Map::new();
    fields.insert(key.to_string(), Value::from(n));
    Value::Object(fields)
}

fn request(name: &str, tags: Option<Vec<String>>, samples: Option<Vec<Value>>) -> CreateDatasetReq {
    CreateDatasetReq { name: name.to_string(), description: None, tags, samples }
}

#[test]
fn create_with_two_samples_counts_two() {
    let mut store = Store::new();
    let req = request(
        "alpha",
        Some(vec!["x".to_string()]),
        Some(vec![doc("a", 1), doc("a", 2)]),
    );
    let resp = store.create_dataset(req, 1_000).unwrap();
    assert_eq!(resp.added_samples, 2);
    assert_eq!(resp.dataset.samples_count, 2);
    assert_eq!(resp.dataset.tags, vec!["x".to_string()]);
    assert_eq!(resp.dataset.name, "alpha");
    assert_eq!(resp.dataset.size_bytes, 0);
    assert_eq!(resp.dataset.created_at, 1_000);
    assert_eq!(resp.dataset.updated_at, 1_000);
    let id = resp.dataset.id;
    assert_eq!(store.sample_count(id), 2);
    assert_eq!(store.samples_of(id), vec![doc("a", 1), doc("a", 2)]);
    let row = store.get_dataset(id).unwrap();
    assert_eq!(row.samples_count, 2);
    assert_eq!(row.tags, vec!["x".to_string()]);
}

#[test]
fn create_without_tags_or_samples_starts_empty() {
    let mut store = Store::new();
    let req = CreateDatasetReq {
        name: "plain".to_string(),
        description: Some("nothing yet".to_string()),
        tags: None,
        samples: None,
    };
    let resp = store.create_dataset_as(7, req, 50).unwrap();
    assert_eq!(resp.added_samples, 0);
    assert_eq!(resp.dataset.id, 7);
    assert_eq!(resp.dataset.samples_count, 0);
    assert_eq!(resp.dataset.size_bytes, 0);
    assert!(resp.dataset.tags.is_empty());
    assert_eq!(resp.dataset.description, Some("nothing yet".to_string()));
    assert_eq!(resp.dataset.created_at, 50);
    assert_eq!(resp.dataset.updated_at, 50);
    assert_eq!(store.sample_count(7), 0);
}

#[test]
fn create_with_empty_sample_list_adds_nothing() {
    let mut store = Store::new();
    let resp = store.create_dataset_as(3, request("e", None, Some(vec![])), 9).unwrap();
    assert_eq!(resp.added_samples, 0);
    assert_eq!(resp.dataset.samples_count, 0);
    assert_eq!(store.sample_count(3), 0);
}

#[test]
fn create_keeps_duplicate_tags_in_order() {
    let mut store = Store::new();
    let tags = vec!["b".to_string(), "a".to_string(), "b".to_string()];
    let resp = store.create_dataset_as(1, request("t", Some(tags.clone()), None), 1).unwrap();
    assert_eq!(resp.dataset.tags, tags);
}

#[test]
fn create_under_taken_identifier_is_refused_whole() {
    let mut store = Store::new();
    store.create_dataset_as(5, request("first", None, Some(vec![doc("k", 1)])), 10).unwrap();
    let again = store.create_dataset_as(5, request("second", None, Some(vec![doc("k", 2)])), 20);
    assert_eq!(again.err(), Some(StoreError::ConstraintViolation));
    assert_eq!(store.list_datasets().len(), 1);
    assert_eq!(store.get_dataset(5).unwrap().name, "first");
    assert_eq!(store.sample_count(5), 1);
    assert_eq!(store.samples_of(5), vec![doc("k", 1)]);
}

#[test]
fn drawn_identifiers_differ() {
    let mut store = Store::new();
    let a = store.create_dataset(request("a", None, None), 1).unwrap();
    let b = store.create_dataset(request("b", None, None), 2).unwrap();
    assert_ne!(a.dataset.id, b.dataset.id);
    assert_eq!(uuid::Uuid::from_u128(a.dataset.id).get_version_num(), 4);
    assert_eq!(uuid::Uuid::from_u128(b.dataset.id).get_version_num(), 4);
    assert_eq!(a.dataset.id & 0xF000_C000_0000_0000_0000, 0x4000_8000_0000_0000_0000);
    assert_eq!(store.list_datasets().len(), 2);
}

#[test]
fn two_appends_of_one_sample_count_two() {
    let mut store = Store::new();
    store.create_dataset_as(11, request("fresh", None, None), 100).unwrap();
    assert_eq!(store.get_dataset(11).unwrap().samples_count, 0);
    let first = store.add_samples(11, vec![doc("v", 1)], 101).unwrap();
    let second = store.add_samples(11, vec![doc("v", 1)], 102).unwrap();
    assert_eq!(first.added_samples, 1);
    assert_eq!(second.added_samples, 1);
    assert_eq!(first.dataset.samples_count, 1);
    assert_eq!(second.dataset.samples_count, 2);
    assert_eq!(store.get_dataset(11).unwrap().samples_count, 2);
    assert_eq!(store.sample_count(11), 2);
}

#[test]
fn appends_add_up_in_either_order() {
    let mut one = Store::new();
    one.create_dataset_as(1, request("d", None, None), 0).unwrap();
    one.add_samples(1, vec![doc("a", 1), doc("a", 2), doc("a", 3)], 1).unwrap();
    one.add_samples(1, vec![doc("b", 1), doc("b", 2)], 2).unwrap();
    let mut other = Store::new();
    other.create_dataset_as(1, request("d", None, None), 0).unwrap();
    other.add_samples(1, vec![doc("b", 1), doc("b", 2)], 1).unwrap();
    other.add_samples(1, vec![doc("a", 1), doc("a", 2), doc("a", 3)], 2).unwrap();
    assert_eq!(one.get_dataset(1).unwrap().samples_count, 5);
    assert_eq!(other.get_dataset(1).unwrap().samples_count, 5);
    assert_eq!(one.sample_count(1), 5);
    assert_eq!(other.sample_count(1), 5);
}

#[test]
fn append_keeps_document_order_and_owner() {
    let mut store = Store::new();
    store.create_dataset_as(1, request("one", None, Some(vec![doc("a", 1)])), 0).unwrap();
    store.create_dataset_as(2, request("two", None, None), 0).unwrap();
    store.add_samples(2, vec![doc("b", 1), doc("b", 2)], 1).unwrap();
    store.add_samples(1, vec![doc("a", 2)], 2).unwrap();
    assert_eq!(store.samples_of(1), vec![doc("a", 1), doc("a", 2)]);
    assert_eq!(store.samples_of(2), vec![doc("b", 1), doc("b", 2)]);
    assert_eq!(store.get_dataset(1).unwrap().samples_count, 2);
    assert_eq!(store.get_dataset(2).unwrap().samples_count, 2);
}

#[test]
fn append_refreshes_update_time_only() {
    let mut store = Store::new();
    store.create_dataset_as(1, request("d", None, None), 10).unwrap();
    let resp = store.add_samples(1, vec![doc("a", 1)], 25).unwrap();
    assert_eq!(resp.dataset.created_at, 10);
    assert_eq!(resp.dataset.updated_at, 25);
    assert_eq!(resp.dataset.size_bytes, 0);
}

#[test]
fn append_of_nothing_commits_and_adds_nothing() {
    let mut store = Store::new();
    store.create_dataset_as(1, request("d", None, None), 10).unwrap();
    let resp = store.add_samples(1, vec![], 30).unwrap();
    assert_eq!(resp.added_samples, 0);
    assert_eq!(resp.dataset.samples_count, 0);
    assert_eq!(resp.dataset.updated_at, 30);
}

#[test]
fn append_to_unknown_dataset_is_not_found() {
    let mut store = Store::new();
    let r = store.add_samples(99, vec![doc("a", 1)], 1);
    assert_eq!(r.err(), Some(StoreError::NotFound));
    assert_eq!(store.sample_count(99), 0);
}

#[test]
fn append_without_keys_left_is_unavailable_and_changes_nothing() {
    let mut store = Store::starting_at(u64::MAX);
    store.create_dataset_as(1, request("d", None, None), 10).unwrap();
    let r = store.add_samples(1, vec![doc("a", 1)], 11);
    assert_eq!(r.err(), Some(StoreError::StoreUnavailable));
    let row = store.get_dataset(1).unwrap();
    assert_eq!(row.samples_count, 0);
    assert_eq!(row.updated_at, 10);
    assert_eq!(store.sample_count(1), 0);
}

#[test]
fn create_without_keys_left_is_unavailable_and_leaves_no_dataset() {
    let mut store = Store::starting_at(u64::MAX - 1);
    let r = store.create_dataset_as(1, request("d", None, Some(vec![doc("a", 1), doc("a", 2)])), 10);
    assert_eq!(r.err(), Some(StoreError::StoreUnavailable));
    assert_eq!(store.get_dataset(1).err(), Some(StoreError::NotFound));
    assert_eq!(store.sample_count(1), 0);
    assert!(store.list_datasets().is_empty());
    let ok = store.create_dataset_as(1, request("d", None, Some(vec![doc("a", 1)])), 10).unwrap();
    assert_eq!(ok.dataset.samples_count, 1);
}

#[test]
fn delete_removes_rows_and_dataset() {
    let mut store = Store::new();
    store.create_dataset_as(1, request("gone", None, Some(vec![doc("a", 1), doc("a", 2)])), 1).unwrap();
    store.create_dataset_as(2, request("kept", None, Some(vec![doc("b", 1)])), 2).unwrap();
    store.add_samples(1, vec![doc("a", 3)], 3).unwrap();
    let done = store.delete_dataset(1);
    assert!(done.ok);
    assert_eq!(done.id, 1);
    assert_eq!(store.get_dataset(1).err(), Some(StoreError::NotFound));
    assert_eq!(store.sample_count(1), 0);
    assert!(store.samples_of(1).is_empty());
    assert_eq!(store.get_dataset(2).unwrap().samples_count, 1);
    assert_eq!(store.samples_of(2), vec![doc("b", 1)]);
    assert_eq!(store.add_samples(1, vec![doc("a", 4)], 4).err(), Some(StoreError::NotFound));
}

#[test]
fn delete_of_unknown_dataset_is_confirmed() {
    let mut store = Store::new();
    store.create_dataset_as(2, request("kept", None, Some(vec![doc("b", 1)])), 2).unwrap();
    let done = store.delete_dataset(42);
    assert!(done.ok);
    assert_eq!(done.id, 42);
    assert_eq!(store.list_datasets().len(), 1);
    assert_eq!(store.sample_count(2), 1);
}

#[test]
fn deleted_identifier_can_be_created_again_empty() {
    let mut store = Store::new();
    store.create_dataset_as(1, request("old", None, Some(vec![doc("a", 1)])), 1).unwrap();
    store.delete_dataset(1);
    let resp = store.create_dataset_as(1, request("new", None, None), 2).unwrap();
    assert_eq!(resp.dataset.samples_count, 0);
    assert_eq!(store.sample_count(1), 0);
}

#[test]
fn list_is_newest_first() {
    let mut store = Store::new();
    store.create_dataset_as(1, request("middle", None, None), 20).unwrap();
    store.create_dataset_as(2, request("oldest", None, None), 10).unwrap();
    store.create_dataset_as(3, request("newest", None, None), 30).unwrap();
    let names: Vec<String> = store.list_datasets().into_iter().map(|d| d.name).collect();
    assert_eq!(names, vec!["newest".to_string(), "middle".to_string(), "oldest".to_string()]);
    store.add_samples(2, vec![doc("a", 1)], 99).unwrap();
    let ids: Vec<u128> = store.list_datasets().into_iter().map(|d| d.id).collect();
    assert_eq!(ids, vec![3, 1, 2]);
}

#[test]
fn list_puts_later_of_equal_times_first() {
    let mut store = Store::new();
    store.create_dataset_as(1, request("a", None, None), 10).unwrap();
    store.create_dataset_as(2, request("b", None, None), 10).unwrap();
    let ids: Vec<u128> = store.list_datasets().into_iter().map(|d| d.id).collect();
    assert_eq!(ids, vec![2, 1]);
}

#[test]
fn get_of_unknown_dataset_is_not_found() {
    let store = Store::new();
    assert_eq!(store.get_dataset(1).err(), Some(StoreError::NotFound));
}

#[test]
fn linking_twice_leaves_one_row() {
    let mut store = Store::new();
    store.create_dataset_as(0xD1, request("d", None, None), 1).unwrap();
    let first = store.link_dataset_to_finetune(0xF1, 0xD1);
    let second = store.link_dataset_to_finetune(0xF1, 0xD1);
    assert!(first.ok);
    assert!(second.ok);
    assert_eq!(first.finetune_id, 0xF1);
    assert_eq!(first.dataset_id, 0xD1);
    assert_eq!(first, second);
    assert_eq!(store.link_rows(0xF1, 0xD1), 1);
    assert!(store.has_finetune(0xF1));
}

#[test]
fn linking_to_unknown_dataset_succeeds() {
    let mut store = Store::new();
    let done = store.link_dataset_to_finetune(1, 2);
    assert!(done.ok);
    assert_eq!(store.link_rows(1, 2), 1);
    assert_eq!(store.link_rows(2, 1), 0);
    assert!(store.has_finetune(1));
    assert!(!store.has_finetune(2));
}

#[test]
fn error_messages() {
    assert_eq!(StoreError::NotFound.message(), "dataset not found");
    assert_eq!(StoreError::StoreUnavailable.message(), "store unavailable");
    assert_eq!(StoreError::ConstraintViolation.message(), "constraint violation");
}
