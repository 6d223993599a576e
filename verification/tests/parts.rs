use dataset_store::dataset::{copy_tags, Dataset};
use dataset_store::error::StoreError;
use dataset_store::links::LinkTable;
use dataset_store::registry::Registry;
use dataset_store::samples::SampleLog;
use serde_json::Value;

#[test]
fn log_appends_in_order_with_growing_keys() {
    let mut log = SampleLog::starting_at(5);
    assert_eq!(log.append(1, vec![Value::from(10), Value::from(20)]), Ok(2));
    assert_eq!(log.append(2, vec![Value::from("x")]), Ok(1));
    assert_eq!(log.len(), 3);
    assert_eq!(log.count_for(1), 2);
    assert_eq!(log.count_for(2), 1);
    assert_eq!(log.count_for(3), 0);
    assert_eq!(log.documents_of(1), vec![Value::from(10), Value::from(20)]);
    assert!(log.has_room(usize::MAX - 8));
}

#[test]
fn log_refuses_whole_batch_when_keys_run_out() {
    let mut log = SampleLog::starting_at(u64::MAX - 1);
    assert!(log.has_room(1));
    assert!(!log.has_room(2));
    assert_eq!(
        log.append(1, vec![Value::from(1), Value::from(2)]),
        Err(StoreError::StoreUnavailable)
    );
    assert_eq!(log.len(), 0);
    assert_eq!(log.append(1, vec![Value::from(1)]), Ok(1));
    assert_eq!(log.len(), 1);
}

#[test]
fn log_purge_takes_only_one_owner() {
    let mut log = SampleLog::new();
    log.append(1, vec![Value::from(1)]).unwrap();
    log.append(2, vec![Value::from(2), Value::from(3)]).unwrap();
    log.append(1, vec![Value::from(4)]).unwrap();
    assert_eq!(log.purge(1), 2);
    assert_eq!(log.len(), 2);
    assert_eq!(log.documents_of(2), vec![Value::from(2), Value::from(3)]);
    assert_eq!(log.purge(1), 0);
}

#[test]
fn registry_bump_is_relative_and_bounded() {
    let mut registry = Registry::new();
    registry.create(1, "d".to_string(), None, None, 5).unwrap();
    assert_eq!(registry.bump(1, 3, 6).unwrap().samples_count, 3);
    assert_eq!(registry.bump(1, 4, 7).unwrap().samples_count, 7);
    assert_eq!(registry.check_bump(1, 2_147_483_640), None);
    assert_eq!(registry.check_bump(1, 2_147_483_641), Some(StoreError::ConstraintViolation));
    assert_eq!(registry.bump(1, 2_147_483_641, 8).err(), Some(StoreError::ConstraintViolation));
    let row = registry.get(1).unwrap();
    assert_eq!(row.samples_count, 7);
    assert_eq!(row.updated_at, 7);
    assert_eq!(registry.bump(2, 1, 9).err(), Some(StoreError::NotFound));
    assert_eq!(registry.check_bump(2, 1), Some(StoreError::NotFound));
}

#[test]
fn registry_create_remove_contains() {
    let mut registry = Registry::new();
    assert!(!registry.contains(1));
    registry.create(1, "a".to_string(), Some("about a".to_string()), Some(vec!["t".to_string()]), 5).unwrap();
    assert!(registry.contains(1));
    assert_eq!(
        registry.create(1, "b".to_string(), None, None, 6).err(),
        Some(StoreError::ConstraintViolation)
    );
    assert_eq!(registry.len(), 1);
    assert!(registry.remove(1));
    assert!(!registry.remove(1));
    assert_eq!(registry.len(), 0);
    assert!(registry.list().is_empty());
}

#[test]
fn snapshot_says_the_same() {
    let row = Dataset::fresh(9, "n".to_string(), Some("d".to_string()), Some(vec!["x".to_string(), "y".to_string()]), 77);
    let copy = row.snapshot();
    assert_eq!(copy.id, 9);
    assert_eq!(copy.name, "n");
    assert_eq!(copy.description, Some("d".to_string()));
    assert_eq!(copy.tags, vec!["x".to_string(), "y".to_string()]);
    assert_eq!(copy.samples_count, 0);
    assert_eq!(copy.size_bytes, 0);
    assert_eq!(copy.created_at, 77);
    assert_eq!(copy.updated_at, 77);
    assert_eq!(copy_tags(&row.tags), row.tags);
}

#[test]
fn link_table_counts_pairs() {
    let mut table = LinkTable::new();
    table.link(1, 10);
    table.link(1, 11);
    table.link(2, 10);
    table.link(1, 10);
    assert_eq!(table.len(), 3);
    assert_eq!(table.rows_for(1, 10), 1);
    assert_eq!(table.rows_for(10, 1), 0);
    assert!(table.has_link(2, 10));
    assert!(!table.has_link(2, 11));
    assert!(table.has_finetune(2));
    assert!(!table.has_finetune(10));
}
