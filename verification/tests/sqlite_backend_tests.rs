//! The store tests, run against the in-memory store (the SQLite rows are loaded into it by
//! the command-line tool).
use dataspringflow_rs::backend::memory::MemoryBackend;
use dataspringflow_rs::backend::{DatasetBackend, IoKind};
use dataspringflow_rs::dataset::{DataSetBusyStatus, MetaData};

fn create_dummy_metadata(name: &str, tag: &str) -> MetaData {
    MetaData {
        name: name.to_string(),
        tag: tag.to_string(),
        hash: "deadbeef1234567890".to_string(),
        path: format!("/mock/path/to/{}", name),
        description_path: format!("/mock/desc/{}.md", name),
        script_path: format!("/mock/scripts/{}.py", name),
        owner: "mockuser$nobody".to_string(),
        dependencies: vec!["base_dataset@v1.0".to_string(), "labels@v2.0".to_string()],
        merkle_tree_path: format!("/mock/merkle/{}.bincode", name),
        busy_status: DataSetBusyStatus::Free,
    }
}

#[test]
fn sqlite_backend_tests_test_backend_init_and_table_creation() {
    let backend = MemoryBackend::new();
    assert!(backend.list_all_metadata().is_ok(), "a new store lists");
    let res = backend.get_metadata("dummy@v1.0");
    assert!(res.is_err(), "a missing dataset is not found");
    assert_eq!(res.unwrap_err().to_io_error().0, IoKind::NotFound);
}

#[test]
fn test_save_and_get_metadata_success() {
    let mut backend = MemoryBackend::new();
    let meta = create_dummy_metadata("mnist", "v1.0");
    backend.save_metadata(&meta).expect("save");
    let retrieved = backend.get_metadata("mnist@v1.0").expect("get");
    assert_eq!(retrieved.name, "mnist");
    assert_eq!(retrieved.tag, "v1.0");
    assert_eq!(retrieved.hash, "deadbeef1234567890");
    assert_eq!(retrieved.dependencies, vec!["base_dataset@v1.0".to_string(), "labels@v2.0".to_string()]);
}

#[test]
fn test_save_duplicate_metadata_should_overwrite() {
    let mut backend = MemoryBackend::new();
    let meta1 = create_dummy_metadata("cifar10", "v1");
    let mut meta2 = create_dummy_metadata("cifar10", "v1");
    meta2.hash = "new_changed_hash_value_666".to_string();
    backend.save_metadata(&meta1).unwrap();
    assert!(backend.save_metadata(&meta2).is_ok(), "saving again replaces");
    assert_eq!(backend.get_metadata("cifar10@v1").unwrap().hash, "new_changed_hash_value_666");
}

#[test]
fn test_get_metadata_not_found_returns_none() {
    let backend = MemoryBackend::new();
    let res = backend.get_metadata("ghost_dataset@v9.9");
    assert!(res.is_err());
    assert_eq!(res.unwrap_err().to_io_error().0, IoKind::NotFound);
}

#[test]
fn test_delete_metadata_success_and_fail_subsequent() {
    let mut backend = MemoryBackend::new();
    backend.save_metadata(&create_dummy_metadata("imagenet", "2012")).unwrap();
    backend.delete_metadata("imagenet@2012").expect("delete");
    let check = backend.get_metadata("imagenet@2012");
    assert!(check.is_err());
    assert_eq!(check.unwrap_err().to_io_error().0, IoKind::NotFound);
    let res = backend.delete_metadata("imagenet@2012");
    assert!(res.is_err());
    assert_eq!(res.unwrap_err().to_io_error().0, IoKind::NotFound);
}

#[test]
fn sqlite_backend_tests_test_list_all_metadata_or_empty() {
    let mut backend = MemoryBackend::new();
    assert!(backend.list_all_metadata().expect("list").is_empty());
    let mut meta1 = create_dummy_metadata("coco", "v2017");
    let mut meta2 = create_dummy_metadata("voc", "v2012");
    meta1.owner = "student$li".to_string();
    meta2.owner = "student$wang".to_string();
    backend.save_metadata(&meta1).unwrap();
    backend.save_metadata(&meta2).unwrap();
    let all = backend.list_all_metadata().expect("list");
    assert_eq!(all.len(), 2);
    let has_coco = all.iter().any(|m| m.name == "coco" && m.tag == "v2017" && m.owner == "student$li");
    let has_voc = all.iter().any(|m| m.name == "voc" && m.tag == "v2012" && m.owner == "student$wang");
    assert!(has_coco && has_voc);
}

#[test]
fn test_save_and_get_metadata() {
    let mut backend = MemoryBackend::new();
    let meta = create_dummy_metadata("imagenet", "v1.0");
    backend.save_metadata(&meta).expect("save");
    let loaded = backend.get_metadata(&meta.id()).expect("get");
    assert_eq!(loaded.name, "imagenet");
    assert_eq!(loaded.tag, "v1.0");
    assert_eq!(loaded.hash, "deadbeef1234567890");
    assert_eq!(loaded.owner, "mockuser$nobody");
    assert_eq!(loaded.dependencies.len(), 2);
    assert_eq!(loaded.dependencies[0], "base_dataset@v1.0");
    assert_eq!(loaded.dependencies[1], "labels@v2.0");
}

#[test]
fn test_upsert_overwrite_logic() {
    let mut backend = MemoryBackend::new();
    let mut meta = create_dummy_metadata("cifar10", "v1.0");
    backend.save_metadata(&meta).unwrap();
    meta.hash = "new_hash_9999".to_string();
    meta.owner = "student$wang".to_string();
    meta.dependencies.push("new_dep@v1.0".to_string());
    backend.save_metadata(&meta).expect("overwrite");
    let updated = backend.get_metadata(&meta.id()).unwrap();
    assert_eq!(updated.hash, "new_hash_9999");
    assert_eq!(updated.owner, "student$wang");
    assert_eq!(updated.dependencies.len(), 3);
    assert_eq!(updated.dependencies[2], "new_dep@v1.0");
}

#[test]
fn test_get_not_found_error_mapping() {
    let backend = MemoryBackend::new();
    let res = backend.get_metadata("ghost_dataset@v9.9");
    assert!(res.is_err());
    assert_eq!(res.unwrap_err().to_io_error().0, IoKind::NotFound);
}

#[test]
fn test_delete_metadata_success() {
    let mut backend = MemoryBackend::new();
    let meta = create_dummy_metadata("mnist", "v1.0");
    let id = meta.id();
    backend.save_metadata(&meta).unwrap();
    assert!(backend.get_metadata(&id).is_ok());
    backend.delete_metadata(&id).expect("delete");
    let res = backend.get_metadata(&id);
    assert!(res.is_err());
    assert_eq!(res.unwrap_err().to_io_error().0, IoKind::NotFound);
}

#[test]
fn test_delete_metadata_not_found_strict_blocking() {
    let mut backend = MemoryBackend::new();
    let res = backend.delete_metadata("never_existed_dataset@v1.0");
    assert!(res.is_err());
    assert_eq!(res.unwrap_err().to_io_error().0, IoKind::NotFound);
}
