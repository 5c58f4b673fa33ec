use dataspringflow_rs::backend::router::{scope_hits, BackendAddr, GlobalBackend, GlobalBackendAddr, StackedBackend, StackedBackendConfig};
use dataspringflow_rs::backend::remote::RemoteBackend;
use dataspringflow_rs::backend::sqlite_config::SqliteConfig;
use dataspringflow_rs::backend::memory::MemoryBackend;
use dataspringflow_rs::backend::{BackendError, DatasetBackend, IoKind};
use dataspringflow_rs::dataset::{DataSetBusyStatus, MetaData};

fn dummy(name: &str, tag: &str) -> MetaData {
    MetaData {
        name: name.to_string(),
        tag: tag.to_string(),
        hash: "deadbeef1234567890".to_string(),
        path: format!("/mock/path/to/{}", name),
        description_path: format!("/mock/desc/{}.md", name),
        script_path: format!("/mock/scripts/{}.py", name),
        owner: "mockuser$nobody".to_string(),
        dependencies: vec!["base_dataset@v1.0".to_string(), "labels@v2.0".to_string()],
        merkle_tree_path: format!("/mock/merkle/{}.bincode", name),
        busy_status: DataSetBusyStatus::Free,
    }
}

#[test]
fn memory_store_saves_and_reads_back() {
    let mut store = MemoryBackend::new();
    store.save_metadata(&dummy("mnist", "v1.0")).unwrap();
    let got = store.get_metadata("mnist@v1.0").unwrap();
    assert_eq!(got.name, "mnist");
    assert_eq!(got.tag, "v1.0");
    assert_eq!(got.hash, "deadbeef1234567890");
    assert_eq!(got.dependencies, vec!["base_dataset@v1.0".to_string(), "labels@v2.0".to_string()]);
}

#[test]
fn memory_store_overwrites_on_second_save() {
    let mut store = MemoryBackend::new();
    let first = dummy("cifar10", "v1");
    let mut second = dummy("cifar10", "v1");
    second.hash = "new_changed_hash_value_666".to_string();
    store.save_metadata(&first).unwrap();
    assert!(store.save_metadata(&second).is_ok());
    assert_eq!(store.get_metadata("cifar10@v1").unwrap().hash, "new_changed_hash_value_666");
    assert_eq!(store.list_all_metadata().unwrap().len(), 1);
}

#[test]
fn memory_store_reports_missing_as_not_found() {
    let store = MemoryBackend::new();
    let err = store.get_metadata("ghost_dataset@v9.9").unwrap_err();
    assert!(matches!(err, BackendError::DatasetNotFound { .. }));
    assert_eq!(err.to_io_error().0, IoKind::NotFound);
}

#[test]
fn memory_store_deletes_once() {
    let mut store = MemoryBackend::new();
    store.save_metadata(&dummy("imagenet", "2012")).unwrap();
    store.delete_metadata("imagenet@2012").unwrap();
    assert_eq!(store.get_metadata("imagenet@2012").unwrap_err().to_io_error().0, IoKind::NotFound);
    let again = store.delete_metadata("imagenet@2012").unwrap_err();
    assert_eq!(again.to_io_error().0, IoKind::NotFound);
}

#[test]
fn memory_store_lists_and_marks() {
    let mut store = MemoryBackend::new();
    assert!(store.list_all_metadata().unwrap().is_empty());
    store.save_metadata(&dummy("a", "v1")).unwrap();
    store.save_metadata(&dummy("b", "v1")).unwrap();
    let mut ids: Vec<String> = store.list_all_metadata().unwrap().iter().map(|m| m.id()).collect();
    ids.sort();
    assert_eq!(ids, vec!["a@v1".to_string(), "b@v1".to_string()]);
    store.mark_status("a@v1", DataSetBusyStatus::Reading).unwrap();
    assert_eq!(store.get_metadata("a@v1").unwrap().busy_status, DataSetBusyStatus::Reading);
    assert!(store.mark_status("zzz@v1", DataSetBusyStatus::Reading).is_err());
    assert_eq!(store.check_is_referenced("labels@v2.0").unwrap().len(), 2);
}

#[test]
fn scope_hits_combines_answers() {
    let remote = GlobalBackendAddr::Sqlite { config_path: "/etc/r.yaml".to_string() };
    let local = GlobalBackendAddr::Sqlite { config_path: "/etc/l.yaml".to_string() };
    let nf = || Err(BackendError::DatasetNotFound { id: "x@1".to_string() });

    let r = scope_hits("x@1", Ok(dummy("x", "1")), Some((local.clone(), Ok(dummy("x", "1")))), vec![(remote.clone(), nf())]).unwrap();
    assert_eq!(r.len(), 2);
    assert_eq!(r[0].0.to_text(), "Private(owner: mockuser$nobody)");
    assert_eq!(r[1].0.to_text(), "Global(Sqlite: /etc/l.yaml)");

    let failed = scope_hits("x@1", Ok(dummy("x", "1")), None, vec![(remote.clone(), Err(BackendError::Io { message: "disk".to_string() }))]);
    assert!(matches!(failed, Err(BackendError::Io { ref message }) if message == "disk"));

    let none = scope_hits("x@1", nf(), Some((local, nf())), vec![(remote, nf())]);
    assert!(matches!(none, Err(BackendError::DatasetNotFound { ref id }) if id == "x@1"));
}

#[test]
fn remote_address_errors_depend_on_the_matching_store() {
    let cfg = StackedBackendConfig::new(SqliteConfig::new("test_dsf.db".to_string()), vec![]);
    let mut stack = StackedBackend::assemble(cfg, MemoryBackend::new(), vec![]);
    stack.reachable_remote_be.push((GlobalBackendAddr::Remote { server_url: "http://a".to_string() }, GlobalBackend::Remote(RemoteBackend {})));
    let known = BackendAddr::Global { addr: GlobalBackendAddr::Remote { server_url: "http://a".to_string() } };
    let unknown = BackendAddr::Global { addr: GlobalBackendAddr::Remote { server_url: "http://b".to_string() } };
    assert!(matches!(stack.get_backend_by_addr(Some(&known)), Err(BackendError::Unsupported { .. })));
    assert!(matches!(stack.get_backend_by_addr(Some(&unknown)), Err(BackendError::BackendNotFound)));
}
