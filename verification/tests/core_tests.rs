use dataspringflow_rs::dataset::{description_path, description_stub, query_label};
use dataspringflow_rs::dataset::{
    DSFDataSet, DataSetBusyStatus, DataSetStatus, DataSetVerifyRes, MetaData, RefreshError,
};

fn mock_dataset(busy: DataSetBusyStatus) -> DSFDataSet {
    DSFDataSet {
        metadata: MetaData {
            name: "mock".to_string(),
            tag: "v1".to_string(),
            hash: "recorded-hash".to_string(),
            path: "/tmp/data".to_string(),
            description_path: "/tmp/desc.md".to_string(),
            script_path: "/tmp/script.py".to_string(),
            owner: "root".to_string(),
            dependencies: vec![],
            merkle_tree_path: "/tmp/merkle.json".to_string(),
            busy_status: busy,
        },
        detailed_status: DataSetVerifyRes { status: DataSetStatus::Unverified, dep_status: vec![] },
    }
}

#[test]
fn test_verify_single_bridges_free_and_reading_to_healthy() {
    let mut ds_free = mock_dataset(DataSetBusyStatus::Free);
    let res_free = ds_free.verify_single("recorded-hash", &[]);
    assert_eq!(
        res_free.status,
        DataSetStatus::Healthy,
        "BusyStatus::Free must bridge to DataSetStatus::Healthy when hash is intact"
    );
    let mut ds_reading = mock_dataset(DataSetBusyStatus::Reading);
    let res_reading = ds_reading.verify_single("recorded-hash", &[]);
    assert_eq!(
        res_reading.status,
        DataSetStatus::Healthy,
        "BusyStatus::Reading must also bridge to DataSetStatus::Healthy"
    );
}

#[test]
fn test_verify_single_fences_modifying_status() {
    let mut ds_mod = mock_dataset(DataSetBusyStatus::Modifying);
    let res = ds_mod.verify_single("recorded-hash", &[]);
    assert_eq!(
        res.status,
        DataSetStatus::Busy(DataSetBusyStatus::Modifying),
        "Modifying status must short-circuit and NOT return Healthy"
    );
}

#[test]
fn test_tdd_refresh_and_commit_must_reject_when_dataset_is_busy() {
    let mut ds_mod = mock_dataset(DataSetBusyStatus::Modifying);
    let result = ds_mod.refresh_hash_and_merkle("new-hash".to_string());
    assert!(
        result.is_err(),
        "SECURITY VULNERABILITY: refresh_hash_and_merkle must return an Err when busy_status is Modifying/Creating/Deleting!"
    );
    if let Err(err) = result {
        assert_eq!(err, RefreshError::ResourceBusy(DataSetBusyStatus::Modifying), "Error kind should be ResourceBusy");
    }
    assert_eq!(ds_mod.metadata.hash, "recorded-hash");
}

#[test]
fn test_verify_single_fences_creating_and_deleting_statuses() {
    let mut ds_creating = mock_dataset(DataSetBusyStatus::Creating);
    let res_creating = ds_creating.verify_single("recorded-hash", &[]);
    assert_eq!(res_creating.status, DataSetStatus::Busy(DataSetBusyStatus::Creating));
    let mut ds_deleting = mock_dataset(DataSetBusyStatus::Deleting);
    let res_deleting = ds_deleting.verify_single("recorded-hash", &[]);
    assert_eq!(res_deleting.status, DataSetStatus::Busy(DataSetBusyStatus::Deleting));
}

#[test]
fn test_verify_single_fenced_status_preserves_dependency_status_list() {
    let mut ds = mock_dataset(DataSetBusyStatus::Modifying);
    let mock_deps = vec![DataSetStatus::Healthy, DataSetStatus::BrokenDeps];
    let res = ds.verify_single("recorded-hash", &mock_deps);
    assert_eq!(res.status, DataSetStatus::Busy(DataSetBusyStatus::Modifying));
    assert_eq!(res.dep_status, mock_deps);
}

#[test]
fn test_verify_single_returns_broken_when_file_tampered() {
    let mut ds = mock_dataset(DataSetBusyStatus::Free);
    let res = ds.verify_single("hash-after-tampering", &[]);
    assert_eq!(res.status, DataSetStatus::Broken);
}

#[test]
fn test_verify_single_returns_broken_deps_when_dependency_unhealthy() {
    let mut ds = mock_dataset(DataSetBusyStatus::Free);
    let bad_deps = vec![DataSetStatus::Healthy, DataSetStatus::Broken];
    let res = ds.verify_single("recorded-hash", &bad_deps);
    assert_eq!(res.status, DataSetStatus::BrokenDeps);
}

#[test]
fn refresh_records_new_hash_when_free() {
    let mut ds = mock_dataset(DataSetBusyStatus::Free);
    assert!(ds.refresh_hash_and_merkle("fresh".to_string()).is_ok());
    assert_eq!(ds.metadata.hash, "fresh");
    let mut ds = mock_dataset(DataSetBusyStatus::Reading);
    assert!(ds.refresh_hash_and_merkle("fresh".to_string()).is_ok());
    let mut ds = mock_dataset(DataSetBusyStatus::Deleting);
    assert!(ds.refresh_hash_and_merkle("fresh".to_string()).is_err());
}

#[test]
fn status_texts() {
    assert_eq!(DataSetStatus::Healthy.as_str(), "healthy");
    assert_eq!(DataSetStatus::BrokenDeps.as_str(), "broken_deps");
    assert_eq!(DataSetBusyStatus::Modifying.as_str(), "modifying");
    assert_eq!(DataSetBusyStatus::parse("creating"), Some(DataSetBusyStatus::Creating));
    assert_eq!(DataSetBusyStatus::parse("bogus"), None);
}

#[test]
fn metadata_id_joins_name_and_tag() {
    let ds = mock_dataset(DataSetBusyStatus::Free);
    assert_eq!(ds.metadata.id(), "mock@v1");
}

#[test]
fn check_name_tag_rejects_at() {
    assert!(MetaData::check_name_tag("a@b", "v1").is_err());
    assert!(MetaData::check_name_tag("ab", "v@1").is_err());
    assert!(MetaData::check_name_tag("ab", "v1").is_ok());
}

#[test]
fn busy_status_parses_from_its_name() {
    assert_eq!("modifying".parse::<DataSetBusyStatus>(), Ok(DataSetBusyStatus::Modifying));
    assert_eq!("free".parse::<DataSetBusyStatus>(), Ok(DataSetBusyStatus::Free));
    assert_eq!("Free".parse::<DataSetBusyStatus>(), Err(()));
}

#[test]
fn ids_of_different_names_and_tags_differ() {
    let mut a = mock_dataset(DataSetBusyStatus::Free).metadata;
    let mut b = mock_dataset(DataSetBusyStatus::Free).metadata;
    a.name = "ab".to_string();
    a.tag = "c".to_string();
    b.name = "a".to_string();
    b.tag = "bc".to_string();
    assert_eq!(a.id(), "ab@c");
    assert_eq!(b.id(), "a@bc");
    assert_ne!(a.id(), b.id());
}

#[test]
fn query_labels_show_the_busy_status_inside_occupied() {
    let (a, b, c) = query_label(DataSetStatus::Busy(DataSetBusyStatus::Reading));
    assert_eq!(format!("{}{}{}", a, b, c), "Occupied(reading)");
    assert_eq!(b, "reading");
    let (a, b, c) = query_label(DataSetStatus::BrokenDeps);
    assert_eq!((a.as_str(), b.as_str(), c.as_str()), ("", "BrokenDeps", ""));
}

#[test]
fn description_defaults_under_the_data_directory() {
    assert_eq!(description_path("/data", "mnist", "v1", None), "/data/descriptions/mnist_v1.md");
    assert_eq!(description_path("/data", "mnist", "v1", Some("/x/desc.md")), "/x/desc.md");
    assert!(description_stub("mnist", "v1").starts_with("# mnist@v1\n\n"));
}
