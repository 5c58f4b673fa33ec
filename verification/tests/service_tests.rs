use dataspringflow_rs::backend::memory::MemoryBackend;
use dataspringflow_rs::backend::router::{StackedBackend, StackedBackendConfig};
use dataspringflow_rs::backend::sqlite_config::SqliteConfig;
use dataspringflow_rs::backend::BackendError;
use dataspringflow_rs::dag::DatasetGraphError;
use dataspringflow_rs::dataset::{DataSetBusyStatus, DataSetStatus};
use dataspringflow_rs::service::{DSFService, RegisterOptions, ServiceError};

fn setup_test_service() -> DSFService<MemoryBackend> {
    let cfg = StackedBackendConfig::new(SqliteConfig::new("test_dsf.db".to_string()), vec![]);
    DSFService::new(StackedBackend::assemble(cfg, MemoryBackend::new(), vec![]))
}

fn opts(name: &str, tag: &str, deps: &[&str], force_heal: bool) -> RegisterOptions {
    RegisterOptions {
        name: name.to_string(),
        tag: tag.to_string(),
        path: format!("/data/{}_data", name),
        description_path: Some(format!("/data/{}_desc.md", name)),
        script_path: format!("/data/{}_script.py", name),
        owner_nickname: None,
        dependencies: deps.iter().map(|s| s.to_string()).collect(),
        force_heal,
        yes: false,
    }
}

fn hash_of(id: &str) -> String {
    format!("content-hash-{}", id)
}

/// Registers `name@tag` as the OS user `tester`, recording the hash its content has now.
fn register(service: &mut DSFService<MemoryBackend>, name: &str, tag: &str, deps: &[&str], force_heal: bool, current: &[(&str, String)]) -> Result<(), ServiceError> {
    let id = format!("{}@{}", name, tag);
    let hashes: Vec<(String, String)> = current.iter().map(|(i, h)| (i.to_string(), h.clone())).collect();
    service.register_with_user(
        &opts(name, tag, deps, force_heal),
        None,
        hash_of(&id),
        format!("/data/{}_desc.md", name),
        format!("/data/{}.merkle.bin", id),
        &hashes,
        Ok("tester".to_string()),
    )
}

#[test]
fn service_tests_test_service_register_and_query_success() {
    let mut service = setup_test_service();
    let res = register(&mut service, "imagenet", "v1.0", &[], false, &[]);
    assert!(res.is_ok(), "registration failed: {:?}", res.err());
    let metas = service.query_meta("imagenet@v1.0", None).expect("the metadata should be found");
    assert_eq!(metas.len(), 1);
    assert_eq!(metas[0].1.name, "imagenet");
    assert_eq!(metas[0].1.tag, "v1.0");
    assert_eq!(metas[0].1.hash, hash_of("imagenet@v1.0"));
}

#[test]
fn service_tests_test_service_register_missing_dependency() {
    let mut service = setup_test_service();
    let res = register(&mut service, "resnet_data", "v1", &["ghost_dataset@v1"], false, &[]);
    match res {
        Err(e) => {
            assert!(e.message().contains("Dependency dataset does not exist"));
            assert!(matches!(e, ServiceError::DependencyMissing(ref d) if d == "ghost_dataset@v1"));
        },
        Ok(()) => panic!("Dependency dataset does not exist, yet the registration succeeded"),
    }
    assert!(service.query_meta("resnet_data@v1", None).is_err(), "nothing may be recorded");
}

#[test]
fn service_tests_test_service_delete_with_reference_protection() {
    let mut service = setup_test_service();
    register(&mut service, "base", "v1", &[], false, &[]).unwrap();
    let current = [("base@v1", hash_of("base@v1"))];
    register(&mut service, "derived", "v1", &["base@v1"], false, &current).unwrap();

    match service.delete_metadata("base@v1", false, None) {
        Err(ServiceError::DeletionBlocked(referrers)) => assert_eq!(referrers, vec!["derived@v1".to_string()]),
        other => panic!("Deletion blocked, dataset is referenced: got {:?}", other),
    }
    assert!(service.query_meta("base@v1", None).is_ok());
    assert!(service.delete_metadata("base@v1", true, None).is_ok(), "a forced deletion should succeed");
    assert!(service.query_meta("base@v1", None).is_err());
}

#[test]
fn service_tests_test_service_check_is_referenced_returns_referrers() {
    let mut service = setup_test_service();
    register(&mut service, "base", "v1", &[], false, &[]).unwrap();
    let current = [("base@v1", hash_of("base@v1"))];
    register(&mut service, "derived1", "v1", &["base@v1"], false, &current).unwrap();
    register(&mut service, "derived2", "v1", &["base@v1"], false, &current).unwrap();
    let refs = service.check_is_referenced_with_user("base@v1", Ok("tester".to_string())).unwrap();
    let ids: Vec<String> = refs.iter().map(|s| s.1.clone()).collect();
    assert!(ids.contains(&"derived1@v1".to_string()));
    assert!(ids.contains(&"derived2@v1".to_string()));
    assert_eq!(ids.len(), 2);
}

#[test]
fn test_service_list_all_metadata_returns_all_registered() {
    let mut service = setup_test_service();
    register(&mut service, "a", "v1", &[], false, &[]).unwrap();
    register(&mut service, "b", "v2", &[], false, &[]).unwrap();
    let all = service.list_all_metadata().unwrap();
    let ids: Vec<String> = all.iter().map(|s| s.1.id()).collect();
    assert!(ids.contains(&"a@v1".to_string()));
    assert!(ids.contains(&"b@v2".to_string()));
}

#[test]
fn test_service_update_merkle_invalid_id_should_fail_fast() {
    let mut service = setup_test_service();
    let res = service.update_merkle("not-a-valid-id", "h".to_string(), None);
    assert!(matches!(res, Err(ServiceError::InvalidInput(_))));
}

#[test]
fn test_service_verify_self_invalid_id_should_fail() {
    let service = setup_test_service();
    assert!(service.verify_self("bad-id", "h", None).is_err());
}

#[test]
fn test_service_verify_deep_nonexistent_id_should_fail() {
    let service = setup_test_service();
    assert!(service.verify_deep("ghost@v1", &vec![], None).is_err());
}

#[test]
fn test_service_verify_self_bridges_free_and_reading_to_healthy() {
    let mut service = setup_test_service();
    register(&mut service, "ds_read", "v1", &[], false, &[]).unwrap();
    let res_free = service.verify_self("ds_read@v1", &hash_of("ds_read@v1"), None).unwrap();
    assert_eq!(res_free.status, DataSetStatus::Healthy);
    service.mark_status("ds_read@v1", DataSetBusyStatus::Reading, None).unwrap();
    let res_reading = service.verify_self("ds_read@v1", &hash_of("ds_read@v1"), None).unwrap();
    assert_eq!(res_reading.status, DataSetStatus::Healthy);
}

#[test]
fn test_service_verify_self_fences_modifying_status() {
    let mut service = setup_test_service();
    register(&mut service, "ds_mod", "v1", &[], false, &[]).unwrap();
    service.mark_status("ds_mod@v1", DataSetBusyStatus::Modifying, None).unwrap();
    let res = service.verify_self("ds_mod@v1", &hash_of("ds_mod@v1"), None).unwrap();
    assert_eq!(res.status, DataSetStatus::Busy(DataSetBusyStatus::Modifying));
}

#[test]
fn test_service_update_merkle_blocked_by_fence_when_busy() {
    let mut service = setup_test_service();
    register(&mut service, "ds_update", "v1", &[], false, &[]).unwrap();
    service.mark_status("ds_update@v1", DataSetBusyStatus::Creating, None).unwrap();
    let update_res = service.update_merkle("ds_update@v1", "partially-written".to_string(), None);
    assert!(update_res.is_err(), "update_merkle on a Creating/Modifying dataset must fail");
    let metas = service.query_meta("ds_update@v1", None).unwrap();
    assert_eq!(metas[0].1.hash, hash_of("ds_update@v1"));
}

#[test]
fn test_service_update_merkle_success_real_backend() {
    let mut service = setup_test_service();
    register(&mut service, "it_um_base", "v1", &[], false, &[]).unwrap();
    let res = service.update_merkle("it_um_base@v1", "new-hash".to_string(), None);
    assert!(res.is_ok(), "update_merkle should succeed, got: {:?}", res.err());
    let metas = service.query_meta("it_um_base@v1", None).unwrap();
    assert_eq!(metas[0].1.hash, "new-hash");
}

#[test]
fn test_service_register_blocked_when_dependency_is_busy_even_with_force_heal() {
    let mut service = setup_test_service();
    register(&mut service, "base", "v1", &[], false, &[]).unwrap();
    service.mark_status("base@v1", DataSetBusyStatus::Modifying, None).unwrap();
    let current = [("base@v1", hash_of("base@v1"))];
    let reg_res = register(&mut service, "derived", "v1", &["base@v1"], true, &current);
    assert!(reg_res.is_err(), "a Modifying/Creating dependency must not be force-healed");
    assert!(service.query_meta("derived@v1", None).is_err());
}

#[test]
fn test_service_verify_deep_propagates_busy_dependency() {
    let mut service = setup_test_service();
    register(&mut service, "root_ds", "v1", &[], false, &[]).unwrap();
    let current = [("root_ds@v1", hash_of("root_ds@v1"))];
    register(&mut service, "child_ds", "v1", &["root_ds@v1"], false, &current).unwrap();
    service.mark_status("root_ds@v1", DataSetBusyStatus::Deleting, None).unwrap();
    let hashes = vec![
        ("root_ds@v1".to_string(), hash_of("root_ds@v1")),
        ("child_ds@v1".to_string(), hash_of("child_ds@v1")),
    ];
    let verify_res = service.verify_deep("child_ds@v1", &hashes, None).unwrap();
    assert_eq!(verify_res.status, DataSetStatus::BrokenDeps);
    assert_eq!(verify_res.dep_status[0], DataSetStatus::Busy(DataSetBusyStatus::Deleting));
}

#[test]
fn test_service_mark_status_persistence_and_recovery() {
    let mut service = setup_test_service();
    register(&mut service, "persistent_ds", "v1", &[], false, &[]).unwrap();
    service.mark_status("persistent_ds@v1", DataSetBusyStatus::Creating, None).unwrap();
    let metas = service.query_meta("persistent_ds@v1", None).unwrap();
    assert_eq!(metas[0].1.busy_status, DataSetBusyStatus::Creating);
    service.mark_status("persistent_ds@v1", DataSetBusyStatus::Free, None).unwrap();
    let metas_recovered = service.query_meta("persistent_ds@v1", None).unwrap();
    assert_eq!(metas_recovered[0].1.busy_status, DataSetBusyStatus::Free);
    let res = service.verify_self("persistent_ds@v1", &hash_of("persistent_ds@v1"), None).unwrap();
    assert_eq!(res.status, DataSetStatus::Healthy);
}

#[test]
fn test_service_mark_status_success() {
    let mut service = setup_test_service();
    register(&mut service, "imagenet", "v1", &[], false, &[]).unwrap();
    service.mark_status("imagenet@v1", DataSetBusyStatus::Reading, None).expect("Failed to mark status as Reading via DSFService");
    let metas = service.query_meta("imagenet@v1", None).expect("Failed to query metadata");
    assert_eq!(metas[0].1.busy_status, DataSetBusyStatus::Reading);
    service.mark_status("imagenet@v1", DataSetBusyStatus::Deleting, None).expect("Failed to mark status as Deleting via DSFService");
    let metas = service.query_meta("imagenet@v1", None).expect("Failed to query metadata again");
    assert_eq!(metas[0].1.busy_status, DataSetBusyStatus::Deleting);
}

#[test]
fn test_service_mark_status_not_found() {
    let mut service = setup_test_service();
    let res = service.mark_status("non_existent_dataset@v99.0", DataSetBusyStatus::Reading, None);
    assert!(matches!(res, Err(ServiceError::Backend(BackendError::DatasetNotFound { .. }))));
}

#[test]
fn test_service_mark_status_after_deletion() {
    let mut service = setup_test_service();
    register(&mut service, "mnist", "v2", &[], false, &[]).unwrap();
    service.delete_metadata("mnist@v2", true, None).unwrap();
    assert!(service.mark_status("mnist@v2", DataSetBusyStatus::Reading, None).is_err());
}

#[test]
fn register_refuses_unhealthy_dependency_without_force() {
    let mut service = setup_test_service();
    register(&mut service, "base", "v1", &[], false, &[]).unwrap();
    let current = [("base@v1", "changed-on-disk".to_string())];
    match register(&mut service, "derived", "v1", &["base@v1"], false, &current) {
        Err(ServiceError::UnhealthyDependencies(v)) => assert_eq!(v, vec!["base@v1".to_string()]),
        other => panic!("expected UnhealthyDependencies, got {:?}", other),
    }
    // With force_heal the dependency is refreshed to its current hash first.
    register(&mut service, "derived", "v1", &["base@v1"], true, &current).unwrap();
    let metas = service.query_meta("base@v1", None).unwrap();
    assert_eq!(metas[0].1.hash, "changed-on-disk");
    assert!(service.query_meta("derived@v1", None).is_ok());
}

#[test]
fn register_refuses_a_cycle() {
    let mut service = setup_test_service();
    register(&mut service, "b", "v1", &[], false, &[]).unwrap();
    let current = [("b@v1", hash_of("b@v1"))];
    register(&mut service, "a", "v1", &["b@v1"], false, &current).unwrap();
    let current = [("a@v1", hash_of("a@v1")), ("b@v1", hash_of("b@v1"))];
    match register(&mut service, "b", "v1", &["a@v1"], false, &current) {
        Err(ServiceError::Graph(DatasetGraphError::CycleDetected { .. })) => {},
        other => panic!("expected a cycle, got {:?}", other),
    }
}

#[test]
fn query_meta_rejects_malformed_id() {
    let service = setup_test_service();
    assert!(matches!(service.query_meta("nope", None), Err(ServiceError::InvalidInput(_))));
}

#[test]
fn registration_records_owner() {
    let mut service = setup_test_service();
    register(&mut service, "owned", "v1", &[], false, &[]).unwrap();
    let metas = service.query_meta("owned@v1", None).unwrap();
    assert_eq!(metas[0].1.owner, "tester");
}

#[test]
fn referrers_of_private_store_are_tagged_with_user() {
    let mut service = setup_test_service();
    register(&mut service, "base", "v1", &[], false, &[]).unwrap();
    let current = [("base@v1", hash_of("base@v1"))];
    register(&mut service, "derived", "v1", &["base@v1"], false, &current).unwrap();
    let refs = service.check_is_referenced_with_user("base@v1", Ok("tester".to_string())).unwrap();
    assert_eq!(refs.len(), 1);
    assert_eq!(refs[0].to_text(), "Private(owner: tester):derived@v1");
    match service.check_is_referenced_with_user("base@v1", Err("no passwd entry".to_string())) {
        Err(e) => assert_eq!(e.message(), "failed to resolve owner: OS username unavailable: no passwd entry"),
        Ok(_) => panic!("an unknown OS user must be reported"),
    }
}

#[test]
fn test_service_verify_deep_and_self() {
    let mut service = setup_test_service();
    register(&mut service, "it_vd_base", "v1", &[], false, &[]).unwrap();
    service.update_merkle("it_vd_base@v1", hash_of("it_vd_base@v1"), None).unwrap();
    let res = service.verify_self("it_vd_base@v1", &hash_of("it_vd_base@v1"), None);
    assert!(res.is_ok());
}

#[test]
fn test_service_verify_self_success_real_backend() {
    let mut service = setup_test_service();
    register(&mut service, "it_vs_base", "v1", &[], false, &[]).unwrap();
    let res = service.verify_self("it_vs_base@v1", &hash_of("it_vs_base@v1"), None);
    assert!(res.is_ok(), "verify_self should succeed, got: {:?}", res.as_ref().err());
    let v = res.unwrap();
    assert!(
        matches!(v.status, DataSetStatus::Healthy | DataSetStatus::Broken | DataSetStatus::Unverified),
        "unexpected status: {:?}",
        v.status
    );
}

#[test]
fn test_service_verify_deep_with_dependency_success_real_backend() {
    let mut service = setup_test_service();
    register(&mut service, "it_vd_base", "v1", &[], false, &[]).unwrap();
    let current = [("it_vd_base@v1", hash_of("it_vd_base@v1"))];
    register(&mut service, "it_vd_derived", "v1", &["it_vd_base@v1"], false, &current).unwrap();
    let hashes: Vec<(String, String)> = vec![
        ("it_vd_base@v1".to_string(), hash_of("it_vd_base@v1")),
        ("it_vd_derived@v1".to_string(), hash_of("it_vd_derived@v1")),
    ];
    let res = service.verify_deep("it_vd_derived@v1", &hashes, None);
    assert!(res.is_ok(), "verify_deep should succeed, got: {:?}", res.as_ref().err());
    let v = res.unwrap();
    assert!(
        matches!(v.status, DataSetStatus::Healthy | DataSetStatus::Broken | DataSetStatus::Unverified),
        "unexpected status: {:?}",
        v.status
    );
}

#[test]
fn test_service_check_is_referenced_success_real_backend() {
    let mut service = setup_test_service();
    register(&mut service, "it_ref_base", "v1", &[], false, &[]).unwrap();
    let current = [("it_ref_base@v1", hash_of("it_ref_base@v1"))];
    register(&mut service, "it_ref_d1", "v1", &["it_ref_base@v1"], false, &current).unwrap();
    register(&mut service, "it_ref_d2", "v1", &["it_ref_base@v1"], false, &current).unwrap();
    let mut refs: Vec<String> = service
        .check_is_referenced_with_user("it_ref_base@v1", Ok("tester".to_string()))
        .unwrap()
        .into_iter()
        .map(|r| r.1)
        .collect();
    refs.sort();
    assert_eq!(refs, vec!["it_ref_d1@v1".to_string(), "it_ref_d2@v1".to_string()]);
}

#[test]
fn test_service_list_all_metadata_contains_registered_real_backend() {
    let mut service = setup_test_service();
    register(&mut service, "it_list_a", "v1", &[], false, &[]).unwrap();
    register(&mut service, "it_list_b", "v1", &[], false, &[]).unwrap();
    let ids: Vec<String> = service.list_all_metadata().unwrap().into_iter().map(|m| m.1.id()).collect();
    for want in ["it_list_a@v1", "it_list_b@v1"] {
        assert!(ids.contains(&want.to_string()), "list_all_metadata missing {}", want);
    }
}

#[test]
fn refresh_then_verify_is_healthy() {
    let mut service = setup_test_service();
    register(&mut service, "fresh", "v1", &[], false, &[]).unwrap();
    let stale = service.verify_self("fresh@v1", "changed-content", None).unwrap();
    assert_eq!(stale.status, DataSetStatus::Broken);
    service.update_merkle("fresh@v1", "changed-content".to_string(), None).unwrap();
    let res = service.verify_self("fresh@v1", "changed-content", None).unwrap();
    assert_eq!(res.status, DataSetStatus::Healthy);
}

#[test]
fn service_error_messages_name_the_problem() {
    let mut service = setup_test_service();
    let err = register(&mut service, "resnet_data", "v1", &["ghost_dataset@v1"], false, &[]).unwrap_err();
    assert_eq!(err.message(), "Dependency dataset does not exist: ghost_dataset@v1");

    register(&mut service, "base", "v1", &[], false, &[]).unwrap();
    let current = [("base@v1", hash_of("base@v1"))];
    register(&mut service, "derived", "v1", &["base@v1"], false, &current).unwrap();
    let blocked = service.delete_metadata("base@v1", false, None).unwrap_err();
    assert!(blocked.message().contains("Deletion blocked, dataset is referenced"));
    assert_eq!(blocked.message(), "Deletion blocked, dataset is referenced by: [\"derived@v1\"]. Use force=true.");

    let unhealthy = ServiceError::UnhealthyDependencies(vec!["a@1".to_string(), "b@1".to_string()]);
    assert_eq!(
        unhealthy.message(),
        "Unhealthy dependencies found:\n [\"a@1\", \"b@1\"]. \nRe-run with force_heal/yes to ignore broken deps."
    );
    let bad = match service.query_meta("bad-id", None) {
        Err(e) => e,
        Ok(_) => panic!("a malformed id must be refused"),
    };
    assert_eq!(bad.message(), "Illegal id: bad-id，must be in form name@tag");
}

#[test]
fn graph_error_messages() {
    let e = DatasetGraphError::CycleDetected { node: "a@1".to_string(), dep: "b@1".to_string() };
    assert_eq!(e.message(), "Circular dependency detected: node 'a@1' and dependency 'b@1' form a cycle");
    let e = DatasetGraphError::DatasetNotFound { node_id: "x@1".to_string() };
    assert_eq!(e.message(), "Data integrity violation: Dataset entity for node 'x@1' could not be found");
}

#[test]
fn busy_dependency_is_never_healed() {
    let mut service = setup_test_service();
    register(&mut service, "base", "v1", &[], false, &[]).unwrap();
    service.mark_status("base@v1", DataSetBusyStatus::Modifying, None).unwrap();
    let current = [("base@v1", "changed-content".to_string())];
    let res = register(&mut service, "derived", "v1", &["base@v1"], true, &current);
    assert!(res.is_err());
    let base = &service.query_meta("base@v1", None).unwrap()[0].1;
    assert_eq!(base.hash, hash_of("base@v1"));
    assert_eq!(base.busy_status, DataSetBusyStatus::Modifying);
}

#[test]
fn unhealthy_dependency_is_healed_under_force() {
    let mut service = setup_test_service();
    register(&mut service, "base", "v1", &[], false, &[]).unwrap();
    let current = [("base@v1", "changed-content".to_string())];
    assert!(matches!(
        register(&mut service, "derived", "v1", &["base@v1"], false, &current),
        Err(ServiceError::UnhealthyDependencies(_))
    ));
    register(&mut service, "derived", "v1", &["base@v1"], true, &current).unwrap();
    assert_eq!(service.query_meta("base@v1", None).unwrap()[0].1.hash, "changed-content");
}

#[test]
fn lookup_without_address_finds_every_hit_or_reports_missing() {
    let mut service = setup_test_service();
    register(&mut service, "imagenet", "v1.0", &[], false, &[]).unwrap();
    let v = service.query_meta("imagenet@v1.0", None).unwrap();
    assert_eq!(v.len(), 1);
    assert_eq!(v[0].0.to_text(), "Private(owner: tester)");
    match service.query_meta("ghost@v1", None) {
        Err(ServiceError::Backend(BackendError::DatasetNotFound { id })) => assert_eq!(id, "ghost@v1"),
        Err(other) => panic!("unexpected {:?}", other),
        Ok(_) => panic!("a missing dataset must not be found"),
    }
}

#[test]
fn the_first_bad_dependency_decides_the_refusal() {
    let mut service = setup_test_service();
    register(&mut service, "base", "v1", &[], false, &[]).unwrap();
    let res = register(&mut service, "a", "v1", &["base@v1", "not-an-id", "ghost@v1"], false, &[]);
    assert!(matches!(res, Err(ServiceError::InvalidInput(_))));
    let res = register(&mut service, "a", "v1", &["base@v1", "ghost@v1", "not-an-id"], false, &[]);
    assert!(matches!(res, Err(ServiceError::DependencyMissing(ref d)) if d == "ghost@v1"));
    assert!(service.query_meta("a@v1", None).is_err(), "nothing may be recorded");
}
