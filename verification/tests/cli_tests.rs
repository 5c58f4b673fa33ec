use dataspringflow_rs::backend::router::GlobalBackendAddr;
use dataspringflow_rs::config::{group_file_lists, is_global_installed, AppConfig, InstallMode};
use dataspringflow_rs::utils::{hashres_to_hex, validate_dataset_id, validate_name_tag};

#[test]
fn cli_validate_dataset_id_accepts_normal_form() {
    assert!(validate_dataset_id("name@tag").is_ok());
    assert!(validate_dataset_id("dataset_01@2026-07-08").is_ok());
}

#[test]
fn validate_dataset_id_rejects_missing_or_invalid_separator() {
    assert!(validate_dataset_id("nametag").is_err());
    assert!(validate_dataset_id("@tag").is_err());
    assert!(validate_dataset_id("name@").is_err());
    assert!(validate_dataset_id("a@b@c").is_err());
    assert!(validate_dataset_id("@").is_err());
}

#[test]
fn validate_name_tag_accepts_valid_inputs() {
    assert!(validate_name_tag("mnist", "v1").is_ok());
    assert!(validate_name_tag("data-set", "2026").is_ok());
}

#[test]
fn validate_name_tag_rejects_empty_or_contains_at() {
    assert!(validate_name_tag("", "v1").is_err());
    assert!(validate_name_tag("mnist", "").is_err());
    assert!(validate_name_tag("m@nist", "v1").is_err());
    assert!(validate_name_tag("mnist", "v@1").is_err());
}

#[test]
fn hex_of_hash_is_lowercase_pairs() {
    let mut h = [0u8; 32];
    h[0] = 0xab;
    h[31] = 0x0f;
    let s = hashres_to_hex(h);
    assert_eq!(s.len(), 64);
    assert!(s.starts_with("ab00"));
    assert!(s.ends_with("000f"));
}

#[test]
fn user_install_stacks_over_an_installed_global_store() {
    let cfg = AppConfig::for_user("/home/u/.config/dsf/config.yaml".to_string(), "/home/u/.local/share/dsf/dsf.db".to_string(), true);
    assert_eq!(cfg.mode, InstallMode::User);
    assert_eq!(cfg.config_path.as_deref(), Some("/home/u/.config/dsf/config.yaml"));
    assert_eq!(cfg.backend.private_sqlite_cfg.db_path, "/home/u/.local/share/dsf/dsf.db");
    assert!(cfg.backend.private_sqlite_cfg.wal);
    assert_eq!(cfg.backend.global_repos.len(), 1);
    match &cfg.backend.global_repos[0] {
        GlobalBackendAddr::Sqlite { config_path } => assert_eq!(config_path, "/etc/dataspringflow/config.yaml"),
        other => panic!("unexpected {:?}", other),
    }
    let alone = AppConfig::for_user("c".to_string(), "d".to_string(), false);
    assert!(alone.backend.global_repos.is_empty());
}

#[test]
fn global_install_has_no_stack_and_no_wal() {
    let cfg = AppConfig::for_global("/var/lib/dataspringflow/dsf.db".to_string());
    assert_eq!(cfg.mode, InstallMode::Global);
    assert_eq!(cfg.config_path.as_deref(), Some("/etc/dataspringflow/config.yaml"));
    assert!(!cfg.backend.private_sqlite_cfg.wal);
    assert_eq!(cfg.backend.private_sqlite_cfg.pool_size, 8);
    assert!(cfg.backend.global_repos.is_empty());
}

#[test]
fn group_file_lists_a_group_by_its_first_field() {
    let text = "root:x:0:\nDSFadmin:x:1001:alice,bob\nusers:x:100:\n";
    assert!(group_file_lists(text, "DSFadmin"));
    assert!(group_file_lists(text, "users"));
    assert!(!group_file_lists(text, "alice"));
    assert!(!group_file_lists(text, "DSF"));
    assert!(group_file_lists("wheel:x:10:\r\nDSFadmin\r\n", "DSFadmin"));
    assert!(!group_file_lists("DSFadmin\r", "DSFadmin"));
    assert!(!group_file_lists("", "DSFadmin"));
}

#[test]
fn global_install_needs_config_and_group() {
    let text = "DSFadmin:x:1001:\n";
    assert!(is_global_installed("DSFadmin", Some(text), true));
    assert!(!is_global_installed("DSFadmin", Some(text), false));
    assert!(!is_global_installed("DSFadmin", None, true));
    assert!(!is_global_installed("DSFadmin", Some("root:x:0:\n"), true));
}
