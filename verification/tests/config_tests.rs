use quill::config::{AppConfig, StorageType};

#[test]
fn test_default_config() {
    let config = AppConfig::default();
    assert_eq!(config.storage_type, StorageType::Local);
    assert_eq!(config.local_config.path, "~/.quill/storage/todos.json");
    assert_eq!(config.mongo_config.database, "quill");
}

#[test]
fn test_storage_type_default() {
    let storage_type = StorageType::default();
    assert_eq!(storage_type, StorageType::Local);
}

#[test]
fn test_expand_local_path_with_tilde() {
    let mut config = AppConfig::default();
    config.local_config.path = "~/test/path".to_string();
    let expanded = config.expand_local_path("/home/tester");
    assert!(!expanded.starts_with("~"));
    assert_eq!(expanded, "/home/tester/test/path");
}

#[test]
fn test_expand_local_path_without_tilde() {
    let mut config = AppConfig::default();
    config.local_config.path = "/absolute/path".to_string();
    let expanded = config.expand_local_path("/home/tester");
    assert_eq!(expanded, "/absolute/path");
}

#[test]
fn test_expand_bare_tilde_unchanged() {
    let mut config = AppConfig::default();
    config.local_config.path = "~".to_string();
    assert_eq!(config.expand_local_path("/home/tester"), "~");
}

#[test]
fn test_default_mongo_config() {
    let config = AppConfig::default();
    assert_eq!(config.mongo_config.connection_string, "mongodb://localhost:27017");
    assert_eq!(config.mongo_config.collection, "tasks");
}
