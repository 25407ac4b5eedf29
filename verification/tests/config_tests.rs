use docs_manager::config::{Config, FileConfig};

fn empty_file_config() -> FileConfig {
    FileConfig {
        docs_dir: None,
        format: None,
        extensions: None,
        allow: None,
        deny: None,
        depth: None,
    }
}

#[test]
fn test_default_config_has_empty_allow_deny() {
    let cfg = Config::resolve(empty_file_config(), None);
    assert!(cfg.allow.is_empty());
    assert!(cfg.deny.is_empty());
    assert_eq!(cfg.depth, 1);
}

#[test]
fn test_resolve_defaults() {
    let cfg = Config::resolve(empty_file_config(), None);
    assert_eq!(cfg.docs_dir, "docs");
    assert_eq!(cfg.format, "%Y-%m-%d-%H-%M-%S");
    assert_eq!(cfg.extensions, vec!["md".to_string()]);
}

#[test]
fn test_resolve_allow_deny_depth() {
    let file = FileConfig {
        allow: Some(vec!["running-*".to_string(), "notes".to_string()]),
        deny: Some(vec!["archive".to_string()]),
        depth: Some(2),
        ..empty_file_config()
    };
    let cfg = Config::resolve(file, None);
    assert_eq!(cfg.allow, vec!["running-*", "notes"]);
    assert_eq!(cfg.deny, vec!["archive"]);
    assert_eq!(cfg.depth, 2);
}

#[test]
fn test_resolve_cli_dir_wins_over_file() {
    let file = FileConfig {
        docs_dir: Some("from-file".to_string()),
        ..empty_file_config()
    };
    let cfg = Config::resolve(file, Some("from-cli".to_string()));
    assert_eq!(cfg.docs_dir, "from-cli");
}

#[test]
fn test_resolve_file_dir_wins_over_default() {
    let file = FileConfig {
        docs_dir: Some("from-file".to_string()),
        ..empty_file_config()
    };
    let cfg = Config::resolve(file, None);
    assert_eq!(cfg.docs_dir, "from-file");
}
