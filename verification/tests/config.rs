use ttd::config::{join, AppConfig, ConfigError, ConfigPaths};

#[test]
fn from_root_puts_the_config_file_in_the_root() {
    let paths = ConfigPaths::from_root("/home/me/.config/ttd".to_string());
    assert_eq!(paths.root, "/home/me/.config/ttd");
    assert_eq!(paths.config_file, "/home/me/.config/ttd/config.txt");
    let slash = ConfigPaths::from_root("/etc/ttd/".to_string());
    assert_eq!(slash.config_file, "/etc/ttd/config.txt");
}

#[test]
fn join_adds_a_separator_only_when_needed() {
    assert_eq!(join("a", "b"), "a/b");
    assert_eq!(join("a/", "b"), "a/b");
    assert_eq!(join("", "b"), "b");
}

#[test]
fn discover_prefers_xdg_config_home() {
    let paths = ConfigPaths::discover_from(Some("/xdg".to_string()), Some("/home/me".to_string())).unwrap();
    assert_eq!(paths.root, "/xdg/ttd");
    assert_eq!(paths.config_file, "/xdg/ttd/config.txt");
}

#[test]
fn discover_falls_back_to_home() {
    let paths = ConfigPaths::discover_from(None, Some("/home/me".to_string())).unwrap();
    assert_eq!(paths.root, "/home/me/.config/ttd");
    assert_eq!(paths.config_file, "/home/me/.config/ttd/config.txt");
}

#[test]
fn discover_needs_one_of_them() {
    assert!(ConfigPaths::discover_from(None, None).is_none());
}

#[test]
fn config_contents_round_trip() {
    let config = AppConfig {
        task_dir: "/home/me/todo.txt.d".to_string(),
    };
    let text = config.contents();
    assert_eq!(text, "/home/me/todo.txt.d");
    let back = AppConfig::from_contents(&text).unwrap();
    assert_eq!(back.task_dir, config.task_dir);
}

#[test]
fn config_accepts_one_trailing_line_break() {
    assert_eq!(AppConfig::from_contents("/tasks\n").unwrap().task_dir, "/tasks");
    assert_eq!(AppConfig::from_contents("/tasks\r\n").unwrap().task_dir, "/tasks");
}

#[test]
fn empty_config_is_refused() {
    assert_eq!(AppConfig::from_contents("").unwrap_err(), ConfigError::Empty);
    assert_eq!(AppConfig::from_contents("\n").unwrap_err(), ConfigError::Empty);
}

#[test]
fn config_with_more_lines_is_refused() {
    assert_eq!(
        AppConfig::from_contents("/a\n/b\n").unwrap_err(),
        ConfigError::MultipleLines
    );
    assert_eq!(
        AppConfig::from_contents("/a\r/b").unwrap_err(),
        ConfigError::MultipleLines
    );
}
