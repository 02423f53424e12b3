use obsidian_cli::cli::InitArgs;
use obsidian_cli::commands::{resolve_init_config, CommandError};
use obsidian_cli::config::{
    check_config_target, config_path_for_init, config_path_from_cli, default_config_path,
    legacy_config_path, AppConfig, ConfigError, InitConfig,
};

fn init() -> InitConfig {
    InitConfig {
        url: "https://example.com/webdav/".to_string(),
        username: "hermes".to_string(),
        password_env: "OBSIDIAN_WEBDAV_PASSWORD".to_string(),
        write_dir: "Inbox/Hermes".to_string(),
    }
}

#[test]
fn builds_default_config_from_init_args() {
    let config = AppConfig::from_init(init());

    assert_eq!(config.webdav.base_url, "https://example.com/webdav/");
    assert_eq!(config.webdav.username, "hermes");
    assert_eq!(config.webdav.timeout, 30);
    assert_eq!(config.vault.default_write_dir, "Inbox/Hermes");
    assert_eq!(config.vault.default_tags, vec!["hermes", "inbox"]);
    assert_eq!(config.behavior.allow_write_dirs, vec!["Inbox/Hermes"]);
    assert!(!config.behavior.allow_overwrite);
    assert!(!config.behavior.allow_delete);
    assert!(!config.behavior.allow_move);
    assert!(config.markdown.frontmatter);
    assert_eq!(config.markdown.default_source, "hermes");
}

#[test]
fn init_normalizes_url_and_write_dir() {
    let config = AppConfig::from_init(InitConfig {
        url: "  https://example.com/webdav ".to_string(),
        username: "hermes".to_string(),
        password_env: "PW".to_string(),
        write_dir: " /Inbox/Hermes/ ".to_string(),
    });
    assert_eq!(config.webdav.base_url, "https://example.com/webdav/");
    assert_eq!(config.vault.default_write_dir, "Inbox/Hermes");
    assert_eq!(config.behavior.allow_write_dirs, vec!["Inbox/Hermes"]);
    assert_eq!(config.vault.timezone, "Asia/Shanghai");
    assert_eq!(config.vault.filename_time_format, "%Y-%m-%d-%H%M%S");
    assert_eq!(config.behavior.readonly_dirs[0], "Notes");
    assert_eq!(
        config.behavior.readonly_dirs,
        vec!["Notes", "Projects", "Troubleshooting", "Index", "Daily", "Sources"]
    );
}

#[test]
fn resolves_default_config_path_when_cli_path_is_absent() {
    let home = "/home/hermes";
    let path = config_path_from_cli(None, Some(home), false, false).unwrap();

    assert_eq!(path, "/home/hermes/.config/webdav-cli/config.yaml");
}

#[test]
fn falls_back_to_legacy_obsidian_cli_config_path() {
    let home = "/home/hermes";
    let legacy_path = legacy_config_path(home);
    assert_eq!(legacy_path, "/home/hermes/.config/obsidian-cli/config.yaml");

    let path = config_path_from_cli(None, Some(home), false, true).unwrap();

    assert_eq!(path, legacy_path);
}

#[test]
fn init_default_path_uses_webdav_cli_even_when_legacy_exists() {
    let path = config_path_for_init(None, Some("/home/hermes")).unwrap();

    assert_eq!(path, "/home/hermes/.config/webdav-cli/config.yaml");
}

#[test]
fn config_path_prefers_cli_and_the_current_default() {
    assert_eq!(
        config_path_from_cli(Some("custom.yaml"), None, false, false).unwrap(),
        "custom.yaml"
    );
    assert_eq!(
        config_path_from_cli(None, Some("/root/"), true, true).unwrap(),
        "/root/.config/webdav-cli/config.yaml"
    );
    assert_eq!(default_config_path(""), ".config/webdav-cli/config.yaml");
    assert!(matches!(
        config_path_from_cli(None, None, false, false),
        Err(ConfigError::MissingHome)
    ));
    assert!(matches!(
        config_path_for_init(None, None),
        Err(ConfigError::MissingHome)
    ));
}

#[test]
fn refuses_to_overwrite_config_without_force() {
    let err = check_config_target(true, false, "/tmp/config.yaml").unwrap_err();
    assert!(err.message().contains("already exists"));
    assert!(check_config_target(true, true, "/tmp/config.yaml").is_ok());
    assert!(check_config_target(false, false, "/tmp/config.yaml").is_ok());
}

#[test]
fn missing_password_variable_is_reported_by_name() {
    let config = AppConfig::from_init(init());
    assert_eq!(config.resolve_password(Some("secret".to_string())).unwrap(), "secret");
    let err = config.resolve_password(None).unwrap_err();
    assert!(matches!(&err, ConfigError::MissingPasswordEnv(n) if n == "OBSIDIAN_WEBDAV_PASSWORD"));
}

#[test]
fn init_values_come_from_arguments_then_stdin_then_defaults() {
    let args = InitArgs {
        url: None,
        username: Some("  ".to_string()),
        password_env: None,
        write_dir: None,
        force: false,
    };
    let config = resolve_init_config(
        &args,
        "https://example.com/webdav/\nhermes\nOBSIDIAN_WEBDAV_PASSWORD\nInbox/Hermes\n",
    )
    .unwrap();
    assert_eq!(config.url, "https://example.com/webdav/");
    assert_eq!(config.username, "hermes");
    assert_eq!(config.password_env, "OBSIDIAN_WEBDAV_PASSWORD");
    assert_eq!(config.write_dir, "Inbox/Hermes");

    let args = InitArgs {
        url: Some(" https://x/ ".to_string()),
        username: None,
        password_env: None,
        write_dir: None,
        force: false,
    };
    let config = resolve_init_config(&args, "bob\n").unwrap();
    assert_eq!(config.url, "https://x/");
    assert_eq!(config.username, "bob");
    assert_eq!(config.password_env, "OBSIDIAN_WEBDAV_PASSWORD");
    assert_eq!(config.write_dir, "Inbox/Hermes");
}

#[test]
fn init_without_url_is_refused() {
    let args = InitArgs {
        url: None,
        username: None,
        password_env: None,
        write_dir: None,
        force: false,
    };
    let err = resolve_init_config(&args, "").unwrap_err();
    assert!(matches!(&err, CommandError::InvalidArgs(m) if m == "init requires WebDAV URL"));
    assert_eq!(err.code(), "invalid_args");
    let err = resolve_init_config(&args, "https://x/\n\n").unwrap_err();
    assert!(matches!(&err, CommandError::InvalidArgs(m) if m == "init requires username"));
}
