use termfilechooser::config::{
    check_command_words, config_file_in, default_chooser, default_config_path, default_dir, default_dir_for_home,
    default_terminal, parse_command, resolve_config, resolve_config_for_home, Config, ConfigProbe, FileChooserConfig,
};

fn config_with(terminal: &str, chooser: &str, default_dir: &str) -> Config {
    Config {
        filechooser: FileChooserConfig {
            terminal: terminal.to_string(),
            chooser: chooser.to_string(),
            default_dir: default_dir.to_string(),
        },
    }
}

#[test]
fn defaults_have_terminal_chooser_and_home_fallback() {
    let config = Config::default();

    assert_eq!(
        config.filechooser.terminal,
        "kitty --class file-chooser --title"
    );
    assert_eq!(config.filechooser.chooser, "yazi --chooser-file");
    assert!(!config.filechooser.default_dir.is_empty());
}

#[test]
fn default_dir_is_home_or_root() {
    assert_eq!(default_dir_for_home(None), "/");
    assert_eq!(default_dir_for_home(Some(b"/home/osso".to_vec())), "/home/osso");
    assert_eq!(default_dir_for_home(Some(vec![b'/', b'h', 0xff])), "/h\u{fffd}");
    assert!(!default_dir().is_empty());
    assert_eq!(default_terminal(), "kitty --class file-chooser --title");
    assert_eq!(default_chooser(), "yazi --chooser-file");
}

#[test]
fn parse_command_splits_quoted_words() {
    assert_eq!(
        parse_command("'/opt/Terminal Apps/my terminal' --title", "Terminal").unwrap(),
        vec!["/opt/Terminal Apps/my terminal", "--title"]
    );
    assert_eq!(
        parse_command("   ", "Chooser").unwrap_err(),
        "Chooser command cannot be empty"
    );
    assert_eq!(
        parse_command("\"open", "Terminal").unwrap_err(),
        "Terminal command has invalid quoting"
    );
}

#[test]
fn load_config_reads_toml_and_falls_back_for_missing_or_invalid_files() {
    assert!(default_config_path()
        .map(|path| path.ends_with(b"xdg-desktop-portal-termfilechooser/config.toml"))
        .unwrap_or(true));
    assert_eq!(
        config_file_in(b"/home/u/.config"),
        b"/home/u/.config/xdg-desktop-portal-termfilechooser/config.toml".to_vec()
    );

    let config = resolve_config(
        true,
        "/tmp/config.toml",
        ConfigProbe::Parsed {
            config: config_with("foot --title", "ranger --choosefile", "/tmp"),
        },
    )
    .unwrap();

    assert_eq!(config.filechooser.terminal, "foot --title");
    assert_eq!(config.filechooser.chooser, "ranger --choosefile");
    assert_eq!(config.filechooser.default_dir, "/tmp");

    let missing = resolve_config(true, "/tmp/config.missing", ConfigProbe::NotFound);
    assert!(missing.unwrap_err().contains("does not exist"));

    let invalid = resolve_config(
        true,
        "/tmp/config.toml",
        ConfigProbe::Malformed {
            detail: "expected `]`".to_string(),
        },
    );
    assert!(invalid.unwrap_err().contains("Failed to parse config"));

    let read_error = resolve_config(
        true,
        "/tmp",
        ConfigProbe::Unreadable {
            detail: "Is a directory (os error 21)".to_string(),
        },
    );
    assert_eq!(
        read_error.unwrap_err(),
        "Failed to read config /tmp: Is a directory (os error 21)"
    );
}

#[test]
fn implicit_missing_config_uses_defaults() {
    let home = default_dir();
    let resolved = resolve_config(false, "/nowhere/config.toml", ConfigProbe::NotFound);
    if home.starts_with('/') {
        let config = resolved.unwrap();
        assert_eq!(config.filechooser.chooser, "yazi --chooser-file");
    }
    let unknown = resolve_config(false, "", ConfigProbe::NoPath);
    if home.starts_with('/') {
        assert!(unknown.is_ok());
    }
}

#[test]
fn load_config_rejects_empty_or_malformed_commands() {
    let home = default_dir();

    let empty = resolve_config(
        true,
        "/tmp/config.toml",
        ConfigProbe::Parsed {
            config: config_with("", &default_chooser(), &home),
        },
    );
    assert_eq!(empty.unwrap_err(), "Terminal command cannot be empty");

    let malformed = resolve_config(
        true,
        "/tmp/config.toml",
        ConfigProbe::Parsed {
            config: config_with("'unterminated", &default_chooser(), &home),
        },
    );
    assert_eq!(
        malformed.unwrap_err(),
        "Terminal command has invalid quoting"
    );

    let empty_chooser = resolve_config(
        true,
        "/tmp/config.toml",
        ConfigProbe::Parsed {
            config: config_with(&default_terminal(), "", &home),
        },
    );
    assert_eq!(
        empty_chooser.unwrap_err(),
        "Chooser command cannot be empty"
    );

    let relative_dir = resolve_config(
        true,
        "/tmp/config.toml",
        ConfigProbe::Parsed {
            config: config_with(&default_terminal(), &default_chooser(), "relative"),
        },
    );
    assert_eq!(
        relative_dir.unwrap_err(),
        "Default directory must be an absolute path"
    );
}

#[test]
fn split_words_are_checked_and_labelled() {
    assert_eq!(
        check_command_words(Some(vec!["yazi".to_string(), "--chooser-file".to_string()]), "Chooser"),
        Ok(vec!["yazi".to_string(), "--chooser-file".to_string()])
    );
    assert_eq!(
        check_command_words(Some(vec![]), "Terminal"),
        Err("Terminal command cannot be empty".to_string())
    );
    assert_eq!(
        check_command_words(None, "Chooser"),
        Err("Chooser command has invalid quoting".to_string())
    );
}

#[test]
fn default_config_starts_in_home_or_root() {
    let config = Config::default();
    let dir = config.filechooser.default_dir;
    assert!(dir == "/" || !dir.is_empty());
    assert_eq!(dir, default_dir());
}

#[test]
fn defaults_start_in_the_home_directory_found() {
    let config = FileChooserConfig::default_for_home(Some(b"/home/u".to_vec()));
    assert_eq!(config.default_dir, "/home/u");
    assert_eq!(config.terminal, default_terminal());
    assert_eq!(config.chooser, default_chooser());
    assert_eq!(FileChooserConfig::default_for_home(None).default_dir, "/");
    assert_eq!(Config::default_for_home(Some(b"/root".to_vec())).filechooser.default_dir, "/root");
}

#[test]
fn resolved_defaults_follow_the_home_directory() {
    let resolved =
        resolve_config_for_home(false, "", ConfigProbe::NoPath, Some(b"/home/u".to_vec()));
    assert_eq!(resolved.unwrap().filechooser.default_dir, "/home/u");
    let resolved = resolve_config_for_home(false, "/x.toml", ConfigProbe::NotFound, None);
    assert_eq!(resolved.unwrap().filechooser.default_dir, "/");
    let relative = resolve_config_for_home(false, "", ConfigProbe::NoPath, Some(b"home".to_vec()));
    assert_eq!(relative.unwrap_err(), "Default directory must be an absolute path");
}
