use std::io::Write;
use std::path::{Path, PathBuf};

use termfilechooser::portal_config::{
    build_policy_directories, current_desktops, find_policy_source, is_filechooser_preference, parse_desktops,
    plan_policy_update, policy_search_directories, preference_line, set_filechooser_backend,
    split_directory_list,
};

fn bytes_of(path: &Path) -> Vec<u8> {
    path.as_os_str().as_encoded_bytes().to_vec()
}

/// A directory under `root` whose name starts with `prefix`.
fn directory_in(root: &Path, prefix: &str) -> PathBuf {
    tempfile::Builder::new()
        .prefix(prefix)
        .tempdir_in(root)
        .unwrap()
        .keep()
}

/// Writes `content` to `path`.
fn write_file(path: &Path, content: &str) {
    let mut file = tempfile::NamedTempFile::new_in(path.parent().unwrap()).unwrap();
    file.write_all(content.as_bytes()).unwrap();
    file.persist(path).unwrap();
}

fn is_file(path: &[u8]) -> bool {
    match std::str::from_utf8(path) {
        Ok(text) => Path::new(text).is_file(),
        Err(_) => false,
    }
}

#[test]
fn updates_only_filechooser_preference() {
    let original = r#"[preferred]
default=gnome;gtk;
org.freedesktop.impl.portal.FileChooser=gtk
org.freedesktop.impl.portal.Settings=gtk
"#;

    let updated = set_filechooser_backend(original);

    assert_eq!(
        updated,
        r#"[preferred]
default=gnome;gtk;
org.freedesktop.impl.portal.FileChooser=termfilechooser
org.freedesktop.impl.portal.Settings=gtk
"#
    );
}

#[test]
fn adds_missing_preferred_section_key() {
    let original = "[preferred]\ndefault=gtk\n\n[other]\nvalue=true\n";

    let updated = set_filechooser_backend(original);

    assert_eq!(
        updated,
        "[preferred]\ndefault=gtk\norg.freedesktop.impl.portal.FileChooser=termfilechooser\n\n[other]\nvalue=true\n"
    );
}

#[test]
fn adds_preferred_section_when_policy_has_none() {
    assert_eq!(
        set_filechooser_backend("[other]\nvalue=true"),
        "[other]\nvalue=true\n[preferred]\norg.freedesktop.impl.portal.FileChooser=termfilechooser\n"
    );
    assert_eq!(
        set_filechooser_backend(""),
        "[preferred]\norg.freedesktop.impl.portal.FileChooser=termfilechooser\n"
    );
}

#[test]
fn replaced_preference_keeps_missing_final_newline() {
    assert_eq!(
        set_filechooser_backend("[preferred]\n org.freedesktop.impl.portal.FileChooser = gtk"),
        "[preferred]\norg.freedesktop.impl.portal.FileChooser=termfilechooser"
    );
}

#[test]
fn added_preference_starts_its_own_line() {
    assert_eq!(
        set_filechooser_backend("[preferred]\ndefault=gtk"),
        "[preferred]\ndefault=gtk\norg.freedesktop.impl.portal.FileChooser=termfilechooser\n"
    );
    assert_eq!(
        set_filechooser_backend("[preferred]"),
        "[preferred]\norg.freedesktop.impl.portal.FileChooser=termfilechooser\n"
    );
    assert_eq!(
        set_filechooser_backend("[preferred]\ndefault=gtk\n  "),
        "[preferred]\ndefault=gtk\norg.freedesktop.impl.portal.FileChooser=termfilechooser\n  "
    );
}

#[test]
fn updating_twice_changes_nothing_more() {
    let policies = [
        "",
        "[preferred]\ndefault=gtk\n\n[other]\nvalue=true\n",
        "[other]\nvalue=true\n",
        "[preferred]\norg.freedesktop.impl.portal.FileChooser=gtk\n",
        "[preferred]\na=b",
        "[preferred]",
        "[other]\nvalue=true",
        "[preferred]\norg.freedesktop.impl.portal.FileChooser=gtk",
    ];
    for policy in policies {
        let once = set_filechooser_backend(policy);
        assert_eq!(set_filechooser_backend(&once), once);
    }
}

#[test]
fn preference_line_and_key_detection() {
    assert_eq!(
        preference_line(),
        "org.freedesktop.impl.portal.FileChooser=termfilechooser\n"
    );
    assert!(is_filechooser_preference("  org.freedesktop.impl.portal.FileChooser =gtk"));
    assert!(!is_filechooser_preference("org.freedesktop.impl.portal.Settings=gtk"));
    assert!(!is_filechooser_preference("org.freedesktop.impl.portal.FileChooser"));
    assert!(!is_filechooser_preference("x=org.freedesktop.impl.portal.FileChooser=gtk"));
}

#[test]
fn source_follows_directory_then_desktop_then_generic_precedence() {
    let root = tempfile::tempdir().unwrap();
    let high_priority = directory_in(root.path(), "high");
    let low_priority = directory_in(root.path(), "low");
    let high_generic = high_priority.join("portals.conf");
    write_file(&high_generic, "[preferred]\ndefault=gtk\n");
    write_file(
        &low_priority.join("niri-portals.conf"),
        "[preferred]\ndefault=gnome\n",
    );

    let source = find_policy_source(
        &vec![bytes_of(&high_priority), bytes_of(&low_priority)],
        &vec!["niri".into(), "gnome".into()],
        is_file,
    );

    assert_eq!(source, Some(bytes_of(&high_generic)));
}

#[test]
fn source_checks_every_desktop_token_in_order() {
    let root = tempfile::tempdir().unwrap();
    let directory = root.path();
    let gnome_policy = directory.join("gnome-portals.conf");
    write_file(&gnome_policy, "[preferred]\ndefault=gnome\n");
    write_file(&directory.join("portals.conf"), "[preferred]\ndefault=gtk\n");

    let source = find_policy_source(
        &vec![bytes_of(directory)],
        &vec!["niri".into(), "gnome".into()],
        is_file,
    );

    assert_eq!(source, Some(bytes_of(&gnome_policy)));
}

#[test]
fn desktop_tokens_are_lowercased_and_empty_tokens_are_removed() {
    assert_eq!(parse_desktops("NIRI::GNOME:"), vec!["niri", "gnome"]);
    assert_eq!(parse_desktops(" KDE : "), vec!["kde"]);
    assert!(parse_desktops("::").is_empty());
}

#[test]
fn policy_directories_follow_xdg_precedence() {
    let directories = build_policy_directories(
        &bytes_of(&PathBuf::from("/user/config")),
        &vec![
            bytes_of(&PathBuf::from("/system/config-a")),
            bytes_of(&PathBuf::from("/system/config-b")),
        ],
        &bytes_of(&PathBuf::from("/user/data")),
        &vec![bytes_of(&PathBuf::from("/system/data"))],
    );

    let expected: Vec<Vec<u8>> = vec![
        PathBuf::from("/user/config/xdg-desktop-portal"),
        PathBuf::from("/system/config-a/xdg-desktop-portal"),
        PathBuf::from("/system/config-b/xdg-desktop-portal"),
        PathBuf::from("/etc/xdg-desktop-portal"),
        PathBuf::from("/user/data/xdg-desktop-portal"),
        PathBuf::from("/system/data/xdg-desktop-portal"),
        PathBuf::from("/usr/share/xdg-desktop-portal"),
    ]
    .iter()
    .map(|path| bytes_of(path))
    .collect();
    assert_eq!(directories, expected);
}

#[test]
fn override_directory_is_searched_alone() {
    let directories = policy_search_directories(
        Some(b"/override".to_vec()),
        b"/user/config",
        &vec![],
        Some(b"/user/data".to_vec()),
        &vec![],
    );
    assert_eq!(directories, vec![b"/override".to_vec()]);
}

#[test]
fn unknown_user_data_directory_is_not_searched() {
    let directories = policy_search_directories(
        None,
        b"/user/config",
        &vec![b"/system/config".to_vec()],
        None,
        &vec![b"/system/data".to_vec()],
    );
    assert_eq!(
        directories,
        vec![
            b"/user/config/xdg-desktop-portal".to_vec(),
            b"/system/config/xdg-desktop-portal".to_vec(),
            b"/etc/xdg-desktop-portal".to_vec(),
            b"/system/data/xdg-desktop-portal".to_vec(),
            b"/usr/share/xdg-desktop-portal".to_vec(),
        ]
    );
}

#[test]
fn directory_lists_split_at_each_colon() {
    assert_eq!(
        split_directory_list(b"/usr/local/share:/usr/share"),
        vec![b"/usr/local/share".to_vec(), b"/usr/share".to_vec()]
    );
    assert_eq!(
        split_directory_list(b"/a::/b:"),
        vec![b"/a".to_vec(), b"".to_vec(), b"/b".to_vec(), b"".to_vec()]
    );
    assert_eq!(split_directory_list(b""), vec![b"".to_vec()]);
}

#[test]
fn user_policy_is_edited_in_place_and_system_policy_is_copied() {
    let user = b"/home/u/.config/xdg-desktop-portal".to_vec();
    let system = b"/usr/share/xdg-desktop-portal".to_vec();
    let directories = vec![user.clone(), system.clone()];
    let desktops = vec!["niri".to_string(), "gnome".to_string()];

    let in_place = plan_policy_update(&user, &directories, &desktops, |path: &[u8]| {
        path == b"/home/u/.config/xdg-desktop-portal/portals.conf"
    })
    .unwrap();
    assert_eq!(in_place.0, b"/home/u/.config/xdg-desktop-portal/portals.conf".to_vec());
    assert_eq!(in_place.1, in_place.0);

    let copied = plan_policy_update(&user, &directories, &desktops, |path: &[u8]| {
        path == b"/usr/share/xdg-desktop-portal/gnome-portals.conf"
    })
    .unwrap();
    assert_eq!(copied.0, b"/usr/share/xdg-desktop-portal/gnome-portals.conf".to_vec());
    assert_eq!(
        copied.1,
        b"/home/u/.config/xdg-desktop-portal/niri-portals.conf".to_vec()
    );

    let missing = plan_policy_update(&user, &directories, &desktops, |_: &[u8]| false);
    assert_eq!(
        missing.unwrap_err(),
        "No existing portal policy found for desktop niri"
    );

    let no_desktop = plan_policy_update(&user, &directories, &vec![], |_: &[u8]| true);
    assert_eq!(
        no_desktop.unwrap_err(),
        "XDG_CURRENT_DESKTOP contains no desktop name"
    );
}

#[test]
fn current_desktops_need_a_name() {
    assert_eq!(current_desktops("niri: GNOME"), Ok(vec!["niri".to_string(), "gnome".to_string()]));
    assert_eq!(
        current_desktops(" : "),
        Err("XDG_CURRENT_DESKTOP contains no desktop name".to_string())
    );
}
