use std::path::Path;

use termfilechooser::paths::{
    is_safe_file_name, join_path, relative_path_error_text, parent_dir_from_path, path_components, path_to_file_uri,
    starts_with_path,
};

fn std_parent(path: &str) -> Option<Vec<u8>> {
    Path::new(path)
        .parent()
        .map(|parent| parent.as_os_str().as_encoded_bytes().to_vec())
}

#[test]
fn parent_matches_std_on_edge_cases() {
    for path in [
        "/", "", "a", "/a", "a/b/", "a/b/.", ".", "./", "./a", "//a", "/a//b//", "../x", "..",
        "a/./b", "/home/osso/Downloads/example.txt",
    ] {
        assert_eq!(parent_dir_from_path(path.as_bytes()), std_parent(path), "parent of {path:?}");
    }
}

#[test]
fn join_matches_std() {
    for (base, name) in [
        ("/dir", "file"),
        ("/dir/", "file"),
        ("", "file"),
        ("/dir", "/abs"),
        ("rel", "x/y"),
    ] {
        let expected = Path::new(base).join(name);
        assert_eq!(
            join_path(base.as_bytes(), name.as_bytes()),
            expected.as_os_str().as_encoded_bytes().to_vec()
        );
    }
}

#[test]
fn safe_file_names_are_single_normal_components() {
    for name in ["first.txt", "a/", "a/.", "a//", "..a", ".hidden"] {
        assert!(is_safe_file_name(name.as_bytes()), "{name:?} should be plain");
    }
    for name in ["", "/", "/a", ".", "..", "./a", "../escape.txt", "a/b", "a/..", "a/./b"] {
        assert!(!is_safe_file_name(name.as_bytes()), "{name:?} should be refused");
    }
    assert!(is_safe_file_name(&[b'n', 0xff]));
}

#[test]
fn file_uris_encode_bytes_outside_the_unreserved_set() {
    assert_eq!(
        path_to_file_uri(b"/tmp/a-b_c.d~e/F9").unwrap(),
        "file:///tmp/a-b_c.d~e/F9"
    );
    assert_eq!(
        path_to_file_uri(b"/tmp/100% \xff").unwrap(),
        "file:///tmp/100%25%20%FF"
    );
    assert_eq!(
        path_to_file_uri(b"relative.txt").unwrap_err(),
        "Chooser returned a relative path: relative.txt"
    );
}

#[test]
fn components_and_prefixes_follow_std() {
    let cases = [
        ("/home/u/.config/xdg-desktop-portal/portals.conf", "/home/u/.config/xdg-desktop-portal"),
        ("/home/u/.config/xdg-desktop-portalx/portals.conf", "/home/u/.config/xdg-desktop-portal"),
        ("/a//b/./c", "/a/b"),
        ("./a/b", "a"),
        ("a/b", "./a"),
        ("/a", ""),
        ("a", "/"),
    ];
    for (path, base) in cases {
        assert_eq!(
            starts_with_path(path.as_bytes(), base.as_bytes()),
            Path::new(path).starts_with(base),
            "{path:?} starts with {base:?}"
        );
    }
    assert_eq!(
        path_components(b"/a//b/./c/"),
        vec![b"/".to_vec(), b"a".to_vec(), b"b".to_vec(), b"c".to_vec()]
    );
}

#[test]
fn relative_path_error_names_the_path() {
    assert_eq!(
        relative_path_error_text("notes.txt"),
        "Chooser returned a relative path: notes.txt"
    );
    assert_eq!(
        path_to_file_uri(b"a/b"),
        Err("Chooser returned a relative path: a/b".to_string())
    );
}
