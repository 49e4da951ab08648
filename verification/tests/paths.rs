//! Paths: components, confinement and places of their own.

use rewind::error::RewindError;
use rewind::paths::{
    check_marker_place, check_metadata_place, check_root, default_store_root, discover_marker, ensure_parent_confinement, extension,
    is_directly_in, join, local_directory, marker_candidates, marker_path, normalize_relative,
    native_path, parents_below, staging_root, starts_with, temporary_name, validate_relative,
    verify_mutation_confined, workspace_path, Place, Platform,
};
use rewind::words::{parse_i64, parse_u64, trim, words};

const POSIX: Platform = Platform::Posix;
const WINDOWS: Platform = Platform::Windows;

/// What stands at the parents of a path that are to be looked at.
fn all_directories(root: &str, target: &str) -> Vec<Place> {
    parents_below(POSIX, root, target)
        .iter()
        .map(|_| Place::Directory)
        .collect()
}

#[test]
fn path_confinement_rejects_parent_escape() {
    let observed = all_directories("/ws", "/ws/../escape");
    let result = workspace_path(POSIX, "/ws", "../escape", &observed);
    assert!(result.is_err());
    for path in ["/abs", "a/../b", ".."] {
        assert!(validate_relative(POSIX, path).is_err(), "{path}");
    }
    for path in ["a", "a/b", "./a", "a//b", "a/./b"] {
        assert!(validate_relative(POSIX, path).is_ok(), "{path}");
    }
}

#[test]
fn a_path_is_normalised_below_its_root() {
    assert_eq!(
        normalize_relative(POSIX, "/ws", "/ws/a//b/./c").expect("inside"),
        "a/b/c"
    );
    assert_eq!(normalize_relative(POSIX, "/ws/", "/ws").expect("root"), "");
    assert!(normalize_relative(POSIX, "/ws", "/wsx/a").is_err());
    assert!(normalize_relative(POSIX, "/ws", "/ws/../x").is_err());
    assert!(starts_with(POSIX, "/ws/a", "/ws"));
    assert!(!starts_with(POSIX, "/wsx", "/ws"));
    let relative = normalize_relative(POSIX, "/ws", "/ws/a/b").expect("inside");
    assert_eq!(join(POSIX, "/ws", &relative), "/ws/a/b");
    assert_eq!(join(POSIX, "/", "a"), "/a");
}

#[test]
fn a_parent_that_is_a_link_refuses_the_path() {
    assert_eq!(
        parents_below(POSIX, "/ws", "/ws/a/b/c"),
        ["/ws/a".to_owned(), "/ws/a/b".to_owned()]
    );
    let through = vec![Place::Directory, Place::Symlink];
    match ensure_parent_confinement(POSIX, "/ws", "/ws/a/b/c", &through) {
        Err(RewindError::PathEscape(message)) => assert_eq!(
            message,
            "parent component is not a confined directory: /ws/a/b"
        ),
        other => panic!("expected a refusal, got {other:?}"),
    }
    let unreadable = vec![Place::Directory, Place::Unreadable("denied".to_owned())];
    assert!(matches!(
        ensure_parent_confinement(POSIX, "/ws", "/ws/a/b/c", &unreadable),
        Err(RewindError::Io(_))
    ));
    let fresh = vec![Place::Directory, Place::Missing];
    assert!(ensure_parent_confinement(POSIX, "/ws", "/ws/a/b/c", &fresh).is_ok());
    assert!(ensure_parent_confinement(POSIX, "/ws", "/other", &Vec::new()).is_err());
    assert_eq!(
        workspace_path(POSIX, "/ws", "a/b", &vec![Place::Directory]).expect("inside"),
        "/ws/a/b"
    );
}

#[test]
fn a_change_must_stay_confined() {
    let parents = vec![Place::Directory];
    assert!(verify_mutation_confined(POSIX, "/ws", "/ws/a/b", true, &parents, &Place::File).is_ok());
    assert!(verify_mutation_confined(POSIX, "/ws", "/ws/a/b", true, &parents, &Place::Symlink).is_err());
    assert!(verify_mutation_confined(POSIX, "/ws", "/ws/a/b", false, &parents, &Place::Symlink).is_ok());
    assert!(verify_mutation_confined(
        POSIX,
        "/ws",
        "/ws/a/b",
        true,
        &parents,
        &Place::Unreadable("gone".to_owned())
    )
    .expect_err("missing")
    .message()
    .ends_with("mutated path is missing after mutation /ws/a/b: gone"));
}

#[test]
fn the_marker_is_searched_upwards() {
    let candidates = marker_candidates(POSIX, "/a/b");
    assert_eq!(
        candidates,
        [marker_path(POSIX, "/a/b"), marker_path(POSIX, "/a"), marker_path(POSIX, "/")]
    );
    assert_eq!(marker_path(POSIX, "/a"), "/a/.rewind/workspace.json");
    assert_eq!(
        discover_marker(POSIX, "/a/b", &vec![false, true, true]).expect("found"),
        marker_path(POSIX, "/a")
    );
    assert!(matches!(
        discover_marker(POSIX, "/a/b", &vec![false, false, false]),
        Err(RewindError::WorkspaceNotInitialized)
    ));
}

#[test]
fn places_outside_of_the_workspace() {
    assert_eq!(
        staging_root(POSIX, &Some("/home".to_owned()), 0xab).expect("staging"),
        "/home/.rewind-txn/00000000-0000-0000-0000-0000000000ab"
    );
    assert!(staging_root(POSIX, &None, 1).is_err());
    assert_eq!(
        default_store_root(POSIX, &Some("/store".to_owned()), &None).expect("store"),
        "/store"
    );
    assert_eq!(
        default_store_root(POSIX, &None, &Some("/home/me".to_owned())).expect("store"),
        "/home/me/.rewind"
    );
    assert!(default_store_root(POSIX, &None, &None).is_err());
    assert!(check_root("/ws", true).is_ok());
    assert_eq!(
        check_root("/ws", false).expect_err("file").message(),
        "workspace identity conflict: /ws is not a directory"
    );
    assert!(local_directory("/x", &Place::Directory, false).is_ok());
    assert!(local_directory("/x", &Place::Symlink, true).is_err());
    assert_eq!(
        temporary_name("state.json", 1),
        ".state.json.00000000-0000-0000-0000-000000000001.tmp"
    );
}

#[test]
fn names_have_extensions_and_directories() {
    assert_eq!(extension("a.json").as_deref(), Some("json"));
    assert_eq!(extension(".json"), None);
    assert_eq!(extension("a."), Some(String::new()));
    assert_eq!(extension("a"), None);
    assert!(is_directly_in(POSIX, "/j/x.json", "/j"));
    assert!(!is_directly_in(POSIX, "/j/sub/x.json", "/j"));
}

#[test]
fn words_and_numbers_are_read() {
    assert_eq!(words("  plan  undo\t3 "), ["plan", "undo", "3"]);
    assert_eq!(trim("  a b \n"), "a b");
    assert_eq!(parse_u64("+18446744073709551615"), Some(u64::MAX));
    assert_eq!(parse_u64("18446744073709551616"), None);
    assert_eq!(parse_u64(""), None);
    assert_eq!(parse_i64("-9223372036854775808"), Some(i64::MIN));
    assert_eq!(parse_i64("-"), None);
    assert_eq!(parse_i64("1x"), None);
}

/// On Windows both separators count, and a path may begin with a drive, a share,
/// a device or a verbatim prefix.
#[test]
fn windows_paths_are_read_by_their_own_rules() {
    let relative = |root: &str, path: &str| normalize_relative(WINDOWS, root, path).ok();
    let inside = |root: &str, path: &str| relative(root, path).expect("inside");
    assert_eq!(inside(r"C:\ws", r"C:\ws\a\b.txt"), "a/b.txt");
    assert_eq!(inside(r"C:\ws", r"c:/ws\.\a//b.txt"), "a/b.txt");
    assert_eq!(inside(r"\\server\share\ws", r"//server/share/ws/a"), "a");
    assert_eq!(inside(r"\\?\C:\ws", r"\\?\c:\ws\a\b"), "a/b");
    assert_eq!(inside(r"\\?\UNC\server\share\ws", r"\\?\UNC\server\share\ws\a"), "a");
    assert_eq!(inside(r"\\.\COM42\ws", r"\\.\COM42\ws\a"), "a");
    assert_eq!(relative(r"C:\ws", r"D:\ws\a"), None);
    assert_eq!(relative(r"C:\ws", r"C:ws\a"), None, "a drive alone is not its root");
    assert_eq!(relative(r"C:\ws", r"C:\WS\a"), None, "names are compared as they are");
    assert_eq!(relative(r"C:\ws", r"\\?\C:\ws\a"), None);
    assert_eq!(relative(r"C:\ws", r"C:\ws\..\x"), None);
    assert_eq!(relative(r"C:\ws", r"C:\ws\a:b"), None, "what is left would name a drive");
    assert_eq!(
        normalize_relative(POSIX, "/ws", r"/ws/a\b:c").expect("inside"),
        r"a\b:c",
        "elsewhere a backslash is a character like any other"
    );

    for path in ["a/b", r"a\b", r".\a", "a", ""] {
        assert!(validate_relative(WINDOWS, path).is_ok(), "{path}");
    }
    for path in [r"C:\a", "C:a", "C:", r"\a", "/a", r"a\..\b", r"..\a", r"\\server\share", r"\\?\x", r"\\.\x"] {
        assert!(validate_relative(WINDOWS, path).is_err(), "{path}");
    }
    assert!(validate_relative(POSIX, r"C:\a").is_ok());
}

/// Joined paths are written as the platform writes them.
#[test]
fn windows_paths_are_joined_with_backslashes() {
    assert_eq!(join(WINDOWS, r"C:\ws", "a"), r"C:\ws\a");
    assert_eq!(join(WINDOWS, "C:/ws/", "a"), "C:/ws/a");
    assert_eq!(join(WINDOWS, "C:", "a"), "C:a");
    assert_eq!(join(WINDOWS, r"C:\ws", r"D:\x"), r"D:\x");
    assert_eq!(join(WINDOWS, r"C:\ws", r"\x"), r"C:\x");
    assert_eq!(join(WINDOWS, r"\\?\C:\ws", "a/b/../c"), r"\\?\C:\ws\a\c");
    assert_eq!(join(POSIX, "/ws", "/x"), "/x");
    assert_eq!(native_path(WINDOWS, "a/b"), r"a\b");
    assert_eq!(native_path(POSIX, "a/b"), "a/b");
    assert_eq!(marker_path(WINDOWS, r"C:\ws"), r"C:\ws\.rewind\workspace.json");
    assert_eq!(
        marker_candidates(WINDOWS, r"\\?\C:\a\b"),
        [
            r"\\?\C:\a\b\.rewind\workspace.json",
            r"\\?\C:\a\.rewind\workspace.json",
            r"\\?\C:\.rewind\workspace.json",
        ]
    );
    assert_eq!(parents_below(WINDOWS, r"C:\ws", r"C:\ws\a/b\c"), [r"C:\ws\a", r"C:\ws\a\b"]);
    assert_eq!(
        workspace_path(WINDOWS, r"\\?\C:\ws", "a/b", &vec![Place::Directory]).expect("inside"),
        r"\\?\C:\ws\a\b"
    );
    assert!(starts_with(WINDOWS, r"c:\ws\a", "C:/ws"));
    assert!(is_directly_in(WINDOWS, r"C:\j\x.json", "c:/j"));
    assert!(!is_directly_in(WINDOWS, r"C:\", "C:"));
}

#[test]
fn the_marker_and_its_directory_are_local() {
    assert!(check_marker_place("/ws/m", &Place::File).is_ok());
    assert!(check_marker_place("/ws/m", &Place::Missing).is_ok());
    assert!(check_marker_place("/ws/m", &Place::Unreadable("e".to_owned())).is_ok());
    for place in [Place::Directory, Place::Symlink, Place::Other] {
        assert_eq!(
            check_marker_place("/ws/m", &place).expect_err("no file").message(),
            "path is outside the workspace: workspace marker is not a regular file: /ws/m"
        );
    }
    assert!(check_metadata_place("/ws/d", &Place::Directory).is_ok());
    assert!(check_metadata_place("/ws/d", &Place::Missing).is_ok());
    for place in [Place::File, Place::Symlink, Place::Other] {
        match check_metadata_place("/ws/d", &place) {
            Err(RewindError::PathEscape(message)) => {
                assert_eq!(message, "workspace metadata directory is not local: /ws/d")
            }
            other => panic!("not refused: {other:?}"),
        }
    }
}
