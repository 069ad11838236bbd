use kdot::error::LinkError;
use kdot::path::{
    absolute_path, is_descending, join, normalize, parent_of, render_names, resolve_segments,
    split_segments, starts_at_root,
};
use kdot::symlink::{checked_position, relative_position};

fn texts(list: &[&str]) -> Vec<String> {
    list.iter().map(|text| text.to_string()).collect()
}

#[test]
fn absolute_path_is_returned_normalized() {
    assert_eq!(absolute_path("/tmp/to", None).unwrap(), "/tmp/to");
    assert_eq!(absolute_path("/tmp/./to/", None).unwrap(), "/tmp/to");
    assert_eq!(absolute_path("/tmp/from/../to", Some("/elsewhere")).unwrap(), "/tmp/to");
    assert_eq!(absolute_path("//tmp//to", None).unwrap(), "/tmp/to");
}

#[test]
fn relative_path_is_read_from_the_working_directory() {
    assert_eq!(absolute_path("to", Some("/home/me")).unwrap(), "/home/me/to");
    assert_eq!(absolute_path("./to", Some("/home/me")).unwrap(), "/home/me/to");
    assert_eq!(absolute_path("../to", Some("/home/me")).unwrap(), "/home/to");
    assert_eq!(absolute_path("", Some("/home/me")).unwrap(), "/home/me");
    assert_eq!(absolute_path("a/b", Some("/")).unwrap(), "/a/b");
}

#[test]
fn path_that_does_not_exist_is_resolved_all_the_same() {
    assert_eq!(
        absolute_path("not/yet/there", Some("/home/me")).unwrap(),
        "/home/me/not/yet/there"
    );
}

#[test]
fn relative_path_without_working_directory_is_not_resolved() {
    match absolute_path("to", None) {
        Err(LinkError::PathResolution { path }) => assert_eq!(path, "to"),
        other => panic!("expected an unresolved path, got {:?}", other),
    }
    match absolute_path("to", Some("home/me")) {
        Err(LinkError::PathResolution { path }) => assert_eq!(path, "to"),
        other => panic!("expected an unresolved path, got {:?}", other),
    }
    assert!(absolute_path("", None).is_err());
}

#[test]
fn nothing_lies_above_the_root() {
    assert_eq!(normalize("/.."), "/");
    assert_eq!(normalize("/../../a"), "/a");
    assert_eq!(normalize("/a/../.."), "/");
    assert_eq!(normalize("/"), "/");
    assert_eq!(normalize(""), "/");
}

#[test]
fn normalize_is_its_own_result() {
    for path in ["/a/b/../c/./d//e/", "/", "/..", "/tmp/to", "/a/.../b", "/.hidden/..b"] {
        let once = normalize(path);
        assert_eq!(normalize(&once), once);
        assert!(starts_at_root(&once));
    }
    assert_eq!(normalize("/a/b/../c/./d//e/"), "/a/c/d/e");
    assert_eq!(normalize("/a/.../b"), "/a/.../b");
}

#[test]
fn segments_are_the_pieces_between_separators() {
    assert_eq!(split_segments(""), texts(&[""]));
    assert_eq!(split_segments("a"), texts(&["a"]));
    assert_eq!(split_segments("/"), texts(&["", ""]));
    assert_eq!(split_segments("/a//b/"), texts(&["", "a", "", "b", ""]));
    assert_eq!(split_segments("déjà/vu"), texts(&["déjà", "vu"]));
}

#[test]
fn segments_are_resolved_and_rendered() {
    assert_eq!(resolve_segments(&texts(&["", "a", ".", "b", "..", "c"])), texts(&["a", "c"]));
    assert_eq!(resolve_segments(&texts(&["..", "..", "a"])), texts(&["a"]));
    assert_eq!(resolve_segments(&texts(&[])), texts(&[]));
    assert_eq!(render_names(&texts(&["a", "c"])), "/a/c");
    assert_eq!(render_names(&texts(&[])), "");
}

#[test]
fn join_appends_with_one_separator() {
    assert_eq!(join("/tmp/to", "bashrc"), "/tmp/to/bashrc");
    assert_eq!(join("/tmp/to/", "bashrc"), "/tmp/to/bashrc");
    assert_eq!(join("/tmp/to", "deeply/nested/b"), "/tmp/to/deeply/nested/b");
    assert_eq!(join("/tmp/to", ""), "/tmp/to");
    assert_eq!(join("", "bashrc"), "bashrc");
    assert_eq!(join("/", "bashrc"), "/bashrc");
}

#[test]
fn parent_is_the_text_before_the_last_separator() {
    assert_eq!(parent_of("/tmp/to/bashrc"), Some("/tmp/to".to_string()));
    assert_eq!(parent_of("/tmp"), Some("/".to_string()));
    assert_eq!(parent_of("to/bashrc"), Some("to".to_string()));
    assert_eq!(parent_of("bashrc"), None);
    assert_eq!(parent_of("/"), None);
    assert_eq!(parent_of(""), None);
}

#[test]
fn descending_paths_never_step_upwards() {
    assert!(is_descending("bashrc"));
    assert!(is_descending("deeply/nested/b"));
    assert!(is_descending(""));
    assert!(is_descending("..."));
    assert!(is_descending("a/..b/c.."));
    assert!(!is_descending(".."));
    assert!(!is_descending("../b"));
    assert!(!is_descending("a/../b"));
    assert!(!is_descending("a/.."));
    assert!(!is_descending("/a/b"));
}

#[test]
fn starts_at_root_tells_absolute_paths() {
    assert!(starts_at_root("/"));
    assert!(starts_at_root("/tmp"));
    assert!(!starts_at_root(""));
    assert!(!starts_at_root("tmp/"));
}

#[test]
fn position_is_the_difference_of_the_two_paths() {
    assert_eq!(relative_position("/tmp/from/deeply/nested/b", "/tmp/from").unwrap(), "deeply/nested/b");
    assert_eq!(relative_position("/tmp/from/a", "/tmp/from/").unwrap(), "a");
    assert_eq!(relative_position("/tmp/from", "/tmp/from").unwrap(), "");
    assert_eq!(relative_position("from/a", "from").unwrap(), "a");
}

#[test]
fn position_outside_the_base_is_refused() {
    match relative_position("/etc/hosts", "/tmp/from") {
        Err(LinkError::InvalidPathDifference { path, base }) => {
            assert_eq!(path, "/etc/hosts");
            assert_eq!(base, "/tmp/from");
        }
        other => panic!("expected an invalid difference, got {:?}", other),
    }
    assert!(relative_position("/tmp", "/tmp/from").is_err());
    // A relative path has no place below an absolute one, and an absolute
    // path none below a relative one.
    assert!(relative_position("from/a", "/tmp/from").is_err());
    assert!(relative_position("/tmp/from/a", "from").is_err());
}

#[test]
fn checked_position_takes_descending_differences_only() {
    assert_eq!(checked_position(Some("a/b".to_string()), "/r/a/b", "/r").unwrap(), "a/b");
    assert_eq!(checked_position(Some(String::new()), "/r", "/r").unwrap(), "");
    for difference in [Some("../x".to_string()), Some("/x".to_string()), None] {
        match checked_position(difference, "/x", "/r") {
            Err(LinkError::InvalidPathDifference { path, base }) => {
                assert_eq!(path, "/x");
                assert_eq!(base, "/r");
            }
            other => panic!("expected an invalid difference, got {:?}", other),
        }
    }
}

#[test]
fn failures_say_what_went_wrong() {
    assert_eq!(
        LinkError::PathResolution { path: "to".to_string() }.message(),
        "Failed to resolve \"to\""
    );
    assert_eq!(
        LinkError::AlreadyLinked { path: "/tmp/to".to_string() }.message(),
        "\"/tmp/to\" already exists"
    );
    assert_eq!(
        LinkError::SymlinkCreation { target: "/from/a".to_string(), link: "/to/a".to_string() }.message(),
        "Failed to symlink \"/to/a\" -> \"/from/a\""
    );
    assert_eq!(
        LinkError::InvalidPathDifference { path: "/etc/hosts".to_string(), base: "/from".to_string() }
            .message(),
        "Invalid path difference: \"/etc/hosts\" is not below \"/from\""
    );
    assert_eq!(
        LinkError::NotSymlinked { path: "/tmp/to".to_string() }.message(),
        "Expected \"/tmp/to\" to be a symbolic link but it is not"
    );
    assert_eq!(
        LinkError::SymlinkRemoval { path: "/to/a".to_string() }.message(),
        "Failed to remove \"/to/a\""
    );
    assert_eq!(
        LinkError::DirectoryCreation { path: "/to/d".to_string() }.message(),
        "Failed to create \"/to/d\""
    );
    let error = LinkError::SymlinkRemoval { path: "/to/a".to_string() };
    assert_eq!(error.clone().message(), error.message());
}
