use kdot::error::LinkError;
use kdot::symlink::{
    get_paths, get_relative_files, plan_direct_link, plan_direct_unlink, plan_entry, plan_links,
    plan_unlinks, EntryKind, SourceWalk, Step, WalkEntry,
};

fn entry(path: &str, kind: EntryKind, canonical: Option<&str>) -> WalkEntry {
    WalkEntry { path: path.to_string(), kind, canonical: canonical.map(str::to_string) }
}

fn plain(path: &str, kind: EntryKind) -> WalkEntry {
    entry(path, kind, Some(path))
}

fn tree() -> SourceWalk {
    SourceWalk {
        root: Some("/repo/bash".to_string()),
        entries: vec![
            plain("/repo/bash", EntryKind::Directory),
            plain("/repo/bash/a", EntryKind::File),
            plain("/repo/bash/deeply", EntryKind::Directory),
            plain("/repo/bash/deeply/nested", EntryKind::Directory),
            plain("/repo/bash/deeply/nested/b", EntryKind::File),
            entry("/repo/bash/dangling", EntryKind::Other, None),
        ],
    }
}

fn shown(steps: &[Step]) -> Vec<String> {
    steps
        .iter()
        .map(|step| match step {
            Step::EnsureDirectory { path } => format!("dir {}", path),
            Step::Link { target, link, resolved } => {
                format!("link {} -> {} ({})", link, target, resolved)
            }
            Step::Unlink { path } => format!("unlink {}", path),
            Step::RequireVacant { path } => format!("vacant {}", path),
            Step::RemoveLink { path } => format!("remove link {}", path),
        })
        .collect()
}

#[test]
fn paths_of_a_plain_file() {
    let paths =
        get_paths("/repo/bash", &plain("/repo/bash/deeply/nested/b", EntryKind::File), "/home/me", None)
            .unwrap();
    assert_eq!(paths.link, "/home/me/deeply/nested/b");
    assert_eq!(paths.target, "/repo/bash/deeply/nested/b");
    assert_eq!(paths.resolved, "/repo/bash/deeply/nested/b");
}

#[test]
fn paths_of_a_file_that_is_a_link() {
    let file = entry("/repo/bash/zshrc", EntryKind::File, Some("/repo/bash/shared/rc"));
    let paths = get_paths("/repo/bash", &file, "/home/me", None).unwrap();
    // The link stands under the file's own name and points at the path
    // that the file was walked by; what that resolves to is kept beside it.
    assert_eq!(paths.link, "/home/me/zshrc");
    assert_eq!(paths.target, "/repo/bash/zshrc");
    assert_eq!(paths.resolved, "/repo/bash/shared/rc");
}

#[test]
fn paths_of_a_file_walked_by_a_relative_path() {
    let file = entry("bash/./a", EntryKind::File, Some("/repo/bash/a"));
    let paths = get_paths("bash", &file, "/home/me", Some("/repo")).unwrap();
    assert_eq!(paths.link, "/home/me/a");
    assert_eq!(paths.target, "/repo/bash/a");
    assert_eq!(paths.resolved, "/repo/bash/a");

    let elsewhere = get_paths("bash", &file, "/home/me", Some("/work")).unwrap();
    assert_eq!(elsewhere.link, "/home/me/a");
    assert_eq!(elsewhere.target, "/work/bash/a");
    assert_eq!(elsewhere.resolved, "/repo/bash/a");
}

#[test]
fn paths_fail_in_the_order_resolved_absolute_place() {
    // No resolved path: that comes first, whatever else is wrong.
    let unresolved = entry("a", EntryKind::File, None);
    match get_paths("/repo/bash", &unresolved, "/home/me", None) {
        Err(LinkError::PathResolution { path }) => assert_eq!(path, "a"),
        other => panic!("expected an unresolved path, got {:?}", other),
    }
    // No absolute form: that comes before the place is asked for.
    let relative = entry("a", EntryKind::File, Some("/repo/bash/a"));
    match get_paths("/repo/bash", &relative, "/home/me", None) {
        Err(LinkError::PathResolution { path }) => assert_eq!(path, "a"),
        other => panic!("expected an unresolved path, got {:?}", other),
    }
    // No place below the root.
    match get_paths("/repo/bash", &relative, "/home/me", Some("/repo/bash")) {
        Err(LinkError::InvalidPathDifference { path, base }) => {
            assert_eq!(path, "a");
            assert_eq!(base, "/repo/bash");
        }
        other => panic!("expected an invalid difference, got {:?}", other),
    }
    let outside = entry("/repo/zsh/a", EntryKind::File, Some("/repo/bash/a"));
    match get_paths("/repo/bash", &outside, "/home/me", None) {
        Err(LinkError::InvalidPathDifference { path, base }) => {
            assert_eq!(path, "/repo/zsh/a");
            assert_eq!(base, "/repo/bash");
        }
        other => panic!("expected an invalid difference, got {:?}", other),
    }
}

#[test]
fn steps_of_single_entries() {
    let dir = plan_entry("/repo/bash", &plain("/repo/bash/deeply", EntryKind::Directory), "/home/me", None)
        .unwrap();
    assert_eq!(shown(&dir), vec!["dir /home/me/deeply"]);

    let file =
        plan_entry("/repo/bash", &plain("/repo/bash/deeply/b", EntryKind::File), "/home/me", None).unwrap();
    assert_eq!(
        shown(&file),
        vec!["dir /home/me/deeply", "link /home/me/deeply/b -> /repo/bash/deeply/b (/repo/bash/deeply/b)"]
    );

    let other =
        plan_entry("/repo/bash", &entry("/repo/bash/socket", EntryKind::Other, None), "/home/me", None)
            .unwrap();
    assert!(other.is_empty());

    match plan_entry("/repo/bash", &entry("/repo/bash/x", EntryKind::Unreadable, None), "/home/me", None) {
        Err(LinkError::PathResolution { path }) => assert_eq!(path, "/repo/bash/x"),
        other => panic!("expected an unresolved path, got {:?}", other),
    }
    match plan_entry("/repo/bash", &entry("/repo/bash/f", EntryKind::File, None), "/home/me", None) {
        Err(LinkError::PathResolution { path }) => assert_eq!(path, "/repo/bash/f"),
        other => panic!("expected an unresolved path, got {:?}", other),
    }
    // A directory that is a link to elsewhere is mirrored under its own name.
    let up = plan_entry(
        "/repo/bash",
        &entry("/repo/bash/up", EntryKind::Directory, Some("/repo")),
        "/home/me",
        None,
    )
    .unwrap();
    assert_eq!(shown(&up), vec!["dir /home/me/up"]);
    match plan_entry("/repo/bash", &plain("/repo", EntryKind::Directory), "/home/me", None) {
        Err(LinkError::InvalidPathDifference { path, base }) => {
            assert_eq!(path, "/repo");
            assert_eq!(base, "/repo/bash");
        }
        other => panic!("expected an invalid difference, got {:?}", other),
    }
}

#[test]
fn a_file_that_is_the_whole_source_is_linked_at_the_link_root() {
    let steps = plan_entry("/repo/rc", &plain("/repo/rc", EntryKind::File), "/home/me/rc", None).unwrap();
    assert_eq!(shown(&steps), vec!["dir /home/me", "link /home/me/rc -> /repo/rc (/repo/rc)"]);

    // A link root without a directory above it asks for no directory.
    let steps = plan_entry("/repo/rc", &plain("/repo/rc", EntryKind::File), "rc", None).unwrap();
    assert_eq!(shown(&steps), vec!["link rc -> /repo/rc (/repo/rc)"]);
}

#[test]
fn plan_for_mirroring_a_tree() {
    let plan = plan_links("/home/me", "/repo/bash", None, &tree());
    assert!(plan.failure.is_none());
    assert_eq!(
        shown(&plan.steps),
        vec![
            "dir /home/me",
            "dir /home/me",
            "link /home/me/a -> /repo/bash/a (/repo/bash/a)",
            "dir /home/me/deeply",
            "dir /home/me/deeply/nested",
            "dir /home/me/deeply/nested",
            "link /home/me/deeply/nested/b -> /repo/bash/deeply/nested/b (/repo/bash/deeply/nested/b)",
        ]
    );
}

#[test]
fn plan_for_mirroring_stops_at_the_first_failure() {
    let mut walk = tree();
    walk.entries.insert(2, plain("/etc/passwd", EntryKind::File));
    let plan = plan_links("/home/me", "/repo/bash", None, &walk);
    match plan.failure {
        Some(LinkError::InvalidPathDifference { path, base }) => {
            assert_eq!(path, "/etc/passwd");
            assert_eq!(base, "/repo/bash");
        }
        other => panic!("expected an invalid difference, got {:?}", other),
    }
    assert_eq!(
        shown(&plan.steps),
        vec!["dir /home/me", "dir /home/me", "link /home/me/a -> /repo/bash/a (/repo/bash/a)"]
    );
}

#[test]
fn plan_for_mirroring_a_tree_with_an_inner_link() {
    let walk = SourceWalk {
        root: Some("/repo/real".to_string()),
        entries: vec![
            entry("/repo/bash", EntryKind::Directory, Some("/repo/real")),
            entry("/repo/bash/bashrc", EntryKind::File, Some("/repo/real/bashrc")),
            entry("/repo/bash/zshrc", EntryKind::File, Some("/repo/real/bashrc")),
        ],
    };
    let plan = plan_links("/home/me", "/repo/bash", None, &walk);
    assert!(plan.failure.is_none());
    assert_eq!(
        shown(&plan.steps),
        vec![
            "dir /home/me",
            "dir /home/me",
            "link /home/me/bashrc -> /repo/bash/bashrc (/repo/real/bashrc)",
            "dir /home/me",
            "link /home/me/zshrc -> /repo/bash/zshrc (/repo/real/bashrc)",
        ]
    );
    // Unlinking goes to the same places.
    let undo = plan_unlinks("/home/me", "/repo/bash", &walk);
    assert_eq!(shown(&undo.steps), vec!["unlink /home/me/bashrc", "unlink /home/me/zshrc"]);
}

#[test]
fn plan_for_mirroring_needs_the_root() {
    let walk = SourceWalk { root: None, entries: tree().entries };
    let plan = plan_links("/home/me", "/repo/bash", None, &walk);
    assert!(plan.steps.is_empty());
    match plan.failure {
        Some(LinkError::PathResolution { path }) => assert_eq!(path, "/repo/bash"),
        other => panic!("expected an unresolved path, got {:?}", other),
    }
}

#[test]
fn relative_files_are_the_places_of_the_files() {
    let files = get_relative_files("/repo/bash", &tree().entries).unwrap();
    assert_eq!(files, vec!["a".to_string(), "deeply/nested/b".to_string()]);
    assert_eq!(get_relative_files("/repo/bash", &Vec::new()).unwrap(), Vec::<String>::new());
}

#[test]
fn relative_files_hold_each_place_once() {
    let entries = vec![
        plain("/repo/bash/a", EntryKind::File),
        plain("/repo/bash/b", EntryKind::File),
        plain("/repo/bash/./a", EntryKind::File),
        plain("/repo/bash//b", EntryKind::File),
    ];
    let files = get_relative_files("/repo/bash", &entries).unwrap();
    assert_eq!(files, vec!["a".to_string(), "b".to_string()]);
}

#[test]
fn relative_files_go_by_the_walked_path() {
    // Unlinking goes by the path that a file was walked by, not by what it
    // resolves to.
    let entries = vec![entry("/repo/bash/zshrc", EntryKind::File, Some("/repo/bash/shared/rc"))];
    let files = get_relative_files("/repo/bash", &entries).unwrap();
    assert_eq!(files, vec!["zshrc".to_string()]);
}

#[test]
fn relative_files_fail_on_a_file_outside_the_folder() {
    let entries = vec![plain("/repo/bash/a", EntryKind::File), plain("/repo/zsh/z", EntryKind::File)];
    match get_relative_files("/repo/bash", &entries) {
        Err(LinkError::InvalidPathDifference { path, base }) => {
            assert_eq!(path, "/repo/zsh/z");
            assert_eq!(base, "/repo/bash");
        }
        other => panic!("expected an invalid difference, got {:?}", other),
    }
}

#[test]
fn plan_for_unlinking_a_tree() {
    let plan = plan_unlinks("/home/me", "/repo/bash", &tree());
    assert!(plan.failure.is_none());
    assert_eq!(shown(&plan.steps), vec!["unlink /home/me/a", "unlink /home/me/deeply/nested/b"]);

    let empty = plan_unlinks("/home/me", "/repo/bash", &SourceWalk { root: None, entries: Vec::new() });
    assert!(empty.failure.is_none());
    assert!(empty.steps.is_empty());
}

#[test]
fn plan_for_unlinking_fails_before_anything_is_removed() {
    let walk = SourceWalk {
        root: Some("/repo/bash".to_string()),
        entries: vec![plain("/repo/bash/a", EntryKind::File), plain("/elsewhere/z", EntryKind::File)],
    };
    let plan = plan_unlinks("/home/me", "/repo/bash", &walk);
    assert!(plan.steps.is_empty());
    assert!(matches!(plan.failure, Some(LinkError::InvalidPathDifference { .. })));
}

#[test]
fn plans_for_a_directory_as_a_whole() {
    let link = plan_direct_link("/home/me/.vim", "/repo/vim");
    assert!(link.failure.is_none());
    assert_eq!(
        shown(&link.steps),
        vec!["vacant /home/me/.vim", "link /home/me/.vim -> /repo/vim (/repo/vim)"]
    );

    let unlink = plan_direct_unlink("/home/me/.vim");
    assert!(unlink.failure.is_none());
    assert_eq!(shown(&unlink.steps), vec!["remove link /home/me/.vim"]);
}
