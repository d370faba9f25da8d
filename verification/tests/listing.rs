use khaslana_core::error::GitError;
use khaslana_core::listing::{
    collect_changes, ensure_path_not_conflicted, sort_branches, sort_by_key, sorted_unique_paths,
    BranchInfo, BranchKind, CommitFileChange, RemoteInfo, StatusEntry, TagInfo, WorktreeChange,
};
use khaslana_core::repo_rules::{
    ChangeState, STATUS_INDEX_NEW, STATUS_INDEX_RENAMED, STATUS_WT_MODIFIED, STATUS_WT_NEW,
};

fn branch(name: &str, kind: BranchKind, is_head: bool) -> BranchInfo {
    BranchInfo {
        name: name.to_string(),
        kind,
        is_head,
        upstream: None,
        ahead: None,
        behind: None,
    }
}

#[test]
fn branch_list_puts_local_branches_first_then_sorts_by_name() {
    let mut branches = vec![
        branch("origin/main", BranchKind::Remote, false),
        branch("main", BranchKind::Local, true),
        branch("origin/dev", BranchKind::Remote, false),
        branch("dev", BranchKind::Local, false),
    ];
    sort_branches(&mut branches);
    let names: Vec<(&str, BranchKind)> =
        branches.iter().map(|b| (b.name.as_str(), b.kind)).collect();
    assert_eq!(
        names,
        vec![
            ("dev", BranchKind::Local),
            ("main", BranchKind::Local),
            ("origin/dev", BranchKind::Remote),
            ("origin/main", BranchKind::Remote),
        ]
    );
    assert!(branches[1].is_head);
}

#[test]
fn branch_list_sort_keeps_equal_entries_in_their_order() {
    let mut first = branch("x", BranchKind::Local, false);
    first.ahead = Some(1);
    let mut second = branch("x", BranchKind::Local, false);
    second.ahead = Some(2);
    let mut branches = vec![branch("y", BranchKind::Local, false), first, second];
    sort_branches(&mut branches);
    assert_eq!(branches[0].ahead, Some(1));
    assert_eq!(branches[1].ahead, Some(2));
    assert_eq!(branches[2].name, "y");
}

#[test]
fn conflicted_paths_are_sorted_and_listed_once() {
    let paths = vec![
        "src/b.rs".to_string(),
        "src/a.rs".to_string(),
        "src/b.rs".to_string(),
        "README.md".to_string(),
    ];
    assert_eq!(
        sorted_unique_paths(&paths),
        vec!["README.md".to_string(), "src/a.rs".to_string(), "src/b.rs".to_string()]
    );
    assert!(sorted_unique_paths(&Vec::new()).is_empty());
}

#[test]
fn a_conflicted_path_is_refused() {
    let conflicts = vec!["src/a.rs".to_string()];
    match ensure_path_not_conflicted(&conflicts, "src/a.rs") {
        Err(GitError::Message(m)) => assert_eq!(m, "该文件存在冲突，请先解决冲突后再回滚更改"),
        other => panic!("unexpected {other:?}"),
    }
    assert!(ensure_path_not_conflicted(&conflicts, "src/b.rs").is_ok());
}

#[test]
fn status_entries_merge_into_one_change_per_path() {
    let entry = |path: &str, status: u32| StatusEntry { path: path.to_string(), status };
    let entries = vec![
        entry("src/b.rs", STATUS_WT_MODIFIED),
        entry("src/a.rs", STATUS_INDEX_NEW),
        entry("src/b.rs", STATUS_INDEX_RENAMED),
        entry("new.txt", STATUS_WT_NEW),
        entry("src/a.rs", 0),
    ];
    assert_eq!(
        collect_changes(&entries),
        vec![
            WorktreeChange {
                path: "new.txt".to_string(),
                staged: None,
                unstaged: Some(ChangeState::Untracked),
            },
            WorktreeChange {
                path: "src/a.rs".to_string(),
                staged: Some(ChangeState::Added),
                unstaged: None,
            },
            WorktreeChange {
                path: "src/b.rs".to_string(),
                staged: Some(ChangeState::Renamed),
                unstaged: Some(ChangeState::Modified),
            },
        ]
    );
    assert!(collect_changes(&Vec::new()).is_empty());
}

#[test]
fn remotes_tags_and_files_sort_by_name_or_path() {
    let remote = |name: &str, url: &str| RemoteInfo {
        name: name.to_string(),
        url: url.to_string(),
        credential_record_id: None,
    };
    let mut remotes = vec![remote("upstream", "u"), remote("origin", "o"), remote("backup", "b")];
    sort_by_key(&mut remotes);
    let names: Vec<&str> = remotes.iter().map(|r| r.name.as_str()).collect();
    assert_eq!(names, vec!["backup", "origin", "upstream"]);
    assert_eq!(remotes[1].url, "o");

    let mut tags = vec![
        TagInfo { name: "v1.10".to_string() },
        TagInfo { name: "v1.2".to_string() },
        TagInfo { name: "v1.1".to_string() },
    ];
    sort_by_key(&mut tags);
    let names: Vec<&str> = tags.iter().map(|t| t.name.as_str()).collect();
    assert_eq!(names, vec!["v1.1", "v1.10", "v1.2"]);

    let file = |path: &str, status: ChangeState| CommitFileChange {
        path: path.to_string(),
        old_path: None,
        status,
    };
    let mut files = vec![
        file("src/z.rs", ChangeState::Modified),
        file("Cargo.toml", ChangeState::Modified),
        file("src/a.rs", ChangeState::Added),
        file("src/a.rs", ChangeState::Deleted),
    ];
    sort_by_key(&mut files);
    assert_eq!(
        files,
        vec![
            file("Cargo.toml", ChangeState::Modified),
            file("src/a.rs", ChangeState::Added),
            file("src/a.rs", ChangeState::Deleted),
            file("src/z.rs", ChangeState::Modified),
        ]
    );
}
