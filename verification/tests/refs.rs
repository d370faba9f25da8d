use khaslana_core::refs::{
    history_refs, is_remote_head_name, sort_commit_refs, BranchRef, CommitRefInfo, TagRef,
};
use khaslana_core::repo_rules::CommitRefKind;

fn label(name: &str, kind: CommitRefKind) -> CommitRefInfo {
    CommitRefInfo { name: name.to_string(), kind }
}

#[test]
fn commit_labels_sort_by_kind_then_name_without_repeats() {
    let refs = vec![
        label("v1.0", CommitRefKind::Tag),
        label("origin/main", CommitRefKind::RemoteBranch),
        label("main", CommitRefKind::LocalBranch),
        label("HEAD", CommitRefKind::Head),
        label("feature", CommitRefKind::LocalBranch),
        label("main", CommitRefKind::LocalBranch),
        label("main", CommitRefKind::Tag),
    ];
    let sorted = sort_commit_refs(&refs);
    assert_eq!(
        sorted,
        vec![
            label("HEAD", CommitRefKind::Head),
            label("feature", CommitRefKind::LocalBranch),
            label("main", CommitRefKind::LocalBranch),
            label("origin/main", CommitRefKind::RemoteBranch),
            label("main", CommitRefKind::Tag),
            label("v1.0", CommitRefKind::Tag),
        ]
    );
}

#[test]
fn commit_labels_compare_names_by_code_point() {
    let refs = vec![
        label("b", CommitRefKind::LocalBranch),
        label("B", CommitRefKind::LocalBranch),
        label("é", CommitRefKind::LocalBranch),
        label("a", CommitRefKind::LocalBranch),
    ];
    let names: Vec<String> = sort_commit_refs(&refs).into_iter().map(|r| r.name).collect();
    assert_eq!(names, vec!["B", "a", "b", "é"]);
}

#[test]
fn sorting_no_labels_gives_none() {
    assert!(sort_commit_refs(&Vec::new()).is_empty());
}

#[test]
fn remote_head_names_are_recognised() {
    assert!(is_remote_head_name("origin/HEAD"));
    assert!(is_remote_head_name("/HEAD"));
    assert!(!is_remote_head_name("HEAD"));
    assert!(!is_remote_head_name("origin/main"));
    assert!(!is_remote_head_name("origin/HEADS"));
}

#[test]
fn history_refs_start_at_branches_and_head_and_label_commits() {
    let branch = |name: &str, kind: CommitRefKind, target: Option<&str>, commit: bool| BranchRef {
        name: name.to_string(),
        kind,
        target: target.map(str::to_string),
        target_is_commit: commit,
    };
    let branches = vec![
        branch("main", CommitRefKind::LocalBranch, Some("bbb"), true),
        branch("origin/HEAD", CommitRefKind::RemoteBranch, Some("bbb"), true),
        branch("origin/main", CommitRefKind::RemoteBranch, Some("aaa"), true),
        branch("gone", CommitRefKind::LocalBranch, Some("ccc"), false),
        branch("unborn", CommitRefKind::LocalBranch, None, false),
    ];
    let tags = vec![
        TagRef { name: "v1".to_string(), commit: Some("aaa".to_string()) },
        TagRef { name: "note".to_string(), commit: None },
    ];
    let refs = history_refs(&branches, &tags, Some("bbb".to_string()));
    assert_eq!(refs.starts, vec!["aaa".to_string(), "bbb".to_string()]);
    let labels: Vec<(String, Vec<CommitRefInfo>)> =
        refs.labels.into_iter().map(|l| (l.oid, l.refs)).collect();
    assert_eq!(
        labels,
        vec![
            (
                "aaa".to_string(),
                vec![label("origin/main", CommitRefKind::RemoteBranch), label("v1", CommitRefKind::Tag)]
            ),
            (
                "bbb".to_string(),
                vec![label("HEAD", CommitRefKind::Head), label("main", CommitRefKind::LocalBranch)]
            ),
        ]
    );
    let empty = history_refs(&Vec::new(), &Vec::new(), None);
    assert!(empty.starts.is_empty() && empty.labels.is_empty());
}
