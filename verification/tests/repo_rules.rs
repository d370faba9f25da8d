use khaslana_core::error::GitError;
use khaslana_core::repo_rules::{
    authentication_required_message, branch_name_verdict, change_state_from_delta,
    ensure_worktree_relative_path, is_empty_head_error, path_to_git, ref_kind_order,
    remote_branch_name_parts, staged_state, unstaged_state, validate_branch_name,
    validate_remote_name, validate_remote_url, ChangeState, CommitRefKind, DeltaStatus,
    NoopProgress, OperationEvent, ProgressEmitter, STATUS_CONFLICTED, STATUS_INDEX_NEW,
    STATUS_INDEX_RENAMED, STATUS_WT_DELETED, STATUS_WT_MODIFIED, STATUS_WT_NEW,
};

#[test]
fn status_bits_give_index_and_worktree_states() {
    let bits = STATUS_INDEX_NEW | STATUS_WT_MODIFIED;
    assert_eq!(staged_state(bits), Some(ChangeState::Added));
    assert_eq!(unstaged_state(bits), Some(ChangeState::Modified));
    assert_eq!(staged_state(STATUS_WT_NEW), None);
    assert_eq!(unstaged_state(STATUS_WT_NEW), Some(ChangeState::Untracked));
    assert_eq!(staged_state(STATUS_CONFLICTED | STATUS_INDEX_RENAMED), Some(ChangeState::Conflicted));
    assert_eq!(unstaged_state(STATUS_CONFLICTED), Some(ChangeState::Conflicted));
    assert_eq!(staged_state(STATUS_INDEX_RENAMED | STATUS_INDEX_NEW), Some(ChangeState::Renamed));
    assert_eq!(unstaged_state(STATUS_WT_DELETED), Some(ChangeState::Deleted));
    assert_eq!(unstaged_state(0), None);
}

#[test]
fn delta_states() {
    assert_eq!(change_state_from_delta(DeltaStatus::Added), ChangeState::Added);
    assert_eq!(change_state_from_delta(DeltaStatus::Untracked), ChangeState::Modified);
    assert_eq!(change_state_from_delta(DeltaStatus::Copied), ChangeState::Modified);
    assert_eq!(change_state_from_delta(DeltaStatus::Conflicted), ChangeState::Conflicted);
}

#[test]
fn reference_label_order() {
    assert_eq!(ref_kind_order(&CommitRefKind::Head), 0);
    assert_eq!(ref_kind_order(&CommitRefKind::LocalBranch), 1);
    assert_eq!(ref_kind_order(&CommitRefKind::RemoteBranch), 2);
    assert_eq!(ref_kind_order(&CommitRefKind::Tag), 3);
}

#[test]
fn remote_urls_must_not_be_blank() {
    assert!(validate_remote_url("https://example.com/r.git").is_ok());
    assert_eq!(validate_remote_url("  \t").unwrap_err().message(), "远端地址不能为空");
}

#[test]
fn remote_branch_names_split_at_the_first_slash() {
    assert_eq!(
        remote_branch_name_parts("origin/feature/x").unwrap(),
        ("origin".to_string(), "feature/x".to_string())
    );
    for bad in ["origin/", "nobranch", " /x", "origin/  "] {
        match remote_branch_name_parts(bad) {
            Err(GitError::InvalidBranchName(name)) => assert_eq!(name, bad),
            other => panic!("unexpected {other:?} for {bad}"),
        }
    }
}

#[test]
fn branch_names_follow_client_and_libgit2_rules() {
    assert!(validate_branch_name("feature/ok").is_ok());
    for bad in ["", "  ", "a\\b", "-x", "bad..name", "has space"] {
        match validate_branch_name(bad) {
            Err(GitError::InvalidBranchName(name)) => assert_eq!(name, bad),
            other => panic!("unexpected {other:?} for {bad:?}"),
        }
    }
    match branch_name_verdict("ok", Err("boom".into())) {
        Err(GitError::Git(message)) => assert_eq!(message, "boom"),
        other => panic!("unexpected {other:?}"),
    }
    assert!(branch_name_verdict("ok", Ok(true)).is_ok());
    assert!(branch_name_verdict("-ok", Ok(true)).is_err());
}

#[test]
fn remote_names() {
    assert!(validate_remote_name("origin").is_ok());
    assert!(validate_remote_name(" upstream ").is_ok());
    assert_eq!(
        validate_remote_name("my remote").unwrap_err().message(),
        "远端名称无效：my remote"
    );
    assert!(validate_remote_name("-x").is_err());
    assert!(validate_remote_name("").is_err());
    assert!(validate_remote_name("a\\b").is_err());
}

#[test]
fn paths_for_git_and_worktree_checks() {
    assert_eq!(path_to_git("dir/sub/file.txt"), "dir/sub/file.txt");
    assert_eq!(path_to_git(""), "");
    assert!(ensure_worktree_relative_path("a/b.txt", "不能回滚更改").is_ok());
    assert_eq!(
        ensure_worktree_relative_path("../x", "不能回滚更改").unwrap_err().message(),
        "文件路径无效，不能回滚更改"
    );
    assert!(ensure_worktree_relative_path("/abs/path", "x").is_err());
    assert!(ensure_worktree_relative_path("", "x").is_ok());
}

#[test]
fn empty_head_errors() {
    assert!(is_empty_head_error(true, "whatever"));
    assert!(is_empty_head_error(false, "reference 'refs/heads/main' not found"));
    assert!(!is_empty_head_error(false, "network down"));
}

#[test]
fn authentication_message_names_the_url() {
    assert_eq!(
        authentication_required_message("https://h/r.git"),
        "访问 https://h/r.git 需要身份验证"
    );
}

#[test]
fn noop_progress_accepts_events() {
    let progress = NoopProgress;
    progress.emit(OperationEvent::Started("正在获取 origin".into()));
    progress.emit(OperationEvent::Finished("已获取 origin".into()));
}

#[test]
fn plain_relative_paths_split_at_slashes() {
    assert_eq!(path_to_git("a//b/"), "a/b");
    assert_eq!(path_to_git("a/./b"), "a/b");
    assert_eq!(path_to_git("./a"), "./a");
    assert_eq!(path_to_git("a/../b"), "a/../b");
    assert!(ensure_worktree_relative_path("a/./b", "x").is_ok());
    assert!(ensure_worktree_relative_path("./a", "x").is_err());
    assert!(ensure_worktree_relative_path("a/b/..", "x").is_err());
    assert!(validate_branch_name("feature").is_ok());
}
