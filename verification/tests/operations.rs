use khaslana_core::error::GitError;
use khaslana_core::operations::{
    check_add_remote, check_clean_before_revert, check_create_branch, check_reset_allowed,
    check_revert_parents, check_uncommit_commit, check_uncommit_head, check_update_remote,
    checkout_failure, commit_step, listed_unpushed, pull_local_step, push_failure,
    revert_commit_message, revert_failure, revert_merge_commit_message, upstream_branch_of,
    upstream_name, CommitStep, PullStep, RemoteRename, BRANCH_SYNC_UNPUSHED_OID_LIMIT,
};

fn message_of(err: GitError) -> String {
    match err {
        GitError::Message(m) => m,
        other => panic!("expected a message, got {other:?}"),
    }
}

fn git_message_of(err: GitError) -> String {
    match err {
        GitError::Git(m) => m,
        other => panic!("expected a libgit2 error, got {other:?}"),
    }
}

#[test]
fn commit_step_follows_merge_rebase_and_message() {
    assert_eq!(commit_step(true, true, "").unwrap(), CommitStep::FinishMerge);
    assert_eq!(
        message_of(commit_step(false, true, "msg").unwrap_err()),
        "变基进行中，请通过变基状态条继续/跳过/中止，不能直接提交"
    );
    assert!(matches!(
        commit_step(false, false, " \n\t").unwrap_err(),
        GitError::EmptyCommitMessage
    ));
    assert_eq!(
        commit_step(false, false, "  fix: typo\n").unwrap(),
        CommitStep::Commit("fix: typo".to_string())
    );
}

#[test]
fn upstream_names_join_remote_and_branch() {
    assert_eq!(upstream_name("origin", "main"), "origin/main");
    assert_eq!(upstream_branch_of("refs/remotes/origin/feature/x", "origin").unwrap(), "feature/x");
    assert_eq!(
        message_of(upstream_branch_of("refs/remotes/upstream/main", "origin").unwrap_err()),
        "无法识别本地分支关联的远程分支"
    );
}

#[test]
fn pulling_a_local_branch_chooses_its_step() {
    assert_eq!(pull_local_step(3, 0, false, "dev", "origin", "dev").unwrap(), PullStep::UpToDate);
    assert_eq!(pull_local_step(0, 2, true, "dev", "origin", "dev").unwrap(), PullStep::Merge);
    assert_eq!(pull_local_step(1, 2, true, "dev", "origin", "dev").unwrap(), PullStep::Merge);
    assert_eq!(pull_local_step(0, 2, false, "dev", "origin", "dev").unwrap(), PullStep::FastForward);
    assert_eq!(
        message_of(pull_local_step(1, 2, false, "dev", "origin", "dev2").unwrap_err()),
        "分支 dev 与 origin/dev2 已分叉，请先切换到该分支再拉取"
    );
}

#[test]
fn unpushed_commits_are_capped() {
    let walk: Vec<String> = (0..300).map(|i| format!("{i:040}")).collect();
    let (listed, truncated) = listed_unpushed(&walk, 300);
    assert_eq!(listed.len(), BRANCH_SYNC_UNPUSHED_OID_LIMIT);
    assert_eq!(listed[0], walk[0]);
    assert!(truncated);
    let (listed, truncated) = listed_unpushed(&walk[..3].to_vec(), 3);
    assert_eq!(listed, walk[..3].to_vec());
    assert!(!truncated);
    let (_, truncated) = listed_unpushed(&walk, 256);
    assert!(!truncated);
}

#[test]
fn reset_and_uncommit_checks_give_their_messages() {
    assert!(check_reset_allowed(false).is_ok());
    assert_eq!(
        git_message_of(check_reset_allowed(true).unwrap_err()),
        "当前处于 detached HEAD，不能重置分支"
    );
    assert_eq!(
        git_message_of(check_uncommit_head(true, true, Some("a")).unwrap_err()),
        "当前处于 detached HEAD，不能还原提交到暂存区"
    );
    assert_eq!(
        git_message_of(check_uncommit_head(false, false, Some("a")).unwrap_err()),
        "当前 HEAD 未指向本地分支，不能还原提交到暂存区"
    );
    assert_eq!(
        git_message_of(check_uncommit_head(false, true, None).unwrap_err()),
        "当前分支没有可还原的提交"
    );
    assert_eq!(check_uncommit_head(false, true, Some("abc")).unwrap(), "abc");
    assert_eq!(
        git_message_of(check_uncommit_commit("abc", "def", 1).unwrap_err()),
        "只能将当前最新提交还原到暂存区"
    );
    assert_eq!(
        git_message_of(check_uncommit_commit("abc", "abc", 0).unwrap_err()),
        "初始提交暂不支持还原到暂存区"
    );
    assert_eq!(
        git_message_of(check_uncommit_commit("abc", "abc", 2).unwrap_err()),
        "合并提交暂不支持还原到暂存区"
    );
    assert!(check_uncommit_commit("abc", "abc", 1).is_ok());
}

#[test]
fn revert_checks_and_messages() {
    assert!(check_clean_before_revert(false, false, "dirty").is_ok());
    assert_eq!(git_message_of(check_clean_before_revert(true, false, "dirty").unwrap_err()), "dirty");
    assert_eq!(git_message_of(check_clean_before_revert(false, true, "dirty").unwrap_err()), "dirty");
    assert!(check_revert_parents(1, false).is_ok());
    assert!(check_revert_parents(0, false).is_ok());
    assert!(check_revert_parents(2, true).is_ok());
    assert_eq!(git_message_of(check_revert_parents(2, false).unwrap_err()), "暂不支持回滚合并提交");
    assert_eq!(
        git_message_of(check_revert_parents(1, true).unwrap_err()),
        "该提交不是合并提交，请使用普通回滚提交"
    );
    assert_eq!(
        revert_commit_message(Some("Add login"), "0123abcd"),
        "Revert \"Add login\"\n\nThis reverts commit 0123abcd."
    );
    assert_eq!(revert_commit_message(None, "ff"), "Revert \"commit\"\n\nThis reverts commit ff.");
    assert_eq!(
        revert_merge_commit_message(None, "ff"),
        "Revert \"merge commit\"\n\nThis reverts merge commit ff, keeping the first parent side."
    );
    match revert_failure(vec!["a.txt".to_string()], GitError::Git("boom".into())) {
        GitError::Conflicts(paths) => assert_eq!(paths, vec!["a.txt".to_string()]),
        other => panic!("unexpected {other:?}"),
    }
    assert_eq!(git_message_of(revert_failure(Vec::new(), GitError::Git("boom".into()))), "boom");
}

#[test]
fn push_and_checkout_failures_are_reworded() {
    assert_eq!(
        message_of(push_failure(true, "rejected".into())),
        "推送被拒绝（non-fast-forward）：远端分支有新提交，请先拉取并解决后再推送"
    );
    assert_eq!(git_message_of(push_failure(false, "network".into())), "network");
    assert_eq!(
        message_of(checkout_failure(GitError::Git("locked".into()), "dev")),
        "无法切换到本地分支 dev：locked"
    );
    assert_eq!(message_of(checkout_failure(GitError::Message("x".into()), "dev")), "x");
}

#[test]
fn remote_and_branch_checks() {
    assert!(check_add_remote("origin", "https://h/r.git", false).is_ok());
    assert_eq!(
        message_of(check_add_remote("origin", "https://h/r.git", true).unwrap_err()),
        "远端名称已存在：origin"
    );
    assert_eq!(message_of(check_add_remote("origin", "  ", false).unwrap_err()), "远端地址不能为空");
    assert_eq!(message_of(check_add_remote("bad name", "u", false).unwrap_err()), "远端名称无效：bad name");
    assert_eq!(check_update_remote("origin", "origin", "u", true).unwrap(), RemoteRename::Keep);
    assert_eq!(check_update_remote("origin", "up", "u", false).unwrap(), RemoteRename::Rename);
    assert_eq!(
        message_of(check_update_remote("origin", "up", "u", true).unwrap_err()),
        "远端名称已存在：up"
    );
    assert!(check_create_branch("feature/x", false).is_ok());
    assert_eq!(
        message_of(check_create_branch("feature/x", true).unwrap_err()),
        "分支名称已存在：feature/x"
    );
    assert!(matches!(
        check_create_branch("-x", false).unwrap_err(),
        GitError::InvalidBranchName(n) if n == "-x"
    ));
}
