//! The decisions of the repository operations: what a commit, a pull of a
//! local branch, a revert or an uncommit does, or which error it answers,
//! given what was read from the repository. The caller reads the repository
//! and performs the chosen step.

use vstd::prelude::*;

use crate::error::GitError;
use crate::repo_rules::{
    breaks_branch_name_rules, libgit2_branch_name_valid, remote_name_accepted,
    validate_branch_name, validate_remote_name, validate_remote_url,
};
use crate::text::{
    append_chars, chars_equal, chars_of, has_prefix, no_nul, owned, string_of, trim, trim_chars, CharClass,
};

verus! {

/// The message when a commit is asked for during a rebase.
pub open spec fn rebase_commit_message() -> Seq<char> {
    "变基进行中，请通过变基状态条继续/跳过/中止，不能直接提交"@
}

/// What a commit request does.
#[derive(Debug, PartialEq, Eq)]
pub enum CommitStep {
    /// A merge is in progress: the commit concludes it.
    FinishMerge,
    /// An ordinary commit with this (trimmed) message.
    Commit(String),
}

/// The step of a commit request: conclude the merge in progress, refuse
/// during a rebase, refuse a blank message, or commit with the trimmed
/// message.
pub fn commit_step(merge_in_progress: bool, rebase_in_progress: bool, message: &str) -> (r: Result<
    CommitStep,
    GitError,
>)
    ensures
        merge_in_progress ==> r matches Ok(CommitStep::FinishMerge),
        !merge_in_progress && rebase_in_progress ==> (r matches Err(GitError::Message(m)) && m@
            == rebase_commit_message()),
        !merge_in_progress && !rebase_in_progress && trim(message@).len() == 0 ==> r matches Err(
            GitError::EmptyCommitMessage,
        ),
        !merge_in_progress && !rebase_in_progress && trim(message@).len() > 0 ==> (r matches Ok(
            CommitStep::Commit(m),
        ) && m@ == trim(message@)),
{
    if merge_in_progress {
        return Ok(CommitStep::FinishMerge);
    }
    if rebase_in_progress {
        return Err(GitError::Message(owned("变基进行中，请通过变基状态条继续/跳过/中止，不能直接提交")));
    }
    let trimmed = trim_chars(&chars_of(message), CharClass::WhiteSpace);
    if trimmed.len() == 0 {
        return Err(GitError::EmptyCommitMessage);
    }
    Ok(CommitStep::Commit(string_of(&trimmed)))
}

/// `a` followed by `b`, as a new string.
fn joined(a: &str, b: &str) -> (r: Vec<char>)
    ensures
        r@ == a@ + b@,
{
    let mut v = chars_of(a);
    append_chars(&mut v, &chars_of(b));
    v
}

/// The name of a remote-tracking branch: `<remote>/<branch>`.
pub open spec fn tracking_name(remote: Seq<char>, branch: Seq<char>) -> Seq<char> {
    remote + "/"@ + branch
}

/// The upstream of a branch as `<remote>/<branch>`.
pub fn upstream_name(remote: &str, branch: &str) -> (r: String)
    ensures
        r@ == tracking_name(remote@, branch@),
{
    let mut v = joined(remote, "/");
    append_chars(&mut v, &chars_of(branch));
    string_of(&v)
}

/// The branch of the remote `remote` that an upstream reference names: what
/// follows `refs/remotes/<remote>/`.
pub fn upstream_branch_of(upstream_ref: &str, remote: &str) -> (r: Result<String, GitError>)
    ensures
        ({
            let prefix = "refs/remotes/"@ + remote@ + "/"@;
            if upstream_ref@.len() >= prefix.len() && upstream_ref@.take(prefix.len() as int)
                == prefix {
                r matches Ok(b) && b@ == upstream_ref@.skip(prefix.len() as int)
            } else {
                r matches Err(GitError::Message(m)) && m@ == "无法识别本地分支关联的远程分支"@
            }
        }),
{
    let mut prefix = joined("refs/remotes/", remote);
    append_chars(&mut prefix, &chars_of("/"));
    let chars = chars_of(upstream_ref);
    if has_prefix(&chars, &prefix) {
        let rest = crate::text::copy_range(&chars, prefix.len(), chars.len());
        assert(rest@ =~= upstream_ref@.skip(prefix@.len() as int));
        Ok(string_of(&rest))
    } else {
        Err(GitError::Message(owned("无法识别本地分支关联的远程分支")))
    }
}

/// What pulling a local branch does once its upstream has been fetched.
#[derive(Clone, Copy, Debug, PartialEq, Eq, Structural)]
pub enum PullStep {
    /// Nothing is behind: the branch is up to date.
    UpToDate,
    /// The branch is not checked out and only behind: move it forward.
    FastForward,
    /// The branch is checked out and behind: merge the upstream into it.
    Merge,
}

/// The message when a branch that is not checked out has diverged from its
/// upstream.
pub open spec fn diverged_message(branch: Seq<char>, remote: Seq<char>, remote_branch: Seq<char>) -> Seq<
    char,
> {
    "分支 "@ + branch + " 与 "@ + tracking_name(remote, remote_branch) + " 已分叉，请先切换到该分支再拉取"@
}

/// The step of pulling the local branch `branch` whose upstream is
/// `remote/remote_branch`, `ahead` and `behind` commits apart.
pub fn pull_local_step(
    ahead: usize,
    behind: usize,
    is_head: bool,
    branch: &str,
    remote: &str,
    remote_branch: &str,
) -> (r: Result<PullStep, GitError>)
    ensures
        behind == 0 ==> r == Ok::<PullStep, GitError>(PullStep::UpToDate),
        behind > 0 && is_head ==> r == Ok::<PullStep, GitError>(PullStep::Merge),
        behind > 0 && !is_head && ahead == 0 ==> r == Ok::<PullStep, GitError>(
            PullStep::FastForward,
        ),
        behind > 0 && !is_head && ahead > 0 ==> (r matches Err(GitError::Message(m)) && m@
            == diverged_message(branch@, remote@, remote_branch@)),
{
    if behind == 0 {
        return Ok(PullStep::UpToDate);
    }
    if is_head {
        return Ok(PullStep::Merge);
    }
    if ahead > 0 {
        let mut m = joined("分支 ", branch);
        append_chars(&mut m, &chars_of(" 与 "));
        let upstream = upstream_name(remote, remote_branch);
        append_chars(&mut m, &chars_of(upstream.as_str()));
        append_chars(&mut m, &chars_of(" 已分叉，请先切换到该分支再拉取"));
        return Err(GitError::Message(string_of(&m)));
    }
    Ok(PullStep::FastForward)
}

/// The most unpushed commits that the sync status lists.
pub const BRANCH_SYNC_UNPUSHED_OID_LIMIT: usize = 256;

/// The unpushed commits listed in the sync status, from the commits that
/// the walk from the local branch yields: at most the first
/// `BRANCH_SYNC_UNPUSHED_OID_LIMIT`, and whether `ahead` exceeds that
/// limit.
pub fn listed_unpushed(walk: &Vec<String>, ahead: usize) -> (r: (Vec<String>, bool))
    ensures
        r.0@ == walk@.take(
            if walk@.len() < BRANCH_SYNC_UNPUSHED_OID_LIMIT {
                walk@.len() as int
            } else {
                BRANCH_SYNC_UNPUSHED_OID_LIMIT as int
            },
        ),
        r.1 == (ahead > BRANCH_SYNC_UNPUSHED_OID_LIMIT),
{
    let mut out: Vec<String> = Vec::new();
    let mut i: usize = 0;
    while i < walk.len() && i < BRANCH_SYNC_UNPUSHED_OID_LIMIT
        invariant
            i <= walk@.len(),
            i <= BRANCH_SYNC_UNPUSHED_OID_LIMIT,
            out@ == walk@.take(i as int),
        decreases walk@.len() - i,
    {
        out.push(walk[i].clone());
        assert(out@ =~= walk@.take(i + 1));
        i = i + 1;
    }
    (out, ahead > BRANCH_SYNC_UNPUSHED_OID_LIMIT)
}

/// The message when the branch cannot be reset on a detached `HEAD`.
pub fn check_reset_allowed(head_detached: bool) -> (r: Result<(), GitError>)
    ensures
        !head_detached <==> r is Ok,
        head_detached ==> (r matches Err(GitError::Git(m)) && m@ == "当前处于 detached HEAD，不能重置分支"@),
{
    if head_detached {
        return Err(GitError::Git(owned("当前处于 detached HEAD，不能重置分支")));
    }
    Ok(())
}

/// The checks on `HEAD` before the latest commit goes back to the index:
/// not detached, on a local branch, with a commit; the answer is that
/// commit.
pub fn check_uncommit_head(head_detached: bool, head_is_branch: bool, head_target: Option<&str>) -> (r:
    Result<String, GitError>)
    ensures
        head_detached ==> (r matches Err(GitError::Git(m)) && m@
            == "当前处于 detached HEAD，不能还原提交到暂存区"@),
        !head_detached && !head_is_branch ==> (r matches Err(GitError::Git(m)) && m@
            == "当前 HEAD 未指向本地分支，不能还原提交到暂存区"@),
        !head_detached && head_is_branch && head_target is None ==> (r matches Err(GitError::Git(m))
            && m@ == "当前分支没有可还原的提交"@),
        !head_detached && head_is_branch && head_target is Some ==> (r matches Ok(oid) && oid@
            == head_target->0@),
{
    if head_detached {
        return Err(GitError::Git(owned("当前处于 detached HEAD，不能还原提交到暂存区")));
    }
    if !head_is_branch {
        return Err(GitError::Git(owned("当前 HEAD 未指向本地分支，不能还原提交到暂存区")));
    }
    match head_target {
        Some(oid) => Ok(owned(oid)),
        None => Err(GitError::Git(owned("当前分支没有可还原的提交"))),
    }
}

/// The checks on the commit that goes back to the index: it must be the
/// latest commit of the branch and have exactly one parent.
pub fn check_uncommit_commit(commit_oid: &str, head_oid: &str, parent_count: usize) -> (r: Result<
    (),
    GitError,
>)
    ensures
        commit_oid@ != head_oid@ ==> (r matches Err(GitError::Git(m)) && m@
            == "只能将当前最新提交还原到暂存区"@),
        commit_oid@ == head_oid@ && parent_count == 0 ==> (r matches Err(GitError::Git(m)) && m@
            == "初始提交暂不支持还原到暂存区"@),
        commit_oid@ == head_oid@ && parent_count > 1 ==> (r matches Err(GitError::Git(m)) && m@
            == "合并提交暂不支持还原到暂存区"@),
        commit_oid@ == head_oid@ && parent_count == 1 ==> r is Ok,
{
    if !chars_equal(&chars_of(commit_oid), &chars_of(head_oid)) {
        return Err(GitError::Git(owned("只能将当前最新提交还原到暂存区")));
    }
    if parent_count == 0 {
        return Err(GitError::Git(owned("初始提交暂不支持还原到暂存区")));
    }
    if parent_count > 1 {
        return Err(GitError::Git(owned("合并提交暂不支持还原到暂存区")));
    }
    Ok(())
}

/// A revert needs a clean work tree: no changes and no conflicts;
/// otherwise the answer is `message`.
pub fn check_clean_before_revert(has_changes: bool, has_conflicts: bool, message: &str) -> (r: Result<
    (),
    GitError,
>)
    ensures
        !has_changes && !has_conflicts <==> r is Ok,
        has_changes || has_conflicts ==> (r matches Err(GitError::Git(m)) && m@ == message@),
{
    if has_changes || has_conflicts {
        return Err(GitError::Git(owned(message)));
    }
    Ok(())
}

/// The parent check of a revert: an ordinary revert refuses a merge commit,
/// a merge revert refuses a commit that is not a merge.
pub fn check_revert_parents(parent_count: usize, merge: bool) -> (r: Result<(), GitError>)
    ensures
        !merge && parent_count > 1 ==> (r matches Err(GitError::Git(m)) && m@ == "暂不支持回滚合并提交"@),
        merge && parent_count <= 1 ==> (r matches Err(GitError::Git(m)) && m@
            == "该提交不是合并提交，请使用普通回滚提交"@),
        (merge <==> parent_count > 1) <==> r is Ok,
{
    if !merge && parent_count > 1 {
        return Err(GitError::Git(owned("暂不支持回滚合并提交")));
    }
    if merge && parent_count <= 1 {
        return Err(GitError::Git(owned("该提交不是合并提交，请使用普通回滚提交")));
    }
    Ok(())
}

/// The summary line of a revert, or `default` when the commit has none.
pub open spec fn summary_or(summary: Option<Seq<char>>, default: Seq<char>) -> Seq<char> {
    match summary {
        Some(s) => s,
        None => default,
    }
}

/// The view of an optional string slice.
pub open spec fn opt_str_view(o: Option<&str>) -> Option<Seq<char>> {
    match o {
        Some(s) => Some(s@),
        None => None,
    }
}

/// The message of the commit that reverts the commit `oid`.
pub fn revert_commit_message(summary: Option<&str>, oid: &str) -> (r: String)
    ensures
        r@ == "Revert \""@ + summary_or(opt_str_view(summary), "commit"@)
            + "\"\n\nThis reverts commit "@ + oid@ + "."@,
{
    let s = match summary {
        Some(s) => s,
        None => "commit",
    };
    let mut m = joined("Revert \"", s);
    append_chars(&mut m, &chars_of("\"\n\nThis reverts commit "));
    append_chars(&mut m, &chars_of(oid));
    append_chars(&mut m, &chars_of("."));
    string_of(&m)
}

/// The message of the commit that reverts the merge commit `oid`, keeping
/// its first parent.
pub fn revert_merge_commit_message(summary: Option<&str>, oid: &str) -> (r: String)
    ensures
        r@ == "Revert \""@ + summary_or(opt_str_view(summary), "merge commit"@)
            + "\"\n\nThis reverts merge commit "@ + oid@ + ", keeping the first parent side."@,
{
    let s = match summary {
        Some(s) => s,
        None => "merge commit",
    };
    let mut m = joined("Revert \"", s);
    append_chars(&mut m, &chars_of("\"\n\nThis reverts merge commit "));
    append_chars(&mut m, &chars_of(oid));
    append_chars(&mut m, &chars_of(", keeping the first parent side."));
    string_of(&m)
}

/// The error of a revert that libgit2 could not apply: the conflicts it
/// left, when there are any, else libgit2's error.
pub fn revert_failure(conflicts: Vec<String>, error: GitError) -> (r: GitError)
    ensures
        conflicts@.len() > 0 ==> r == GitError::Conflicts(conflicts),
        conflicts@.len() == 0 ==> r == error,
{
    if conflicts.len() > 0 {
        GitError::Conflicts(conflicts)
    } else {
        error
    }
}

/// The message when a push is refused as not fast-forward.
pub open spec fn non_fast_forward_message() -> Seq<char> {
    "推送被拒绝（non-fast-forward）：远端分支有新提交，请先拉取并解决后再推送"@
}

/// The error of a failed push: a push refused as not fast-forward asks the
/// user to pull first; any other failure keeps libgit2's message.
pub fn push_failure(not_fast_forward: bool, libgit2_message: String) -> (r: GitError)
    ensures
        not_fast_forward ==> (r matches GitError::Message(m) && m@ == non_fast_forward_message()),
        !not_fast_forward ==> r == GitError::Git(libgit2_message),
{
    if not_fast_forward {
        GitError::Message(owned("推送被拒绝（non-fast-forward）：远端分支有新提交，请先拉取并解决后再推送"))
    } else {
        GitError::Git(libgit2_message)
    }
}

/// The error of switching to the local branch of a remote branch: a libgit2
/// error names the branch; other errors pass through.
pub fn checkout_failure(error: GitError, local_name: &str) -> (r: GitError)
    ensures
        match error {
            GitError::Git(e) => r matches GitError::Message(m) && m@ == "无法切换到本地分支 "@
                + local_name@ + "："@ + e@,
            _ => r == error,
        },
{
    match error {
        GitError::Git(e) => {
            let mut m = joined("无法切换到本地分支 ", local_name);
            append_chars(&mut m, &chars_of("："));
            append_chars(&mut m, &chars_of(e.as_str()));
            GitError::Message(string_of(&m))
        },
        other => other,
    }
}

/// The checks before a remote is added: a valid name, a URL that is not
/// blank, and no remote of that name yet.
pub fn check_add_remote(name: &str, url: &str, exists: bool) -> (r: Result<(), GitError>)
    ensures
        r is Ok <==> remote_name_accepted(name@) && trim(url@).len() > 0 && !exists,
        !remote_name_accepted(name@) ==> (r matches Err(GitError::Message(m)) && m@ == "远端名称无效："@
            + name@),
        remote_name_accepted(name@) && trim(url@).len() == 0 ==> (r matches Err(GitError::Message(m))
            && m@ == "远端地址不能为空"@),
        remote_name_accepted(name@) && trim(url@).len() > 0 && exists ==> (r matches Err(
            GitError::Message(m),
        ) && m@ == "远端名称已存在："@ + name@),
{
    validate_remote_name(name)?;
    validate_remote_url(url)?;
    if exists {
        return Err(GitError::Message(string_of(&joined("远端名称已存在：", name))));
    }
    Ok(())
}

/// What an update of a remote does to its name.
#[derive(Clone, Copy, Debug, PartialEq, Eq, Structural)]
pub enum RemoteRename {
    /// The name stays: the remote must exist under it.
    Keep,
    /// The remote is renamed.
    Rename,
}

/// The checks before a remote is updated: valid old and new names, a URL
/// that is not blank, and, for a new name, no remote of that name yet.
pub fn check_update_remote(old_name: &str, new_name: &str, url: &str, new_exists: bool) -> (r:
    Result<RemoteRename, GitError>)
    ensures
        !remote_name_accepted(old_name@) ==> (r matches Err(GitError::Message(m)) && m@
            == "远端名称无效："@ + old_name@),
        remote_name_accepted(old_name@) && !remote_name_accepted(new_name@) ==> (r matches Err(
            GitError::Message(m),
        ) && m@ == "远端名称无效："@ + new_name@),
        remote_name_accepted(old_name@) && remote_name_accepted(new_name@) && trim(url@).len() == 0
            ==> (r matches Err(GitError::Message(m)) && m@ == "远端地址不能为空"@),
        remote_name_accepted(old_name@) && remote_name_accepted(new_name@) && trim(url@).len() > 0
            ==> if old_name@ == new_name@ {
            r == Ok::<RemoteRename, GitError>(RemoteRename::Keep)
        } else if new_exists {
            r matches Err(GitError::Message(m)) && m@ == "远端名称已存在："@ + new_name@
        } else {
            r == Ok::<RemoteRename, GitError>(RemoteRename::Rename)
        },
{
    validate_remote_name(old_name)?;
    validate_remote_name(new_name)?;
    validate_remote_url(url)?;
    if chars_equal(&chars_of(old_name), &chars_of(new_name)) {
        return Ok(RemoteRename::Keep);
    }
    if new_exists {
        return Err(GitError::Message(string_of(&joined("远端名称已存在：", new_name))));
    }
    Ok(RemoteRename::Rename)
}

/// The checks before a branch is created: a valid name that no local
/// branch has yet. When libgit2 fails to judge the name, its error is the
/// answer.
pub fn check_create_branch(name: &str, exists: bool) -> (r: Result<(), GitError>)
    ensures
        breaks_branch_name_rules(name@) ==> (r matches Err(GitError::InvalidBranchName(n)) && n@
            == name@),
        r is Ok ==> !breaks_branch_name_rules(name@) && libgit2_branch_name_valid(name@) && !exists,
        !libgit2_branch_name_valid(name@) || exists ==> r is Err,
        !breaks_branch_name_rules(name@) && libgit2_branch_name_valid(name@) && no_nul(name@) && !exists
            ==> r is Ok,
        r matches Err(GitError::Message(m)) ==> exists && m@ == "分支名称已存在："@ + name@,
{
    let valid = validate_branch_name(name);
    match valid {
        Err(e) => Err(e),
        Ok(()) => {
            if exists {
                return Err(GitError::Message(string_of(&joined("分支名称已存在：", name))));
            }
            Ok(())
        },
    }
}

} // verus!
