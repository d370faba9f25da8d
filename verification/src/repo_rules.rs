//! Rules the Git client applies around libgit2: which names and URLs it
//! accepts, how file states are read from status bits, how paths are handed
//! to Git, and the progress events of long operations.

use vstd::prelude::*;

use crate::error::GitError;
use crate::text::{
    append_chars, chars_of, contains_class, contains_seq, find_first, has_class, no_nul,
    owned, string_of, text_contains, trim, trim_chars, CharClass,
};

verus! {

// ------------------------------------------------------------ status bits

/// libgit2 status bits (`git_status_t`).
pub const STATUS_INDEX_NEW: u32 = 1;
pub const STATUS_INDEX_MODIFIED: u32 = 2;
pub const STATUS_INDEX_DELETED: u32 = 4;
pub const STATUS_INDEX_RENAMED: u32 = 8;
pub const STATUS_INDEX_TYPECHANGE: u32 = 16;
pub const STATUS_WT_NEW: u32 = 128;
pub const STATUS_WT_MODIFIED: u32 = 256;
pub const STATUS_WT_DELETED: u32 = 512;
pub const STATUS_WT_TYPECHANGE: u32 = 1024;
pub const STATUS_WT_RENAMED: u32 = 2048;
pub const STATUS_CONFLICTED: u32 = 32768;

/// How a file changed.
#[derive(Clone, Copy, Debug, PartialEq, Eq, Structural)]
pub enum ChangeState {
    Added,
    Modified,
    Deleted,
    Renamed,
    Typechange,
    Untracked,
    Conflicted,
}

/// Every flag of `flag` is set in `status`.
pub open spec fn has_flag(status: u32, flag: u32) -> bool {
    status & flag == flag
}

/// The state of a file in the index, from its status bits: conflicts
/// first, then renames, type changes, additions, modifications, deletions.
pub open spec fn spec_staged_state(status: u32) -> Option<ChangeState> {
    if has_flag(status, STATUS_CONFLICTED) {
        Some(ChangeState::Conflicted)
    } else if has_flag(status, STATUS_INDEX_RENAMED) {
        Some(ChangeState::Renamed)
    } else if has_flag(status, STATUS_INDEX_TYPECHANGE) {
        Some(ChangeState::Typechange)
    } else if has_flag(status, STATUS_INDEX_NEW) {
        Some(ChangeState::Added)
    } else if has_flag(status, STATUS_INDEX_MODIFIED) {
        Some(ChangeState::Modified)
    } else if has_flag(status, STATUS_INDEX_DELETED) {
        Some(ChangeState::Deleted)
    } else {
        None
    }
}

/// The state of a file in the work tree, from its status bits: conflicts
/// first, then renames, type changes, new (untracked) files, modifications,
/// deletions.
pub open spec fn spec_unstaged_state(status: u32) -> Option<ChangeState> {
    if has_flag(status, STATUS_CONFLICTED) {
        Some(ChangeState::Conflicted)
    } else if has_flag(status, STATUS_WT_RENAMED) {
        Some(ChangeState::Renamed)
    } else if has_flag(status, STATUS_WT_TYPECHANGE) {
        Some(ChangeState::Typechange)
    } else if has_flag(status, STATUS_WT_NEW) {
        Some(ChangeState::Untracked)
    } else if has_flag(status, STATUS_WT_MODIFIED) {
        Some(ChangeState::Modified)
    } else if has_flag(status, STATUS_WT_DELETED) {
        Some(ChangeState::Deleted)
    } else {
        None
    }
}

/// The index bits of a status, with the conflict bit.
pub open spec fn index_bits(status: u32) -> u32 {
    status & 0x801f
}

/// The work-tree bits of a status, with the conflict bit.
pub open spec fn worktree_bits(status: u32) -> u32 {
    status & 0x8f80
}

/// The staged state of a file reads only its index bits and the conflict
/// bit: work-tree changes never make a file staged. A file with none of
/// them is not staged; a conflict shows as such; otherwise a staged
/// modification (with no rename, type change or addition) shows as
/// modified, and a staged addition as added.
pub proof fn lemma_staged_state_reads_index(status: u32)
    ensures
        spec_staged_state(status) == spec_staged_state(index_bits(status)),
        index_bits(status) == 0 ==> spec_staged_state(status) is None,
        status & 0x8000 != 0 ==> spec_staged_state(status) == Some(ChangeState::Conflicted),
        status & 0x8000 == 0 && status & 0x1f == 2 ==> spec_staged_state(status) == Some(
            ChangeState::Modified,
        ),
        status & 0x8000 == 0 && status & 0x1f == 1 ==> spec_staged_state(status) == Some(
            ChangeState::Added,
        ),
        status & 0x8000 == 0 && status & 0x1f == 4 ==> spec_staged_state(status) == Some(
            ChangeState::Deleted,
        ),
{
    let s = status;
    let x = index_bits(status);
    assert((s & 0x801f) & 32768 == 32768 <==> s & 32768 == 32768) by (bit_vector);
    assert((s & 0x801f) & 8 == 8 <==> s & 8 == 8) by (bit_vector);
    assert((s & 0x801f) & 16 == 16 <==> s & 16 == 16) by (bit_vector);
    assert((s & 0x801f) & 1 == 1 <==> s & 1 == 1) by (bit_vector);
    assert((s & 0x801f) & 2 == 2 <==> s & 2 == 2) by (bit_vector);
    assert((s & 0x801f) & 4 == 4 <==> s & 4 == 4) by (bit_vector);
    assert(s & 0x801f == 0 ==> s & 32768 != 32768 && s & 8 != 8 && s & 16 != 16 && s & 1 != 1 && s
        & 2 != 2 && s & 4 != 4) by (bit_vector);
    assert(s & 0x8000 != 0 ==> s & 32768 == 32768) by (bit_vector);
    assert(s & 0x1f == 2 ==> s & 8 != 8 && s & 16 != 16 && s & 1 != 1 && s & 2 == 2) by (bit_vector);
    assert(s & 0x1f == 1 ==> s & 8 != 8 && s & 16 != 16 && s & 1 == 1) by (bit_vector);
    assert(s & 0x1f == 4 ==> s & 8 != 8 && s & 16 != 16 && s & 1 != 1 && s & 2 != 2 && s & 4 == 4)
        by (bit_vector);
    assert(s & 0x8000 == 0 ==> s & 32768 != 32768) by (bit_vector);
}

/// The unstaged state of a file reads only its work-tree bits and the
/// conflict bit: staging never changes it. A file with none of them has no
/// unstaged change; a work-tree modification alone shows as modified, a
/// new file alone as untracked.
pub proof fn lemma_unstaged_state_reads_worktree(status: u32)
    ensures
        spec_unstaged_state(status) == spec_unstaged_state(worktree_bits(status)),
        worktree_bits(status) == 0 ==> spec_unstaged_state(status) is None,
        status & 0x8000 != 0 ==> spec_unstaged_state(status) == Some(ChangeState::Conflicted),
        status & 0x8000 == 0 && status & 0xf80 == 256 ==> spec_unstaged_state(status) == Some(
            ChangeState::Modified,
        ),
        status & 0x8000 == 0 && status & 0xf80 == 128 ==> spec_unstaged_state(status) == Some(
            ChangeState::Untracked,
        ),
        status & 0x8000 == 0 && status & 0xf80 == 512 ==> spec_unstaged_state(status) == Some(
            ChangeState::Deleted,
        ),
{
    let s = status;
    assert((s & 0x8f80) & 32768 == 32768 <==> s & 32768 == 32768) by (bit_vector);
    assert((s & 0x8f80) & 2048 == 2048 <==> s & 2048 == 2048) by (bit_vector);
    assert((s & 0x8f80) & 1024 == 1024 <==> s & 1024 == 1024) by (bit_vector);
    assert((s & 0x8f80) & 128 == 128 <==> s & 128 == 128) by (bit_vector);
    assert((s & 0x8f80) & 256 == 256 <==> s & 256 == 256) by (bit_vector);
    assert((s & 0x8f80) & 512 == 512 <==> s & 512 == 512) by (bit_vector);
    assert(s & 0x8f80 == 0 ==> s & 32768 != 32768 && s & 2048 != 2048 && s & 1024 != 1024 && s & 128
        != 128 && s & 256 != 256 && s & 512 != 512) by (bit_vector);
    assert(s & 0x8000 != 0 ==> s & 32768 == 32768) by (bit_vector);
    assert(s & 0xf80 == 256 ==> s & 2048 != 2048 && s & 1024 != 1024 && s & 128 != 128 && s & 256
        == 256) by (bit_vector);
    assert(s & 0xf80 == 128 ==> s & 2048 != 2048 && s & 1024 != 1024 && s & 128 == 128) by (bit_vector);
    assert(s & 0xf80 == 512 ==> s & 2048 != 2048 && s & 1024 != 1024 && s & 128 != 128 && s & 256
        != 256 && s & 512 == 512) by (bit_vector);
    assert(s & 0x8000 == 0 ==> s & 32768 != 32768) by (bit_vector);
}

/// The state of a file in the index.
pub fn staged_state(status: u32) -> (r: Option<ChangeState>)
    ensures
        r == spec_staged_state(status),
{
    if status & STATUS_CONFLICTED == STATUS_CONFLICTED {
        Some(ChangeState::Conflicted)
    } else if status & STATUS_INDEX_RENAMED == STATUS_INDEX_RENAMED {
        Some(ChangeState::Renamed)
    } else if status & STATUS_INDEX_TYPECHANGE == STATUS_INDEX_TYPECHANGE {
        Some(ChangeState::Typechange)
    } else if status & STATUS_INDEX_NEW == STATUS_INDEX_NEW {
        Some(ChangeState::Added)
    } else if status & STATUS_INDEX_MODIFIED == STATUS_INDEX_MODIFIED {
        Some(ChangeState::Modified)
    } else if status & STATUS_INDEX_DELETED == STATUS_INDEX_DELETED {
        Some(ChangeState::Deleted)
    } else {
        None
    }
}

/// The state of a file in the work tree.
pub fn unstaged_state(status: u32) -> (r: Option<ChangeState>)
    ensures
        r == spec_unstaged_state(status),
{
    if status & STATUS_CONFLICTED == STATUS_CONFLICTED {
        Some(ChangeState::Conflicted)
    } else if status & STATUS_WT_RENAMED == STATUS_WT_RENAMED {
        Some(ChangeState::Renamed)
    } else if status & STATUS_WT_TYPECHANGE == STATUS_WT_TYPECHANGE {
        Some(ChangeState::Typechange)
    } else if status & STATUS_WT_NEW == STATUS_WT_NEW {
        Some(ChangeState::Untracked)
    } else if status & STATUS_WT_MODIFIED == STATUS_WT_MODIFIED {
        Some(ChangeState::Modified)
    } else if status & STATUS_WT_DELETED == STATUS_WT_DELETED {
        Some(ChangeState::Deleted)
    } else {
        None
    }
}

/// The kind of change of a diff delta (`git_delta_t`).
#[derive(Clone, Copy, Debug, PartialEq, Eq, Structural)]
pub enum DeltaStatus {
    Unmodified,
    Added,
    Deleted,
    Modified,
    Renamed,
    Copied,
    Ignored,
    Untracked,
    Typechange,
    Unreadable,
    Conflicted,
}

/// The state shown for a diff delta: additions, deletions, renames, type
/// changes and conflicts as such, everything else as a modification.
pub fn change_state_from_delta(delta: DeltaStatus) -> (r: ChangeState)
    ensures
        r == (match delta {
            DeltaStatus::Added => ChangeState::Added,
            DeltaStatus::Deleted => ChangeState::Deleted,
            DeltaStatus::Renamed => ChangeState::Renamed,
            DeltaStatus::Typechange => ChangeState::Typechange,
            DeltaStatus::Conflicted => ChangeState::Conflicted,
            _ => ChangeState::Modified,
        }),
{
    match delta {
        DeltaStatus::Added => ChangeState::Added,
        DeltaStatus::Deleted => ChangeState::Deleted,
        DeltaStatus::Renamed => ChangeState::Renamed,
        DeltaStatus::Typechange => ChangeState::Typechange,
        DeltaStatus::Conflicted => ChangeState::Conflicted,
        _ => ChangeState::Modified,
    }
}

/// The kind of a reference shown next to a commit.
#[derive(Clone, Copy, Debug, PartialEq, Eq, Structural)]
pub enum CommitRefKind {
    Head,
    LocalBranch,
    RemoteBranch,
    Tag,
}

/// The order in which reference labels are shown: `HEAD`, local branches,
/// remote branches, tags.
pub fn ref_kind_order(kind: &CommitRefKind) -> (r: u8)
    ensures
        r == (match *kind {
            CommitRefKind::Head => 0u8,
            CommitRefKind::LocalBranch => 1u8,
            CommitRefKind::RemoteBranch => 2u8,
            CommitRefKind::Tag => 3u8,
        }),
{
    match kind {
        CommitRefKind::Head => 0,
        CommitRefKind::LocalBranch => 1,
        CommitRefKind::RemoteBranch => 2,
        CommitRefKind::Tag => 3,
    }
}

// ------------------------------------------------------------ names and URLs

/// A remote URL must not be blank.
pub fn validate_remote_url(url: &str) -> (r: Result<(), GitError>)
    ensures
        trim(url@).len() > 0 <==> r is Ok,
        trim(url@).len() == 0 ==> (r matches Err(GitError::Message(m)) && m@ == "远端地址不能为空"@),
{
    let chars = chars_of(url);
    let trimmed = trim_chars(&chars, CharClass::WhiteSpace);
    if trimmed.len() == 0 {
        return Err(GitError::Message(owned("远端地址不能为空")));
    }
    Ok(())
}

/// The remote and branch of a remote branch name `remote/branch`, split at
/// the first `/`; both parts must not be blank.
pub fn remote_branch_name_parts(name: &str) -> (r: Result<(String, String), GitError>)
    ensures
        ({
            let s = name@;
            let k = crate::text::first_in_class(s, CharClass::Slash);
            if k < s.len() && trim(s.take(k)).len() > 0 && trim(s.skip(k + 1)).len() > 0 {
                r matches Ok((remote, branch)) && remote@ == s.take(k) && branch@ == s.skip(k + 1)
            } else {
                r matches Err(GitError::InvalidBranchName(n)) && n@ == s
            }
        }),
{
    let chars = chars_of(name);
    let k = find_first(&chars, CharClass::Slash);
    if k < chars.len() {
        let remote = crate::text::copy_range(&chars, 0, k);
        let branch = crate::text::copy_range(&chars, k + 1, chars.len());
        assert(remote@ =~= name@.take(k as int));
        assert(branch@ =~= name@.skip(k + 1));
        let remote_trimmed = trim_chars(&remote, CharClass::WhiteSpace);
        let branch_trimmed = trim_chars(&branch, CharClass::WhiteSpace);
        if remote_trimmed.len() > 0 && branch_trimmed.len() > 0 {
            return Ok((string_of(&remote), string_of(&branch)));
        }
    }
    Err(GitError::InvalidBranchName(owned(name)))
}

/// Whether libgit2 accepts a branch name (`git_branch_name_is_valid`).
pub uninterp spec fn libgit2_branch_name_valid(name: Seq<char>) -> bool;

/// Whether libgit2 accepts a reference name (`git_reference_name_is_valid`).
pub uninterp spec fn libgit2_reference_name_valid(name: Seq<char>) -> bool;

/// `git2::Branch::name_is_valid`: libgit2's verdict on a branch name. The
/// call fails for a name with a NUL character and when libgit2 runs out of
/// memory; a name without NUL gets a verdict (memory exhaustion aside). The
/// message of an error is not stated.
#[verifier::external_body]
fn branch_name_is_valid(name: &str) -> (r: Result<bool, String>)
    ensures
        r matches Ok(valid) ==> valid == libgit2_branch_name_valid(name@),
        no_nul(name@) ==> r is Ok,
{
    git2::Branch::name_is_valid(name).map_err(|err| err.message().to_string())
}

/// `git2::Reference::is_valid_name`: libgit2's verdict on a reference name
/// (false for a name with a NUL character).
#[verifier::external_body]
fn reference_name_is_valid(name: &str) -> (r: bool)
    ensures
        r == libgit2_reference_name_valid(name@),
{
    git2::Reference::is_valid_name(name)
}

/// The name breaks one of the client's own rules for branch names: blank,
/// with a backslash, or starting with `-`.
pub open spec fn breaks_branch_name_rules(name: Seq<char>) -> bool {
    ||| trim(name).len() == 0
    ||| has_class(name, CharClass::Backslash)
    ||| (name.len() > 0 && name[0] == '-')
}

/// The verdict on a branch name given libgit2's answer: refused when it
/// breaks the client's rules or libgit2 finds it invalid, the libgit2 error
/// when libgit2 failed, accepted otherwise.
pub fn branch_name_verdict(name: &str, libgit2_answer: Result<bool, String>) -> (r: Result<
    (),
    GitError,
>)
    ensures
        breaks_branch_name_rules(name@) ==> (r matches Err(GitError::InvalidBranchName(n)) && n@
            == name@),
        !breaks_branch_name_rules(name@) ==> match libgit2_answer {
            Ok(true) => r is Ok,
            Ok(false) => r matches Err(GitError::InvalidBranchName(n)) && n@ == name@,
            Err(m) => r matches Err(GitError::Git(e)) && e@ == m@,
        },
{
    let chars = chars_of(name);
    let trimmed = trim_chars(&chars, CharClass::WhiteSpace);
    let dash = chars.len() > 0 && chars[0] == '-';
    if trimmed.len() == 0 || contains_class(&chars, CharClass::Backslash) || dash {
        return Err(GitError::InvalidBranchName(owned(name)));
    }
    match libgit2_answer {
        Ok(true) => Ok(()),
        Ok(false) => Err(GitError::InvalidBranchName(owned(name))),
        Err(message) => Err(GitError::Git(message)),
    }
}

/// Checks a new branch name: the client's own rules first, then libgit2's.
pub fn validate_branch_name(name: &str) -> (r: Result<(), GitError>)
    ensures
        breaks_branch_name_rules(name@) ==> (r matches Err(GitError::InvalidBranchName(n)) && n@
            == name@),
        r is Ok ==> !breaks_branch_name_rules(name@) && libgit2_branch_name_valid(name@),
        !breaks_branch_name_rules(name@) && !libgit2_branch_name_valid(name@) ==> r is Err,
        r matches Err(e) ==> e is InvalidBranchName || e is Git,
        !breaks_branch_name_rules(name@) && libgit2_branch_name_valid(name@) && no_nul(name@) ==> r is Ok,
{
    let chars = chars_of(name);
    let trimmed = trim_chars(&chars, CharClass::WhiteSpace);
    let dash = chars.len() > 0 && chars[0] == '-';
    if trimmed.len() == 0 || contains_class(&chars, CharClass::Backslash) || dash {
        return Err(GitError::InvalidBranchName(owned(name)));
    }
    let answer = branch_name_is_valid(name);
    branch_name_verdict(name, answer)
}

/// The reference a remote's `HEAD` would have: `refs/remotes/<name>/HEAD`.
pub open spec fn remote_head_ref(name: Seq<char>) -> Seq<char> {
    "refs/remotes/"@ + name + "/HEAD"@
}

/// A remote name is accepted when, trimmed, it is not blank, holds no white
/// space or backslash, does not start with `-`, and makes a valid reference
/// name for its `HEAD`.
pub open spec fn remote_name_accepted(name: Seq<char>) -> bool {
    let t = trim(name);
    &&& t.len() > 0
    &&& !has_class(t, CharClass::WhiteSpace)
    &&& !has_class(t, CharClass::Backslash)
    &&& t[0] != '-'
    &&& libgit2_reference_name_valid(remote_head_ref(t))
}

/// Checks a remote name.
pub fn validate_remote_name(name: &str) -> (r: Result<(), GitError>)
    ensures
        remote_name_accepted(name@) <==> r is Ok,
        !remote_name_accepted(name@) ==> (r matches Err(GitError::Message(m)) && m@ == "远端名称无效："@
            + name@),
{
    let chars = chars_of(name);
    let trimmed = trim_chars(&chars, CharClass::WhiteSpace);
    let mut refname = chars_of("refs/remotes/");
    append_chars(&mut refname, &trimmed);
    append_chars(&mut refname, &chars_of("/HEAD"));
    let refname = string_of(&refname);
    let accepted = trimmed.len() > 0 && !contains_class(&trimmed, CharClass::WhiteSpace)
        && !contains_class(&trimmed, CharClass::Backslash) && trimmed[0] != '-'
        && reference_name_is_valid(refname.as_str());
    if !accepted {
        let mut message = chars_of("远端名称无效：");
        append_chars(&mut message, &chars);
        return Err(GitError::Message(string_of(&message)));
    }
    Ok(())
}

/// The message when a remote asks for credentials and none is given.
pub fn authentication_required_message(url: &str) -> (r: String)
    ensures
        r@ == "访问 "@ + url@ + " 需要身份验证"@,
{
    let mut message = chars_of("访问 ");
    append_chars(&mut message, &chars_of(url));
    append_chars(&mut message, &chars_of(" 需要身份验证"));
    string_of(&message)
}

/// A libgit2 error that means the repository has no commit yet: its code is
/// "unborn branch" or "not found", or its message names a missing branch
/// reference.
pub fn is_empty_head_error(unborn_or_not_found: bool, message: &str) -> (r: bool)
    ensures
        r == (unborn_or_not_found || contains_seq(message@, "reference 'refs/heads/"@)),
{
    unborn_or_not_found || text_contains(message, "reference 'refs/heads/")
}

// ------------------------------------------------------------ paths

/// The kind of a component of a file path.
#[derive(Clone, Copy, Debug, PartialEq, Eq, Structural)]
pub enum PathPartKind {
    /// A Windows prefix such as `C:`.
    Prefix,
    /// The root directory.
    RootDir,
    /// `.`
    CurDir,
    /// `..`
    ParentDir,
    /// A file or directory name.
    Normal,
}

/// A component of a file path and its text.
#[derive(Clone, Debug)]
pub struct PathPart {
    pub kind: PathPartKind,
    pub text: String,
}

/// The `/`-separated segments of a text, empty ones included (`a//b/`
/// has the segments `a`, ``, `b` and ``).
pub open spec fn slash_segments(p: Seq<char>) -> Seq<Seq<char>>
    decreases p.len(),
{
    if p.len() == 0 {
        seq![Seq::<char>::empty()]
    } else {
        let rest = slash_segments(p.drop_last());
        if p.last() == '/' {
            rest.push(Seq::<char>::empty())
        } else {
            rest.drop_last().push(rest.last().push(p.last()))
        }
    }
}

/// Segments joined with `/`.
pub open spec fn join_slash(segs: Seq<Seq<char>>) -> Seq<char>
    decreases segs.len(),
{
    if segs.len() == 0 {
        Seq::empty()
    } else if segs.len() == 1 {
        segs[0]
    } else {
        join_slash(segs.drop_last()) + "/"@ + segs.last()
    }
}

/// A path whose only separator on every platform is `/` and which has no
/// root or prefix: no `\`, no `:`, and it does not start with `/`.
pub open spec fn plain_relative_path(p: Seq<char>) -> bool {
    &&& !p.contains('\\')
    &&& !p.contains(':')
    &&& (p.len() == 0 || p[0] != '/')
}

/// A plain relative path whose segments are all names: none is empty, `.`
/// or `..`.
pub open spec fn simple_relative_path(p: Seq<char>) -> bool {
    &&& plain_relative_path(p)
    &&& forall|i: int|
        0 <= i < slash_segments(p).len() ==> #[trigger] slash_segments(p)[i].len() > 0
            && slash_segments(p)[i] != "."@ && slash_segments(p)[i] != ".."@
}

/// The component, if any, that a segment of a plain relative path gives,
/// as `Path::components` documents it: empty segments and `.` are dropped,
/// except a `.` at the beginning, which is the current directory; `..` is
/// the parent directory; anything else is a name.
pub open spec fn segment_part(s: Seq<char>, first: bool) -> Seq<(PathPartKind, Seq<char>)> {
    if s.len() == 0 {
        Seq::empty()
    } else if s == "."@ {
        if first {
            seq![(PathPartKind::CurDir, s)]
        } else {
            Seq::empty()
        }
    } else if s == ".."@ {
        seq![(PathPartKind::ParentDir, s)]
    } else {
        seq![(PathPartKind::Normal, s)]
    }
}

/// The components that the segments give, in order.
pub open spec fn segments_parts(segs: Seq<Seq<char>>) -> Seq<(PathPartKind, Seq<char>)>
    decreases segs.len(),
{
    if segs.len() == 0 {
        Seq::empty()
    } else {
        segments_parts(segs.drop_last()) + segment_part(segs.last(), segs.len() == 1)
    }
}

/// The components of a plain relative path.
pub open spec fn plain_path_parts(p: Seq<char>) -> Seq<(PathPartKind, Seq<char>)> {
    segments_parts(slash_segments(p))
}

/// Each part as its kind and its text.
pub open spec fn parts_view(parts: Seq<PathPart>) -> Seq<(PathPartKind, Seq<char>)> {
    parts.map_values(|part: PathPart| (part.kind, part.text@))
}

/// The texts of the parts joined with `/`.
pub open spec fn joined_texts(parts: Seq<(PathPartKind, Seq<char>)>) -> Seq<char>
    decreases parts.len(),
{
    if parts.len() == 0 {
        Seq::empty()
    } else if parts.len() == 1 {
        parts[0].1
    } else {
        joined_texts(parts.drop_last()) + "/"@ + parts.last().1
    }
}

/// A text has at least one segment, and joining its segments gives it back.
pub proof fn lemma_join_slash_segments(p: Seq<char>)
    ensures
        slash_segments(p).len() >= 1,
        join_slash(slash_segments(p)) == p,
    decreases p.len(),
{
    reveal_strlit("/");
    if p.len() > 0 {
        let q = p.drop_last();
        lemma_join_slash_segments(q);
        let rest = slash_segments(q);
        let c = p.last();
        assert(p =~= q.push(c));
        if c == '/' {
            let segs = rest.push(Seq::<char>::empty());
            assert(segs.drop_last() =~= rest);
            assert(join_slash(segs) =~= q + "/"@ + Seq::<char>::empty());
        } else {
            let segs = rest.drop_last().push(rest.last().push(c));
            assert(segs.drop_last() =~= rest.drop_last());
            if rest.len() == 1 {
                assert(join_slash(segs) == segs[0]);
                assert(segs[0] =~= q.push(c));
            } else {
                assert(join_slash(segs) == join_slash(rest.drop_last()) + "/"@ + rest.last().push(c));
                assert(join_slash(rest) == join_slash(rest.drop_last()) + "/"@ + rest.last());
                assert(join_slash(segs) =~= p);
            }
        }
    }
}

proof fn lemma_segments_parts_names(segs: Seq<Seq<char>>)
    requires
        forall|i: int|
            0 <= i < segs.len() ==> #[trigger] segs[i].len() > 0 && segs[i] != "."@ && segs[i] != ".."@,
    ensures
        segments_parts(segs).len() == segs.len(),
        joined_texts(segments_parts(segs)) == join_slash(segs),
        forall|i: int|
            0 <= i < segs.len() ==> (#[trigger] segments_parts(segs)[i]).0 == PathPartKind::Normal,
    decreases segs.len(),
{
    if segs.len() > 0 {
        let init = segs.drop_last();
        assert forall|i: int| 0 <= i < init.len() implies #[trigger] init[i].len() > 0 && init[i]
            != "."@ && init[i] != ".."@ by {
            assert(init[i] == segs[i]);
        }
        lemma_segments_parts_names(init);
        let last = segs.last();
        assert(segs[segs.len() - 1] == last);
        let sp = segments_parts(segs);
        assert(segment_part(last, segs.len() == 1) == seq![(PathPartKind::Normal, last)]);
        assert(sp == segments_parts(init).push((PathPartKind::Normal, last)));
        assert(sp.drop_last() =~= segments_parts(init));
        assert forall|i: int| 0 <= i < segs.len() implies (#[trigger] sp[i]).0 == PathPartKind::Normal by {
            if i < init.len() {
                assert(sp[i] == segments_parts(init)[i]);
            }
        }
    }
}

/// Whether a component is a plain name.
pub open spec fn is_name_part(part: (PathPartKind, Seq<char>)) -> bool {
    part.0 == PathPartKind::Normal
}

/// Every component of the segments is a name exactly when no segment is
/// `..` and the first is not `.`.
proof fn lemma_segments_parts_all_names(segs: Seq<Seq<char>>)
    ensures
        (forall|i: int|
            0 <= i < segments_parts(segs).len() ==> is_name_part(#[trigger] segments_parts(segs)[i]))
            <==> (!segs.contains(".."@) && (segs.len() == 0 || segs[0] != "."@)),
    decreases segs.len(),
{
    reveal_strlit(".");
    reveal_strlit("..");
    if segs.len() > 0 {
        let init = segs.drop_last();
        lemma_segments_parts_all_names(init);
        let last = segs.last();
        let a = segments_parts(init);
        let b = segment_part(last, segs.len() == 1);
        let sp = segments_parts(segs);
        assert(sp == a + b);
        assert(segs =~= init.push(last));
        if forall|i: int| 0 <= i < sp.len() ==> is_name_part(#[trigger] sp[i]) {
            assert forall|i: int| 0 <= i < a.len() implies is_name_part(#[trigger] a[i]) by {
                assert(sp[i] == a[i]);
            }
            if b.len() > 0 {
                assert(sp[a.len() as int] == b[0]);
            }
            assert(last != ".."@);
            if segs.len() == 1 {
                assert(segs[0] == last);
            } else {
                assert(segs[0] == init[0]);
            }
            if segs.contains(".."@) {
                let k = choose|k: int| 0 <= k < segs.len() && segs[k] == ".."@;
                if k < init.len() {
                    assert(init[k] == segs[k]);
                }
            }
        }
        if !segs.contains(".."@) && (segs.len() == 0 || segs[0] != "."@) {
            assert(!init.contains(".."@)) by {
                if init.contains(".."@) {
                    let k = choose|k: int| 0 <= k < init.len() && init[k] == ".."@;
                    assert(segs[k] == init[k]);
                }
            }
            assert(segs[segs.len() - 1] == last);
            if segs.len() > 1 {
                assert(init[0] == segs[0]);
            }
            assert forall|i: int| 0 <= i < sp.len() implies is_name_part(#[trigger] sp[i]) by {
                if i < a.len() {
                    assert(sp[i] == a[i]);
                } else {
                    assert(sp[i] == b[i - a.len()]);
                }
            }
        }
    }
}

proof fn lemma_joined_parts_view(parts: Seq<PathPart>)
    ensures
        joined_parts(parts) == joined_texts(parts_view(parts)),
        parts_view(parts).len() == parts.len(),
    decreases parts.len(),
{
    if parts.len() > 0 {
        lemma_joined_parts_view(parts.drop_last());
        assert(parts_view(parts.drop_last()) =~= parts_view(parts).drop_last());
    }
}

/// `std::path::Path::components`, each component with its kind and its
/// text (lossily converted). How a path splits depends on the platform, so
/// only what holds on every platform is stated: an empty path has no
/// components; one that starts with `/` and then a character other than
/// `/` or `\` starts with the root directory; and a path with no `\`, no
/// `:` and no leading `/` splits at `/` as the documentation of
/// `components` describes (see `plain_path_parts`).
#[verifier::external_body]
pub fn path_parts(path: &str) -> (r: Vec<PathPart>)
    ensures
        path@.len() == 0 ==> r@.len() == 0,
        path@.len() >= 2 && path@[0] == '/' && path@[1] != '/' && path@[1] != '\\' ==> r@.len() > 0
            && r@[0].kind == PathPartKind::RootDir,
        plain_relative_path(path@) ==> parts_view(r@) == plain_path_parts(path@),
{
    std::path::Path::new(path).components().map(|component| PathPart {
        kind: match component {
            std::path::Component::Prefix(_) => PathPartKind::Prefix,
            std::path::Component::RootDir => PathPartKind::RootDir,
            std::path::Component::CurDir => PathPartKind::CurDir,
            std::path::Component::ParentDir => PathPartKind::ParentDir,
            std::path::Component::Normal(_) => PathPartKind::Normal,
        },
        text: component.as_os_str().to_string_lossy().to_string(),
    }).collect()
}

/// The texts of the parts joined with `/`.
pub open spec fn joined_parts(parts: Seq<PathPart>) -> Seq<char>
    decreases parts.len(),
{
    if parts.len() == 0 {
        Seq::empty()
    } else if parts.len() == 1 {
        parts[0].text@
    } else {
        joined_parts(parts.drop_last()) + "/"@ + parts.last().text@
    }
}

/// The texts of the parts joined with `/`: the path as Git writes it.
pub fn join_path_parts(parts: &[PathPart]) -> (r: String)
    ensures
        r@ == joined_parts(parts@),
{
    let mut out: Vec<char> = Vec::new();
    let slash = chars_of("/");
    let mut i: usize = 0;
    while i < parts.len()
        invariant
            0 <= i <= parts.len(),
            slash@ == "/"@,
            out@ == joined_parts(parts@.take(i as int)),
        decreases parts.len() - i,
    {
        proof {
            assert(parts@.take(i + 1).drop_last() =~= parts@.take(i as int));
            assert(parts@.take(i + 1).last() == parts@[i as int]);
        }
        if i > 0 {
            append_chars(&mut out, &slash);
        } else {
            assert(parts@.take(0) =~= Seq::<PathPart>::empty());
            assert(out@ =~= Seq::<char>::empty());
        }
        append_chars(&mut out, &chars_of(parts[i].text.as_str()));
        i = i + 1;
    }
    assert(parts@.take(parts@.len() as int) =~= parts@);
    string_of(&out)
}

/// A path as Git writes it: its components joined with `/`.
pub fn path_to_git(path: &str) -> (r: String)
    ensures
        path@.len() == 0 ==> r@.len() == 0,
        plain_relative_path(path@) ==> r@ == joined_texts(plain_path_parts(path@)),
        simple_relative_path(path@) ==> r@ == path@,
{
    let parts = path_parts(path);
    let r = join_path_parts(&parts);
    proof {
        lemma_joined_parts_view(parts@);
        if simple_relative_path(path@) {
            lemma_segments_parts_names(slash_segments(path@));
            lemma_join_slash_segments(path@);
        }
    }
    r
}

/// Whether every part is a plain name.
pub open spec fn all_normal(parts: Seq<PathPart>) -> bool {
    forall|i: int| 0 <= i < parts.len() ==> (#[trigger] parts[i]).kind == PathPartKind::Normal
}

/// The verdict on a path inside the work tree, from its parts: accepted
/// when every part is a plain name, else an error naming the refused action.
pub fn check_worktree_relative(parts: &[PathPart], action: &str) -> (r: Result<(), GitError>)
    ensures
        all_normal(parts@) <==> r is Ok,
        !all_normal(parts@) ==> (r matches Err(GitError::Message(m)) && m@ == "文件路径无效，"@ + action@),
{
    let mut i: usize = 0;
    while i < parts.len()
        invariant
            0 <= i <= parts.len(),
            forall|j: int| 0 <= j < i ==> (#[trigger] parts@[j]).kind == PathPartKind::Normal,
        decreases parts.len() - i,
    {
        if parts[i].kind != PathPartKind::Normal {
            let mut message = chars_of("文件路径无效，");
            append_chars(&mut message, &chars_of(action));
            return Err(GitError::Message(string_of(&message)));
        }
        i = i + 1;
    }
    Ok(())
}

/// Refuses a path that leaves the work tree or is absolute: every component
/// must be a plain name.
pub fn ensure_worktree_relative_path(path: &str, action: &str) -> (r: Result<(), GitError>)
    ensures
        path@.len() == 0 ==> r is Ok,
        path@.len() >= 2 && path@[0] == '/' && path@[1] != '/' && path@[1] != '\\' ==> r is Err,
        plain_relative_path(path@) ==> (r is Ok <==> !slash_segments(path@).contains(".."@)
            && slash_segments(path@)[0] != "."@),
        r is Err ==> (r matches Err(GitError::Message(m)) && m@ == "文件路径无效，"@ + action@),
{
    let parts = path_parts(path);
    let r = check_worktree_relative(&parts, action);
    proof {
        lemma_join_slash_segments(path@);
        if plain_relative_path(path@) {
            let pv = parts_view(parts@);
            lemma_segments_parts_all_names(slash_segments(path@));
            assert(all_normal(parts@) <==> forall|i: int| 0 <= i < pv.len() ==> is_name_part(#[trigger] pv[i]))
                by {
                if all_normal(parts@) {
                    assert forall|i: int| 0 <= i < pv.len() implies is_name_part(#[trigger] pv[i]) by {
                        assert(pv[i] == (parts@[i].kind, parts@[i].text@));
                    }
                }
                if forall|i: int| 0 <= i < pv.len() ==> is_name_part(#[trigger] pv[i]) {
                    assert forall|i: int| 0 <= i < parts@.len() implies (#[trigger] parts@[i]).kind
                        == PathPartKind::Normal by {
                        assert(pv[i] == (parts@[i].kind, parts@[i].text@));
                        assert(is_name_part(pv[i]));
                    }
                }
            }
        }
    }
    r
}

// ------------------------------------------------------------ progress

/// A step of a long remote operation.
#[derive(Clone, Debug, PartialEq, Eq)]
pub enum OperationEvent {
    Started(String),
    Finished(String),
}

/// Receives the progress of long operations.
pub trait ProgressEmitter {
    fn emit(&self, event: OperationEvent);
}

/// Progress that goes nowhere.
#[derive(Clone, Copy, Debug, Default)]
pub struct NoopProgress;

impl ProgressEmitter for NoopProgress {
    fn emit(&self, event: OperationEvent) {
    }
}

} // verus!
