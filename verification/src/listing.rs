//! The orders of the lists that the repository view shows: the branch list
//! (local branches first, then remote ones, each by name) and the list of
//! conflicted paths (sorted, each once).

use vstd::prelude::*;

use crate::error::GitError;
use crate::repo_rules::{
    spec_staged_state, spec_unstaged_state, staged_state, unstaged_state, ChangeState,
};
use crate::lookup::{first_match, is_first_match, lemma_first_match_cases, lemma_first_match_is};
use crate::text::{
    clone_opt_string, lemma_seq_less_irreflexive, lemma_seq_less_total, lemma_seq_less_transitive,
    owned, same_text, seq_less, text_less,
};

verus! {

/// Whether a branch is local or remote-tracking.
#[derive(Clone, Copy, Debug, PartialEq, Eq, Structural)]
pub enum BranchKind {
    Local,
    Remote,
}

/// A branch of the branch list.
#[derive(Debug)]
pub struct BranchInfo {
    pub name: String,
    pub kind: BranchKind,
    pub is_head: bool,
    pub upstream: Option<String>,
    pub ahead: Option<usize>,
    pub behind: Option<usize>,
}

impl BranchInfo {
    /// A copy of the entry.
    pub fn duplicate(&self) -> (r: Self)
        ensures
            r == *self,
    {
        BranchInfo {
            name: self.name.clone(),
            kind: self.kind,
            is_head: self.is_head,
            upstream: clone_opt_string(&self.upstream),
            ahead: self.ahead,
            behind: self.behind,
        }
    }
}

/// Branch list order: local branches before remote ones, then by name.
pub open spec fn branch_before(a: BranchInfo, b: BranchInfo) -> bool {
    ||| a.kind == BranchKind::Local && b.kind == BranchKind::Remote
    ||| a.kind == b.kind && seq_less(a.name@, b.name@)
}

/// The branch list order is a strict order.
pub proof fn lemma_branch_before_strict(a: BranchInfo, b: BranchInfo, c: BranchInfo)
    ensures
        !branch_before(a, a),
        branch_before(a, b) && branch_before(b, c) ==> branch_before(a, c),
        branch_before(a, b) ==> !branch_before(b, a),
{
    lemma_seq_less_irreflexive(a.name@);
    lemma_seq_less_transitive(a.name@, b.name@, c.name@);
    lemma_seq_less_transitive(a.name@, b.name@, a.name@);
}

fn branch_listed_before(a: &BranchInfo, b: &BranchInfo) -> (r: bool)
    ensures
        r == branch_before(*a, *b),
{
    match (a.kind, b.kind) {
        (BranchKind::Local, BranchKind::Remote) => true,
        (BranchKind::Remote, BranchKind::Local) => false,
        _ => text_less(a.name.as_str(), b.name.as_str()),
    }
}

/// Where a stable sort puts `x` after the already sorted `sorted`: before
/// the first branch that `x` is listed before.
pub open spec fn branch_insertion_point(sorted: Seq<BranchInfo>, x: BranchInfo) -> int {
    let p = first_match(sorted, |e: BranchInfo| branch_before(x, e));
    if p < 0 {
        sorted.len() as int
    } else {
        p
    }
}

/// The branches in list order; branches that compare equal keep their
/// order.
pub open spec fn sorted_branches(s: Seq<BranchInfo>) -> Seq<BranchInfo>
    decreases s.len(),
{
    if s.len() == 0 {
        s
    } else {
        let rest = sorted_branches(s.drop_last());
        rest.insert(branch_insertion_point(rest, s.last()), s.last())
    }
}

/// Sorts the branch list (a stable sort): local branches first, then
/// remote ones, each group by name.
pub fn sort_branches(branches: &mut Vec<BranchInfo>)
    ensures
        final(branches)@ == sorted_branches(old(branches)@),
{
    let mut sorted: Vec<BranchInfo> = Vec::new();
    let mut i: usize = 0;
    while i < branches.len()
        invariant
            0 <= i <= branches.len(),
            branches@ == old(branches)@,
            sorted@ == sorted_branches(branches@.take(i as int)),
        decreases branches.len() - i,
    {
        let x = branches[i].duplicate();
        let mut p: usize = 0;
        while p < sorted.len() && !branch_listed_before(&x, &sorted[p])
            invariant
                0 <= p <= sorted.len(),
                forall|j: int| 0 <= j < p ==> !branch_before(x, #[trigger] sorted@[j]),
            decreases sorted.len() - p,
        {
            p = p + 1;
        }
        proof {
            let pred = |e: BranchInfo| branch_before(x, e);
            if p < sorted.len() {
                assert(is_first_match(sorted@, pred, p as int));
                lemma_first_match_is(sorted@, pred, p as int);
            } else {
                crate::lookup::lemma_first_match_none(sorted@, pred);
            }
            assert(branches@.take(i + 1).drop_last() =~= branches@.take(i as int));
            assert(branches@.take(i + 1).last() == branches@[i as int]);
        }
        sorted.insert(p, x);
        i = i + 1;
    }
    proof {
        assert(branches@.take(branches@.len() as int) =~= branches@);
    }
    *branches = sorted;
}

/// The sorted branch list is in list order: no branch comes after one that
/// it is listed before.
pub proof fn lemma_sorted_branches_in_order(s: Seq<BranchInfo>)
    ensures
        forall|i: int, j: int|
            0 <= i < j < sorted_branches(s).len() ==> !branch_before(
                #[trigger] sorted_branches(s)[j],
                #[trigger] sorted_branches(s)[i],
            ),
    decreases s.len(),
{
    if s.len() > 0 {
        let rest = sorted_branches(s.drop_last());
        lemma_sorted_branches_in_order(s.drop_last());
        let x = s.last();
        let pred = |e: BranchInfo| branch_before(x, e);
        let p = branch_insertion_point(rest, x);
        lemma_first_match_cases(rest, pred);
        let out = rest.insert(p, x);
        assert(out == sorted_branches(s));
        assert forall|i: int, j: int| 0 <= i < j < out.len() implies !branch_before(
            #[trigger] out[j],
            #[trigger] out[i],
        ) by {
            if j < p {
                assert(out[i] == rest[i] && out[j] == rest[j]);
                assert(!branch_before(rest[j], rest[i]));
            } else if j == p {
                assert(out[i] == rest[i]);
                assert(!pred(rest[i]));
            } else if i > p {
                assert(out[i] == rest[i - 1] && out[j] == rest[j - 1]);
                assert(!branch_before(rest[j - 1], rest[i - 1]));
            } else if i == p {
                assert(out[j] == rest[j - 1]);
                assert(pred(rest[p]));
                if j - 1 > p {
                    assert(!branch_before(rest[j - 1], rest[p]));
                }
                lemma_branch_before_strict(rest[j - 1], x, rest[p]);
                lemma_branch_before_strict(x, rest[p], rest[p]);
                lemma_branch_before_strict(rest[p], rest[j - 1], x);
                lemma_branch_not_before_total(rest[p], rest[j - 1]);
                lemma_branch_before_strict(x, rest[p], rest[j - 1]);
            } else {
                assert(out[i] == rest[i] && out[j] == rest[j - 1]);
                assert(!branch_before(rest[j - 1], rest[i]));
            }
        }
    }
}

/// Two branches neither of which is listed before the other have the same
/// kind and name.
proof fn lemma_branch_not_before_total(a: BranchInfo, b: BranchInfo)
    ensures
        !branch_before(a, b) && !branch_before(b, a) ==> a.kind == b.kind && a.name@ == b.name@,
{
    lemma_seq_less_total(a.name@, b.name@);
}

/// Sorting the branch list keeps every branch and adds none.
pub proof fn lemma_sorted_branches_permutation(s: Seq<BranchInfo>)
    ensures
        sorted_branches(s).to_multiset() == s.to_multiset(),
    decreases s.len(),
{
    broadcast use vstd::seq_lib::group_to_multiset_ensures;

    if s.len() > 0 {
        let rest = sorted_branches(s.drop_last());
        lemma_sorted_branches_permutation(s.drop_last());
        let x = s.last();
        let pred = |e: BranchInfo| branch_before(x, e);
        lemma_first_match_cases(rest, pred);
        assert(s.drop_last().push(x) =~= s);
    } else {
        assert(sorted_branches(s) == s);
    }
}

/// One of the strings holds the text `x`.
pub open spec fn has_text(s: Seq<String>, x: Seq<char>) -> bool {
    exists|i: int| 0 <= i < s.len() && (#[trigger] s[i])@ == x
}

/// The conflicted paths as listed: sorted, each once.
pub fn sorted_unique_paths(paths: &Vec<String>) -> (r: Vec<String>)
    ensures
        forall|i: int, j: int| 0 <= i < j < r@.len() ==> seq_less(r@[i]@, r@[j]@),
        forall|x: Seq<char>| has_text(r@, x) <==> has_text(paths@, x),
{
    let mut out: Vec<String> = Vec::new();
    let mut i: usize = 0;
    while i < paths.len()
        invariant
            0 <= i <= paths.len(),
            forall|a: int, b: int| 0 <= a < b < out@.len() ==> seq_less(out@[a]@, out@[b]@),
            forall|x: Seq<char>| has_text(out@, x) <==> has_text(paths@.take(i as int), x),
        decreases paths.len() - i,
    {
        let x = paths[i].clone();
        let mut p: usize = 0;
        while p < out.len() && text_less(out[p].as_str(), x.as_str())
            invariant
                0 <= p <= out@.len(),
                forall|a: int| 0 <= a < p ==> seq_less(out@[a]@, x@),
            decreases out@.len() - p,
        {
            p = p + 1;
        }
        let ghost before = out@;
        let ghost prefix = paths@.take(i as int);
        let duplicate = p < out.len() && same_text(out[p].as_str(), x.as_str());
        proof {
            assert(paths@.take(i + 1) =~= prefix.push(paths@[i as int]));
        }
        if !duplicate {
            out.insert(p, x);
            proof {
                if p < before.len() {
                    lemma_seq_less_total(x@, before[p as int]@);
                }
                assert forall|a: int, b: int| 0 <= a < b < out@.len() implies seq_less(
                    out@[a]@,
                    out@[b]@,
                ) by {
                    if b < p {
                        assert(out@[a] == before[a] && out@[b] == before[b]);
                    } else if b == p {
                        assert(out@[a] == before[a]);
                    } else if a < p {
                        assert(out@[a] == before[a] && out@[b] == before[b - 1]);
                    } else if a == p {
                        assert(out@[b] == before[b - 1]);
                        if b - 1 > p {
                            lemma_seq_less_transitive(x@, before[p as int]@, before[b - 1]@);
                        }
                    } else {
                        assert(out@[a] == before[a - 1] && out@[b] == before[b - 1]);
                    }
                }
            }
        }
        proof {
            assert forall|y: Seq<char>| has_text(out@, y) <==> has_text(paths@.take(i + 1), y) by {
                if has_text(paths@.take(i + 1), y) {
                    let k = choose|k: int|
                        0 <= k < paths@.take(i + 1).len() && (#[trigger] paths@.take(i + 1)[k])@
                            == y;
                    if k == i {
                        if duplicate {
                            assert(out@[p as int]@ == y);
                        } else {
                            assert(out@[p as int]@ == y);
                        }
                    } else {
                        assert(prefix[k]@ == y);
                        assert(has_text(prefix, y));
                        assert(has_text(before, y));
                        let m = choose|m: int| 0 <= m < before.len() && (#[trigger] before[m])@ == y;
                        if duplicate || m < p {
                            assert(out@[m]@ == y);
                        } else {
                            assert(out@[m + 1]@ == y);
                        }
                    }
                }
                if has_text(out@, y) {
                    let k = choose|k: int| 0 <= k < out@.len() && (#[trigger] out@[k])@ == y;
                    if !duplicate && k == p {
                        assert(paths@.take(i + 1)[i as int]@ == y);
                    } else {
                        if duplicate || k < p {
                            assert(before[k]@ == y);
                        } else {
                            assert(before[k - 1]@ == y);
                        }
                        assert(has_text(before, y));
                        assert(has_text(prefix, y));
                        let m = choose|m: int| 0 <= m < prefix.len() && (#[trigger] prefix[m])@ == y;
                        assert(paths@.take(i + 1)[m]@ == y);
                    }
                }
            }
        }
        i = i + 1;
    }
    proof {
        assert(paths@.take(paths@.len() as int) =~= paths@);
    }
    out
}

/// Refuses to touch a conflicted path: `path` must not be one of the
/// conflicted paths.
pub fn ensure_path_not_conflicted(conflicts: &Vec<String>, path: &str) -> (r: Result<(), GitError>)
    ensures
        r is Ok <==> !has_text(conflicts@, path@),
        r is Err ==> (r matches Err(GitError::Message(m)) && m@
            == "该文件存在冲突，请先解决冲突后再回滚更改"@),
{
    let mut i: usize = 0;
    while i < conflicts.len()
        invariant
            0 <= i <= conflicts.len(),
            forall|j: int| 0 <= j < i ==> (#[trigger] conflicts@[j])@ != path@,
        decreases conflicts.len() - i,
    {
        if same_text(conflicts[i].as_str(), path) {
            return Err(GitError::Message(owned("该文件存在冲突，请先解决冲突后再回滚更改")));
        }
        i = i + 1;
    }
    Ok(())
}


/// A changed file: its state in the index and in the work tree.
#[derive(Clone, Debug, PartialEq, Eq)]
pub struct WorktreeChange {
    pub path: String,
    pub staged: Option<ChangeState>,
    pub unstaged: Option<ChangeState>,
}

impl WorktreeChange {
    /// A copy of the change.
    pub fn duplicate(&self) -> (r: Self)
        ensures
            r == *self,
    {
        WorktreeChange { path: self.path.clone(), staged: self.staged, unstaged: self.unstaged }
    }
}

/// A status entry as libgit2 reports it: the path and its status bits.
#[derive(Clone, Debug)]
pub struct StatusEntry {
    pub path: String,
    pub status: u32,
}

/// The state the last entry for `path` that has one gives it, in the index
/// (`staged`) or in the work tree.
pub open spec fn last_state(entries: Seq<StatusEntry>, path: Seq<char>, staged: bool) -> Option<
    ChangeState,
>
    decreases entries.len(),
{
    if entries.len() == 0 {
        None
    } else {
        let e = entries.last();
        let state = if staged {
            spec_staged_state(e.status)
        } else {
            spec_unstaged_state(e.status)
        };
        if e.path@ == path && state is Some {
            state
        } else {
            last_state(entries.drop_last(), path, staged)
        }
    }
}

/// One of the entries is for `path`.
pub open spec fn has_entry_path(entries: Seq<StatusEntry>, path: Seq<char>) -> bool {
    exists|i: int| 0 <= i < entries.len() && (#[trigger] entries[i]).path@ == path
}

/// One of the changes is for `path`.
pub open spec fn has_change_path(changes: Seq<WorktreeChange>, path: Seq<char>) -> bool {
    exists|i: int| 0 <= i < changes.len() && (#[trigger] changes[i]).path@ == path
}

proof fn lemma_last_state_absent(entries: Seq<StatusEntry>, path: Seq<char>, staged: bool)
    requires
        !has_entry_path(entries, path),
    ensures
        last_state(entries, path, staged) is None,
    decreases entries.len(),
{
    if entries.len() > 0 {
        assert(!has_entry_path(entries.drop_last(), path)) by {
            if has_entry_path(entries.drop_last(), path) {
                let i = choose|i: int|
                    0 <= i < entries.drop_last().len() && (#[trigger] entries.drop_last()[i]).path@
                        == path;
                assert(entries[i] == entries.drop_last()[i]);
            }
        }
        assert(entries[entries.len() - 1] == entries.last());
        lemma_last_state_absent(entries.drop_last(), path, staged);
    }
}

proof fn lemma_has_entry_path_push(entries: Seq<StatusEntry>, e: StatusEntry, x: Seq<char>)
    ensures
        has_entry_path(entries.push(e), x) <==> (has_entry_path(entries, x) || e.path@ == x),
{
    let s = entries.push(e);
    if has_entry_path(entries, x) {
        let i = choose|i: int| 0 <= i < entries.len() && (#[trigger] entries[i]).path@ == x;
        assert(s[i] == entries[i]);
    }
    if e.path@ == x {
        assert(s[entries.len() as int] == e);
    }
    if has_entry_path(s, x) {
        let i = choose|i: int| 0 <= i < s.len() && (#[trigger] s[i]).path@ == x;
        if i < entries.len() {
            assert(s[i] == entries[i]);
        }
    }
}

proof fn lemma_last_state_push(entries: Seq<StatusEntry>, e: StatusEntry, x: Seq<char>, staged: bool)
    ensures
        last_state(entries.push(e), x, staged) == (if x == e.path@ && (if staged {
            spec_staged_state(e.status)
        } else {
            spec_unstaged_state(e.status)
        }) is Some {
            if staged {
                spec_staged_state(e.status)
            } else {
                spec_unstaged_state(e.status)
            }
        } else {
            last_state(entries, x, staged)
        }),
{
    let s = entries.push(e);
    assert(s.drop_last() =~= entries);
    assert(s.last() == e);
}

/// The changes of the work tree from the status entries: one change per
/// path, sorted by path, each with the last state an entry for that path
/// gives it in the index and in the work tree.
pub fn collect_changes(entries: &Vec<StatusEntry>) -> (r: Vec<WorktreeChange>)
    ensures
        forall|i: int, j: int| 0 <= i < j < r@.len() ==> seq_less(r@[i].path@, r@[j].path@),
        forall|x: Seq<char>| has_change_path(r@, x) <==> has_entry_path(entries@, x),
        forall|k: int|
            0 <= k < r@.len() ==> (#[trigger] r@[k]).staged == last_state(entries@, r@[k].path@, true)
                && r@[k].unstaged == last_state(entries@, r@[k].path@, false),
{
    let mut out: Vec<WorktreeChange> = Vec::new();
    let mut i: usize = 0;
    while i < entries.len()
        invariant
            0 <= i <= entries.len(),
            forall|a: int, b: int| 0 <= a < b < out@.len() ==> seq_less(out@[a].path@, out@[b].path@),
            forall|x: Seq<char>| has_change_path(out@, x) <==> has_entry_path(entries@.take(i as int), x),
            forall|k: int|
                0 <= k < out@.len() ==> (#[trigger] out@[k]).staged == last_state(
                    entries@.take(i as int),
                    out@[k].path@,
                    true,
                ) && out@[k].unstaged == last_state(entries@.take(i as int), out@[k].path@, false),
        decreases entries.len() - i,
    {
        let e = &entries[i];
        let staged = staged_state(e.status);
        let unstaged = unstaged_state(e.status);
        let mut p: usize = 0;
        while p < out.len() && text_less(out[p].path.as_str(), e.path.as_str())
            invariant
                0 <= p <= out@.len(),
                forall|a: int| 0 <= a < p ==> seq_less(out@[a].path@, e.path@),
            decreases out@.len() - p,
        {
            p = p + 1;
        }
        let ghost before = out@;
        let ghost prefix = entries@.take(i as int);
        let ghost next = entries@.take(i + 1);
        proof {
            assert(next.drop_last() =~= prefix);
            assert(next.last() == entries@[i as int]);
            assert(next =~= prefix.push(entries@[i as int]));
        }
        let found = p < out.len() && same_text(out[p].path.as_str(), e.path.as_str());
        proof {
            assert forall|x: Seq<char>| #[trigger] has_entry_path(next, x) <==> (has_entry_path(
                prefix,
                x,
            ) || x == e.path@) by {
                lemma_has_entry_path_push(prefix, entries@[i as int], x);
            }
            assert forall|x: Seq<char>, st: bool| #[trigger] last_state(next, x, st) == (if x
                == e.path@ && (if st {
                spec_staged_state(e.status)
            } else {
                spec_unstaged_state(e.status)
            }) is Some {
                if st {
                    spec_staged_state(e.status)
                } else {
                    spec_unstaged_state(e.status)
                }
            } else {
                last_state(prefix, x, st)
            }) by {
                lemma_last_state_push(prefix, entries@[i as int], x, st);
            }
        }
        if found {
            let old_change = out[p].duplicate();
            let change = WorktreeChange {
                path: old_change.path,
                staged: if staged.is_some() {
                    staged
                } else {
                    old_change.staged
                },
                unstaged: if unstaged.is_some() {
                    unstaged
                } else {
                    old_change.unstaged
                },
            };
            out.set(p, change);
            proof {
                assert forall|k: int| 0 <= k < out@.len() && k != p implies out@[k] == before[k]
                    && before[k].path@ != e.path@ by {
                    if k < p {
                        assert(seq_less(before[k].path@, e.path@));
                        lemma_seq_less_irreflexive(e.path@);
                    } else {
                        assert(seq_less(before[p as int].path@, before[k].path@));
                        lemma_seq_less_irreflexive(e.path@);
                    }
                }
                assert forall|x: Seq<char>| has_change_path(out@, x) <==> has_change_path(before, x) by {
                    if has_change_path(before, x) {
                        let k = choose|k: int| 0 <= k < before.len() && (#[trigger] before[k]).path@ == x;
                        assert(out@[k].path@ == x);
                    }
                    if has_change_path(out@, x) {
                        let k = choose|k: int| 0 <= k < out@.len() && (#[trigger] out@[k]).path@ == x;
                        assert(before[k].path@ == x);
                    }
                }
                assert forall|x: Seq<char>| has_change_path(out@, x) <==> has_entry_path(next, x) by {
                    assert(has_entry_path(next, x) <==> (has_entry_path(prefix, x) || x == e.path@));
                    assert(has_change_path(before, x) <==> has_entry_path(prefix, x));
                    assert(has_change_path(out@, x) <==> has_change_path(before, x));
                    if x == e.path@ {
                        assert(before[p as int].path@ == x);
                        assert(has_change_path(before, x));
                    }
                }
            }
        } else {
            out.insert(p, WorktreeChange { path: e.path.clone(), staged, unstaged });
            proof {
                assert(!has_change_path(before, e.path@)) by {
                    if has_change_path(before, e.path@) {
                        let k = choose|k: int|
                            0 <= k < before.len() && (#[trigger] before[k]).path@ == e.path@;
                        lemma_seq_less_irreflexive(e.path@);
                        if k < p {
                            assert(seq_less(before[k].path@, e.path@));
                        } else if k == p {
                        } else {
                            lemma_seq_less_total(e.path@, before[p as int].path@);
                            assert(seq_less(before[p as int].path@, before[k].path@));
                            lemma_seq_less_transitive(e.path@, before[p as int].path@, e.path@);
                        }
                    }
                }
                assert(!has_entry_path(prefix, e.path@));
                lemma_last_state_absent(prefix, e.path@, true);
                lemma_last_state_absent(prefix, e.path@, false);
                if p < before.len() {
                    lemma_seq_less_total(e.path@, before[p as int].path@);
                }
                assert forall|a: int, b: int| 0 <= a < b < out@.len() implies seq_less(
                    out@[a].path@,
                    out@[b].path@,
                ) by {
                    if b < p {
                        assert(out@[a] == before[a] && out@[b] == before[b]);
                    } else if b == p {
                        assert(out@[a] == before[a]);
                    } else if a < p {
                        assert(out@[a] == before[a] && out@[b] == before[b - 1]);
                    } else if a == p {
                        assert(out@[b] == before[b - 1]);
                        if b - 1 > p {
                            lemma_seq_less_transitive(
                                e.path@,
                                before[p as int].path@,
                                before[b - 1].path@,
                            );
                        }
                    } else {
                        assert(out@[a] == before[a - 1] && out@[b] == before[b - 1]);
                    }
                }
                assert forall|k: int| 0 <= k < out@.len() && k != p implies (k < p ==> out@[k]
                    == before[k]) && (k > p ==> out@[k] == before[k - 1]) && out@[k].path@ != e.path@ by {
                    if k < p {
                        assert(out@[k] == before[k]);
                        assert(has_change_path(before, before[k].path@));
                    } else {
                        assert(out@[k] == before[k - 1]);
                        assert(has_change_path(before, before[k - 1].path@));
                    }
                }
                assert forall|x: Seq<char>| has_change_path(out@, x) <==> has_entry_path(next, x) by {
                    assert(has_entry_path(next, x) <==> (has_entry_path(prefix, x) || x == e.path@));
                    if has_change_path(before, x) {
                        let k = choose|k: int| 0 <= k < before.len() && (#[trigger] before[k]).path@ == x;
                        if k < p {
                            assert(out@[k].path@ == x);
                        } else {
                            assert(out@[k + 1].path@ == x);
                        }
                    }
                    if has_change_path(out@, x) {
                        let k = choose|k: int| 0 <= k < out@.len() && (#[trigger] out@[k]).path@ == x;
                        if k < p {
                            assert(before[k].path@ == x);
                        } else if k > p {
                            assert(before[k - 1].path@ == x);
                        }
                    }
                    if x == e.path@ {
                        assert(out@[p as int].path@ == x);
                    }
                }
            }
        }
        i = i + 1;
    }
    proof {
        assert(entries@.take(entries@.len() as int) =~= entries@);
    }
    out
}


/// An entry of a list sorted by a text key (a name or a path).
pub trait Keyed: Sized {
    /// The key the list is sorted by.
    spec fn key(&self) -> Seq<char>;

    /// The key as a string slice.
    fn key_str(&self) -> (r: &str)
        ensures
            r@ == self.key(),
    ;

    /// A copy of the entry.
    fn duplicate_entry(&self) -> (r: Self)
        ensures
            r == *self,
    ;
}

/// Where a stable sort by key puts `x` after the already sorted `sorted`:
/// before the first entry whose key is greater.
pub open spec fn key_insertion_point<T: Keyed>(sorted: Seq<T>, x: T) -> int {
    let p = first_match(sorted, |e: T| seq_less(x.key(), e.key()));
    if p < 0 {
        sorted.len() as int
    } else {
        p
    }
}

/// The entries sorted by key; entries with equal keys keep their order.
pub open spec fn sorted_by_key<T: Keyed>(s: Seq<T>) -> Seq<T>
    decreases s.len(),
{
    if s.len() == 0 {
        s
    } else {
        let rest = sorted_by_key(s.drop_last());
        rest.insert(key_insertion_point(rest, s.last()), s.last())
    }
}

/// Sorts the entries by key (a stable sort).
pub fn sort_by_key<T: Keyed>(entries: &mut Vec<T>)
    ensures
        final(entries)@ == sorted_by_key(old(entries)@),
{
    let mut sorted: Vec<T> = Vec::new();
    let mut i: usize = 0;
    while i < entries.len()
        invariant
            0 <= i <= entries.len(),
            entries@ == old(entries)@,
            sorted@ == sorted_by_key(entries@.take(i as int)),
        decreases entries.len() - i,
    {
        let x = entries[i].duplicate_entry();
        let mut p: usize = 0;
        while p < sorted.len() && !text_less(x.key_str(), sorted[p].key_str())
            invariant
                0 <= p <= sorted.len(),
                forall|j: int| 0 <= j < p ==> !seq_less(x.key(), #[trigger] sorted@[j].key()),
            decreases sorted.len() - p,
        {
            p = p + 1;
        }
        proof {
            let pred = |e: T| seq_less(x.key(), e.key());
            if p < sorted.len() {
                assert(is_first_match(sorted@, pred, p as int));
                lemma_first_match_is(sorted@, pred, p as int);
            } else {
                crate::lookup::lemma_first_match_none(sorted@, pred);
            }
            assert(entries@.take(i + 1).drop_last() =~= entries@.take(i as int));
            assert(entries@.take(i + 1).last() == entries@[i as int]);
        }
        sorted.insert(p, x);
        i = i + 1;
    }
    proof {
        assert(entries@.take(entries@.len() as int) =~= entries@);
    }
    *entries = sorted;
}

/// A list sorted by key is in key order: no key is less than one before it.
pub proof fn lemma_sorted_by_key_in_order<T: Keyed>(s: Seq<T>)
    ensures
        forall|i: int, j: int|
            0 <= i < j < sorted_by_key(s).len() ==> !seq_less(
                #[trigger] sorted_by_key(s)[j].key(),
                #[trigger] sorted_by_key(s)[i].key(),
            ),
    decreases s.len(),
{
    if s.len() > 0 {
        let rest = sorted_by_key(s.drop_last());
        lemma_sorted_by_key_in_order(s.drop_last());
        let x = s.last();
        let pred = |e: T| seq_less(x.key(), e.key());
        let p = key_insertion_point(rest, x);
        lemma_first_match_cases(rest, pred);
        let out = rest.insert(p, x);
        assert(out == sorted_by_key(s));
        assert forall|i: int, j: int| 0 <= i < j < out.len() implies !seq_less(
            #[trigger] out[j].key(),
            #[trigger] out[i].key(),
        ) by {
            if j < p {
                assert(out[i] == rest[i] && out[j] == rest[j]);
                assert(!seq_less(rest[j].key(), rest[i].key()));
            } else if j == p {
                assert(out[i] == rest[i]);
                assert(!pred(rest[i]));
                lemma_seq_less_total(x.key(), rest[i].key());
                lemma_seq_less_irreflexive(x.key());
                if seq_less(x.key(), rest[i].key()) {
                    assert(pred(rest[i]));
                }
            } else if i > p {
                assert(out[i] == rest[i - 1] && out[j] == rest[j - 1]);
                assert(!seq_less(rest[j - 1].key(), rest[i - 1].key()));
            } else if i == p {
                assert(out[j] == rest[j - 1]);
                assert(pred(rest[p]));
                if j - 1 > p {
                    assert(!seq_less(rest[j - 1].key(), rest[p].key()));
                    lemma_seq_less_total(rest[j - 1].key(), rest[p].key());
                    if rest[j - 1].key() != rest[p].key() {
                        lemma_seq_less_transitive(x.key(), rest[p].key(), rest[j - 1].key());
                    }
                }
                lemma_seq_less_transitive(rest[j - 1].key(), x.key(), rest[j - 1].key());
                lemma_seq_less_irreflexive(rest[j - 1].key());
            } else {
                assert(out[i] == rest[i] && out[j] == rest[j - 1]);
                assert(!seq_less(rest[j - 1].key(), rest[i].key()));
            }
        }
    }
}

/// Sorting by key keeps every entry and adds none.
pub proof fn lemma_sorted_by_key_permutation<T: Keyed>(s: Seq<T>)
    ensures
        sorted_by_key(s).to_multiset() == s.to_multiset(),
    decreases s.len(),
{
    broadcast use vstd::seq_lib::group_to_multiset_ensures;

    if s.len() > 0 {
        let rest = sorted_by_key(s.drop_last());
        lemma_sorted_by_key_permutation(s.drop_last());
        let x = s.last();
        let pred = |e: T| seq_less(x.key(), e.key());
        lemma_first_match_cases(rest, pred);
        assert(s.drop_last().push(x) =~= s);
    } else {
        assert(sorted_by_key(s) == s);
    }
}

/// A remote of the repository.
#[derive(Clone, Debug, PartialEq, Eq)]
pub struct RemoteInfo {
    pub name: String,
    pub url: String,
    pub credential_record_id: Option<String>,
}

impl Keyed for RemoteInfo {
    open spec fn key(&self) -> Seq<char> {
        self.name@
    }

    fn key_str(&self) -> (r: &str) {
        self.name.as_str()
    }

    fn duplicate_entry(&self) -> (r: Self) {
        RemoteInfo {
            name: self.name.clone(),
            url: self.url.clone(),
            credential_record_id: clone_opt_string(&self.credential_record_id),
        }
    }
}

/// A tag of the repository.
#[derive(Clone, Debug, PartialEq, Eq)]
pub struct TagInfo {
    pub name: String,
}

impl Keyed for TagInfo {
    open spec fn key(&self) -> Seq<char> {
        self.name@
    }

    fn key_str(&self) -> (r: &str) {
        self.name.as_str()
    }

    fn duplicate_entry(&self) -> (r: Self) {
        TagInfo { name: self.name.clone() }
    }
}

/// A file that a commit changed.
#[derive(Clone, Debug, PartialEq, Eq)]
pub struct CommitFileChange {
    pub path: String,
    pub old_path: Option<String>,
    pub status: ChangeState,
}

impl Keyed for CommitFileChange {
    open spec fn key(&self) -> Seq<char> {
        self.path@
    }

    fn key_str(&self) -> (r: &str) {
        self.path.as_str()
    }

    fn duplicate_entry(&self) -> (r: Self) {
        CommitFileChange {
            path: self.path.clone(),
            old_path: clone_opt_string(&self.old_path),
            status: self.status,
        }
    }
}

} // verus!
