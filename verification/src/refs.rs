//! Orders of references: the labels shown next to a commit, and the branch
//! list.

use vstd::prelude::*;

use crate::listing::{has_text, sorted_unique_paths};
use crate::repo_rules::{ref_kind_order, CommitRefKind};
use crate::text::{
    chars_of, lemma_seq_less_irreflexive, lemma_seq_less_total, lemma_seq_less_transitive, same_text, seq_less,
    text_less,
};

verus! {

/// A reference label of a commit.
#[derive(Clone, Debug, PartialEq, Eq)]
pub struct CommitRefInfo {
    pub name: String,
    pub kind: CommitRefKind,
}

impl CommitRefInfo {
    /// A copy of the label.
    pub fn duplicate(&self) -> (r: Self)
        ensures
            r == *self,
    {
        CommitRefInfo { name: self.name.clone(), kind: self.kind }
    }
}

/// The order of a reference kind (see `ref_kind_order`).
pub open spec fn kind_rank(kind: CommitRefKind) -> int {
    match kind {
        CommitRefKind::Head => 0,
        CommitRefKind::LocalBranch => 1,
        CommitRefKind::RemoteBranch => 2,
        CommitRefKind::Tag => 3,
    }
}

/// Label order: by kind (`HEAD`, local, remote, tag), then by name.
pub open spec fn label_before(a: CommitRefInfo, b: CommitRefInfo) -> bool {
    kind_rank(a.kind) < kind_rank(b.kind) || (kind_rank(a.kind) == kind_rank(b.kind) && seq_less(
        a.name@,
        b.name@,
    ))
}

/// Two labels are the same: same kind and name.
pub open spec fn same_label(a: CommitRefInfo, b: CommitRefInfo) -> bool {
    a.kind == b.kind && a.name@ == b.name@
}

/// One of the labels is the same as `x`.
pub open spec fn has_label(s: Seq<CommitRefInfo>, x: CommitRefInfo) -> bool {
    exists|i: int| 0 <= i < s.len() && same_label(#[trigger] s[i], x)
}

fn labels_before(a: &CommitRefInfo, b: &CommitRefInfo) -> (r: bool)
    ensures
        r == label_before(*a, *b),
{
    let ra = ref_kind_order(&a.kind);
    let rb = ref_kind_order(&b.kind);
    ra < rb || (ra == rb && text_less(a.name.as_str(), b.name.as_str()))
}

/// The labels of a commit in display order, each once: sorted by kind,
/// then name, with repeated labels dropped.
pub fn sort_commit_refs(refs: &Vec<CommitRefInfo>) -> (r: Vec<CommitRefInfo>)
    ensures
        forall|i: int, j: int| 0 <= i < j < r@.len() ==> label_before(r@[i], r@[j]),
        forall|x: CommitRefInfo| has_label(r@, x) <==> has_label(refs@, x),
{
    let mut out: Vec<CommitRefInfo> = Vec::new();
    let mut i: usize = 0;
    while i < refs.len()
        invariant
            0 <= i <= refs.len(),
            forall|a: int, b: int| 0 <= a < b < out@.len() ==> label_before(out@[a], out@[b]),
            forall|x: CommitRefInfo| has_label(out@, x) <==> has_label(refs@.take(i as int), x),
        decreases refs.len() - i,
    {
        let x = refs[i].duplicate();
        let mut p: usize = 0;
        while p < out.len() && labels_before(&out[p], &x)
            invariant
                0 <= p <= out@.len(),
                forall|a: int| 0 <= a < p ==> label_before(out@[a], x),
            decreases out@.len() - p,
        {
            p = p + 1;
        }
        let ghost before = out@;
        let ghost prefix = refs@.take(i as int);
        let duplicate = p < out.len() && out[p].kind == x.kind && same_text(
            out[p].name.as_str(),
            x.name.as_str(),
        );
        proof {
            assert(refs@.take(i + 1) =~= prefix.push(refs@[i as int]));
            lemma_seq_less_irreflexive(x.name@);
        }
        if duplicate {
            proof {
                assert forall|y: CommitRefInfo| has_label(out@, y) <==> has_label(
                    refs@.take(i + 1),
                    y,
                ) by {
                    if has_label(refs@.take(i + 1), y) {
                        let k = choose|k: int|
                            0 <= k < refs@.take(i + 1).len() && same_label(
                                #[trigger] refs@.take(i + 1)[k],
                                y,
                            );
                        if k == i {
                            assert(same_label(out@[p as int], y));
                        } else {
                            assert(same_label(prefix[k], y));
                        }
                    }
                    if has_label(out@, y) {
                        let k = choose|k: int| 0 <= k < out@.len() && same_label(#[trigger] out@[k], y);
                        assert(has_label(prefix, y));
                        let m = choose|m: int| 0 <= m < prefix.len() && same_label(#[trigger] prefix[m], y);
                        assert(same_label(refs@.take(i + 1)[m], y));
                    }
                }
            }
        } else {
            out.insert(p, x);
            proof {
                if p < before.len() {
                    lemma_label_not_before_then_before(x, before[p as int]);
                }
                assert forall|a: int, b: int| 0 <= a < b < out@.len() implies label_before(
                    out@[a],
                    out@[b],
                ) by {
                    if b < p {
                        assert(out@[a] == before[a] && out@[b] == before[b]);
                    } else if b == p {
                        assert(out@[a] == before[a]);
                    } else if a < p {
                        assert(out@[a] == before[a] && out@[b] == before[b - 1]);
                    } else if a == p {
                        assert(out@[b] == before[b - 1]);
                        if b - 1 > p {
                            lemma_label_transitive(x, before[p as int], before[b - 1]);
                        }
                    } else {
                        assert(out@[a] == before[a - 1] && out@[b] == before[b - 1]);
                    }
                }
                assert forall|y: CommitRefInfo| has_label(out@, y) <==> has_label(
                    refs@.take(i + 1),
                    y,
                ) by {
                    if has_label(refs@.take(i + 1), y) {
                        let k = choose|k: int|
                            0 <= k < refs@.take(i + 1).len() && same_label(
                                #[trigger] refs@.take(i + 1)[k],
                                y,
                            );
                        if k == i {
                            assert(same_label(out@[p as int], y));
                        } else {
                            assert(same_label(prefix[k], y));
                            assert(has_label(before, y));
                            let m = choose|m: int| 0 <= m < before.len() && same_label(#[trigger] before[m], y);
                            if m < p {
                                assert(same_label(out@[m], y));
                            } else {
                                assert(same_label(out@[m + 1], y));
                            }
                        }
                    }
                    if has_label(out@, y) {
                        let k = choose|k: int| 0 <= k < out@.len() && same_label(#[trigger] out@[k], y);
                        if k == p {
                            assert(same_label(refs@.take(i + 1)[i as int], y));
                        } else {
                            if k < p {
                                assert(same_label(before[k], y));
                            } else {
                                assert(same_label(before[k - 1], y));
                            }
                            assert(has_label(before, y));
                            assert(has_label(prefix, y));
                            let m = choose|m: int| 0 <= m < prefix.len() && same_label(#[trigger] prefix[m], y);
                            assert(same_label(refs@.take(i + 1)[m], y));
                        }
                    }
                }
            }
        }
        i = i + 1;
    }
    proof {
        assert(refs@.take(refs@.len() as int) =~= refs@);
    }
    out
}

/// The label order is transitive.
proof fn lemma_label_transitive(a: CommitRefInfo, b: CommitRefInfo, c: CommitRefInfo)
    requires
        label_before(a, b),
        label_before(b, c),
    ensures
        label_before(a, c),
{
    if kind_rank(a.kind) == kind_rank(b.kind) && kind_rank(b.kind) == kind_rank(c.kind) {
        lemma_seq_less_transitive(a.name@, b.name@, c.name@);
    }
}

/// When `a` is not listed before `b` and they differ, `b` is listed before `a`.
proof fn lemma_label_not_before_then_before(a: CommitRefInfo, b: CommitRefInfo)
    ensures
        !label_before(b, a) && !same_label(a, b) ==> label_before(a, b),
{
    crate::text::lemma_seq_less_irreflexive(a.name@);
    lemma_seq_less_total(a.name@, b.name@);
}

/// A remote's `HEAD` reference (`<remote>/HEAD`), which the history does
/// not label.
pub fn is_remote_head_name(name: &str) -> (r: bool)
    ensures
        r == (name@.len() >= 5 && name@.skip(name@.len() - 5) == "/HEAD"@),
{
    let chars = chars_of(name);
    let suffix = chars_of("/HEAD");
    proof {
        reveal_strlit("/HEAD");
    }
    if chars.len() < 5 {
        return false;
    }
    let tail = crate::text::copy_range(&chars, chars.len() - 5, chars.len());
    assert(tail@ =~= name@.skip(name@.len() - 5));
    crate::text::chars_equal(&tail, &suffix)
}


/// A branch as read from the repository: its name and kind, the commit id
/// it points at, and whether that commit is found.
#[derive(Clone, Debug)]
pub struct BranchRef {
    pub name: String,
    pub kind: CommitRefKind,
    pub target: Option<String>,
    pub target_is_commit: bool,
}

/// A tag as read from the repository: its name and the commit it peels to,
/// when it peels to one.
#[derive(Clone, Debug)]
pub struct TagRef {
    pub name: String,
    pub commit: Option<String>,
}

/// The labels of one commit of the history.
#[derive(Clone, Debug)]
pub struct CommitLabels {
    pub oid: String,
    pub refs: Vec<CommitRefInfo>,
}

/// Where the history walk starts, and the labels of each labelled commit.
#[derive(Clone, Debug)]
pub struct HistoryRefs {
    pub starts: Vec<String>,
    pub labels: Vec<CommitLabels>,
}

/// A branch that labels a commit and starts the walk: it points at a commit
/// that is found, and it is not a remote's `HEAD`.
pub open spec fn branch_counts(b: BranchRef) -> bool {
    &&& b.target is Some
    &&& b.target_is_commit
    &&& !(b.kind == CommitRefKind::RemoteBranch && b.name@.len() >= 5 && b.name@.skip(b.name@.len() - 5)
        == "/HEAD"@)
}

/// The label a branch gives.
pub open spec fn branch_label(b: BranchRef) -> CommitRefInfo {
    CommitRefInfo { name: b.name, kind: b.kind }
}

/// One of the first `n` branches labels `oid` with `l`.
pub open spec fn branch_labels(branches: Seq<BranchRef>, n: int, oid: Seq<char>, l: CommitRefInfo) -> bool {
    exists|b: int|
        0 <= b < n && branch_counts(#[trigger] branches[b]) && branches[b].target->0@ == oid
            && same_label(branch_label(branches[b]), l)
}

/// One of the first `n` tags labels `oid` with `l`.
pub open spec fn tag_labels(tags: Seq<TagRef>, n: int, oid: Seq<char>, l: CommitRefInfo) -> bool {
    exists|t: int|
        0 <= t < n && (#[trigger] tags[t]).commit is Some && tags[t].commit->0@ == oid && l.kind
            == CommitRefKind::Tag && l.name@ == tags[t].name@
}

/// `HEAD` labels `oid` with `l`: it is that commit.
pub open spec fn head_labels(head: Option<String>, oid: Seq<char>, l: CommitRefInfo) -> bool {
    head is Some && head->0@ == oid && l.kind == CommitRefKind::Head && l.name@ == "HEAD"@
}

/// `l` is a label of the commit `oid`.
pub open spec fn labels_commit(
    branches: Seq<BranchRef>,
    tags: Seq<TagRef>,
    head: Option<String>,
    oid: Seq<char>,
    l: CommitRefInfo,
) -> bool {
    ||| branch_labels(branches, branches.len() as int, oid, l)
    ||| tag_labels(tags, tags.len() as int, oid, l)
    ||| head_labels(head, oid, l)
}

/// Some label belongs to the commit `oid`.
pub open spec fn is_labelled(branches: Seq<BranchRef>, tags: Seq<TagRef>, head: Option<String>, oid: Seq<char>) -> bool {
    exists|l: CommitRefInfo| labels_commit(branches, tags, head, oid, l)
}

/// The commit `oid` has an entry among the labelled commits.
pub open spec fn lists_commit(labels: Seq<CommitLabels>, oid: Seq<char>) -> bool {
    exists|k: int| 0 <= k < labels.len() && (#[trigger] labels[k]).oid@ == oid
}

/// The walk starts at `oid`: a counted branch points at it, or `HEAD` is it.
pub open spec fn starts_at(branches: Seq<BranchRef>, n: int, head: Option<String>, oid: Seq<char>) -> bool {
    ||| exists|b: int| 0 <= b < n && branch_counts(#[trigger] branches[b]) && branches[b].target->0@ == oid
    ||| (head is Some && head->0@ == oid)
}

/// The pairs collected so far label `x` with `l`.
pub open spec fn pair_labels(pairs: Seq<(String, CommitRefInfo)>, x: Seq<char>, l: CommitRefInfo) -> bool {
    exists|m: int| 0 <= m < pairs.len() && (#[trigger] pairs[m]).0@ == x && same_label(pairs[m].1, l)
}

fn is_counted_branch(b: &BranchRef) -> (r: bool)
    ensures
        r == branch_counts(*b),
{
    match &b.target {
        None => false,
        Some(_) => b.target_is_commit && !(b.kind == CommitRefKind::RemoteBranch && is_remote_head_name(
            b.name.as_str(),
        )),
    }
}

/// The starts and labels of the history: the walk starts at every commit a
/// branch points at (remote `HEAD`s and branches whose commit is missing
/// left out) and at `HEAD`'s commit, each once and in order; each labelled
/// commit, in order of id, gets its branch, tag and `HEAD` labels in label
/// order, each once.
pub fn history_refs(branches: &Vec<BranchRef>, tags: &Vec<TagRef>, head: Option<String>) -> (r: HistoryRefs)
    ensures
        forall|i: int, j: int| 0 <= i < j < r.starts@.len() ==> seq_less(r.starts@[i]@, r.starts@[j]@),
        forall|x: Seq<char>| has_text(r.starts@, x) <==> starts_at(branches@, branches@.len() as int, head, x),
        forall|i: int, j: int|
            0 <= i < j < r.labels@.len() ==> seq_less(r.labels@[i].oid@, r.labels@[j].oid@),
        forall|x: Seq<char>|
            #[trigger] lists_commit(r.labels@, x) <==> is_labelled(branches@, tags@, head, x),
        forall|k: int|
            0 <= k < r.labels@.len() ==> forall|i: int, j: int|
                0 <= i < j < (#[trigger] r.labels@[k]).refs@.len() ==> label_before(
                    r.labels@[k].refs@[i],
                    r.labels@[k].refs@[j],
                ),
        forall|k: int, l: CommitRefInfo|
            0 <= k < r.labels@.len() ==> (#[trigger] has_label(r.labels@[k].refs@, l) <==> labels_commit(
                branches@,
                tags@,
                head,
                r.labels@[k].oid@,
                l,
            )),
{
    let mut starts: Vec<String> = Vec::new();
    let mut pairs: Vec<(String, CommitRefInfo)> = Vec::new();
    let mut i: usize = 0;
    while i < branches.len()
        invariant
            0 <= i <= branches.len(),
            forall|x: Seq<char>| has_text(starts@, x) <==> starts_at(branches@, i as int, None, x),
            forall|x: Seq<char>, l: CommitRefInfo|
                pair_labels(pairs@, x, l) <==> branch_labels(branches@, i as int, x, l),
        decreases branches.len() - i,
    {
        let b = &branches[i];
        if is_counted_branch(b) {
            let target = match &b.target {
                Some(t) => t.clone(),
                None => String::new(),
            };
            let ghost s0 = starts@;
            let ghost p0 = pairs@;
            starts.push(target.clone());
            pairs.push((target, CommitRefInfo { name: b.name.clone(), kind: b.kind }));
            proof {
                assert forall|x: Seq<char>| has_text(starts@, x) <==> starts_at(branches@, i + 1, None, x) by {
                    if has_text(starts@, x) {
                        let m = choose|m: int| 0 <= m < starts@.len() && (#[trigger] starts@[m])@ == x;
                        if m < s0.len() {
                            assert(s0[m] == starts@[m]);
                            assert(has_text(s0, x));
                        } else {
                            assert(branches@[i as int] == *b);
                        }
                    }
                    if starts_at(branches@, i + 1, None, x) {
                        let bb = choose|bb: int|
                            0 <= bb < i + 1 && branch_counts(#[trigger] branches@[bb])
                                && branches@[bb].target->0@ == x;
                        if bb < i {
                            assert(starts_at(branches@, i as int, None, x));
                            assert(has_text(s0, x));
                            let m = choose|m: int| 0 <= m < s0.len() && (#[trigger] s0[m])@ == x;
                            assert(starts@[m] == s0[m]);
                        } else {
                            assert(starts@[s0.len() as int]@ == x);
                        }
                    }
                }
                assert forall|x: Seq<char>, l: CommitRefInfo| pair_labels(pairs@, x, l) <==> branch_labels(
                    branches@,
                    i + 1,
                    x,
                    l,
                ) by {
                    if pair_labels(pairs@, x, l) {
                        let m = choose|m: int|
                            0 <= m < pairs@.len() && (#[trigger] pairs@[m]).0@ == x && same_label(
                                pairs@[m].1,
                                l,
                            );
                        if m < p0.len() {
                            assert(p0[m] == pairs@[m]);
                            assert(pair_labels(p0, x, l));
                        } else {
                            assert(branches@[i as int] == *b);
                        }
                    }
                    if branch_labels(branches@, i + 1, x, l) {
                        let bb = choose|bb: int|
                            0 <= bb < i + 1 && branch_counts(#[trigger] branches@[bb])
                                && branches@[bb].target->0@ == x && same_label(
                                branch_label(branches@[bb]),
                                l,
                            );
                        if bb < i {
                            assert(branch_labels(branches@, i as int, x, l));
                            assert(pair_labels(p0, x, l));
                            let m = choose|m: int|
                                0 <= m < p0.len() && (#[trigger] p0[m]).0@ == x && same_label(
                                    p0[m].1,
                                    l,
                                );
                            assert(pairs@[m] == p0[m]);
                        } else {
                            assert(pairs@[p0.len() as int].0@ == x);
                        }
                    }
                }
            }
        } else {
            proof {
                assert forall|x: Seq<char>| has_text(starts@, x) <==> starts_at(branches@, i + 1, None, x) by {
                    if starts_at(branches@, i + 1, None, x) {
                        let bb = choose|bb: int|
                            0 <= bb < i + 1 && branch_counts(#[trigger] branches@[bb])
                                && branches@[bb].target->0@ == x;
                        assert(bb != i);
                        assert(starts_at(branches@, i as int, None, x));
                    }
                }
                assert forall|x: Seq<char>, l: CommitRefInfo| pair_labels(pairs@, x, l) <==> branch_labels(
                    branches@,
                    i + 1,
                    x,
                    l,
                ) by {
                    if branch_labels(branches@, i + 1, x, l) {
                        let bb = choose|bb: int|
                            0 <= bb < i + 1 && branch_counts(#[trigger] branches@[bb])
                                && branches@[bb].target->0@ == x && same_label(
                                branch_label(branches@[bb]),
                                l,
                            );
                        assert(bb != i);
                        assert(branch_labels(branches@, i as int, x, l));
                    }
                }
            }
        }
        i = i + 1;
    }
    let ghost branch_pairs = pairs@;
    let mut t: usize = 0;
    while t < tags.len()
        invariant
            0 <= t <= tags.len(),
            i == branches.len(),
            forall|x: Seq<char>, l: CommitRefInfo|
                pair_labels(pairs@, x, l) <==> (branch_labels(branches@, i as int, x, l) || tag_labels(
                    tags@,
                    t as int,
                    x,
                    l,
                )),
        decreases tags.len() - t,
    {
        let tag = &tags[t];
        match &tag.commit {
            Some(oid) => {
                let ghost p0 = pairs@;
                pairs.push((oid.clone(), CommitRefInfo { name: tag.name.clone(), kind: CommitRefKind::Tag }));
                proof {
                    assert forall|x: Seq<char>, l: CommitRefInfo| pair_labels(pairs@, x, l) <==> (
                    branch_labels(branches@, i as int, x, l) || tag_labels(tags@, t + 1, x, l)) by {
                        if pair_labels(pairs@, x, l) {
                            let m = choose|m: int|
                                0 <= m < pairs@.len() && (#[trigger] pairs@[m]).0@ == x && same_label(
                                    pairs@[m].1,
                                    l,
                                );
                            if m < p0.len() {
                                assert(p0[m] == pairs@[m]);
                                assert(pair_labels(p0, x, l));
                                if tag_labels(tags@, t as int, x, l) {
                                    let tt = choose|tt: int|
                                        0 <= tt < t && (#[trigger] tags@[tt]).commit is Some
                                            && tags@[tt].commit->0@ == x && l.kind == CommitRefKind::Tag
                                            && l.name@ == tags@[tt].name@;
                                    assert(tag_labels(tags@, t + 1, x, l));
                                }
                            } else {
                                assert(tags@[t as int] == *tag);
                                assert(tag_labels(tags@, t + 1, x, l));
                            }
                        }
                        if tag_labels(tags@, t + 1, x, l) {
                            let tt = choose|tt: int|
                                0 <= tt < t + 1 && (#[trigger] tags@[tt]).commit is Some
                                    && tags@[tt].commit->0@ == x && l.kind == CommitRefKind::Tag
                                    && l.name@ == tags@[tt].name@;
                            if tt < t {
                                assert(tag_labels(tags@, t as int, x, l));
                                assert(pair_labels(p0, x, l));
                                let m = choose|m: int|
                                    0 <= m < p0.len() && (#[trigger] p0[m]).0@ == x && same_label(
                                        p0[m].1,
                                        l,
                                    );
                                assert(pairs@[m] == p0[m]);
                            } else {
                                assert(pairs@[p0.len() as int].0@ == x);
                            }
                        }
                        if branch_labels(branches@, i as int, x, l) {
                            assert(pair_labels(p0, x, l));
                            let m = choose|m: int|
                                0 <= m < p0.len() && (#[trigger] p0[m]).0@ == x && same_label(p0[m].1, l);
                            assert(pairs@[m] == p0[m]);
                        }
                    }
                }
            },
            None => {
                proof {
                    assert forall|x: Seq<char>, l: CommitRefInfo| pair_labels(pairs@, x, l) <==> (
                    branch_labels(branches@, i as int, x, l) || tag_labels(tags@, t + 1, x, l)) by {
                        if tag_labels(tags@, t + 1, x, l) {
                            let tt = choose|tt: int|
                                0 <= tt < t + 1 && (#[trigger] tags@[tt]).commit is Some
                                    && tags@[tt].commit->0@ == x && l.kind == CommitRefKind::Tag
                                    && l.name@ == tags@[tt].name@;
                            assert(tt != t);
                            assert(tag_labels(tags@, t as int, x, l));
                        }
                        if tag_labels(tags@, t as int, x, l) {
                            let tt = choose|tt: int|
                                0 <= tt < t && (#[trigger] tags@[tt]).commit is Some
                                    && tags@[tt].commit->0@ == x && l.kind == CommitRefKind::Tag
                                    && l.name@ == tags@[tt].name@;
                            assert(tag_labels(tags@, t + 1, x, l));
                        }
                    }
                }
            },
        }
        t = t + 1;
    }
    let ghost s1 = starts@;
    let ghost p1 = pairs@;
    match &head {
        Some(oid) => {
            starts.push(oid.clone());
            pairs.push((oid.clone(), CommitRefInfo { name: String::from_str("HEAD"), kind: CommitRefKind::Head }));
        },
        None => {},
    }
    proof {
        assert forall|x: Seq<char>| has_text(starts@, x) <==> starts_at(branches@, branches@.len() as int, head, x)
            by {
            assert(has_text(s1, x) <==> starts_at(branches@, i as int, None, x));
            if has_text(starts@, x) {
                let m = choose|m: int| 0 <= m < starts@.len() && (#[trigger] starts@[m])@ == x;
                if m < s1.len() {
                    assert(s1[m] == starts@[m]);
                    assert(has_text(s1, x));
                }
            }
            if has_text(s1, x) {
                let m = choose|m: int| 0 <= m < s1.len() && (#[trigger] s1[m])@ == x;
                assert(starts@[m] == s1[m]);
            }
            if head is Some && head->0@ == x {
                assert(starts@[s1.len() as int]@ == x);
            }
        }
        reveal_strlit("HEAD");
        assert forall|x: Seq<char>, l: CommitRefInfo| pair_labels(pairs@, x, l) <==> labels_commit(
            branches@,
            tags@,
            head,
            x,
            l,
        ) by {
            assert(pair_labels(p1, x, l) <==> (branch_labels(branches@, i as int, x, l) || tag_labels(
                tags@,
                tags@.len() as int,
                x,
                l,
            )));
            if pair_labels(pairs@, x, l) {
                let m = choose|m: int|
                    0 <= m < pairs@.len() && (#[trigger] pairs@[m]).0@ == x && same_label(pairs@[m].1, l);
                if m < p1.len() {
                    assert(p1[m] == pairs@[m]);
                    assert(pair_labels(p1, x, l));
                }
            }
            if pair_labels(p1, x, l) {
                let m = choose|m: int| 0 <= m < p1.len() && (#[trigger] p1[m]).0@ == x && same_label(p1[m].1, l);
                assert(pairs@[m] == p1[m]);
            }
            if head_labels(head, x, l) {
                assert(pairs@[p1.len() as int].0@ == x);
            }
        }
    }
    let sorted_starts = sorted_unique_paths(&starts);
    // The commits with labels, each once and in order.
    let mut oids: Vec<String> = Vec::new();
    let mut m: usize = 0;
    while m < pairs.len()
        invariant
            0 <= m <= pairs.len(),
            oids@.len() == m,
            forall|j: int| 0 <= j < m ==> (#[trigger] oids@[j])@ == pairs@[j].0@,
        decreases pairs.len() - m,
    {
        oids.push(pairs[m].0.clone());
        m = m + 1;
    }
    let keys = sorted_unique_paths(&oids);
    let mut labels: Vec<CommitLabels> = Vec::new();
    let mut k: usize = 0;
    while k < keys.len()
        invariant
            0 <= k <= keys.len(),
            labels@.len() == k,
            forall|j: int| 0 <= j < k ==> (#[trigger] labels@[j]).oid@ == keys@[j]@,
            forall|j: int|
                0 <= j < k ==> forall|a: int, b: int|
                    0 <= a < b < (#[trigger] labels@[j]).refs@.len() ==> label_before(
                        labels@[j].refs@[a],
                        labels@[j].refs@[b],
                    ),
            forall|j: int, l: CommitRefInfo|
                0 <= j < k ==> (#[trigger] has_label(labels@[j].refs@, l) <==> pair_labels(
                    pairs@,
                    labels@[j].oid@,
                    l,
                )),
        decreases keys.len() - k,
    {
        let key = &keys[k];
        let mut found: Vec<CommitRefInfo> = Vec::new();
        let mut q: usize = 0;
        while q < pairs.len()
            invariant
                0 <= q <= pairs.len(),
                forall|l: CommitRefInfo|
                    has_label(found@, l) <==> (exists|n: int|
                        0 <= n < q && (#[trigger] pairs@[n]).0@ == key@ && same_label(pairs@[n].1, l)),
            decreases pairs.len() - q,
        {
            if same_text(pairs[q].0.as_str(), key.as_str()) {
                let ghost f0 = found@;
                found.push(pairs[q].1.duplicate());
                proof {
                    assert forall|l: CommitRefInfo| has_label(found@, l) <==> (exists|n: int|
                        0 <= n < q + 1 && (#[trigger] pairs@[n]).0@ == key@ && same_label(pairs@[n].1, l)) by {
                        if has_label(found@, l) {
                            let a = choose|a: int| 0 <= a < found@.len() && same_label(#[trigger] found@[a], l);
                            if a < f0.len() {
                                assert(f0[a] == found@[a]);
                                assert(has_label(f0, l));
                            } else {
                                assert(pairs@[q as int].0@ == key@);
                            }
                        }
                        if exists|n: int|
                            0 <= n < q + 1 && (#[trigger] pairs@[n]).0@ == key@ && same_label(pairs@[n].1, l) {
                            let n = choose|n: int|
                                0 <= n < q + 1 && (#[trigger] pairs@[n]).0@ == key@ && same_label(pairs@[n].1, l);
                            if n < q {
                                assert(has_label(f0, l));
                                let a = choose|a: int| 0 <= a < f0.len() && same_label(#[trigger] f0[a], l);
                                assert(found@[a] == f0[a]);
                            } else {
                                assert(same_label(found@[f0.len() as int], l));
                            }
                        }
                    }
                }
            } else {
                proof {
                    assert forall|l: CommitRefInfo| has_label(found@, l) <==> (exists|n: int|
                        0 <= n < q + 1 && (#[trigger] pairs@[n]).0@ == key@ && same_label(pairs@[n].1, l)) by {
                        if exists|n: int|
                            0 <= n < q + 1 && (#[trigger] pairs@[n]).0@ == key@ && same_label(pairs@[n].1, l) {
                            let n = choose|n: int|
                                0 <= n < q + 1 && (#[trigger] pairs@[n]).0@ == key@ && same_label(pairs@[n].1, l);
                            assert(n != q);
                        }
                    }
                }
            }
            q = q + 1;
        }
        let refs = sort_commit_refs(&found);
        labels.push(CommitLabels { oid: key.clone(), refs });
        proof {
            let j = k as int;
            assert(labels@[j].oid@ == key@);
            assert forall|l: CommitRefInfo| has_label(labels@[j].refs@, l) <==> pair_labels(
                pairs@,
                labels@[j].oid@,
                l,
            ) by {
                assert(has_label(labels@[j].refs@, l) <==> has_label(found@, l));
            }
        }
        k = k + 1;
    }
    proof {
        assert forall|x: Seq<char>|
            #[trigger] lists_commit(labels@, x) <==> is_labelled(branches@, tags@, head, x) by {
            if exists|kk: int| 0 <= kk < labels@.len() && (#[trigger] labels@[kk]).oid@ == x {
                let kk = choose|kk: int| 0 <= kk < labels@.len() && (#[trigger] labels@[kk]).oid@ == x;
                assert(keys@[kk]@ == x);
                assert(has_text(keys@, x));
                assert(has_text(oids@, x));
                let j = choose|j: int| 0 <= j < oids@.len() && (#[trigger] oids@[j])@ == x;
                assert(pairs@[j].0@ == x);
                assert(same_label(pairs@[j].1, pairs@[j].1));
                assert(pair_labels(pairs@, x, pairs@[j].1));
                assert(labels_commit(branches@, tags@, head, x, pairs@[j].1));
            }
            if exists|l: CommitRefInfo| labels_commit(branches@, tags@, head, x, l) {
                let l = choose|l: CommitRefInfo| labels_commit(branches@, tags@, head, x, l);
                assert(pair_labels(pairs@, x, l));
                let j = choose|j: int| 0 <= j < pairs@.len() && (#[trigger] pairs@[j]).0@ == x && same_label(pairs@[j].1, l);
                assert(oids@[j]@ == x);
                assert(has_text(oids@, x));
                assert(has_text(keys@, x));
                let kk = choose|kk: int| 0 <= kk < keys@.len() && (#[trigger] keys@[kk])@ == x;
                assert(labels@[kk].oid@ == x);
            }
        }
    }
    HistoryRefs { starts: sorted_starts, labels }
}

} // verus!
