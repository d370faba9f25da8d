//! The lane layout of the commit graph: which lane each commit is drawn in,
//! which lanes pass its row, and where its parents continue.

use vstd::prelude::*;

use crate::lookup::{first_match, is_first_match, lemma_first_match_cases, lemma_first_match_is};
use crate::text::{
    chars_of, contains_seq, opt_view, same_text, string_of, text_contains, trim, trim_chars,
    CharClass,
};

verus! {

/// A commit as the graph reads it.
#[derive(Clone, Debug)]
pub struct GraphCommit {
    pub oid: String,
    pub short_oid: String,
    pub summary: String,
    pub author: String,
    /// Parent ids, first parent first.
    pub parents: Vec<String>,
}

/// The geometry of one row of the graph.
#[derive(Clone, Debug, Default, PartialEq, Eq)]
pub struct CommitGraphRow {
    /// The lane of the row's commit.
    pub lane: usize,
    /// The lanes occupied at the row, in increasing order.
    pub lanes: Vec<usize>,
    /// The lanes the row connects down to (its parents), in increasing order.
    pub connectors: Vec<usize>,
    /// A line comes from above into the commit.
    pub connected_from_top: bool,
}

/// Lanes and the commit each waits for.
pub type LaneState = Seq<Option<Seq<char>>>;

/// The first lane waiting for the commit, or `-1`.
pub open spec fn lane_of(lanes: LaneState, oid: Seq<char>) -> int {
    first_match(lanes, |l: Option<Seq<char>>| l == Some(oid))
}

/// The first free lane, or `-1`.
pub open spec fn free_lane(lanes: LaneState) -> int {
    first_match(lanes, |l: Option<Seq<char>>| l is None)
}

/// The lane a commit takes: the one waiting for it, else the first free
/// one, else a new lane at the end.
pub open spec fn claim_lane(lanes: LaneState, oid: Seq<char>) -> (LaneState, int) {
    let e = lane_of(lanes, oid);
    if e >= 0 {
        (lanes, e)
    } else {
        let f = free_lane(lanes);
        if f >= 0 {
            (lanes.update(f, Some(oid)), f)
        } else {
            (lanes.push(Some(oid)), lanes.len() as int)
        }
    }
}

/// After the commit in `lane`: its first parent continues in `lane`, unless
/// a lane already waits for it, where the line merges and `lane` is freed;
/// a root commit frees `lane`.
pub open spec fn link_first_parent(lanes: LaneState, lane: int, parents: Seq<Seq<char>>) -> (
    LaneState,
    Seq<int>,
) {
    if parents.len() == 0 {
        (lanes.update(lane, None), Seq::empty())
    } else {
        let e = lane_of(lanes, parents[0]);
        if e >= 0 {
            (lanes.update(lane, None), seq![e])
        } else {
            (lanes.update(lane, Some(parents[0])), seq![lane])
        }
    }
}

/// The further parents take lanes in turn (see `claim_lane`).
pub open spec fn claim_parents(lanes: LaneState, parents: Seq<Seq<char>>) -> (LaneState, Seq<int>)
    decreases parents.len(),
{
    if parents.len() == 0 {
        (lanes, Seq::empty())
    } else {
        let (l, cs) = claim_parents(lanes, parents.drop_last());
        let (l2, c) = claim_lane(l, parents.last());
        (l2, cs.push(c))
    }
}

/// The ids of the parents.
pub open spec fn parent_ids(commit: GraphCommit) -> Seq<Seq<char>> {
    commit.parents@.map_values(|p: String| p@)
}

/// `s` lists the members of `set` in increasing order, each once.
pub open spec fn lists_in_order(s: Seq<usize>, set: Set<int>) -> bool {
    &&& forall|i: int, j: int| 0 <= i < j < s.len() ==> s[i] < s[j]
    &&& forall|x: int| set.contains(x) <==> holds_value(s, s.len() as int, x)
}

/// The lanes in use, with `current`.
pub open spec fn active_set(lanes: LaneState, current: int) -> Set<int> {
    Set::new(|k: int| (0 <= k < lanes.len() && lanes[k] is Some) || k == current)
}

/// What a row shows.
pub ghost struct RowShape {
    pub lane: int,
    pub lanes: Set<int>,
    pub connectors: Set<int>,
    pub connected_from_top: bool,
}

/// One step of the layout: the row of `commit` and the lanes after it.
pub open spec fn graph_step(lanes: LaneState, commit: GraphCommit) -> (LaneState, RowShape) {
    let (l1, lane) = claim_lane(lanes, commit.oid@);
    let (l2, first) = link_first_parent(l1, lane, parent_ids(commit));
    let rest = if parent_ids(commit).len() == 0 {
        Seq::empty()
    } else {
        parent_ids(commit).skip(1)
    };
    let (l3, others) = claim_parents(l2, rest);
    let conns = first + others;
    (
        l3,
        RowShape {
            lane,
            lanes: active_set(l1, lane),
            connectors: Set::new(|c: int| exists|i: int| 0 <= i < conns.len() && conns[i] == c),
            connected_from_top: lane_of(lanes, commit.oid@) >= 0,
        },
    )
}

/// The layout of the commits, in order: the lanes after the last and the
/// shape of every row.
pub open spec fn graph_layout(commits: Seq<GraphCommit>) -> (LaneState, Seq<RowShape>)
    decreases commits.len(),
{
    if commits.len() == 0 {
        (Seq::empty(), Seq::empty())
    } else {
        let (lanes, rows) = graph_layout(commits.drop_last());
        let (next, row) = graph_step(lanes, commits.last());
        (next, rows.push(row))
    }
}

/// One row per commit.
pub proof fn lemma_layout_len(commits: Seq<GraphCommit>)
    ensures
        graph_layout(commits).1.len() == commits.len(),
    decreases commits.len(),
{
    if commits.len() > 0 {
        lemma_layout_len(commits.drop_last());
    }
}

/// `row` draws `shape`.
pub open spec fn row_draws(row: CommitGraphRow, shape: RowShape) -> bool {
    &&& row.lane == shape.lane
    &&& lists_in_order(row.lanes@, shape.lanes)
    &&& lists_in_order(row.connectors@, shape.connectors)
    &&& row.connected_from_top == shape.connected_from_top
}


/// The lanes as the layout sees them.
pub open spec fn lanes_view(lanes: Seq<Option<String>>) -> LaneState {
    lanes.map_values(|l: Option<String>| opt_view(l))
}

fn lane_position(lanes: &Vec<Option<String>>, oid: &str) -> (r: Option<usize>)
    ensures
        match r {
            Some(k) => k == lane_of(lanes_view(lanes@), oid@) && k < lanes@.len(),
            None => lane_of(lanes_view(lanes@), oid@) == -1,
        },
{
    let ghost view = lanes_view(lanes@);
    let ghost pred = |l: Option<Seq<char>>| l == Some(oid@);
    let mut k: usize = 0;
    while k < lanes.len()
        invariant
            0 <= k <= lanes.len(),
            view == lanes_view(lanes@),
            pred == (|l: Option<Seq<char>>| l == Some(oid@)),
            forall|j: int| 0 <= j < k ==> !pred(#[trigger] view[j]),
        decreases lanes.len() - k,
    {
        let hit = match &lanes[k] {
            Some(waiting) => same_text(waiting.as_str(), oid),
            None => false,
        };
        assert(view[k as int] == opt_view(lanes@[k as int]));
        if hit {
            proof {
                assert(is_first_match(view, pred, k as int));
                lemma_first_match_is(view, pred, k as int);
            }
            return Some(k);
        }
        k = k + 1;
    }
    proof {
        crate::lookup::lemma_first_match_none(view, pred);
    }
    None
}

fn first_free_lane(lanes: &Vec<Option<String>>) -> (r: Option<usize>)
    ensures
        match r {
            Some(k) => k == free_lane(lanes_view(lanes@)) && k < lanes@.len(),
            None => free_lane(lanes_view(lanes@)) == -1,
        },
{
    let ghost view = lanes_view(lanes@);
    let ghost pred = |l: Option<Seq<char>>| l is None;
    let mut k: usize = 0;
    while k < lanes.len()
        invariant
            0 <= k <= lanes.len(),
            view == lanes_view(lanes@),
            pred == (|l: Option<Seq<char>>| l is None),
            forall|j: int| 0 <= j < k ==> !pred(#[trigger] view[j]),
        decreases lanes.len() - k,
    {
        assert(view[k as int] == opt_view(lanes@[k as int]));
        if lanes[k].is_none() {
            proof {
                assert(is_first_match(view, pred, k as int));
                lemma_first_match_is(view, pred, k as int);
            }
            return Some(k);
        }
        k = k + 1;
    }
    proof {
        crate::lookup::lemma_first_match_none(view, pred);
    }
    None
}

fn set_lane(lanes: &mut Vec<Option<String>>, k: usize, value: Option<String>)
    requires
        k < old(lanes)@.len(),
    ensures
        lanes_view(final(lanes)@) == lanes_view(old(lanes)@).update(k as int, opt_view(value)),
        final(lanes)@.len() == old(lanes)@.len(),
{
    let ghost before = lanes_view(lanes@);
    lanes.set(k, value);
    assert(lanes_view(lanes@) =~= before.update(k as int, opt_view(value)));
}

/// Puts the commit in its lane (see `claim_lane`).
fn claim(lanes: &mut Vec<Option<String>>, oid: &String) -> (r: usize)
    ensures
        (lanes_view(final(lanes)@), r as int) == claim_lane(lanes_view(old(lanes)@), oid@),
        r < final(lanes)@.len(),
{
    if let Some(k) = lane_position(lanes, oid.as_str()) {
        return k;
    }
    match first_free_lane(lanes) {
        Some(k) => {
            set_lane(lanes, k, Some(oid.clone()));
            k
        },
        None => {
            let ghost before = lanes_view(lanes@);
            lanes.push(Some(oid.clone()));
            assert(lanes_view(lanes@) =~= before.push(Some(oid@)));
            lanes.len() - 1
        },
    }
}

/// The lanes in use, with `current`, in increasing order.
fn active_lane_indices(lanes: &Vec<Option<String>>, current: usize) -> (r: Vec<usize>)
    ensures
        lists_in_order(r@, active_set(lanes_view(lanes@), current as int)),
{
    let ghost view = lanes_view(lanes@);
    let ghost target = active_set(view, current as int);
    let mut out: Vec<usize> = Vec::new();
    let mut k: usize = 0;
    while k < lanes.len()
        invariant
            0 <= k <= lanes.len(),
            view == lanes_view(lanes@),
            target == active_set(view, current as int),
            forall|i: int, j: int| 0 <= i < j < out@.len() ==> out@[i] < out@[j],
            forall|i: int| 0 <= i < out@.len() ==> out@[i] < k,
            forall|x: int|
                0 <= x < k ==> (target.contains(x) <==> holds_value(out@, out@.len() as int, x)),
        decreases lanes.len() - k,
    {
        assert(view[k as int] == opt_view(lanes@[k as int]));
        let ghost before = out@;
        if lanes[k].is_some() || k == current {
            out.push(k);
            proof {
                assert forall|x: int| 0 <= x < k + 1 implies (target.contains(x) <==> holds_value(
                    out@,
                    out@.len() as int,
                    x,
                )) by {
                    if x < k {
                        if holds_value(before, before.len() as int, x) {
                            let i = choose|i: int| 0 <= i < before.len() && before[i] as int == x;
                            assert(out@[i] as int == x);
                        }
                        if holds_value(out@, out@.len() as int, x) {
                            let i = choose|i: int| 0 <= i < out@.len() && out@[i] as int == x;
                            assert(i < before.len());
                            assert(before[i] as int == x);
                        }
                    } else {
                        assert(out@[before.len() as int] as int == x);
                    }
                }
            }
        } else {
            proof {
                assert(!target.contains(k as int));
            }
        }
        k = k + 1;
    }
    if current >= lanes.len() {
        let ghost before = out@;
        out.push(current);
        proof {
            assert forall|x: int| target.contains(x) <==> holds_value(out@, out@.len() as int, x) by {
                if 0 <= x < lanes@.len() {
                    if holds_value(before, before.len() as int, x) {
                        let i = choose|i: int| 0 <= i < before.len() && before[i] as int == x;
                        assert(out@[i] as int == x);
                    }
                    if holds_value(out@, out@.len() as int, x) {
                        let i = choose|i: int| 0 <= i < out@.len() && out@[i] as int == x;
                        if i == before.len() {
                            assert(out@[i] == current);
                        }
                        assert(i < before.len());
                    }
                } else if x == current {
                    assert(out@[before.len() as int] as int == x);
                } else {
                    if holds_value(out@, out@.len() as int, x) {
                        let i = choose|i: int| 0 <= i < out@.len() && out@[i] as int == x;
                        if i < before.len() {
                            assert(before[i] < lanes@.len());
                        }
                    }
                }
            }
        }
    } else {
        proof {
            assert forall|x: int| target.contains(x) <==> holds_value(out@, out@.len() as int, x) by {
                if x >= lanes@.len() || x < 0 {
                    assert(!target.contains(x));
                    if holds_value(out@, out@.len() as int, x) {
                        let i = choose|i: int| 0 <= i < out@.len() && out@[i] as int == x;
                    }
                }
            }
        }
    }
    out
}

/// One of the first `n` values of `s` is `y`.
pub open spec fn holds_value(s: Seq<usize>, n: int, y: int) -> bool {
    exists|a: int| 0 <= a < n && s[a] as int == y
}

/// The values of `v`, each once, in increasing order.
fn sorted_distinct(v: &Vec<usize>) -> (r: Vec<usize>)
    ensures
        lists_in_order(r@, Set::new(|c: int| holds_value(v@, v@.len() as int, c))),
{
    let ghost target = Set::new(|c: int| holds_value(v@, v@.len() as int, c));
    let mut out: Vec<usize> = Vec::new();
    let mut i: usize = 0;
    while i < v.len()
        invariant
            0 <= i <= v.len(),
            target == Set::new(|c: int| holds_value(v@, v@.len() as int, c)),
            forall|a: int, b: int| 0 <= a < b < out@.len() ==> out@[a] < out@[b],
            forall|y: int|
                #![trigger holds_value(v@, i as int, y)]
                #![trigger holds_value(out@, out@.len() as int, y)]
                holds_value(v@, i as int, y) <==> holds_value(out@, out@.len() as int, y),
        decreases v.len() - i,
    {
        let x = v[i];
        let mut p: usize = 0;
        while p < out.len() && out[p] < x
            invariant
                0 <= p <= out@.len(),
                forall|a: int| 0 <= a < p ==> out@[a] < x,
            decreases out@.len() - p,
        {
            p = p + 1;
        }
        let ghost before = out@;
        if p < out.len() && out[p] == x {
            proof {
                assert forall|y: int|
                    #![trigger holds_value(v@, i + 1, y)]
                    #![trigger holds_value(out@, out@.len() as int, y)]
                    holds_value(v@, i + 1, y) <==> holds_value(out@, out@.len() as int, y) by {
                    if holds_value(v@, i + 1, y) {
                        let j = choose|j: int| 0 <= j < i + 1 && v@[j] as int == y;
                        if j == i {
                            assert(out@[p as int] as int == y);
                        } else {
                            assert(holds_value(v@, i as int, y));
                        }
                    }
                    if holds_value(out@, out@.len() as int, y) {
                        assert(holds_value(v@, i as int, y));
                    }
                }
            }
        } else {
            out.insert(p, x);
            proof {
                assert forall|a: int, b: int| 0 <= a < b < out@.len() implies out@[a] < out@[b] by {
                    if b < p {
                        assert(out@[a] == before[a] && out@[b] == before[b]);
                    } else if b == p {
                        assert(out@[a] == before[a]);
                    } else if a < p {
                        assert(out@[b] == before[b - 1]);
                        assert(before[p as int] > x);
                        assert(before[p as int] <= before[b - 1]);
                    } else if a == p {
                        assert(out@[b] == before[b - 1]);
                        assert(before[p as int] > x);
                        assert(before[p as int] <= before[b - 1]);
                    } else {
                        assert(out@[a] == before[a - 1] && out@[b] == before[b - 1]);
                    }
                }
                assert forall|y: int|
                    #![trigger holds_value(v@, i + 1, y)]
                    #![trigger holds_value(out@, out@.len() as int, y)]
                    holds_value(v@, i + 1, y) <==> holds_value(out@, out@.len() as int, y) by {
                    if holds_value(v@, i + 1, y) {
                        let j = choose|j: int| 0 <= j < i + 1 && v@[j] as int == y;
                        if j == i {
                            assert(out@[p as int] as int == y);
                        } else {
                            assert(holds_value(v@, i as int, y));
                            assert(holds_value(before, before.len() as int, y));
                            let a = choose|a: int| 0 <= a < before.len() && before[a] as int == y;
                            if a < p {
                                assert(out@[a] as int == y);
                            } else {
                                assert(out@[a + 1] as int == y);
                            }
                        }
                    }
                    if holds_value(out@, out@.len() as int, y) {
                        let a = choose|a: int| 0 <= a < out@.len() && out@[a] as int == y;
                        if a < p {
                            assert(before[a] as int == y);
                            assert(holds_value(before, before.len() as int, y));
                        } else if a > p {
                            assert(before[a - 1] as int == y);
                            assert(holds_value(before, before.len() as int, y));
                        } else {
                            assert(v@[i as int] as int == y);
                        }
                    }
                }
            }
        }
        i = i + 1;
    }
    proof {
        assert forall|y: int| target.contains(y) <==> holds_value(out@, out@.len() as int, y) by {
            assert(holds_value(v@, v@.len() as int, y) <==> holds_value(v@, i as int, y));
        }
    }
    out
}


/// The rows of the commit graph for the commits in order (newest first, as
/// the revision walk gives them). Lanes are never pruned, so a row depends
/// only on its commit and the ones before it.
pub fn commit_graph_rows(commits: &[GraphCommit]) -> (r: Vec<CommitGraphRow>)
    ensures
        r@.len() == commits@.len(),
        forall|i: int|
            0 <= i < commits@.len() ==> row_draws(#[trigger] r@[i], graph_layout(commits@).1[i]),
{
    let mut lanes: Vec<Option<String>> = Vec::new();
    let mut rows: Vec<CommitGraphRow> = Vec::new();
    let mut i: usize = 0;
    proof {
        assert(lanes_view(lanes@) =~= Seq::<Option<Seq<char>>>::empty());
        assert(commits@.take(0) =~= Seq::<GraphCommit>::empty());
    }
    while i < commits.len()
        invariant
            0 <= i <= commits.len(),
            lanes_view(lanes@) == graph_layout(commits@.take(i as int)).0,
            rows@.len() == i,
            forall|j: int|
                0 <= j < i ==> row_draws(#[trigger] rows@[j], graph_layout(commits@.take(i as int)).1[j]),
        decreases commits.len() - i,
    {
        let commit = &commits[i];
        let ghost l0 = lanes_view(lanes@);
        let ghost parents = parent_ids(*commit);
        let existing = lane_position(&lanes, commit.oid.as_str());
        let connected_from_top = existing.is_some();
        let lane = claim(&mut lanes, &commit.oid);
        let ghost l1 = lanes_view(lanes@);
        let lanes_before = active_lane_indices(&lanes, lane);
        let mut connectors: Vec<usize> = Vec::new();
        if commit.parents.len() > 0 {
            assert(parents[0] == commit.parents@[0]@);
            match lane_position(&lanes, commit.parents[0].as_str()) {
                Some(e) => {
                    connectors.push(e);
                    set_lane(&mut lanes, lane, None);
                },
                None => {
                    set_lane(&mut lanes, lane, Some(commit.parents[0].clone()));
                    connectors.push(lane);
                },
            }
        } else {
            set_lane(&mut lanes, lane, None);
        }
        let ghost l2 = lanes_view(lanes@);
        let ghost first = connectors@;
        proof {
            assert((l2, first.map_values(|c: usize| c as int)) == link_first_parent(l1, lane as int, parents));
        }
        let ghost rest = if parents.len() == 0 {
            Seq::<Seq<char>>::empty()
        } else {
            parents.skip(1)
        };
        let mut k: usize = 1;
        proof {
            assert(rest.take(0) =~= Seq::<Seq<char>>::empty());
        }
        while k < commit.parents.len()
            invariant
                1 <= k,
                commit.parents@.len() == parents.len(),
                k <= commit.parents@.len() || commit.parents@.len() == 0,
                parents == parent_ids(*commit),
                rest == (if parents.len() == 0 {
                    Seq::<Seq<char>>::empty()
                } else {
                    parents.skip(1)
                }),
                first.len() <= connectors@.len(),
                connectors@.take(first.len() as int) == first,
                ({
                    let done = if parents.len() == 0 { 0 } else { (k - 1) as int };
                    let (l, others) = claim_parents(l2, rest.take(done));
                    &&& lanes_view(lanes@) == l
                    &&& connectors@.skip(first.len() as int).map_values(|c: usize| c as int) == others
                }),
            decreases commit.parents.len() - k,
        {
            let ghost before_lanes = lanes_view(lanes@);
            let ghost before_conns = connectors@;
            let pl = claim(&mut lanes, &commit.parents[k]);
            connectors.push(pl);
            proof {
                assert(parents[k as int] == commit.parents@[k as int]@);
                assert(rest.take(k as int).drop_last() =~= rest.take((k - 1) as int));
                assert(rest.take(k as int).last() == parents[k as int]);
                assert(connectors@.take(first.len() as int) =~= before_conns.take(first.len() as int));
                assert(connectors@.skip(first.len() as int).map_values(|c: usize| c as int) =~= before_conns.skip(
                    first.len() as int,
                ).map_values(|c: usize| c as int).push(pl as int));
            }
            k = k + 1;
        }
        proof {
            let done = if parents.len() == 0 { 0 } else { (parents.len() - 1) as int };
            assert(rest.take(done) =~= rest);
        }
        let sorted = sorted_distinct(&connectors);
        let row = CommitGraphRow { lane, lanes: lanes_before, connectors: sorted, connected_from_top };
        proof {
            let (next, shape) = graph_step(l0, *commit);
            let (l3, others) = claim_parents(l2, rest);
            let conns = first.map_values(|c: usize| c as int) + others;
            assert(connectors@ =~= first + connectors@.skip(first.len() as int));
            assert(Set::new(|c: int| holds_value(connectors@, connectors@.len() as int, c)) =~= Set::new(
                |c: int| exists|j: int| 0 <= j < conns.len() && conns[j] == c,
            )) by {
                assert forall|c: int| holds_value(connectors@, connectors@.len() as int, c) implies exists|j: int|
                    0 <= j < conns.len() && conns[j] == c by {
                    let j = choose|j: int| 0 <= j < connectors@.len() && connectors@[j] as int == c;
                    assert(conns[j] == connectors@[j] as int);
                }
                assert forall|c: int| (exists|j: int| 0 <= j < conns.len() && conns[j] == c) implies holds_value(
                    connectors@,
                    connectors@.len() as int,
                    c,
                ) by {
                    let j = choose|j: int| 0 <= j < conns.len() && conns[j] == c;
                    assert(conns[j] == connectors@[j] as int);
                }
            }
            assert(row_draws(row, shape));
            assert(commits@.take(i + 1).drop_last() =~= commits@.take(i as int));
            assert(commits@.take(i + 1).last() == commits@[i as int]);
        }
        let ghost prev_rows = rows@;
        let ghost shape = graph_step(l0, *commit).1;
        rows.push(row);
        proof {
            let prev = graph_layout(commits@.take(i as int));
            let now = graph_layout(commits@.take(i + 1));
            lemma_layout_len(commits@.take(i as int));
            assert(now.1 == prev.1.push(shape));
            assert forall|j: int| 0 <= j < i + 1 implies row_draws(#[trigger] rows@[j], now.1[j]) by {
                if j < i {
                    assert(rows@[j] == prev_rows[j]);
                    assert(now.1[j] == prev.1[j]);
                }
            }
        }
        i = i + 1;
    }
    proof {
        assert(commits@.take(commits@.len() as int) =~= commits@);
    }
    rows
}


/// Loading more commits never changes the rows already drawn: the layout of
/// the first `k` commits is the first `k` rows of the layout of all.
pub proof fn lemma_layout_prefix_stable(commits: Seq<GraphCommit>, k: int)
    requires
        0 <= k <= commits.len(),
    ensures
        graph_layout(commits.take(k)).1 == graph_layout(commits).1.take(k),
    decreases commits.len(),
{
    lemma_layout_len(commits);
    if k == commits.len() {
        assert(commits.take(k) =~= commits);
        assert(graph_layout(commits).1.take(k) =~= graph_layout(commits).1);
    } else {
        let shorter = commits.drop_last();
        lemma_layout_prefix_stable(shorter, k);
        lemma_layout_len(shorter);
        assert(shorter.take(k) =~= commits.take(k));
        assert(graph_layout(commits).1 == graph_layout(shorter).1.push(
            graph_step(graph_layout(shorter).0, commits.last()).1,
        ));
        assert(graph_layout(commits).1.take(k) =~= graph_layout(shorter).1.take(k));
    }
}

/// No commit waits in two lanes.
pub open spec fn lanes_distinct(lanes: LaneState) -> bool {
    forall|i: int, j: int|
        0 <= i < lanes.len() && 0 <= j < lanes.len() && i != j && (#[trigger] lanes[i]) is Some
            ==> lanes[i] != #[trigger] lanes[j]
}

proof fn lemma_claim_lane_distinct(lanes: LaneState, oid: Seq<char>)
    requires
        lanes_distinct(lanes),
    ensures
        lanes_distinct(claim_lane(lanes, oid).0),
{
    let pred = |l: Option<Seq<char>>| l == Some(oid);
    lemma_first_match_cases(lanes, pred);
    lemma_first_match_cases(lanes, |l: Option<Seq<char>>| l is None);
    if lane_of(lanes, oid) < 0 {
        assert forall|j: int| 0 <= j < lanes.len() implies lanes[j] != Some(oid) by {
            assert(!pred(lanes[j]));
        }
    }
}

proof fn lemma_claim_parents_distinct(lanes: LaneState, parents: Seq<Seq<char>>)
    requires
        lanes_distinct(lanes),
    ensures
        lanes_distinct(claim_parents(lanes, parents).0),
    decreases parents.len(),
{
    if parents.len() > 0 {
        lemma_claim_parents_distinct(lanes, parents.drop_last());
        lemma_claim_lane_distinct(claim_parents(lanes, parents.drop_last()).0, parents.last());
    }
}

proof fn lemma_step_distinct(lanes: LaneState, commit: GraphCommit)
    requires
        lanes_distinct(lanes),
    ensures
        lanes_distinct(graph_step(lanes, commit).0),
{
    let (l1, lane) = claim_lane(lanes, commit.oid@);
    lemma_claim_lane_distinct(lanes, commit.oid@);
    let parents = parent_ids(commit);
    let (l2, first) = link_first_parent(l1, lane, parents);
    assert(lanes_distinct(l2)) by {
        if parents.len() > 0 && lane_of(l1, parents[0]) < 0 {
            let pred = |l: Option<Seq<char>>| l == Some(parents[0]);
            lemma_first_match_cases(l1, pred);
            assert forall|j: int| 0 <= j < l1.len() implies l1[j] != Some(parents[0]) by {
                assert(!pred(l1[j]));
            }
        }
    }
    let rest = if parents.len() == 0 {
        Seq::empty()
    } else {
        parents.skip(1)
    };
    lemma_claim_parents_distinct(l2, rest);
}

/// The lanes never hold the same commit twice: a first parent that already
/// has a lane takes no second one, so no lane is left waiting for a commit
/// that another lane ends at.
pub proof fn lemma_layout_lanes_distinct(commits: Seq<GraphCommit>)
    ensures
        lanes_distinct(graph_layout(commits).0),
    decreases commits.len(),
{
    if commits.len() > 0 {
        lemma_layout_lanes_distinct(commits.drop_last());
        lemma_step_distinct(graph_layout(commits.drop_last()).0, commits.last());
    }
}


/// Two rows show the same: the same lane, occupied lanes, connectors and
/// line from above.
pub open spec fn same_row(a: CommitGraphRow, b: CommitGraphRow) -> bool {
    &&& a.lane == b.lane
    &&& a.lanes@ == b.lanes@
    &&& a.connectors@ == b.connectors@
    &&& a.connected_from_top == b.connected_from_top
}

/// `rows` are rows that `commit_graph_rows` may give for `commits`: what
/// its contract says of its result.
pub open spec fn rows_of(rows: Seq<CommitGraphRow>, commits: Seq<GraphCommit>) -> bool {
    &&& rows.len() == commits.len()
    &&& forall|i: int| 0 <= i < commits.len() ==> row_draws(#[trigger] rows[i], graph_layout(commits).1[i])
}

/// An increasing listing of a set of lanes is unique.
proof fn lemma_listing_unique(s1: Seq<usize>, s2: Seq<usize>)
    requires
        forall|i: int, j: int| 0 <= i < j < s1.len() ==> s1[i] < s1[j],
        forall|i: int, j: int| 0 <= i < j < s2.len() ==> s2[i] < s2[j],
        forall|x: int| holds_value(s1, s1.len() as int, x) <==> holds_value(s2, s2.len() as int, x),
    ensures
        s1 == s2,
    decreases s1.len(),
{
    if s1.len() == 0 {
        if s2.len() > 0 {
            assert(holds_value(s2, s2.len() as int, s2[0] as int));
        }
        assert(s1 =~= s2);
    } else if s2.len() == 0 {
        assert(holds_value(s1, s1.len() as int, s1[0] as int));
    } else {
        assert(holds_value(s1, s1.len() as int, s1[0] as int));
        assert(holds_value(s2, s2.len() as int, s2[0] as int));
        let b = choose|a: int| 0 <= a < s2.len() && s2[a] as int == s1[0] as int;
        let c = choose|a: int| 0 <= a < s1.len() && s1[a] as int == s2[0] as int;
        if b > 0 {
            assert(s2[0] < s2[b]);
        }
        if c > 0 {
            assert(s1[0] < s1[c]);
        }
        assert(s1[0] == s2[0]);
        let t1 = s1.drop_first();
        let t2 = s2.drop_first();
        assert forall|x: int| holds_value(t1, t1.len() as int, x) <==> holds_value(
            t2,
            t2.len() as int,
            x,
        ) by {
            if holds_value(t1, t1.len() as int, x) {
                let a = choose|a: int| 0 <= a < t1.len() && t1[a] as int == x;
                assert(s1[a + 1] as int == x);
                assert(holds_value(s1, s1.len() as int, x));
                let d = choose|d: int| 0 <= d < s2.len() && s2[d] as int == x;
                assert(s1[0] < s1[a + 1]);
                assert(d > 0);
                assert(t2[d - 1] as int == x);
            }
            if holds_value(t2, t2.len() as int, x) {
                let a = choose|a: int| 0 <= a < t2.len() && t2[a] as int == x;
                assert(s2[a + 1] as int == x);
                assert(holds_value(s2, s2.len() as int, x));
                let d = choose|d: int| 0 <= d < s1.len() && s1[d] as int == x;
                assert(s2[0] < s2[a + 1]);
                assert(d > 0);
                assert(t1[d - 1] as int == x);
            }
        }
        lemma_listing_unique(t1, t2);
        assert(s1 =~= seq![s1[0]] + t1);
        assert(s2 =~= seq![s2[0]] + t2);
    }
}

/// Loading a further page never changes earlier rows: the rows for the
/// first `k` commits are the first `k` rows for all of them.
pub proof fn lemma_rows_prefix_stable(
    commits: Seq<GraphCommit>,
    k: int,
    rows: Seq<CommitGraphRow>,
    prefix_rows: Seq<CommitGraphRow>,
)
    requires
        0 <= k <= commits.len(),
        rows_of(rows, commits),
        rows_of(prefix_rows, commits.take(k)),
    ensures
        prefix_rows.len() == k,
        forall|i: int| 0 <= i < k ==> same_row(#[trigger] prefix_rows[i], rows[i]),
{
    lemma_layout_prefix_stable(commits, k);
    lemma_layout_len(commits);
    assert forall|i: int| 0 <= i < k implies same_row(#[trigger] prefix_rows[i], rows[i]) by {
        let shape = graph_layout(commits).1[i];
        assert(graph_layout(commits.take(k)).1[i] == shape);
        assert(row_draws(prefix_rows[i], shape));
        assert(row_draws(rows[i], shape));
        let (a, b) = (prefix_rows[i], rows[i]);
        assert forall|x: int| holds_value(a.lanes@, a.lanes@.len() as int, x) <==> holds_value(
            b.lanes@,
            b.lanes@.len() as int,
            x,
        ) by {
            assert(shape.lanes.contains(x) <==> holds_value(a.lanes@, a.lanes@.len() as int, x));
            assert(shape.lanes.contains(x) <==> holds_value(b.lanes@, b.lanes@.len() as int, x));
        }
        assert forall|x: int| holds_value(a.connectors@, a.connectors@.len() as int, x) <==> holds_value(
            b.connectors@,
            b.connectors@.len() as int,
            x,
        ) by {
            assert(shape.connectors.contains(x) <==> holds_value(
                a.connectors@,
                a.connectors@.len() as int,
                x,
            ));
            assert(shape.connectors.contains(x) <==> holds_value(
                b.connectors@,
                b.connectors@.len() as int,
                x,
            ));
        }
        lemma_listing_unique(a.lanes@, b.lanes@);
        lemma_listing_unique(a.connectors@, b.connectors@);
    }
}

/// The commits that the lanes wait for.
pub open spec fn waited(lanes: LaneState) -> Set<Seq<char>> {
    Set::new(|v: Seq<char>| exists|k: int| 0 <= k < lanes.len() && lanes[k] == Some(v))
}

/// The parents of the commits that are not among the commits themselves:
/// the commits still to come.
pub open spec fn pending_parents(commits: Seq<GraphCommit>) -> Set<Seq<char>> {
    Set::new(
        |p: Seq<char>|
            (exists|j: int, m: int|
                0 <= j < commits.len() && 0 <= m < parent_ids(commits[j]).len() && #[trigger] parent_ids(
                    commits[j],
                )[m] == p) && !(exists|j: int| 0 <= j < commits.len() && #[trigger] commits[j].oid@ == p),
    )
}

/// The commits come as a revision walk lists them: each once, and none
/// lists as a parent itself or a commit listed before it (parents may lie
/// beyond the loaded commits).
pub open spec fn walk_ordered(commits: Seq<GraphCommit>) -> bool {
    &&& forall|a: int, b: int|
        0 <= a < b < commits.len() ==> (#[trigger] commits[a]).oid@ != (#[trigger] commits[b]).oid@
    &&& forall|j: int, a: int, m: int|
        0 <= a <= j < commits.len() && 0 <= m < parent_ids(commits[j]).len() ==> #[trigger] parent_ids(
            commits[j],
        )[m] != (#[trigger] commits[a]).oid@
}

proof fn lemma_waited_claim_lane(lanes: LaneState, oid: Seq<char>)
    ensures
        waited(claim_lane(lanes, oid).0) == waited(lanes).insert(oid),
        0 <= claim_lane(lanes, oid).1 < claim_lane(lanes, oid).0.len(),
        claim_lane(lanes, oid).0[claim_lane(lanes, oid).1] == Some(oid),
{
    let pred = |l: Option<Seq<char>>| l == Some(oid);
    let free = |l: Option<Seq<char>>| l is None;
    lemma_first_match_cases(lanes, pred);
    lemma_first_match_cases(lanes, free);
    let (l1, lane) = claim_lane(lanes, oid);
    if lane_of(lanes, oid) >= 0 {
        assert(pred(lanes[lane]));
        assert(waited(l1) =~= waited(lanes).insert(oid));
    } else if free_lane(lanes) >= 0 {
        let f = free_lane(lanes);
        assert(free(lanes[f]));
        assert forall|v: Seq<char>| waited(l1).contains(v) <==> waited(lanes).insert(oid).contains(v) by {
            if waited(lanes).contains(v) {
                let k = choose|k: int| 0 <= k < lanes.len() && lanes[k] == Some(v);
                assert(l1[k] == Some(v));
            }
            if v == oid {
                assert(l1[f] == Some(v));
            }
            if waited(l1).contains(v) {
                let k = choose|k: int| 0 <= k < l1.len() && l1[k] == Some(v);
                if k != f {
                    assert(lanes[k] == Some(v));
                }
            }
        }
        assert(waited(l1) =~= waited(lanes).insert(oid));
    } else {
        assert forall|v: Seq<char>| waited(l1).contains(v) <==> waited(lanes).insert(oid).contains(v) by {
            if waited(lanes).contains(v) {
                let k = choose|k: int| 0 <= k < lanes.len() && lanes[k] == Some(v);
                assert(l1[k] == Some(v));
            }
            if v == oid {
                assert(l1[lanes.len() as int] == Some(v));
            }
            if waited(l1).contains(v) {
                let k = choose|k: int| 0 <= k < l1.len() && l1[k] == Some(v);
                if k < lanes.len() {
                    assert(lanes[k] == Some(v));
                }
            }
        }
        assert(waited(l1) =~= waited(lanes).insert(oid));
    }
}

proof fn lemma_waited_claim_parents(lanes: LaneState, parents: Seq<Seq<char>>)
    ensures
        waited(claim_parents(lanes, parents).0) == waited(lanes).union(parents.to_set()),
    decreases parents.len(),
{
    if parents.len() == 0 {
        assert(parents.to_set() =~= Set::<Seq<char>>::empty());
        assert(waited(lanes).union(parents.to_set()) =~= waited(lanes));
    } else {
        let init = parents.drop_last();
        lemma_waited_claim_parents(lanes, init);
        let l = claim_parents(lanes, init).0;
        lemma_waited_claim_lane(l, parents.last());
        assert(parents =~= init.push(parents.last()));
        assert(parents.to_set() =~= init.to_set().insert(parents.last())) by {
            assert forall|v: Seq<char>| parents.to_set().contains(v) <==> init.to_set().insert(
                parents.last(),
            ).contains(v) by {
                if parents.to_set().contains(v) {
                    let k = choose|k: int| 0 <= k < parents.len() && parents[k] == v;
                    if k < init.len() {
                        assert(init[k] == v);
                    }
                }
                if init.to_set().contains(v) {
                    let k = choose|k: int| 0 <= k < init.len() && init[k] == v;
                    assert(parents[k] == v);
                }
                if v == parents.last() {
                    assert(parents[parents.len() - 1] == v);
                }
            }
        }
        assert(waited(claim_parents(lanes, parents).0) =~= waited(lanes).union(parents.to_set()));
    }
}

/// One layout step: the commit stops being waited for and its parents are
/// waited for.
proof fn lemma_waited_step(lanes: LaneState, commit: GraphCommit)
    requires
        lanes_distinct(lanes),
        !parent_ids(commit).contains(commit.oid@),
    ensures
        waited(graph_step(lanes, commit).0) == waited(lanes).remove(commit.oid@).union(
            parent_ids(commit).to_set(),
        ),
{
    let oid = commit.oid@;
    let parents = parent_ids(commit);
    lemma_waited_claim_lane(lanes, oid);
    lemma_claim_lane_distinct(lanes, oid);
    let (l1, lane) = claim_lane(lanes, oid);
    let (l2, first) = link_first_parent(l1, lane, parents);
    let rest = if parents.len() == 0 {
        Seq::<Seq<char>>::empty()
    } else {
        parents.skip(1)
    };
    // After the first parent: the commit is gone, the first parent is waited for.
    let w2 = if parents.len() == 0 {
        waited(l1).remove(oid)
    } else {
        waited(l1).remove(oid).insert(parents[0])
    };
    assert(waited(l2) =~= w2) by {
        assert forall|v: Seq<char>| waited(l2).contains(v) <==> w2.contains(v) by {
            if waited(l2).contains(v) {
                let k = choose|k: int| 0 <= k < l2.len() && l2[k] == Some(v);
                if k != lane {
                    assert(l1[k] == Some(v));
                    assert(l1[k] != l1[lane]);
                }
            }
            if w2.contains(v) {
                if parents.len() > 0 && v == parents[0] {
                    let pred = |l: Option<Seq<char>>| l == Some(parents[0]);
                    lemma_first_match_cases(l1, pred);
                    if lane_of(l1, parents[0]) >= 0 {
                        let e = lane_of(l1, parents[0]);
                        assert(pred(l1[e]));
                        assert(parents.contains(parents[0]));
                        assert(e != lane);
                        assert(l2[e] == Some(v));
                    } else {
                        assert(l2[lane] == Some(v));
                    }
                } else {
                    let k = choose|k: int| 0 <= k < l1.len() && l1[k] == Some(v);
                    assert(k != lane);
                    assert(l2[k] == Some(v));
                }
            }
        }
    }
    lemma_waited_claim_parents(l2, rest);
    assert(waited(lanes).insert(oid).remove(oid) =~= waited(lanes).remove(oid));
    if parents.len() > 0 {
        assert(parents =~= seq![parents[0]] + rest);
        assert(parents.to_set() =~= rest.to_set().insert(parents[0])) by {
            assert forall|v: Seq<char>| parents.to_set().contains(v) <==> rest.to_set().insert(
                parents[0],
            ).contains(v) by {
                if parents.to_set().contains(v) {
                    let k = choose|k: int| 0 <= k < parents.len() && parents[k] == v;
                    if k > 0 {
                        assert(rest[k - 1] == v);
                    }
                }
                if rest.to_set().contains(v) {
                    let k = choose|k: int| 0 <= k < rest.len() && rest[k] == v;
                    assert(parents[k + 1] == v);
                }
                if v == parents[0] {
                    assert(parents.contains(v));
                }
            }
        }
    } else {
        assert(parents.to_set() =~= Set::<Seq<char>>::empty());
    }
    assert(waited(graph_step(lanes, commit).0) =~= waited(lanes).remove(oid).union(parents.to_set()));
}

/// The pending parents after one more commit: the commit is no longer
/// pending and its parents are.
proof fn lemma_pending_push(commits: Seq<GraphCommit>)
    requires
        commits.len() > 0,
        walk_ordered(commits),
    ensures
        pending_parents(commits) == pending_parents(commits.drop_last()).remove(
            commits.last().oid@,
        ).union(parent_ids(commits.last()).to_set()),
{
    let init = commits.drop_last();
    let c = commits.last();
    let n = commits.len() - 1;
    assert(commits[n] == c);
    assert forall|p: Seq<char>| pending_parents(commits).contains(p) <==> pending_parents(init).remove(
        c.oid@,
    ).union(parent_ids(c).to_set()).contains(p) by {
        if pending_parents(commits).contains(p) {
            let (j, m) = choose|j: int, m: int|
                0 <= j < commits.len() && 0 <= m < parent_ids(commits[j]).len() && #[trigger] parent_ids(
                    commits[j],
                )[m] == p;
            if j < n {
                assert(init[j] == commits[j]);
                assert(parent_ids(init[j])[m] == p);
                assert forall|a: int| 0 <= a < init.len() implies #[trigger] init[a].oid@ != p by {
                    assert(init[a] == commits[a]);
                }
                assert(c.oid@ != p);
            } else {
                assert(parent_ids(c)[m] == p);
                assert(parent_ids(c).contains(p));
            }
        }
        if pending_parents(init).remove(c.oid@).union(parent_ids(c).to_set()).contains(p) {
            if parent_ids(c).to_set().contains(p) {
                let m = choose|m: int| 0 <= m < parent_ids(c).len() && parent_ids(c)[m] == p;
                assert(parent_ids(commits[n])[m] == p);
                assert forall|a: int| 0 <= a < commits.len() implies #[trigger] commits[a].oid@ != p by {
                    assert(parent_ids(commits[n])[m] != commits[a].oid@);
                }
            } else {
                let (j, m) = choose|j: int, m: int|
                    0 <= j < init.len() && 0 <= m < parent_ids(init[j]).len() && #[trigger] parent_ids(
                        init[j],
                    )[m] == p;
                assert(init[j] == commits[j]);
                assert(parent_ids(commits[j])[m] == p);
                assert forall|a: int| 0 <= a < commits.len() implies #[trigger] commits[a].oid@ != p by {
                    if a < n {
                        assert(init[a] == commits[a]);
                    }
                }
            }
        }
    }
    assert(pending_parents(commits) =~= pending_parents(init).remove(c.oid@).union(
        parent_ids(c).to_set(),
    ));
}

/// The lanes after a walk-ordered list of commits wait for exactly the
/// pending parents.
proof fn lemma_waited_is_pending(commits: Seq<GraphCommit>)
    requires
        walk_ordered(commits),
    ensures
        waited(graph_layout(commits).0) == pending_parents(commits),
    decreases commits.len(),
{
    if commits.len() == 0 {
        assert(waited(graph_layout(commits).0) =~= Set::<Seq<char>>::empty());
        assert(pending_parents(commits) =~= Set::<Seq<char>>::empty());
    } else {
        let init = commits.drop_last();
        let c = commits.last();
        let n = commits.len() - 1;
        assert(commits[n] == c);
        assert(walk_ordered(init)) by {
            assert forall|a: int, b: int| 0 <= a < b < init.len() implies (#[trigger] init[a]).oid@
                != (#[trigger] init[b]).oid@ by {
                assert(init[a] == commits[a] && init[b] == commits[b]);
            }
            assert forall|j: int, a: int, m: int|
                0 <= a <= j < init.len() && 0 <= m < parent_ids(init[j]).len() implies #[trigger] parent_ids(
                init[j],
            )[m] != (#[trigger] init[a]).oid@ by {
                assert(init[a] == commits[a] && init[j] == commits[j]);
            }
        }
        lemma_waited_is_pending(init);
        lemma_layout_lanes_distinct(init);
        assert(!parent_ids(c).contains(c.oid@)) by {
            if parent_ids(c).contains(c.oid@) {
                let m = choose|m: int| 0 <= m < parent_ids(c).len() && parent_ids(c)[m] == c.oid@;
                assert(parent_ids(commits[n])[m] != commits[n].oid@);
            }
        }
        lemma_waited_step(graph_layout(init).0, c);
        lemma_pending_push(commits);
    }
}

/// The occupied lanes of a lane state in which no commit waits twice are
/// as many as the commits waited for.
proof fn lemma_occupied_count(lanes: LaneState, current: int)
    requires
        lanes_distinct(lanes),
        0 <= current < lanes.len(),
        lanes[current] is Some,
    ensures
        active_set(lanes, current).finite(),
        waited(lanes).finite(),
        active_set(lanes, current).len() == waited(lanes).len(),
{
    let occ = active_set(lanes, current);
    vstd::set_lib::lemma_int_range(0, lanes.len() as int);
    vstd::set_lib::lemma_len_subset(occ, vstd::set_lib::set_int_range(0, lanes.len() as int));
    let f = |k: int| lanes[k]->0;
    assert(vstd::relations::injective_on(f, occ)) by {
        assert forall|x1: int, x2: int| occ.contains(x1) && occ.contains(x2) && #[trigger] f(x1)
            == #[trigger] f(x2) implies x1 == x2 by {
            if x1 != x2 {
                assert(lanes[x1] == lanes[x2]);
            }
        }
    }
    assert(occ.map(f) =~= waited(lanes)) by {
        assert forall|v: Seq<char>| occ.map(f).contains(v) <==> waited(lanes).contains(v) by {
            if waited(lanes).contains(v) {
                let k = choose|k: int| 0 <= k < lanes.len() && lanes[k] == Some(v);
                assert(occ.contains(k) && f(k) == v);
            }
            if occ.map(f).contains(v) {
                let k = choose|k: int| occ.contains(k) && f(k) == v;
                assert(lanes[k] == Some(v));
            }
        }
    }
    vstd::set_lib::lemma_map_size(occ, waited(lanes), f);
}

/// Every pending parent takes exactly one lane: for commits listed as a
/// revision walk lists them, the row of each commit shows as many lanes as
/// there are pending parents together with the commit itself.
pub proof fn lemma_lane_count(commits: Seq<GraphCommit>, i: int)
    requires
        walk_ordered(commits),
        0 <= i < commits.len(),
    ensures
        graph_layout(commits).1[i].lanes.finite(),
        graph_layout(commits).1[i].lanes.len() == pending_parents(commits.take(i)).insert(
            commits[i].oid@,
        ).len(),
{
    let pre = commits.take(i);
    let pre1 = commits.take(i + 1);
    assert(walk_ordered(pre)) by {
        assert forall|a: int, b: int| 0 <= a < b < pre.len() implies (#[trigger] pre[a]).oid@
            != (#[trigger] pre[b]).oid@ by {
            assert(pre[a] == commits[a] && pre[b] == commits[b]);
        }
        assert forall|j: int, a: int, m: int|
            0 <= a <= j < pre.len() && 0 <= m < parent_ids(pre[j]).len() implies #[trigger] parent_ids(
            pre[j],
        )[m] != (#[trigger] pre[a]).oid@ by {
            assert(pre[a] == commits[a] && pre[j] == commits[j]);
        }
    }
    lemma_waited_is_pending(pre);
    lemma_layout_lanes_distinct(pre);
    lemma_layout_prefix_stable(commits, i + 1);
    lemma_layout_len(commits);
    lemma_layout_len(pre);
    assert(pre1.drop_last() =~= pre);
    assert(pre1.last() == commits[i]);
    let lanes = graph_layout(pre).0;
    let oid = commits[i].oid@;
    lemma_waited_claim_lane(lanes, oid);
    lemma_claim_lane_distinct(lanes, oid);
    let (l1, lane) = claim_lane(lanes, oid);
    lemma_occupied_count(l1, lane);
    assert(graph_layout(commits).1[i] == graph_layout(pre1).1[i]);
    assert(graph_layout(pre1).1[i] == graph_step(lanes, commits[i]).1);
}

/// The same for the rows that `commit_graph_rows` gives: each row lists as
/// many lanes as there are pending parents together with its commit.
pub proof fn lemma_row_lane_count(commits: Seq<GraphCommit>, rows: Seq<CommitGraphRow>, i: int)
    requires
        walk_ordered(commits),
        rows_of(rows, commits),
        0 <= i < commits.len(),
    ensures
        rows[i].lanes@.len() == pending_parents(commits.take(i)).insert(commits[i].oid@).len(),
{
    lemma_lane_count(commits, i);
    let shape = graph_layout(commits).1[i];
    let s = rows[i].lanes@;
    assert(row_draws(rows[i], shape));
    assert(s.no_duplicates()) by {
        assert forall|a: int, b: int| 0 <= a < s.len() && 0 <= b < s.len() && a != b implies s[a] != s[b] by {
            if a < b {
                assert(s[a] < s[b]);
            } else {
                assert(s[b] < s[a]);
            }
        }
    }
    s.unique_seq_to_set();
    let f = |x: usize| x as int;
    assert(s.to_set().map(f) =~= shape.lanes) by {
        assert forall|x: int| s.to_set().map(f).contains(x) <==> shape.lanes.contains(x) by {
            if shape.lanes.contains(x) {
                assert(holds_value(s, s.len() as int, x));
                let a = choose|a: int| 0 <= a < s.len() && s[a] as int == x;
                assert(s.to_set().contains(s[a]) && f(s[a]) == x);
            }
            if s.to_set().map(f).contains(x) {
                let y = choose|y: usize| s.to_set().contains(y) && f(y) == x;
                let a = choose|a: int| 0 <= a < s.len() && s[a] == y;
                assert(holds_value(s, s.len() as int, x));
            }
        }
    }
    assert(vstd::relations::injective_on(f, s.to_set()));
    vstd::set_lib::lemma_map_size(s.to_set(), shape.lanes, f);
}

proof fn lemma_walk_ordered_take(commits: Seq<GraphCommit>, i: int)
    requires
        walk_ordered(commits),
        0 <= i <= commits.len(),
    ensures
        walk_ordered(commits.take(i)),
{
    let pre = commits.take(i);
    assert forall|a: int, b: int| 0 <= a < b < pre.len() implies (#[trigger] pre[a]).oid@
        != (#[trigger] pre[b]).oid@ by {
        assert(pre[a] == commits[a] && pre[b] == commits[b]);
    }
    assert forall|j: int, a: int, m: int|
        0 <= a <= j < pre.len() && 0 <= m < parent_ids(pre[j]).len() implies #[trigger] parent_ids(
        pre[j],
    )[m] != (#[trigger] pre[a]).oid@ by {
        assert(pre[a] == commits[a] && pre[j] == commits[j]);
    }
}

/// A commit lists `oid` as one of its parents.
pub open spec fn has_parent(commit: GraphCommit, oid: Seq<char>) -> bool {
    exists|m: int| 0 <= m < parent_ids(commit).len() && #[trigger] parent_ids(commit)[m] == oid
}

/// A line comes from above into a row exactly when a commit shown above it
/// lists the row's commit as a parent, merge commits and others alike (for
/// commits listed as a revision walk lists them).
pub proof fn lemma_line_from_above(commits: Seq<GraphCommit>, rows: Seq<CommitGraphRow>, i: int)
    requires
        walk_ordered(commits),
        rows_of(rows, commits),
        0 <= i < commits.len(),
    ensures
        rows[i].connected_from_top <==> exists|j: int| 0 <= j < i && #[trigger] has_parent(
            commits[j],
            commits[i].oid@,
        ),
{
    let pre = commits.take(i);
    let pre1 = commits.take(i + 1);
    lemma_walk_ordered_take(commits, i);
    lemma_waited_is_pending(pre);
    lemma_layout_prefix_stable(commits, i + 1);
    lemma_layout_len(commits);
    lemma_layout_len(pre);
    assert(pre1.drop_last() =~= pre);
    assert(pre1.last() == commits[i]);
    let lanes = graph_layout(pre).0;
    let oid = commits[i].oid@;
    assert(graph_layout(commits).1[i] == graph_layout(pre1).1[i]);
    assert(graph_layout(pre1).1[i] == graph_step(lanes, commits[i]).1);
    assert(row_draws(rows[i], graph_layout(commits).1[i]));
    let pred = |l: Option<Seq<char>>| l == Some(oid);
    lemma_first_match_cases(lanes, pred);
    // The lanes wait for `oid` exactly when it is a pending parent.
    assert((lane_of(lanes, oid) >= 0) <==> waited(lanes).contains(oid)) by {
        if lane_of(lanes, oid) >= 0 {
            assert(pred(lanes[lane_of(lanes, oid)]));
        }
        if waited(lanes).contains(oid) {
            let k = choose|k: int| 0 <= k < lanes.len() && lanes[k] == Some(oid);
            assert(pred(lanes[k]));
        }
    }
    assert(pending_parents(pre).contains(oid) <==> exists|j: int| 0 <= j < i && #[trigger] has_parent(
        commits[j],
        oid,
    )) by {
        if pending_parents(pre).contains(oid) {
            let (j, m) = choose|j: int, m: int|
                0 <= j < pre.len() && 0 <= m < parent_ids(pre[j]).len() && #[trigger] parent_ids(
                    pre[j],
                )[m] == oid;
            assert(pre[j] == commits[j]);
            assert(has_parent(commits[j], oid));
        }
        if exists|j: int| 0 <= j < i && #[trigger] has_parent(commits[j], oid) {
            let j = choose|j: int| 0 <= j < i && #[trigger] has_parent(commits[j], oid);
            let m = choose|m: int| 0 <= m < parent_ids(commits[j]).len() && #[trigger] parent_ids(commits[j])[m] == oid;
            assert(pre[j] == commits[j]);
            assert(parent_ids(pre[j])[m] == oid);
            assert forall|a: int| 0 <= a < pre.len() implies #[trigger] pre[a].oid@ != oid by {
                assert(pre[a] == commits[a]);
                assert(commits[a].oid@ != commits[i].oid@);
            }
        }
    }
}

/// Whether a row is drawn dimmed: with a highlighted lineage, the rows
/// outside it; without one, merge commits when merges are dimmed.
pub fn graph_row_dimmed(in_trace: Option<bool>, is_merge: bool, dim_merges: bool) -> (r: bool)
    ensures
        r == match in_trace {
            Some(inside) => !inside,
            None => dim_merges && is_merge,
        },
{
    match in_trace {
        Some(inside) => !inside,
        None => dim_merges && is_merge,
    }
}

/// `str::to_lowercase`: the text with every character in its Unicode
/// lower-case form.
pub uninterp spec fn unicode_lowercase(s: Seq<char>) -> Seq<char>;

/// `str::to_lowercase`.
#[verifier::external_body]
fn lowercase(s: &str) -> (r: String)
    ensures
        r@ == unicode_lowercase(s@),
{
    s.to_lowercase()
}

/// The commit matches the lower-cased query: in its summary, author or
/// short id, compared lower-cased.
pub open spec fn commit_matches(commit: GraphCommit, needle: Seq<char>) -> bool {
    ||| contains_seq(unicode_lowercase(commit.summary@), needle)
    ||| contains_seq(unicode_lowercase(commit.author@), needle)
    ||| contains_seq(unicode_lowercase(commit.short_oid@), needle)
}

/// A loaded commit is listed by the search for `needle`: every commit for a
/// blank needle, else those that match it.
pub open spec fn search_lists(commit: GraphCommit, needle: Seq<char>) -> bool {
    needle.len() == 0 || commit_matches(commit, needle)
}

/// `r` lists, in increasing order, the positions below `n` of the commits
/// that the search for `needle` lists.
pub open spec fn search_positions(
    r: Seq<usize>,
    commits: Seq<GraphCommit>,
    needle: Seq<char>,
    n: int,
) -> bool {
    &&& forall|a: int, b: int| 0 <= a < b < r.len() ==> r[a] < r[b]
    &&& forall|a: int| 0 <= a < r.len() ==> r[a] < n
    &&& forall|k: int|
        0 <= k < n ==> (holds_value(r, r.len() as int, k) <==> search_lists(
            #[trigger] commits[k],
            needle,
        ))
}

/// The positions of the loaded commits that match a search, in order: all
/// of them for a blank query; else those whose summary, author or short id
/// holds the trimmed query, compared lower-cased.
pub fn filter_graph_commits(commits: &[GraphCommit], query: &str) -> (r: Vec<usize>)
    ensures
        search_positions(
            r@,
            commits@,
            unicode_lowercase(trim(query@)),
            commits@.len() as int,
        ),
{
    let chars = chars_of(query);
    let trimmed = string_of(&trim_chars(&chars, CharClass::WhiteSpace));
    let needle = lowercase(trimmed.as_str());
    let blank = needle.as_str().is_empty();
    let ghost n = needle@;
    let mut out: Vec<usize> = Vec::new();
    let mut i: usize = 0;
    while i < commits.len()
        invariant
            0 <= i <= commits.len(),
            n == needle@,
            n == unicode_lowercase(trim(query@)),
            blank == (n.len() == 0),
            search_positions(out@, commits@, n, i as int),
        decreases commits.len() - i,
    {
        let commit = &commits[i];
        let keep = blank || {
            let summary = lowercase(commit.summary.as_str());
            let author = lowercase(commit.author.as_str());
            let short_oid = lowercase(commit.short_oid.as_str());
            text_contains(summary.as_str(), needle.as_str()) || text_contains(
                author.as_str(),
                needle.as_str(),
            ) || text_contains(short_oid.as_str(), needle.as_str())
        };
        assert(keep == search_lists(commits@[i as int], n));
        let ghost before = out@;
        if keep {
            out.push(i);
        }
        proof {
            assert forall|k: int| 0 <= k < i + 1 implies (holds_value(
                out@,
                out@.len() as int,
                k,
            ) <==> search_lists(#[trigger] commits@[k], n)) by {
                if k < i {
                    if holds_value(out@, out@.len() as int, k) {
                        let a = choose|a: int| 0 <= a < out@.len() && out@[a] as int == k;
                        assert(a < before.len());
                        assert(holds_value(before, before.len() as int, k));
                    }
                    if holds_value(before, before.len() as int, k) {
                        let a = choose|a: int| 0 <= a < before.len() && before[a] as int == k;
                        assert(out@[a] as int == k);
                    }
                } else {
                    if keep {
                        assert(out@[before.len() as int] as int == k);
                    } else {
                        if holds_value(out@, out@.len() as int, k) {
                            let a = choose|a: int| 0 <= a < out@.len() && out@[a] as int == k;
                            assert(before[a] < i);
                        }
                    }
                }
            }
        }
        i = i + 1;
    }
    out
}

} // verus!
