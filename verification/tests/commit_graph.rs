use khaslana_core::commit_graph::{
    commit_graph_rows, filter_graph_commits, graph_row_dimmed, CommitGraphRow, GraphCommit,
};

fn commit(oid: &str, parents: &[&str]) -> GraphCommit {
    GraphCommit {
        oid: oid.into(),
        short_oid: oid.chars().take(7).collect(),
        summary: format!("summary of {oid}"),
        author: "Alice".into(),
        parents: parents.iter().map(|p| p.to_string()).collect(),
    }
}

fn row(lane: usize, lanes: &[usize], connectors: &[usize], from_top: bool) -> CommitGraphRow {
    CommitGraphRow {
        lane,
        lanes: lanes.to_vec(),
        connectors: connectors.to_vec(),
        connected_from_top: from_top,
    }
}

#[test]
fn linear_history_stays_in_one_lane() {
    let commits = vec![commit("c3", &["c2"]), commit("c2", &["c1"]), commit("c1", &[])];
    assert_eq!(
        commit_graph_rows(&commits),
        vec![
            row(0, &[0], &[0], false),
            row(0, &[0], &[0], true),
            row(0, &[0], &[], true),
        ]
    );
}

#[test]
fn merge_opens_and_closes_a_lane() {
    let commits = vec![
        commit("m", &["a", "b"]),
        commit("a", &["base"]),
        commit("b", &["base"]),
        commit("base", &[]),
    ];
    assert_eq!(
        commit_graph_rows(&commits),
        vec![
            row(0, &[0], &[0, 1], false),
            row(0, &[0, 1], &[0], true),
            row(1, &[0, 1], &[0], true),
            row(0, &[0], &[], true),
        ]
    );
}

#[test]
fn branch_tips_take_free_lanes() {
    let commits = vec![
        commit("x", &["base"]),
        commit("y", &["base"]),
        commit("base", &[]),
        commit("other", &[]),
    ];
    assert_eq!(
        commit_graph_rows(&commits),
        vec![
            row(0, &[0], &[0], false),
            row(1, &[0, 1], &[0], false),
            row(0, &[0], &[], true),
            row(0, &[0], &[], false),
        ]
    );
}

#[test]
fn loading_more_commits_keeps_earlier_rows() {
    let commits = vec![
        commit("m", &["a", "b"]),
        commit("a", &["base"]),
        commit("b", &["base"]),
        commit("base", &[]),
    ];
    let all = commit_graph_rows(&commits);
    for k in 0..=commits.len() {
        assert_eq!(commit_graph_rows(&commits[..k]), all[..k].to_vec());
    }
}

#[test]
fn search_filters_loaded_commits() {
    let mut commits = vec![commit("aaa111", &[]), commit("bbb222", &[]), commit("ccc333", &[])];
    commits[0].summary = "Fix Bug in parser".into();
    commits[1].author = "Bob".into();
    commits[2].summary = "ÄNDERUNG".into();
    assert_eq!(filter_graph_commits(&commits, "  fix "), vec![0]);
    assert_eq!(filter_graph_commits(&commits, ""), vec![0, 1, 2]);
    assert_eq!(filter_graph_commits(&commits, "BOB"), vec![1]);
    assert_eq!(filter_graph_commits(&commits, "änd"), vec![2]);
    assert_eq!(filter_graph_commits(&commits, "CCC3"), vec![2]);
    assert!(filter_graph_commits(&commits, "zzz").is_empty());
}

#[test]
fn dimmed_rows() {
    assert!(graph_row_dimmed(Some(false), false, false));
    assert!(!graph_row_dimmed(Some(true), true, true));
    assert!(graph_row_dimmed(None, true, true));
    assert!(!graph_row_dimmed(None, true, false));
    assert!(!graph_row_dimmed(None, false, true));
}

#[test]
fn a_further_page_leaves_earlier_rows_unchanged() {
    let commits = vec![
        commit("d", &["c", "b"]),
        commit("c", &["a"]),
        commit("b", &["a"]),
        commit("a", &[]),
    ];
    let all = commit_graph_rows(&commits);
    for k in 0..=commits.len() {
        assert_eq!(commit_graph_rows(&commits[..k]), all[..k].to_vec());
    }
    // Each row shows its commit and the parents still pending.
    let lane_counts: Vec<usize> = all.iter().map(|row| row.lanes.len()).collect();
    assert_eq!(lane_counts, vec![1, 2, 2, 1]);
}
