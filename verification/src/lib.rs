//! Verified core of the Khaslana Git client: credential records and their
//! matching against remote URLs, the in-memory credential store, diff and
//! conflict helpers, the commit-graph lane layout and the external merge
//! tool settings.

pub mod conflict_lines;
pub mod credential_index;
pub mod credential_store;
pub mod commit_graph;
pub mod credentials;
pub mod diff;
pub mod labels;
pub mod listing;
pub mod operations;
pub mod lookup;
pub mod error;
pub mod external_merge;
pub mod git_credential;
pub mod refs;
pub mod remote_url;
pub mod repo_rules;
pub mod text;
pub mod understanding;
