# khaslana_core

The verified core of the Khaslana Git client, written in Verus.

`src/` holds the logic, each function with a contract that Verus proves:

- `credentials`, `remote_url`, `credential_store`, `credential_index`,
  `git_credential`: credential records and how they match remote URLs, the
  in-memory credential store (save, read back, touch, rebind, delete, the
  record list order), the index kept beside the system keyring, and the plan
  that turns a stored credential into a libgit2 credential.
- `repo_rules`, `operations`, `listing`, `refs`: names and paths that Git
  accepts, the decisions of commits, pulls, reverts and uncommits, the
  branch list and conflict list orders, and the labels shown on commits.
- `diff`: encoding detection and decoding of diff lines, size guards and the
  assembly of a file diff.
- `commit_graph`: the lane layout of the commit graph and the history filter.
- `conflict_lines`: the line model of the three conflict panes.
- `understanding`: the plain-text form of a code-understanding answer and
  its labels.
- `external_merge`: the IntelliJ IDEA merge tool settings and command search.
- `text`, `lookup`: character sequences, orders and first-match search that
  the contracts are written with.

Calls into libgit2 (`git2`), `chardetng` and `encoding_rs` stand behind
small trusted wrappers whose contracts state what those crates document.

`app/` is the unverified rest: reading repositories, files and the keyring,
serde forms of the library's types, and the process that runs the merge
tool. `tests/` exercises the library on concrete values.
