//! Errors reported by the library.

use vstd::prelude::*;

verus! {

/// An error of a Git client operation, carrying the message shown to the user.
#[derive(Debug)]
pub enum GitError {
    /// A credential could not be stored, found or bound.
    Credential(String),
    /// A user-facing failure with its message.
    Message(String),
    /// A branch name that Git does not accept.
    InvalidBranchName(String),
    /// An error reported by libgit2, with its message.
    Git(String),
    /// A commit without a message (blank once trimmed).
    EmptyCommitMessage,
    /// The operation stopped at conflicts in these paths.
    Conflicts(Vec<String>),
}

impl GitError {
    /// The message this error carries; the variants without a message text
    /// give an empty one.
    pub fn message(&self) -> (r: String)
        ensures
            r@ == self.message_view(),
    {
        match self {
            GitError::Credential(m) => m.clone(),
            GitError::Message(m) => m.clone(),
            GitError::InvalidBranchName(m) => m.clone(),
            GitError::Git(m) => m.clone(),
            GitError::EmptyCommitMessage => String::new(),
            GitError::Conflicts(_) => String::new(),
        }
    }

    pub open spec fn message_view(&self) -> Seq<char> {
        match self {
            GitError::Credential(m) => m@,
            GitError::Message(m) => m@,
            GitError::InvalidBranchName(m) => m@,
            GitError::Git(m) => m@,
            GitError::EmptyCommitMessage => Seq::empty(),
            GitError::Conflicts(_) => Seq::empty(),
        }
    }
}

} // verus!
