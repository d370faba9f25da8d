//! Turning a stored credential into what libgit2 is offered, and the
//! requests the client makes for a record.

use vstd::prelude::*;

use crate::credentials::{
    CredentialRecord, CredentialRequest, CredentialTypes, GitCredential, StoredCredentialKind,
    SSH_KEY, USER_PASS_PLAINTEXT,
};
use crate::text::{no_nul, opt_view, owned};

verus! {

/// `git2::Cred`, a credential object of libgit2.
#[verifier::external_type_specification]
#[verifier::external_body]
pub struct ExCred(git2::Cred);

/// `git2::Error`, an error of libgit2.
#[verifier::external_type_specification]
#[verifier::external_body]
pub struct ExGit2Error(git2::Error);

/// How a credential is offered to libgit2.
#[derive(Clone, Debug, PartialEq, Eq)]
pub enum CredentialPlan {
    /// A user name and password.
    UserPass { username: String, password: String },
    /// A private key file, with its passphrase when it has one.
    SshKeyFile { username: String, private_key_path: String, passphrase: Option<String> },
    /// The keys of the SSH agent.
    SshAgent { username: String },
    /// Nothing can be offered; the message says why.
    Refused(String),
}

/// How a credential is offered: user name and password as such; an SSH
/// credential with its key file, else through the agent when the remote
/// accepts SSH keys, else not at all.
pub open spec fn planned(request: CredentialRequest, credential: GitCredential, plan: CredentialPlan) -> bool {
    match credential {
        GitCredential::UserPass { username, secret, .. } => plan matches CredentialPlan::UserPass {
            username: u,
            password: p,
        } && u@ == username@ && p@ == secret@,
        GitCredential::SshPassphrase { username, private_key_path, passphrase, .. } => match private_key_path {
            Some(path) => plan matches CredentialPlan::SshKeyFile {
                username: u,
                private_key_path: k,
                passphrase: p,
            } && u@ == username@ && k@ == path@ && opt_view(p) == opt_view(passphrase),
            None => if request.allowed_types.allows(SSH_KEY) {
                plan matches CredentialPlan::SshAgent { username: u } && u@ == username@
            } else {
                plan matches CredentialPlan::Refused(m) && m@ == "远端不接受 SSH 密钥凭据"@
            },
        },
    }
}

/// How a credential is offered to libgit2 for a request.
pub fn credential_plan(request: &CredentialRequest, credential: GitCredential) -> (r: CredentialPlan)
    ensures
        planned(*request, credential, r),
{
    match credential {
        GitCredential::UserPass { username, secret, .. } => CredentialPlan::UserPass {
            username,
            password: secret,
        },
        GitCredential::SshPassphrase { username, private_key_path, passphrase, .. } => {
            match private_key_path {
                Some(path) => CredentialPlan::SshKeyFile {
                    username,
                    private_key_path: path,
                    passphrase,
                },
                None => {
                    if request.allowed_types.contains(SSH_KEY) {
                        CredentialPlan::SshAgent { username }
                    } else {
                        CredentialPlan::Refused(owned("远端不接受 SSH 密钥凭据"))
                    }
                },
            }
        },
    }
}

/// `git2::Cred::userpass_plaintext`. It fails on a NUL character, which
/// cannot pass to C, and on libgit2 running out of memory; with no NUL
/// character it gives a credential (memory exhaustion aside, which is not
/// stated).
#[verifier::external_body]
fn cred_userpass_plaintext(username: &str, password: &str) -> (r: Result<git2::Cred, git2::Error>)
    ensures
        no_nul(username@) && no_nul(password@) ==> r is Ok,
{
    git2::Cred::userpass_plaintext(username, password)
}

/// `git2::Cred::ssh_key` with no public key. It fails on a NUL character
/// and on libgit2 running out of memory; with no NUL character it gives a
/// credential (memory exhaustion aside, which is not stated).
#[verifier::external_body]
fn cred_ssh_key(username: &str, private_key_path: &str, passphrase: Option<&str>) -> (r: Result<
    git2::Cred,
    git2::Error,
>)
    ensures
        no_nul(username@) && no_nul(private_key_path@) && (passphrase is None || no_nul(
            passphrase->0@,
        )) ==> r is Ok,
{
    git2::Cred::ssh_key(username, None, std::path::Path::new(private_key_path), passphrase)
}

/// `git2::Cred::ssh_key_from_agent`. It fails on a NUL character and on
/// libgit2 running out of memory; with no NUL character it gives a
/// credential (memory exhaustion aside, which is not stated).
#[verifier::external_body]
fn cred_ssh_key_from_agent(username: &str) -> (r: Result<git2::Cred, git2::Error>)
    ensures
        no_nul(username@) ==> r is Ok,
{
    git2::Cred::ssh_key_from_agent(username)
}

/// `git2::Error::from_str`: an error with the message.
#[verifier::external_body]
fn git2_error(message: &str) -> git2::Error {
    git2::Error::from_str(message)
}

/// A plan that libgit2 is offered, whose texts hold no NUL character.
pub open spec fn plan_without_nul(plan: CredentialPlan) -> bool {
    match plan {
        CredentialPlan::UserPass { username, password } => no_nul(username@) && no_nul(password@),
        CredentialPlan::SshKeyFile { username, private_key_path, passphrase } => no_nul(username@)
            && no_nul(private_key_path@) && (passphrase is None || no_nul(passphrase->0@)),
        CredentialPlan::SshAgent { username } => no_nul(username@),
        CredentialPlan::Refused(_) => false,
    }
}

/// The libgit2 credential for a request, as `credential_plan` plans it: a
/// refused plan gives an error, any other plan a credential when its texts
/// hold no NUL character.
pub fn to_git_credential(request: &CredentialRequest, credential: GitCredential) -> (r: Result<
    git2::Cred,
    git2::Error,
>)
    ensures
        forall|plan: CredentialPlan|
            planned(*request, credential, plan) && plan is Refused ==> r is Err,
        forall|plan: CredentialPlan|
            planned(*request, credential, plan) && plan_without_nul(plan) ==> r is Ok,
{
    let plan = credential_plan(request, credential);
    match plan {
        CredentialPlan::UserPass { username, password } => cred_userpass_plaintext(
            username.as_str(),
            password.as_str(),
        ),
        CredentialPlan::SshKeyFile { username, private_key_path, passphrase } => {
            let passphrase_text: Option<&str> = match &passphrase {
                Some(p) => Some(p.as_str()),
                None => None,
            };
            cred_ssh_key(username.as_str(), private_key_path.as_str(), passphrase_text)
        },
        CredentialPlan::SshAgent { username } => cred_ssh_key_from_agent(username.as_str()),
        CredentialPlan::Refused(message) => Err(git2_error(message.as_str())),
    }
}

/// A prompted credential is kept when there is one and it asks to be kept.
pub fn keeps_prompted_credential(credential: &Option<GitCredential>) -> (r: bool)
    ensures
        r == (credential matches Some(c) && c.spec_should_save()),
{
    match credential {
        Some(c) => c.should_save(),
        None => false,
    }
}

/// The request with which a record's credential is tested: its remote URL,
/// its user name, and the one credential type of its kind.
pub fn connection_test_request(record: &CredentialRecord) -> (r: CredentialRequest)
    ensures
        r.url == record.remote_url,
        r.username_from_url == Some(record.username),
        r.allowed_types.bits == (match record.kind {
            StoredCredentialKind::HttpsUserPass => USER_PASS_PLAINTEXT,
            StoredCredentialKind::SshKey => SSH_KEY,
        }),
        r.repo_path is None,
        r.remote_name is None,
        r.operation_id is None,
{
    CredentialRequest {
        url: record.remote_url.clone(),
        username_from_url: Some(record.username.clone()),
        allowed_types: CredentialTypes {
            bits: match record.kind {
                StoredCredentialKind::HttpsUserPass => USER_PASS_PLAINTEXT,
                StoredCredentialKind::SshKey => SSH_KEY,
            },
        },
        repo_path: None,
        remote_name: None,
        operation_id: None,
    }
}

} // verus!
