//! Credential records, the credentials they stand for, and which record
//! serves which remote.

use vstd::prelude::*;

use crate::repo_rules::slash_segments;
use crate::remote_url::{
    normalize_remote_url, normalized_remote_url, remote_metadata, remote_metadata_of,
    ProtocolFamily,
};
use crate::text::{
    append_chars, chars_of, clone_opt_string, copy_range, find_last, has_prefix,
    lemma_last_in_class_bounds, opt_str_view, opt_view, owned, starts_with, string_of,
    trim, trim_chars, CharClass,
};

verus! {

/// Which remotes a stored credential may serve.
#[derive(Clone, Copy, Debug, PartialEq, Eq, Structural)]
pub enum CredentialScope {
    /// Only the remote URL it was saved for.
    RemoteUrl,
    /// Every remote on the same host.
    Host,
}

impl Default for CredentialScope {
    fn default() -> (r: Self)
        ensures
            r == CredentialScope::RemoteUrl,
    {
        CredentialScope::RemoteUrl
    }
}

/// The kind of secret a credential record refers to.
#[derive(Clone, Copy, Debug, PartialEq, Eq, Structural)]
pub enum StoredCredentialKind {
    HttpsUserPass,
    SshKey,
}

/// How a repository remote chooses its credential.
#[derive(Clone, Debug, PartialEq, Eq)]
pub enum RemoteCredentialPolicy {
    /// Pick a stored credential that matches the remote URL.
    AutoMatch,
    /// Never use a stored credential for this remote.
    NoCredential,
    /// Always use the record with this id.
    Record(String),
}

/// The non-secret part of a stored credential.
#[derive(Clone, Debug, PartialEq, Eq)]
pub struct CredentialRecord {
    pub id: String,
    pub display_name: Option<String>,
    pub scope: CredentialScope,
    pub kind: StoredCredentialKind,
    /// `https://host[:port]` or `ssh://host`.
    pub host: String,
    pub remote_url: String,
    pub username: String,
    pub key_path: Option<String>,
    pub created_at: i64,
    pub updated_at: i64,
    pub last_used: Option<i64>,
}

impl CredentialRecord {
    /// A copy of the record.
    pub fn duplicate(&self) -> (r: Self)
        ensures
            r == *self,
    {
        CredentialRecord {
            id: self.id.clone(),
            display_name: clone_opt_string(&self.display_name),
            scope: self.scope,
            kind: self.kind,
            host: self.host.clone(),
            remote_url: self.remote_url.clone(),
            username: self.username.clone(),
            key_path: clone_opt_string(&self.key_path),
            created_at: self.created_at,
            updated_at: self.updated_at,
            last_used: self.last_used,
        }
    }

    /// The later of the update time and the last-use time.
    pub open spec fn latest_time(self) -> int {
        let used = match self.last_used {
            Some(t) => t as int,
            None => 0,
        };
        if self.updated_at >= used {
            self.updated_at as int
        } else {
            used
        }
    }
}

/// A record together with the credential it stands for.
#[derive(Clone, Debug, PartialEq, Eq)]
pub struct StoredCredential {
    pub record: CredentialRecord,
    pub credential: GitCredential,
}

/// A credential offered to a Git remote.
#[derive(Clone, Debug, PartialEq, Eq)]
pub enum GitCredential {
    UserPass {
        username: String,
        secret: String,
        display_name: Option<String>,
        save_to_keyring: bool,
        scope: CredentialScope,
    },
    SshPassphrase {
        username: String,
        private_key_path: Option<String>,
        passphrase: Option<String>,
        display_name: Option<String>,
        save_to_keyring: bool,
        scope: CredentialScope,
    },
}

/// The credential types a remote accepts, as libgit2 reports them (bit set).
#[derive(Clone, Copy, Debug, PartialEq, Eq, Structural)]
pub struct CredentialTypes {
    pub bits: u32,
}

/// Plain-text user name and password.
pub const USER_PASS_PLAINTEXT: u32 = 1;

/// An SSH key pair (on disk or from the agent).
pub const SSH_KEY: u32 = 2;

impl CredentialTypes {
    pub open spec fn allows(self, flag: u32) -> bool {
        self.bits & flag == flag
    }

    /// Whether every type in `flag` is accepted.
    pub fn contains(&self, flag: u32) -> (r: bool)
        ensures
            r == self.allows(flag),
    {
        self.bits & flag == flag
    }
}

/// What a Git remote asks credentials for.
#[derive(Clone, Debug, PartialEq, Eq)]
pub struct CredentialRequest {
    pub url: String,
    pub username_from_url: Option<String>,
    pub allowed_types: CredentialTypes,
    pub repo_path: Option<String>,
    pub remote_name: Option<String>,
    pub operation_id: Option<u64>,
}

impl GitCredential {
    pub open spec fn spec_username(self) -> Seq<char> {
        match self {
            GitCredential::UserPass { username, .. } => username@,
            GitCredential::SshPassphrase { username, .. } => username@,
        }
    }

    pub open spec fn spec_should_save(self) -> bool {
        match self {
            GitCredential::UserPass { save_to_keyring, .. } => save_to_keyring,
            GitCredential::SshPassphrase { save_to_keyring, .. } => save_to_keyring,
        }
    }

    pub open spec fn spec_scope(self) -> CredentialScope {
        match self {
            GitCredential::UserPass { scope, .. } => scope,
            GitCredential::SshPassphrase { scope, .. } => scope,
        }
    }

    pub open spec fn spec_kind(self) -> StoredCredentialKind {
        match self {
            GitCredential::UserPass { .. } => StoredCredentialKind::HttpsUserPass,
            GitCredential::SshPassphrase { .. } => StoredCredentialKind::SshKey,
        }
    }

    pub open spec fn spec_key_path(self) -> Option<Seq<char>> {
        match self {
            GitCredential::UserPass { .. } => None,
            GitCredential::SshPassphrase { private_key_path, .. } => opt_view(private_key_path),
        }
    }

    pub open spec fn spec_display_name(self) -> Option<Seq<char>> {
        match self {
            GitCredential::UserPass { display_name, .. } => opt_view(display_name),
            GitCredential::SshPassphrase { display_name, .. } => opt_view(display_name),
        }
    }

    /// The secret kept in the system keyring for this credential: the
    /// password, or the passphrase (empty when there is none).
    pub open spec fn spec_secret(self) -> Seq<char> {
        match self {
            GitCredential::UserPass { secret, .. } => secret@,
            GitCredential::SshPassphrase { passphrase, .. } => match passphrase {
                Some(p) => p@,
                None => Seq::empty(),
            },
        }
    }

    pub fn username(&self) -> (r: &str)
        ensures
            r@ == self.spec_username(),
    {
        match self {
            GitCredential::UserPass { username, .. } => username.as_str(),
            GitCredential::SshPassphrase { username, .. } => username.as_str(),
        }
    }

    pub fn should_save(&self) -> (r: bool)
        ensures
            r == self.spec_should_save(),
    {
        match self {
            GitCredential::UserPass { save_to_keyring, .. } => *save_to_keyring,
            GitCredential::SshPassphrase { save_to_keyring, .. } => *save_to_keyring,
        }
    }

    pub fn scope(&self) -> (r: CredentialScope)
        ensures
            r == self.spec_scope(),
    {
        match self {
            GitCredential::UserPass { scope, .. } => *scope,
            GitCredential::SshPassphrase { scope, .. } => *scope,
        }
    }

    pub fn kind(&self) -> (r: StoredCredentialKind)
        ensures
            r == self.spec_kind(),
    {
        match self {
            GitCredential::UserPass { .. } => StoredCredentialKind::HttpsUserPass,
            GitCredential::SshPassphrase { .. } => StoredCredentialKind::SshKey,
        }
    }

    pub fn key_path(&self) -> (r: Option<&str>)
        ensures
            opt_str_view(r) == self.spec_key_path(),
    {
        match self {
            GitCredential::UserPass { .. } => None,
            GitCredential::SshPassphrase { private_key_path, .. } => match private_key_path {
                Some(p) => Some(p.as_str()),
                None => None,
            },
        }
    }

    pub fn display_name(&self) -> (r: Option<&str>)
        ensures
            opt_str_view(r) == self.spec_display_name(),
    {
        match self {
            GitCredential::UserPass { display_name, .. } => match display_name {
                Some(d) => Some(d.as_str()),
                None => None,
            },
            GitCredential::SshPassphrase { display_name, .. } => match display_name {
                Some(d) => Some(d.as_str()),
                None => None,
            },
        }
    }

    /// The secret to keep in the system keyring.
    pub fn secret_for_keyring(&self) -> (r: String)
        ensures
            r@ == self.spec_secret(),
    {
        match self {
            GitCredential::UserPass { secret, .. } => secret.clone(),
            GitCredential::SshPassphrase { passphrase, .. } => match passphrase {
                Some(p) => p.clone(),
                None => String::new(),
            },
        }
    }

    /// The credential a stored record and its secret stand for: a user name
    /// and password for HTTPS records, a key path and passphrase (none when
    /// the secret is empty) for SSH records; it is marked to be kept.
    pub fn from_record(record: &CredentialRecord, secret: String) -> (r: Option<Self>)
        ensures
            r matches Some(c) && is_credential_from(c, *record, secret@),
    {
        match record.kind {
            StoredCredentialKind::HttpsUserPass => Some(GitCredential::UserPass {
                username: record.username.clone(),
                secret,
                display_name: clone_opt_string(&record.display_name),
                save_to_keyring: true,
                scope: record.scope,
            }),
            StoredCredentialKind::SshKey => {
                let passphrase = if !secret.as_str().is_empty() {
                    Some(secret)
                } else {
                    assert(secret@ =~= Seq::<char>::empty());
                    None
                };
                Some(GitCredential::SshPassphrase {
                    username: record.username.clone(),
                    private_key_path: clone_opt_string(&record.key_path),
                    passphrase,
                    display_name: clone_opt_string(&record.display_name),
                    save_to_keyring: true,
                    scope: record.scope,
                })
            },
        }
    }
}

/// `c` is the credential that `record` and its stored `secret` stand for:
/// kind, user name, display name, scope and (for SSH) key path come from the
/// record, the secret is the password or the passphrase (absent when the
/// secret is empty), and it is marked to be kept.
pub open spec fn is_credential_from(
    c: GitCredential,
    record: CredentialRecord,
    secret: Seq<char>,
) -> bool {
    &&& c.spec_kind() == record.kind
    &&& c.spec_username() == record.username@
    &&& c.spec_display_name() == opt_view(record.display_name)
    &&& c.spec_should_save()
    &&& c.spec_scope() == record.scope
    &&& c.spec_key_path() == (if record.kind == StoredCredentialKind::SshKey {
        opt_view(record.key_path)
    } else {
        None
    })
    &&& c.spec_secret() == secret
    &&& (c matches GitCredential::SshPassphrase { passphrase, .. } ==> (passphrase is None
        <==> secret.len() == 0))
}

/// Sets whether the credential is to be kept, and for which scope.
pub fn set_credential_save_scope(
    credential: &mut GitCredential,
    save_to_keyring: bool,
    scope: CredentialScope,
)
    ensures
        final(credential).spec_should_save() == save_to_keyring,
        final(credential).spec_scope() == scope,
        final(credential).spec_kind() == old(credential).spec_kind(),
        final(credential).spec_username() == old(credential).spec_username(),
        final(credential).spec_key_path() == old(credential).spec_key_path(),
        final(credential).spec_display_name() == old(credential).spec_display_name(),
        final(credential).spec_secret() == old(credential).spec_secret(),
        final(credential).spec_passphrase() == old(credential).spec_passphrase(),
{
    match credential {
        GitCredential::UserPass { save_to_keyring: save, scope: existing_scope, .. } => {
            *save = save_to_keyring;
            *existing_scope = scope;
        },
        GitCredential::SshPassphrase { save_to_keyring: save, scope: existing_scope, .. } => {
            *save = save_to_keyring;
            *existing_scope = scope;
        },
    }
}

/// A display name as it is kept: trimmed, and absent when nothing is left.
pub open spec fn normalized_display_name(name: Seq<char>) -> Option<Seq<char>> {
    if trim(name).len() == 0 {
        None
    } else {
        Some(trim(name))
    }
}

/// The display name as it is kept: trimmed, or `None` when blank.
pub fn normalize_display_name(name: &str) -> (r: Option<String>)
    ensures
        opt_view(r) == normalized_display_name(name@),
{
    let chars = chars_of(name);
    let trimmed = trim_chars(&chars, CharClass::WhiteSpace);
    if trimmed.len() == 0 {
        None
    } else {
        Some(string_of(&trimmed))
    }
}

/// Sort rank of a scope: records for one remote come before host-wide ones.
pub open spec fn spec_scope_rank(scope: CredentialScope) -> u8 {
    match scope {
        CredentialScope::RemoteUrl => 0,
        CredentialScope::Host => 1,
    }
}

pub fn scope_rank(scope: CredentialScope) -> (r: u8)
    ensures
        r == spec_scope_rank(scope),
{
    match scope {
        CredentialScope::RemoteUrl => 0,
        CredentialScope::Host => 1,
    }
}

/// The kind of stored credential a request asks for, if any.
pub open spec fn spec_requested_kind(
    allowed: CredentialTypes,
    family: ProtocolFamily,
) -> Option<StoredCredentialKind> {
    if family == ProtocolFamily::Ssh && allowed.allows(SSH_KEY) {
        Some(StoredCredentialKind::SshKey)
    } else if allowed.allows(USER_PASS_PLAINTEXT) || family == ProtocolFamily::Https {
        Some(StoredCredentialKind::HttpsUserPass)
    } else {
        None
    }
}

/// SSH keys for SSH remotes that accept keys; user name and password when
/// the remote accepts them or speaks HTTPS; nothing otherwise.
pub fn requested_kind(request: &CredentialRequest, protocol_family: ProtocolFamily) -> (r: Option<
    StoredCredentialKind,
>)
    ensures
        r == spec_requested_kind(request.allowed_types, protocol_family),
{
    if protocol_family == ProtocolFamily::Ssh && request.allowed_types.contains(SSH_KEY) {
        return Some(StoredCredentialKind::SshKey);
    }
    if request.allowed_types.contains(USER_PASS_PLAINTEXT) || protocol_family
        == ProtocolFamily::Https {
        return Some(StoredCredentialKind::HttpsUserPass);
    }
    None
}

pub open spec fn scope_label_view(scope: CredentialScope) -> Seq<char> {
    match scope {
        CredentialScope::RemoteUrl => "仅此远端"@,
        CredentialScope::Host => "同站点"@,
    }
}

pub open spec fn kind_label_view(kind: StoredCredentialKind) -> Seq<char> {
    match kind {
        StoredCredentialKind::HttpsUserPass => "HTTPS 用户名/PAT"@,
        StoredCredentialKind::SshKey => "SSH 私钥"@,
    }
}

pub open spec fn kind_short_label_view(kind: StoredCredentialKind) -> Seq<char> {
    match kind {
        StoredCredentialKind::HttpsUserPass => "HTTPS"@,
        StoredCredentialKind::SshKey => "SSH"@,
    }
}

/// The label of a scope.
pub fn credential_scope_label(scope: CredentialScope) -> (r: &'static str)
    ensures
        r@ == scope_label_view(scope),
{
    match scope {
        CredentialScope::RemoteUrl => "仅此远端",
        CredentialScope::Host => "同站点",
    }
}

/// The label of a credential kind.
pub fn credential_kind_label(kind: StoredCredentialKind) -> (r: &'static str)
    ensures
        r@ == kind_label_view(kind),
{
    match kind {
        StoredCredentialKind::HttpsUserPass => "HTTPS 用户名/PAT",
        StoredCredentialKind::SshKey => "SSH 私钥",
    }
}

/// The name under which a record is listed: its display name when it has a
/// non-blank one, else `"<kind> <scope> <user>"`.
pub open spec fn record_label_view(record: CredentialRecord) -> Seq<char> {
    let named = match record.display_name {
        Some(d) => normalized_display_name(d@),
        None => None,
    };
    match named {
        Some(n) => n,
        None => kind_short_label_view(record.kind) + " "@ + scope_label_view(record.scope) + " "@
            + record.username@,
    }
}

/// The name under which a record is listed.
pub fn credential_record_label(record: &CredentialRecord) -> (r: String)
    ensures
        r@ == record_label_view(*record),
{
    let named = match &record.display_name {
        Some(d) => normalize_display_name(d.as_str()),
        None => None,
    };
    if let Some(name) = named {
        return name;
    }
    let scope = match record.scope {
        CredentialScope::RemoteUrl => "仅此远端",
        CredentialScope::Host => "同站点",
    };
    let kind = match record.kind {
        StoredCredentialKind::HttpsUserPass => "HTTPS",
        StoredCredentialKind::SshKey => "SSH",
    };
    let mut out = chars_of(kind);
    let space = chars_of(" ");
    append_chars(&mut out, &space);
    append_chars(&mut out, &chars_of(scope));
    append_chars(&mut out, &space);
    append_chars(&mut out, &chars_of(record.username.as_str()));
    string_of(&out)
}

/// The remote URL (remote scope) or the host (host scope) a record serves.
pub fn credential_display_target(record: &CredentialRecord) -> (r: String)
    ensures
        r@ == (match record.scope {
            CredentialScope::RemoteUrl => record.remote_url@,
            CredentialScope::Host => record.host@,
        }),
{
    match record.scope {
        CredentialScope::RemoteUrl => record.remote_url.clone(),
        CredentialScope::Host => record.host.clone(),
    }
}

/// Whether the record's kind suits the protocol of the URL.
pub open spec fn record_compatible_with(record: CredentialRecord, url: Seq<char>) -> bool {
    match remote_metadata_of(url) {
        Some(m) => (m.1 == ProtocolFamily::Https && record.kind
            == StoredCredentialKind::HttpsUserPass) || (m.1 == ProtocolFamily::Ssh && record.kind
            == StoredCredentialKind::SshKey),
        None => false,
    }
}

/// Whether the record serves the URL: same kind of protocol, same host, and
/// for remote-scoped records the same normalized remote URL.
pub open spec fn record_matches_url(record: CredentialRecord, url: Seq<char>) -> bool {
    &&& record_compatible_with(record, url)
    &&& match remote_metadata_of(url) {
        Some(m) => record.host@ == m.0,
        None => false,
    }
    &&& (record.scope == CredentialScope::RemoteUrl ==> normalized_remote_url(record.remote_url@)
        == normalized_remote_url(url))
}

/// Whether the record's kind suits the protocol of the URL.
pub fn credential_record_is_compatible_with_url(record: &CredentialRecord, url: &str) -> (r: bool)
    ensures
        r == record_compatible_with(*record, url@),
{
    let Some(metadata) = remote_metadata(url) else {
        return false;
    };
    (metadata.protocol_family == ProtocolFamily::Https && record.kind
        == StoredCredentialKind::HttpsUserPass) || (metadata.protocol_family == ProtocolFamily::Ssh
        && record.kind == StoredCredentialKind::SshKey)
}

/// Whether the record serves the URL.
pub fn credential_record_matches_remote_url(record: &CredentialRecord, url: &str) -> (r: bool)
    ensures
        r == record_matches_url(*record, url@),
{
    if !credential_record_is_compatible_with_url(record, url) {
        return false;
    }
    let Some(metadata) = remote_metadata(url) else {
        return false;
    };
    if record.host != metadata.host_key {
        return false;
    }
    match record.scope {
        CredentialScope::RemoteUrl => {
            let a = normalize_remote_url(record.remote_url.as_str());
            let b = normalize_remote_url(url);
            a == b
        },
        CredentialScope::Host => true,
    }
}

/// `Some(s)` when `s` is non-empty, else `None`.
pub open spec fn non_empty(s: Seq<char>) -> Option<Seq<char>> {
    if s.len() == 0 {
        None
    } else {
        Some(s)
    }
}

pub open spec fn old_https_prefix() -> Seq<char> {
    seq!['h', 't', 't', 'p', 's', ':']
}

pub open spec fn old_ssh_prefix() -> Seq<char> {
    seq!['s', 's', 'h', ':']
}

/// The SSH part of a secret kept in the former format, `"<key path>:<passphrase>"`
/// split at its last `:` (all key path when there is none).
pub open spec fn old_ssh_fields(rest: Seq<char>) -> (Seq<char>, Seq<char>) {
    let k = crate::text::last_in_class(rest, CharClass::Colon);
    if k >= 0 {
        (rest.take(k), rest.skip(k + 1))
    } else {
        (rest, Seq::empty())
    }
}

fn nonempty_string(v: &[char]) -> (r: Option<String>)
    ensures
        opt_view(r) == non_empty(v@),
{
    if v.len() == 0 {
        None
    } else {
        Some(string_of(v))
    }
}

impl GitCredential {
    pub open spec fn spec_passphrase(self) -> Option<Seq<char>> {
        match self {
            GitCredential::UserPass { .. } => None,
            GitCredential::SshPassphrase { passphrase, .. } => opt_view(passphrase),
        }
    }

    /// A credential kept in the former keyring format: `"https:<password>"`,
    /// or `"ssh:<key path>:<passphrase>"` when the remote accepts SSH keys.
    pub fn from_old_storage(
        username: String,
        secret: String,
        allowed: CredentialTypes,
        scope: CredentialScope,
    ) -> (r: Option<Self>)
        ensures
            starts_with(secret@, old_https_prefix()) ==> (r matches Some(c) && c is UserPass
                && c.spec_username() == username@ && c.spec_secret() == secret@.skip(6)
                && c.spec_display_name() is None && c.spec_should_save() && c.spec_scope()
                == scope),
            !starts_with(secret@, old_https_prefix()) && starts_with(secret@, old_ssh_prefix())
                ==> (if allowed.allows(SSH_KEY) {
                (r matches Some(c) && c is SshPassphrase && c.spec_username() == username@
                    && c.spec_key_path() == non_empty(old_ssh_fields(secret@.skip(4)).0)
                    && c.spec_passphrase() == non_empty(old_ssh_fields(secret@.skip(4)).1)
                    && c.spec_display_name() is None && c.spec_should_save() && c.spec_scope()
                    == scope)
            } else {
                r is None
            }),
            !starts_with(secret@, old_https_prefix()) && !starts_with(secret@, old_ssh_prefix())
                ==> r is None,
    {
        let chars = chars_of(secret.as_str());
        let https = chars_of("https:");
        let ssh = chars_of("ssh:");
        proof {
            reveal_strlit("https:");
            reveal_strlit("ssh:");
            assert(https@ =~= old_https_prefix());
            assert(ssh@ =~= old_ssh_prefix());
        }
        if has_prefix(&chars, &https) {
            let rest = copy_range(&chars, 6, chars.len());
            assert(rest@ =~= secret@.skip(6));
            return Some(GitCredential::UserPass {
                username,
                secret: string_of(&rest),
                display_name: None,
                save_to_keyring: true,
                scope,
            });
        }
        if has_prefix(&chars, &ssh) {
            if !allowed.contains(SSH_KEY) {
                return None;
            }
            let rest = copy_range(&chars, 4, chars.len());
            assert(rest@ =~= secret@.skip(4));
            let colon = find_last(&rest, CharClass::Colon);
            proof {
                lemma_last_in_class_bounds(rest@, CharClass::Colon);
            }
            let (key_path, passphrase) = match colon {
                Some(k) => (copy_range(&rest, 0, k), copy_range(&rest, k + 1, rest.len())),
                None => (copy_range(&rest, 0, rest.len()), Vec::new()),
            };
            proof {
                match colon {
                    Some(k) => {
                        assert(key_path@ =~= rest@.take(k as int));
                        assert(passphrase@ =~= rest@.skip(k + 1));
                    },
                    None => {
                        assert(key_path@ =~= rest@);
                        assert(passphrase@ =~= Seq::<char>::empty());
                    },
                }
            }
            return Some(GitCredential::SshPassphrase {
                username,
                private_key_path: nonempty_string(&key_path),
                passphrase: nonempty_string(&passphrase),
                display_name: None,
                save_to_keyring: true,
                scope,
            });
        }
        None
    }
}

/// A path whose last component is, on every platform, the name after its
/// last `/`: it has no `\` and no `:`, does not start with `//`, and its
/// last `/`-separated segment is a name (not empty, `.` or `..`).
pub open spec fn names_file(p: Seq<char>) -> bool {
    let last = slash_segments(p).last();
    &&& !p.contains('\\')
    &&& !p.contains(':')
    &&& !(p.len() >= 2 && p[0] == '/' && p[1] == '/')
    &&& last.len() > 0
    &&& last != "."@
    &&& last != ".."@
}

/// The file name of a path, as `std::path::Path::file_name` gives it.
///
/// What counts as a separator and as a file name depends on the platform,
/// so only what holds on every platform is stated: a name is never empty and
/// never contains `/`, an empty path has none, and a path that `names_file`
/// accepts has its last `/`-separated segment as its name.
#[verifier::external_body]
fn path_file_name(path: &str) -> (r: Option<String>)
    ensures
        r matches Some(n) ==> n@.len() > 0 && !crate::text::has_class(n@, CharClass::Slash),
        path@.len() == 0 ==> r is None,
        names_file(path@) ==> r is Some && r->0@ == slash_segments(path@).last(),
{
    std::path::Path::new(path).file_name().map(|name| name.to_string_lossy().to_string())
}

/// The label of a key file: its name, or `-` when there is none.
pub fn key_file_label(file_name: Option<String>) -> (r: String)
    ensures
        r@ == (match file_name {
            Some(n) => n@,
            None => "-"@,
        }),
{
    match file_name {
        Some(name) => name,
        None => owned("-"),
    }
}

/// The file name of a record's key file, or `-`.
pub fn credential_key_filename(record: &CredentialRecord) -> (r: String)
    ensures
        record.key_path is None ==> r@ == "-"@,
        r@ == "-"@ || (r@.len() > 0 && !crate::text::has_class(r@, CharClass::Slash)),
        record.key_path is Some && names_file(record.key_path->0@) ==> r@ == slash_segments(
            record.key_path->0@,
        ).last(),
{
    let name = match &record.key_path {
        Some(path) => path_file_name(path.as_str()),
        None => None,
    };
    key_file_label(name)
}

/// The keyring service under which a record's secret is kept.
pub open spec fn keyring_service_view(record_id: Seq<char>) -> Seq<char> {
    "khaslana.git.credential:"@ + record_id
}

/// The keyring service under which a record's secret is kept.
pub fn new_keyring_service(record_id: &str) -> (r: String)
    ensures
        r@ == keyring_service_view(record_id@),
{
    let mut out = chars_of("khaslana.git.credential:");
    append_chars(&mut out, &chars_of(record_id));
    string_of(&out)
}

/// The keyring service of the former format for a remote URL.
pub fn old_keyring_service(url: &str) -> (r: String)
    ensures
        r@ == "khaslana:"@ + url@,
{
    let mut out = chars_of("khaslana:");
    append_chars(&mut out, &chars_of(url));
    string_of(&out)
}

/// The user name under which the former format kept a secret.
pub fn old_keyring_user(request: &CredentialRequest) -> (r: String)
    ensures
        r@ == (match request.username_from_url {
            Some(u) => u@,
            None => "git"@,
        }),
{
    match &request.username_from_url {
        Some(user) => user.clone(),
        None => owned("git"),
    }
}

} // verus!
