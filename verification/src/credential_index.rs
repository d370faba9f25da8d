//! The record index of the keyring-backed credential store, and the
//! decisions it takes on what the system keyring answers.

use vstd::prelude::*;

use crate::credential_store::{
    created_for, find_record, host_key_of, id_position, identity_position, is_credential_error,
    next_record_timestamp, next_timestamp, rebound, record_for_save, resaved, same_identity,
    saved_display_name, select_matching_record, selection, stamped, timestamps_below_max,
};
use crate::credentials::{
    is_credential_from, non_empty, old_ssh_fields, old_https_prefix, old_ssh_prefix,
    set_credential_save_scope, CredentialRecord, CredentialRequest, CredentialScope,
    CredentialTypes, GitCredential, SSH_KEY,
};
use crate::error::GitError;
use crate::lookup::{first_match, kept};
use crate::remote_url::{normalize_remote_url, normalized_remote_url, remote_metadata, remote_metadata_of};
use crate::text::{append_chars, chars_of, owned, same_text, starts_with, string_of};

verus! {

/// The index of stored credential records (their secrets live in the
/// system keyring).
#[derive(Clone, Debug, Default)]
pub struct CredentialIndex {
    pub records: Vec<CredentialRecord>,
}

/// What saving into the index does: when the URL has no host, an error;
/// else the record with the same identity is stamped at `stamp` (taking the
/// new display name when there is one), or a new record with id `new_id` is
/// appended.
pub open spec fn upsert_outcome(
    before: Seq<CredentialRecord>,
    after: Seq<CredentialRecord>,
    url: Seq<char>,
    c: GitCredential,
    stamp: i64,
    new_id: Seq<char>,
    r: Result<CredentialRecord, GitError>,
) -> bool {
    match remote_metadata_of(url) {
        None => r matches Err(e) && is_credential_error(e, "无法解析远端地址，不能保存凭据"@) && after
            == before,
        Some(m) => {
            let p = first_match(
                before,
                |record: CredentialRecord| same_identity(record, c, m.0, url),
            );
            &&& r matches Ok(rec)
            &&& if p >= 0 {
                resaved(before[p], r->Ok_0, saved_display_name(c), stamp) && after == before.update(
                    p,
                    r->Ok_0,
                )
            } else {
                created_for(r->Ok_0, c, new_id, m.0, url, stamp) && after == before.push(r->Ok_0)
            }
        },
    }
}

/// Saving into the index binds the record to the request: the record
/// handed back is for the request's remote URL (the same once normalized)
/// and host, with the credential's kind, scope, user name and key path, and
/// it stands in the index afterwards. A save never updates the record of
/// another remote.
pub proof fn lemma_upsert_binds_request(
    before: Seq<CredentialRecord>,
    after: Seq<CredentialRecord>,
    url: Seq<char>,
    c: GitCredential,
    stamp: i64,
    new_id: Seq<char>,
    r: Result<CredentialRecord, GitError>,
)
    requires
        upsert_outcome(before, after, url, c, stamp, new_id, r),
        r is Ok,
    ensures
        ({
            let rec = r->Ok_0;
            &&& remote_metadata_of(url) is Some
            &&& normalized_remote_url(rec.remote_url@) == normalized_remote_url(url)
            &&& rec.host@ == host_key_of(url)
            &&& rec.kind == c.spec_kind()
            &&& rec.scope == c.spec_scope()
            &&& rec.username@ == c.spec_username()
            &&& crate::text::opt_view(rec.key_path) == c.spec_key_path()
            &&& after.contains(rec)
        }),
{
    let m = remote_metadata_of(url)->0;
    let same = |record: CredentialRecord| same_identity(record, c, m.0, url);
    let p = first_match(before, same);
    crate::lookup::lemma_first_match_cases(before, same);
    if p >= 0 {
        assert(same(before[p]));
        assert(after[p] == r->Ok_0);
    } else {
        assert(after[before.len() as int] == r->Ok_0);
    }
}

impl CredentialIndex {
    /// Saves a credential's record for the request's remote URL, stamped at
    /// `stamp`.
    pub fn upsert(
        &mut self,
        request: &CredentialRequest,
        credential: &GitCredential,
        stamp: i64,
        new_id: String,
    ) -> (r: Result<CredentialRecord, GitError>)
        ensures
            upsert_outcome(
                old(self).records@,
                final(self).records@,
                request.url@,
                *credential,
                stamp,
                new_id@,
                r,
            ),
    {
        let metadata = match remote_metadata(request.url.as_str()) {
            Some(m) => m,
            None => {
                return Err(GitError::Credential(owned("无法解析远端地址，不能保存凭据")));
            },
        };
        let p = identity_position(&self.records, request, credential, &metadata.host_key);
        if p < self.records.len() {
            let record = record_for_save(
                Some(&self.records[p]),
                request,
                credential,
                metadata.host_key,
                stamp,
                new_id,
            );
            let result = record.duplicate();
            self.records.set(p, record);
            Ok(result)
        } else {
            let record = record_for_save(None, request, credential, metadata.host_key, stamp, new_id);
            let result = record.duplicate();
            self.records.push(record);
            Ok(result)
        }
    }

    /// Stamps the first record with the id as used, later than every time
    /// stamp in the index; `None` when no record has the id.
    pub fn touch(&mut self, record_id: &str, now: i64) -> (r: Option<CredentialRecord>)
        requires
            timestamps_below_max(old(self).records@),
        ensures
            ({
                let before = old(self).records@;
                let p = id_position(before, record_id@);
                let t = next_timestamp(before, now as int) as i64;
                if p < 0 {
                    r is None && final(self).records@ == before
                } else {
                    r == Some(stamped(before[p], t)) && final(self).records@ == before.update(
                        p,
                        stamped(before[p], t),
                    )
                }
            }),
    {
        let t = next_record_timestamp(&self.records, now);
        match find_record(&self.records, record_id) {
            None => None,
            Some(i) => {
                let mut record = self.records[i].duplicate();
                record.last_used = Some(t);
                record.updated_at = t;
                let result = record.duplicate();
                self.records.set(i, record);
                Some(result)
            },
        }
    }

    /// Binds the first record with the id to another remote URL and its
    /// host, stamped later than every time stamp in the index.
    pub fn rebind(&mut self, record_id: &str, remote_url: &str, now: i64) -> (r: Result<
        CredentialRecord,
        GitError,
    >)
        requires
            remote_metadata_of(remote_url@) is Some ==> timestamps_below_max(old(self).records@),
        ensures
            ({
                let before = old(self).records@;
                match remote_metadata_of(remote_url@) {
                    None => r matches Err(e) && is_credential_error(
                        e,
                        "无法解析远端地址，不能绑定凭据"@,
                    ) && final(self).records@ == before,
                    Some(m) => {
                        let p = id_position(before, record_id@);
                        let t = next_timestamp(before, now as int) as i64;
                        if p < 0 {
                            r matches Err(e) && is_credential_error(e, "凭据记录不存在"@)
                                && final(self).records@ == before
                        } else {
                            r matches Ok(b) && rebound(before[p], b, remote_url@, m.0, t)
                                && final(self).records@ == before.update(p, b)
                        }
                    },
                }
            }),
    {
        let metadata = match remote_metadata(remote_url) {
            Some(m) => m,
            None => {
                return Err(GitError::Credential(owned("无法解析远端地址，不能绑定凭据")));
            },
        };
        let t = next_record_timestamp(&self.records, now);
        match find_record(&self.records, record_id) {
            None => Err(GitError::Credential(owned("凭据记录不存在"))),
            Some(i) => {
                let mut record = self.records[i].duplicate();
                record.remote_url = owned(remote_url);
                record.host = metadata.host_key;
                record.last_used = Some(t);
                record.updated_at = t;
                let result = record.duplicate();
                self.records.set(i, record);
                Ok(result)
            },
        }
    }

    /// The first record with the id.
    pub fn find(&self, record_id: &str) -> (r: Option<CredentialRecord>)
        ensures
            ({
                let p = id_position(self.records@, record_id@);
                if p < 0 {
                    r is None
                } else {
                    r == Some(self.records@[p])
                }
            }),
    {
        match find_record(&self.records, record_id) {
            Some(i) => Some(self.records[i].duplicate()),
            None => None,
        }
    }

    /// Drops the records with the id; hands back the first of them.
    pub fn remove(&mut self, record_id: &str) -> (r: Option<CredentialRecord>)
        ensures
            final(self).records@ == kept(
                old(self).records@,
                |record: CredentialRecord| record.id@ != record_id@,
            ),
            ({
                let p = id_position(old(self).records@, record_id@);
                if p < 0 {
                    r is None
                } else {
                    r == Some(old(self).records@[p])
                }
            }),
    {
        let removed = self.find(record_id);
        let ghost before = self.records@;
        let ghost keep = |record: CredentialRecord| record.id@ != record_id@;
        let mut out: Vec<CredentialRecord> = Vec::new();
        let mut i: usize = 0;
        while i < self.records.len()
            invariant
                0 <= i <= self.records.len(),
                self.records@ == before,
                keep == (|record: CredentialRecord| record.id@ != record_id@),
                out@ == kept(before.take(i as int), keep),
            decreases self.records.len() - i,
        {
            proof {
                assert(before.take(i + 1).drop_last() =~= before.take(i as int));
                assert(before.take(i + 1).last() == before[i as int]);
            }
            if !same_text(self.records[i].id.as_str(), record_id) {
                out.push(self.records[i].duplicate());
            }
            i = i + 1;
        }
        proof {
            assert(before.take(before.len() as int) =~= before);
        }
        self.records = out;
        removed
    }

    /// The ids of the records for the remote URL (compared normalized) with
    /// the user name, in index order.
    pub fn ids_for(&self, url: &str, username: &str) -> (r: Vec<String>)
        ensures
            ({
                let matching = kept(
                    self.records@,
                    |record: CredentialRecord|
                        normalized_remote_url(record.remote_url@) == normalized_remote_url(url@)
                            && record.username@ == username@,
                );
                &&& r@.len() == matching.len()
                &&& forall|i: int| 0 <= i < r@.len() ==> #[trigger] r@[i]@ == matching[i].id@
            }),
    {
        let ghost keep = |record: CredentialRecord|
            normalized_remote_url(record.remote_url@) == normalized_remote_url(url@)
                && record.username@ == username@;
        let wanted_url = normalize_remote_url(url);
        let mut ids: Vec<String> = Vec::new();
        let mut i: usize = 0;
        while i < self.records.len()
            invariant
                0 <= i <= self.records.len(),
                wanted_url@ == normalized_remote_url(url@),
                keep == (|record: CredentialRecord|
                    normalized_remote_url(record.remote_url@) == normalized_remote_url(url@)
                        && record.username@ == username@),
                ids@.len() == kept(self.records@.take(i as int), keep).len(),
                forall|j: int|
                    0 <= j < ids@.len() ==> #[trigger] ids@[j]@ == kept(
                        self.records@.take(i as int),
                        keep,
                    )[j].id@,
            decreases self.records.len() - i,
        {
            let record = &self.records[i];
            let ghost prev = kept(self.records@.take(i as int), keep);
            proof {
                assert(self.records@.take(i + 1).drop_last() =~= self.records@.take(i as int));
                assert(self.records@.take(i + 1).last() == self.records@[i as int]);
            }
            if normalize_remote_url(record.remote_url.as_str()) == wanted_url && same_text(
                record.username.as_str(),
                username,
            ) {
                ids.push(record.id.clone());
                proof {
                    let next = kept(self.records@.take(i + 1), keep);
                    assert(next == prev.push(self.records@[i as int]));
                    assert forall|j: int| 0 <= j < ids@.len() implies #[trigger] ids@[j]@ == next[j].id@ by {
                        if j < prev.len() {
                            assert(next[j] == prev[j]);
                        }
                    }
                }
            }
            i = i + 1;
        }
        proof {
            assert(self.records@.take(self.records@.len() as int) =~= self.records@);
        }
        ids
    }
}

/// What the system keyring answered to a read.
#[derive(Clone, Debug, PartialEq, Eq)]
pub enum KeyringRead {
    /// The stored secret.
    Found(String),
    /// No entry under that service and user.
    NoEntry,
    /// Another failure, described.
    Failed(String),
}

/// What the system keyring answered to a deletion.
#[derive(Clone, Debug, PartialEq, Eq)]
pub enum KeyringDelete {
    Deleted,
    NoEntry,
    Failed(String),
}

/// The credential of a record from what the keyring gave for it: the
/// credential for a found secret, none when the keyring has no entry, an
/// error naming the failure otherwise.
pub fn credential_from_keyring(record: &CredentialRecord, read: KeyringRead) -> (r: Result<
    Option<GitCredential>,
    GitError,
>)
    ensures
        match read {
            KeyringRead::Found(secret) => r matches Ok(Some(c)) && is_credential_from(
                c,
                *record,
                secret@,
            ),
            KeyringRead::NoEntry => r matches Ok(None),
            KeyringRead::Failed(why) => r matches Err(e) && is_credential_error(
                e,
                "系统凭据读取失败："@ + why@,
            ),
        },
{
    match read {
        KeyringRead::Found(secret) => Ok(GitCredential::from_record(record, secret)),
        KeyringRead::NoEntry => Ok(None),
        KeyringRead::Failed(why) => {
            let mut message = chars_of("系统凭据读取失败：");
            append_chars(&mut message, &chars_of(why.as_str()));
            Err(GitError::Credential(string_of(&message)))
        },
    }
}

/// The outcome of deleting a keyring entry: a missing entry is no failure.
pub fn keyring_delete_result(outcome: KeyringDelete) -> (r: Result<(), GitError>)
    ensures
        match outcome {
            KeyringDelete::Failed(why) => r matches Err(e) && is_credential_error(
                e,
                "系统凭据删除失败："@ + why@,
            ),
            _ => r is Ok,
        },
{
    match outcome {
        KeyringDelete::Failed(why) => {
            let mut message = chars_of("系统凭据删除失败：");
            append_chars(&mut message, &chars_of(why.as_str()));
            Err(GitError::Credential(string_of(&message)))
        },
        _ => Ok(()),
    }
}

/// The credential to migrate from the former keyring format, from what the
/// keyring gave under the former service: none for no entry or a secret in
/// no known format, an error for a failure; a migrated credential is kept,
/// for its remote URL only.
pub fn migrated_credential(user: String, read: KeyringRead, allowed: CredentialTypes) -> (r: Result<
    Option<GitCredential>,
    GitError,
>)
    ensures
        match read {
            KeyringRead::Found(secret) => match r {
                Ok(Some(c)) => {
                    &&& c.spec_should_save()
                    &&& c.spec_scope() == CredentialScope::RemoteUrl
                    &&& c.spec_username() == user@
                    &&& c.spec_display_name() is None
                    &&& (starts_with(secret@, old_https_prefix()) ==> c is UserPass
                        && c.spec_secret() == secret@.skip(6))
                    &&& (!starts_with(secret@, old_https_prefix()) ==> c is SshPassphrase
                        && starts_with(secret@, old_ssh_prefix()) && allowed.allows(SSH_KEY)
                        && c.spec_key_path() == non_empty(old_ssh_fields(secret@.skip(4)).0)
                        && c.spec_passphrase() == non_empty(old_ssh_fields(secret@.skip(4)).1))
                },
                Ok(None) => !starts_with(secret@, old_https_prefix()) && !(starts_with(
                    secret@,
                    old_ssh_prefix(),
                ) && allowed.allows(SSH_KEY)),
                Err(_) => false,
            },
            KeyringRead::NoEntry => r matches Ok(None),
            KeyringRead::Failed(why) => r matches Err(e) && is_credential_error(
                e,
                "系统凭据读取失败："@ + why@,
            ),
        },
{
    match read {
        KeyringRead::Found(secret) => {
            match GitCredential::from_old_storage(user, secret, allowed, CredentialScope::RemoteUrl) {
                Some(mut credential) => {
                    set_credential_save_scope(&mut credential, true, CredentialScope::RemoteUrl);
                    Ok(Some(credential))
                },
                None => Ok(None),
            }
        },
        KeyringRead::NoEntry => Ok(None),
        KeyringRead::Failed(why) => {
            let mut message = chars_of("系统凭据读取失败：");
            append_chars(&mut message, &chars_of(why.as_str()));
            Err(GitError::Credential(string_of(&message)))
        },
    }
}


/// The first step of looking a credential up in the keyring-backed store.
#[derive(Debug)]
pub enum KeyringLookup {
    /// No record of the index serves the request: look in the former
    /// keyring format.
    TryOldFormat,
    /// Read the keyring entry of this record.
    ReadSecret(CredentialRecord),
}

/// Which record of the index a lookup reads the keyring for: the one that
/// serves the request (see `selection`), else none, and the former keyring
/// format is tried.
pub fn keyring_lookup_start(index: &CredentialIndex, request: &CredentialRequest, rejected: &[String]) -> (r:
    KeyringLookup)
    ensures
        ({
            let i = selection(index.records@, request.url@, request.allowed_types, rejected@);
            if i == -1 {
                r is TryOldFormat
            } else {
                r matches KeyringLookup::ReadSecret(record) && 0 <= i < index.records@.len() && record
                    == index.records@[i]
            }
        }),
{
    match select_matching_record(index.records.as_slice(), request, rejected) {
        Some(record) => KeyringLookup::ReadSecret(record),
        None => KeyringLookup::TryOldFormat,
    }
}

/// What follows the keyring's answer for the record a lookup selected.
#[derive(Debug)]
pub enum KeyringLookupEnd {
    /// The keyring has no entry: the record is dangling; it is dropped from
    /// the index (with this id) and the lookup finds nothing.
    DropRecord(String),
    /// The credential: the record is stamped as used and handed out with it.
    Found(GitCredential),
}

/// The end of a lookup from the keyring's answer for the selected record:
/// the credential for a found secret, dropping the dangling record when
/// there is no entry, and an error naming any other failure.
pub fn keyring_lookup_answer(record: &CredentialRecord, read: KeyringRead) -> (r: Result<
    KeyringLookupEnd,
    GitError,
>)
    ensures
        match read {
            KeyringRead::Found(secret) => r matches Ok(KeyringLookupEnd::Found(c)) && is_credential_from(
                c,
                *record,
                secret@,
            ),
            KeyringRead::NoEntry => r matches Ok(KeyringLookupEnd::DropRecord(id)) && id@ == record.id@,
            KeyringRead::Failed(why) => r matches Err(e) && is_credential_error(
                e,
                "系统凭据读取失败："@ + why@,
            ),
        },
{
    if let KeyringRead::NoEntry = read {
        return Ok(KeyringLookupEnd::DropRecord(record.id.clone()));
    }
    match credential_from_keyring(record, read) {
        Ok(Some(c)) => Ok(KeyringLookupEnd::Found(c)),
        Ok(None) => Ok(KeyringLookupEnd::DropRecord(record.id.clone())),
        Err(e) => Err(e),
    }
}

} // verus!
