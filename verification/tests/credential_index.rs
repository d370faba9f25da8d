use khaslana_core::credential_index::{
    credential_from_keyring, keyring_delete_result, keyring_lookup_answer, keyring_lookup_start,
    migrated_credential, CredentialIndex, KeyringDelete, KeyringLookup, KeyringLookupEnd,
    KeyringRead,
};
use khaslana_core::credentials::{
    CredentialRecord, CredentialRequest, CredentialScope, CredentialTypes, GitCredential,
    StoredCredentialKind, SSH_KEY, USER_PASS_PLAINTEXT,
};
use khaslana_core::error::GitError;

const URL: &str = "https://github.com/org/repo.git";

fn request(url: &str) -> CredentialRequest {
    CredentialRequest {
        url: url.into(),
        username_from_url: None,
        allowed_types: CredentialTypes { bits: USER_PASS_PLAINTEXT },
        repo_path: None,
        remote_name: None,
        operation_id: None,
    }
}

fn ssh(user: &str, key: Option<&str>, passphrase: Option<&str>) -> GitCredential {
    GitCredential::SshPassphrase {
        username: user.into(),
        private_key_path: key.map(str::to_string),
        passphrase: passphrase.map(str::to_string),
        display_name: None,
        save_to_keyring: true,
        scope: CredentialScope::Host,
    }
}

fn user_pass(user: &str) -> GitCredential {
    GitCredential::UserPass {
        username: user.into(),
        secret: "pw".into(),
        display_name: None,
        save_to_keyring: true,
        scope: CredentialScope::RemoteUrl,
    }
}

#[test]
fn upsert_adds_then_updates() {
    let mut index = CredentialIndex::default();
    let first = index.upsert(&request(URL), &user_pass("alice"), 10, "id-1".into()).unwrap();
    assert_eq!(first.id, "id-1");
    assert_eq!(first.created_at, 10);
    assert_eq!(first.kind, StoredCredentialKind::HttpsUserPass);
    let again = index.upsert(&request(URL), &user_pass("alice"), 20, "id-2".into()).unwrap();
    assert_eq!(again.id, "id-1");
    assert_eq!(again.created_at, 10);
    assert_eq!(again.updated_at, 20);
    assert_eq!(again.last_used, Some(20));
    assert_eq!(index.records.len(), 1);
    let ssh_record = index
        .upsert(&request("git@github.com:org/repo.git"), &ssh("git", Some("/k/id"), None), 30, "id-3".into())
        .unwrap();
    assert_eq!(ssh_record.host, "ssh://github.com");
    assert_eq!(ssh_record.key_path, Some("/k/id".into()));
    assert_eq!(index.records.len(), 2);
    let err = index.upsert(&request("plain"), &user_pass("x"), 1, "id-4".into()).unwrap_err();
    assert_eq!(err.message(), "无法解析远端地址，不能保存凭据");
}

#[test]
fn index_touch_rebind_find_remove() {
    let mut index = CredentialIndex::default();
    index.upsert(&request(URL), &user_pass("alice"), 10, "a".into()).unwrap();
    index.upsert(&request(URL), &user_pass("bob"), 15, "b".into()).unwrap();
    let touched = index.touch("a", 3).unwrap();
    assert_eq!(touched.updated_at, 16);
    assert_eq!(touched.last_used, Some(16));
    assert!(index.touch("zzz", 3).is_none());
    let moved = index.rebind("b", "ssh://git@host.example/x.git", 100).unwrap();
    assert_eq!(moved.host, "ssh://host.example");
    assert_eq!(moved.updated_at, 100);
    assert!(index.rebind("zzz", URL, 1).is_err());
    assert_eq!(index.find("a").unwrap().username, "alice");
    let removed = index.remove("a").unwrap();
    assert_eq!(removed.id, "a");
    assert!(index.find("a").is_none());
    assert!(index.remove("a").is_none());
    assert_eq!(index.records.len(), 1);
}

#[test]
fn ids_for_remote_and_user() {
    let mut index = CredentialIndex::default();
    index.upsert(&request(URL), &user_pass("alice"), 1, "a".into()).unwrap();
    index.upsert(&request(URL), &user_pass("bob"), 2, "b".into()).unwrap();
    index
        .upsert(&request("https://github.com/org/other.git"), &user_pass("alice"), 3, "c".into())
        .unwrap();
    assert_eq!(index.ids_for("HTTPS://github.com/org/repo.git/", "alice"), vec!["a".to_string()]);
    assert!(index.ids_for(URL, "carol").is_empty());
}

#[test]
fn keyring_reads_decide_the_credential() {
    let record = CredentialRecord {
        id: "r".into(),
        display_name: None,
        scope: CredentialScope::Host,
        kind: StoredCredentialKind::SshKey,
        host: "ssh://github.com".into(),
        remote_url: "git@github.com:o/r.git".into(),
        username: "git".into(),
        key_path: Some("/k".into()),
        created_at: 0,
        updated_at: 0,
        last_used: None,
    };
    let found = credential_from_keyring(&record, KeyringRead::Found("pp".into())).unwrap().unwrap();
    assert_eq!(found.secret_for_keyring(), "pp");
    assert_eq!(found.key_path(), Some("/k"));
    assert!(credential_from_keyring(&record, KeyringRead::NoEntry).unwrap().is_none());
    match credential_from_keyring(&record, KeyringRead::Failed("Locked".into())) {
        Err(GitError::Credential(m)) => assert_eq!(m, "系统凭据读取失败：Locked"),
        other => panic!("unexpected {other:?}"),
    }
}

#[test]
fn keyring_delete_ignores_missing_entries() {
    assert!(keyring_delete_result(KeyringDelete::Deleted).is_ok());
    assert!(keyring_delete_result(KeyringDelete::NoEntry).is_ok());
    assert_eq!(
        keyring_delete_result(KeyringDelete::Failed("Denied".into())).unwrap_err().message(),
        "系统凭据删除失败：Denied"
    );
}

#[test]
fn migration_from_the_former_format() {
    let https = migrated_credential(
        "git".into(),
        KeyringRead::Found("https:tok".into()),
        CredentialTypes { bits: USER_PASS_PLAINTEXT },
    )
    .unwrap()
    .unwrap();
    assert_eq!(https.secret_for_keyring(), "tok");
    assert_eq!(https.scope(), CredentialScope::RemoteUrl);
    assert!(https.should_save());
    let ssh = migrated_credential(
        "git".into(),
        KeyringRead::Found("ssh:/k/id:pp".into()),
        CredentialTypes { bits: SSH_KEY },
    )
    .unwrap()
    .unwrap();
    assert_eq!(ssh.key_path(), Some("/k/id"));
    assert!(migrated_credential("git".into(), KeyringRead::NoEntry, CredentialTypes { bits: SSH_KEY })
        .unwrap()
        .is_none());
    assert!(migrated_credential(
        "git".into(),
        KeyringRead::Found("junk".into()),
        CredentialTypes { bits: SSH_KEY }
    )
    .unwrap()
    .is_none());
    assert!(migrated_credential("git".into(), KeyringRead::Failed("x".into()), CredentialTypes { bits: 0 })
        .is_err());
}

#[test]
fn keyring_lookup_selects_reads_and_drops_dangling_records() {
    let mut index = CredentialIndex::default();
    assert!(matches!(
        keyring_lookup_start(&index, &request(URL), &[]),
        KeyringLookup::TryOldFormat
    ));
    let record = index.upsert(&request(URL), &user_pass("alice"), 10, "id-1".into()).unwrap();
    let selected = match keyring_lookup_start(&index, &request(URL), &[]) {
        KeyringLookup::ReadSecret(r) => r,
        other => panic!("unexpected {other:?}"),
    };
    assert_eq!(selected.id, "id-1");
    assert!(matches!(
        keyring_lookup_start(&index, &request(URL), &["id-1".to_string()]),
        KeyringLookup::TryOldFormat
    ));
    match keyring_lookup_answer(&record, KeyringRead::Found("s3cret".into())).unwrap() {
        KeyringLookupEnd::Found(c) => {
            assert_eq!(c.username(), "alice");
            assert_eq!(c.secret_for_keyring(), "s3cret");
        }
        other => panic!("unexpected {other:?}"),
    }
    match keyring_lookup_answer(&record, KeyringRead::NoEntry).unwrap() {
        KeyringLookupEnd::DropRecord(id) => assert_eq!(id, "id-1"),
        other => panic!("unexpected {other:?}"),
    }
    match keyring_lookup_answer(&record, KeyringRead::Failed("locked".into())) {
        Err(GitError::Credential(m)) => assert_eq!(m, "系统凭据读取失败：locked"),
        other => panic!("unexpected {other:?}"),
    }
}
