use khaslana_core::credential_store::{
    hex_string, next_record_timestamp, seconds_from_nanos, select_matching_record, sort_records,
    MemoryCredentialStore,
};
use khaslana_core::credentials::{
    CredentialRecord, CredentialRequest, CredentialScope, CredentialTypes, GitCredential,
    StoredCredentialKind, SSH_KEY, USER_PASS_PLAINTEXT,
};

const URL: &str = "https://github.com/org/repo.git";

fn request(url: &str, bits: u32) -> CredentialRequest {
    CredentialRequest {
        url: url.into(),
        username_from_url: None,
        allowed_types: CredentialTypes { bits },
        repo_path: None,
        remote_name: None,
        operation_id: None,
    }
}

fn user_pass(user: &str, secret: &str, scope: CredentialScope) -> GitCredential {
    GitCredential::UserPass {
        username: user.into(),
        secret: secret.into(),
        display_name: None,
        save_to_keyring: true,
        scope,
    }
}

fn rec(id: &str, scope: CredentialScope, updated_at: i64, last_used: Option<i64>) -> CredentialRecord {
    CredentialRecord {
        id: id.into(),
        display_name: None,
        scope,
        kind: StoredCredentialKind::HttpsUserPass,
        host: "https://github.com".into(),
        remote_url: URL.into(),
        username: "alice".into(),
        key_path: None,
        created_at: 0,
        updated_at,
        last_used,
    }
}

#[test]
fn saved_credential_is_found_again() {
    let mut store = MemoryCredentialStore::new();
    let req = request(URL, USER_PASS_PLAINTEXT);
    let saved = store
        .save_record(&req, &user_pass("alice", "token-1", CredentialScope::RemoteUrl))
        .unwrap();
    assert_eq!(saved.host, "https://github.com");
    assert_eq!(saved.remote_url, URL);
    assert_eq!(saved.username, "alice");
    assert_eq!(saved.created_at, saved.updated_at);
    assert_eq!(saved.last_used, Some(saved.updated_at));

    let found = store.get(&req).unwrap();
    assert_eq!(found.username(), "alice");
    assert_eq!(found.secret_for_keyring(), "token-1");

    let by_id = store.credential_for_record(&saved.id).unwrap();
    assert_eq!(by_id.secret_for_keyring(), "token-1");
}

#[test]
fn saving_the_same_identity_updates_the_record() {
    let mut store = MemoryCredentialStore::new();
    let req = request(URL, USER_PASS_PLAINTEXT);
    let first = store
        .save_record(&req, &user_pass("alice", "old", CredentialScope::RemoteUrl))
        .unwrap();
    let mut named = user_pass("alice", "new", CredentialScope::RemoteUrl);
    if let GitCredential::UserPass { display_name, .. } = &mut named {
        *display_name = Some("  Work  ".into());
    }
    let same_url = request("HTTPS://alice@GitHub.com/Org/Repo.git/", USER_PASS_PLAINTEXT);
    let second = store.save_record(&same_url, &named).unwrap();
    assert_eq!(second.id, first.id);
    assert_eq!(second.display_name, Some("Work".into()));
    assert!(second.updated_at > first.updated_at);
    assert_eq!(store.list_records().len(), 1);
    assert_eq!(
        store.credential_for_record(&first.id).unwrap().secret_for_keyring(),
        "new"
    );
}

#[test]
fn saving_needs_a_host() {
    let mut store = MemoryCredentialStore::new();
    let err = store
        .save_record(&request("no-host", USER_PASS_PLAINTEXT), &user_pass("a", "b", CredentialScope::Host))
        .unwrap_err();
    assert_eq!(err.message(), "无法解析远端地址，不能保存凭据");
    assert!(store.list_records().is_empty());
}

#[test]
fn deleted_record_is_gone() {
    let mut store = MemoryCredentialStore::new();
    let req = request(URL, USER_PASS_PLAINTEXT);
    let saved = store
        .save_record(&req, &user_pass("alice", "t", CredentialScope::RemoteUrl))
        .unwrap();
    store.delete_record(&saved.id);
    assert!(store.credential_for_record(&saved.id).is_none());
    assert!(store.get(&req).is_none());
    assert!(store.list_records().is_empty());
}

#[test]
fn delete_by_remote_and_user() {
    let mut store = MemoryCredentialStore::new();
    let req = request(URL, USER_PASS_PLAINTEXT);
    store
        .save_record(&req, &user_pass("alice", "a", CredentialScope::RemoteUrl))
        .unwrap();
    store
        .save_record(&req, &user_pass("bob", "b", CredentialScope::RemoteUrl))
        .unwrap();
    store.delete(&request("https://GITHUB.com/org/repo.git/", 0), "alice");
    let left = store.list_records();
    assert_eq!(left.len(), 1);
    assert_eq!(left[0].username, "bob");
}

#[test]
fn touch_stamps_later_than_everything() {
    let mut store = MemoryCredentialStore::new();
    let req = request(URL, USER_PASS_PLAINTEXT);
    let a = store
        .save_record(&req, &user_pass("alice", "a", CredentialScope::RemoteUrl))
        .unwrap();
    let b = store
        .save_record(&req, &user_pass("bob", "b", CredentialScope::RemoteUrl))
        .unwrap();
    assert!(store.timestamps_can_advance());
    let touched = store.touch_record(&a.id).unwrap();
    assert!(touched.updated_at > b.updated_at);
    assert_eq!(touched.last_used, Some(touched.updated_at));
    assert!(store.touch_record("missing").is_none());
}

#[test]
fn rebinding_a_record() {
    let mut store = MemoryCredentialStore::new();
    let req = request(URL, USER_PASS_PLAINTEXT);
    let a = store
        .save_record(&req, &user_pass("alice", "a", CredentialScope::RemoteUrl))
        .unwrap();
    let moved = store
        .update_record_remote_url(&a.id, "https://GitLab.com/org/repo.git")
        .unwrap();
    assert_eq!(moved.remote_url, "https://GitLab.com/org/repo.git");
    assert_eq!(moved.host, "https://gitlab.com");
    assert!(moved.updated_at > a.updated_at);
    assert_eq!(
        store.update_record_remote_url(&a.id, "nowhere").unwrap_err().message(),
        "无法解析远端地址，不能绑定凭据"
    );
    assert_eq!(
        store.update_record_remote_url("missing", URL).unwrap_err().message(),
        "凭据记录不存在"
    );
}

#[test]
fn get_stored_skips_rejected_records() {
    let mut store = MemoryCredentialStore::new();
    let req = request(URL, USER_PASS_PLAINTEXT);
    let a = store
        .save_record(&req, &user_pass("alice", "a", CredentialScope::RemoteUrl))
        .unwrap();
    let b = store
        .save_record(&req, &user_pass("bob", "b", CredentialScope::Host))
        .unwrap();
    let first = store.get_stored(&req, &[]).unwrap();
    assert_eq!(first.record.id, a.id);
    let second = store.get_stored(&req, &[a.id.clone()]).unwrap();
    assert_eq!(second.record.id, b.id);
    assert_eq!(second.credential.secret_for_keyring(), "b");
    assert!(store.get_stored(&req, &[a.id.clone(), b.id.clone()]).is_none());
}

#[test]
fn ssh_request_does_not_get_https_records() {
    let mut store = MemoryCredentialStore::new();
    store
        .save_record(
            &request(URL, USER_PASS_PLAINTEXT),
            &user_pass("alice", "a", CredentialScope::Host),
        )
        .unwrap();
    assert!(store.get(&request("git@github.com:org/repo.git", SSH_KEY)).is_none());
}

#[test]
fn remote_scoped_records_are_preferred() {
    let records = vec![
        rec("host", CredentialScope::Host, 100, Some(100)),
        rec("remote", CredentialScope::RemoteUrl, 10, Some(10)),
    ];
    let chosen = select_matching_record(&records, &request(URL, USER_PASS_PLAINTEXT), &[]).unwrap();
    assert_eq!(chosen.id, "remote");
}

#[test]
fn most_recently_used_then_updated_is_preferred() {
    let records = vec![
        rec("older-use", CredentialScope::RemoteUrl, 50, Some(5)),
        rec("newer-use", CredentialScope::RemoteUrl, 1, Some(9)),
        rec("never-used", CredentialScope::RemoteUrl, 99, None),
    ];
    let chosen = select_matching_record(&records, &request(URL, USER_PASS_PLAINTEXT), &[]).unwrap();
    assert_eq!(chosen.id, "newer-use");
    let ties = vec![
        rec("first", CredentialScope::RemoteUrl, 7, Some(3)),
        rec("second", CredentialScope::RemoteUrl, 7, Some(3)),
        rec("later-update", CredentialScope::RemoteUrl, 8, Some(3)),
    ];
    let chosen = select_matching_record(&ties, &request(URL, USER_PASS_PLAINTEXT), &[]).unwrap();
    assert_eq!(chosen.id, "later-update");
    let equal = vec![
        rec("first", CredentialScope::RemoteUrl, 7, Some(3)),
        rec("second", CredentialScope::RemoteUrl, 7, Some(3)),
    ];
    let chosen = select_matching_record(&equal, &request(URL, USER_PASS_PLAINTEXT), &[]).unwrap();
    assert_eq!(chosen.id, "first");
}

#[test]
fn records_are_listed_newest_first_then_by_host_url_user() {
    let mut a = rec("a", CredentialScope::Host, 5, None);
    a.host = "https://b.example".into();
    let mut b = rec("b", CredentialScope::Host, 5, None);
    b.host = "https://a.example".into();
    let c = rec("c", CredentialScope::Host, 9, None);
    let mut d = rec("d", CredentialScope::Host, 5, None);
    d.host = "https://a.example".into();
    d.username = "aaron".into();
    let mut records = vec![a, b, c, d];
    sort_records(&mut records);
    let order: Vec<&str> = records.iter().map(|r| r.id.as_str()).collect();
    assert_eq!(order, vec!["c", "d", "b", "a"]);
}

#[test]
fn next_timestamp_is_after_every_stamp() {
    assert_eq!(next_record_timestamp(&[], 42), 42);
    let records = vec![
        rec("a", CredentialScope::Host, 100, Some(20)),
        rec("b", CredentialScope::Host, 30, Some(120)),
    ];
    assert_eq!(next_record_timestamp(&records, 50), 121);
    assert_eq!(next_record_timestamp(&records, 500), 500);
}

#[test]
fn record_ids_are_lower_hex() {
    assert_eq!(hex_string(0), "0");
    assert_eq!(hex_string(255), "ff");
    assert_eq!(hex_string(0x1a2b3c), "1a2b3c");
    assert_eq!(hex_string(u128::MAX), "ffffffffffffffffffffffffffffffff");
}

#[test]
fn clock_nanoseconds_become_whole_seconds() {
    assert_eq!(seconds_from_nanos(0), 0);
    assert_eq!(seconds_from_nanos(999_999_999), 0);
    assert_eq!(seconds_from_nanos(1_700_000_000_500_000_000), 1_700_000_000);
    assert_eq!(seconds_from_nanos(((1u128 << 64) + 3) * 1_000_000_000), 3);
}
