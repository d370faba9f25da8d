use khaslana_core::credentials::{
    credential_display_target, credential_key_filename, credential_kind_label,
    credential_record_is_compatible_with_url, credential_record_label,
    credential_record_matches_remote_url, credential_scope_label, normalize_display_name,
    requested_kind, set_credential_save_scope, CredentialRecord, CredentialRequest,
    CredentialScope, CredentialTypes, GitCredential, StoredCredentialKind, SSH_KEY,
    USER_PASS_PLAINTEXT,
};
use khaslana_core::remote_url::{normalize_remote_url, remote_metadata, ProtocolFamily};

fn record(kind: StoredCredentialKind, scope: CredentialScope, host: &str, url: &str) -> CredentialRecord {
    CredentialRecord {
        id: "r1".into(),
        display_name: None,
        scope,
        kind,
        host: host.into(),
        remote_url: url.into(),
        username: "alice".into(),
        key_path: None,
        created_at: 1,
        updated_at: 2,
        last_used: None,
    }
}

fn request(url: &str, bits: u32) -> CredentialRequest {
    CredentialRequest {
        url: url.into(),
        username_from_url: None,
        allowed_types: CredentialTypes { bits },
        repo_path: None,
        remote_name: None,
        operation_id: None,
    }
}

#[test]
fn https_metadata_keeps_port_and_drops_user() {
    let m = remote_metadata("https://User@GitHub.com:8443/Org/Repo.git").unwrap();
    assert_eq!(m.host_key, "https://github.com:8443");
    assert_eq!(m.protocol_family, ProtocolFamily::Https);
    let plain = remote_metadata("  http://example.com  ").unwrap();
    assert_eq!(plain.host_key, "https://example.com");
    assert_eq!(plain.protocol_family, ProtocolFamily::Https);
}

#[test]
fn ssh_metadata_for_urls_and_scp_form() {
    let m = remote_metadata("ssh://git@Gitee.com/org/repo.git").unwrap();
    assert_eq!(m.host_key, "ssh://gitee.com");
    assert_eq!(m.protocol_family, ProtocolFamily::Ssh);
    let scp = remote_metadata("git@GitHub.com:org/repo.git").unwrap();
    assert_eq!(scp.host_key, "ssh://github.com");
    assert_eq!(scp.protocol_family, ProtocolFamily::Ssh);
}

#[test]
fn metadata_refuses_urls_without_host() {
    assert!(remote_metadata("https:///path").is_none());
    assert!(remote_metadata("/local/path/repo").is_none());
    assert!(remote_metadata("ssh:///repo").is_none());
    assert!(remote_metadata("").is_none());
}

#[test]
fn normalized_urls_ignore_case_user_and_trailing_slash() {
    assert_eq!(
        normalize_remote_url("  HTTPS://User@GitHub.com/Org/Repo.git/ "),
        "https://github.com/org/repo.git"
    );
    assert_eq!(
        normalize_remote_url("git@GitHub.com:Org/Repo.git"),
        "git@github.com:org/repo.git"
    );
    assert_eq!(
        normalize_remote_url("https://github.com/org/repo.git"),
        normalize_remote_url("https://bob@GITHUB.com/org/repo.git//")
    );
}

#[test]
fn labels_of_scopes_and_kinds() {
    assert_eq!(credential_scope_label(CredentialScope::RemoteUrl), "仅此远端");
    assert_eq!(credential_scope_label(CredentialScope::Host), "同站点");
    assert_eq!(credential_kind_label(StoredCredentialKind::HttpsUserPass), "HTTPS 用户名/PAT");
    assert_eq!(credential_kind_label(StoredCredentialKind::SshKey), "SSH 私钥");
    assert_eq!(CredentialScope::default(), CredentialScope::RemoteUrl);
}

#[test]
fn record_label_prefers_display_name() {
    let mut r = record(
        StoredCredentialKind::HttpsUserPass,
        CredentialScope::RemoteUrl,
        "https://github.com",
        "https://github.com/org/repo.git",
    );
    assert_eq!(credential_record_label(&r), "HTTPS 仅此远端 alice");
    r.display_name = Some("  Work PAT ".into());
    assert_eq!(credential_record_label(&r), "Work PAT");
    r.display_name = Some("   ".into());
    r.kind = StoredCredentialKind::SshKey;
    r.scope = CredentialScope::Host;
    assert_eq!(credential_record_label(&r), "SSH 同站点 alice");
}

#[test]
fn display_target_follows_scope() {
    let mut r = record(
        StoredCredentialKind::HttpsUserPass,
        CredentialScope::RemoteUrl,
        "https://github.com",
        "https://github.com/org/repo.git",
    );
    assert_eq!(credential_display_target(&r), "https://github.com/org/repo.git");
    r.scope = CredentialScope::Host;
    assert_eq!(credential_display_target(&r), "https://github.com");
}

#[test]
fn key_filename_or_dash() {
    let mut r = record(
        StoredCredentialKind::SshKey,
        CredentialScope::Host,
        "ssh://github.com",
        "git@github.com:org/repo.git",
    );
    assert_eq!(credential_key_filename(&r), "-");
    r.key_path = Some("/home/alice/.ssh/id_ed25519".into());
    assert_eq!(credential_key_filename(&r), "id_ed25519");
}

#[test]
fn compatibility_follows_protocol() {
    let https = record(
        StoredCredentialKind::HttpsUserPass,
        CredentialScope::Host,
        "https://github.com",
        "https://github.com/org/a.git",
    );
    assert!(credential_record_is_compatible_with_url(&https, "https://github.com/org/b.git"));
    assert!(!credential_record_is_compatible_with_url(&https, "git@github.com:org/b.git"));
    assert!(!credential_record_is_compatible_with_url(&https, "not a url"));
}

#[test]
fn matching_by_scope() {
    let host_wide = record(
        StoredCredentialKind::HttpsUserPass,
        CredentialScope::Host,
        "https://github.com",
        "https://github.com/org/a.git",
    );
    assert!(credential_record_matches_remote_url(&host_wide, "https://github.com/other/b.git"));
    assert!(!credential_record_matches_remote_url(&host_wide, "https://gitlab.com/org/a.git"));
    let one_remote = record(
        StoredCredentialKind::HttpsUserPass,
        CredentialScope::RemoteUrl,
        "https://github.com",
        "https://github.com/org/a.git",
    );
    assert!(credential_record_matches_remote_url(&one_remote, "HTTPS://GitHub.com/Org/A.git/"));
    assert!(!credential_record_matches_remote_url(&one_remote, "https://github.com/org/b.git"));
}

#[test]
fn display_names_are_trimmed_or_dropped() {
    assert_eq!(normalize_display_name("  Work  "), Some("Work".to_string()));
    assert_eq!(normalize_display_name(" \t\n"), None);
}

#[test]
fn requested_kind_by_protocol_and_allowed_types() {
    let ssh_key = request("git@github.com:a/b.git", SSH_KEY);
    assert_eq!(
        requested_kind(&ssh_key, ProtocolFamily::Ssh),
        Some(StoredCredentialKind::SshKey)
    );
    let ssh_userpass = request("git@github.com:a/b.git", USER_PASS_PLAINTEXT);
    assert_eq!(
        requested_kind(&ssh_userpass, ProtocolFamily::Ssh),
        Some(StoredCredentialKind::HttpsUserPass)
    );
    let https_nothing = request("https://github.com/a/b.git", 0);
    assert_eq!(
        requested_kind(&https_nothing, ProtocolFamily::Https),
        Some(StoredCredentialKind::HttpsUserPass)
    );
    let ssh_nothing = request("git@github.com:a/b.git", 0);
    assert_eq!(requested_kind(&ssh_nothing, ProtocolFamily::Ssh), None);
}

#[test]
fn credential_from_record_by_kind() {
    let mut r = record(
        StoredCredentialKind::HttpsUserPass,
        CredentialScope::Host,
        "https://github.com",
        "https://github.com/a/b.git",
    );
    r.display_name = Some("pat".into());
    let c = GitCredential::from_record(&r, "token".into()).unwrap();
    assert_eq!(
        c,
        GitCredential::UserPass {
            username: "alice".into(),
            secret: "token".into(),
            display_name: Some("pat".into()),
            save_to_keyring: true,
            scope: CredentialScope::Host,
        }
    );
    r.kind = StoredCredentialKind::SshKey;
    r.key_path = Some("/k/id".into());
    let ssh = GitCredential::from_record(&r, String::new()).unwrap();
    assert_eq!(ssh.key_path(), Some("/k/id"));
    assert_eq!(ssh.secret_for_keyring(), "");
    match ssh {
        GitCredential::SshPassphrase { passphrase, .. } => assert_eq!(passphrase, None),
        _ => panic!("expected an SSH credential"),
    }
}

#[test]
fn old_storage_formats() {
    let https = GitCredential::from_old_storage(
        "bob".into(),
        "https:s3cret".into(),
        CredentialTypes { bits: USER_PASS_PLAINTEXT },
        CredentialScope::RemoteUrl,
    )
    .unwrap();
    assert_eq!(https.username(), "bob");
    assert_eq!(https.secret_for_keyring(), "s3cret");
    assert!(https.should_save());

    let ssh = GitCredential::from_old_storage(
        "git".into(),
        "ssh:C:\\keys\\id_rsa:pass:word".into(),
        CredentialTypes { bits: SSH_KEY },
        CredentialScope::RemoteUrl,
    )
    .unwrap();
    assert_eq!(ssh.key_path(), Some("C:\\keys\\id_rsa:pass"));
    assert_eq!(ssh.secret_for_keyring(), "word");

    let bare = GitCredential::from_old_storage(
        "git".into(),
        "ssh:/k/id".into(),
        CredentialTypes { bits: SSH_KEY },
        CredentialScope::Host,
    )
    .unwrap();
    assert_eq!(bare.key_path(), Some("/k/id"));
    assert_eq!(bare.secret_for_keyring(), "");
    assert_eq!(bare.scope(), CredentialScope::Host);

    let empty = GitCredential::from_old_storage(
        "git".into(),
        "ssh:".into(),
        CredentialTypes { bits: SSH_KEY },
        CredentialScope::Host,
    )
    .unwrap();
    assert_eq!(empty.key_path(), None);

    assert!(GitCredential::from_old_storage(
        "git".into(),
        "ssh:/k/id:p".into(),
        CredentialTypes { bits: USER_PASS_PLAINTEXT },
        CredentialScope::Host,
    )
    .is_none());
    assert!(GitCredential::from_old_storage(
        "git".into(),
        "plain".into(),
        CredentialTypes { bits: SSH_KEY | USER_PASS_PLAINTEXT },
        CredentialScope::Host,
    )
    .is_none());
}

#[test]
fn save_scope_is_replaced() {
    let mut c = GitCredential::UserPass {
        username: "u".into(),
        secret: "s".into(),
        display_name: None,
        save_to_keyring: false,
        scope: CredentialScope::RemoteUrl,
    };
    set_credential_save_scope(&mut c, true, CredentialScope::Host);
    assert!(c.should_save());
    assert_eq!(c.scope(), CredentialScope::Host);
    assert_eq!(c.kind(), StoredCredentialKind::HttpsUserPass);
    assert_eq!(c.display_name(), None);
}

#[test]
fn normalizing_a_normal_form_changes_nothing() {
    for url in [
        "HTTPS://User@Example.COM/Team/Repo.git/",
        "git@GitHub.com:Team/Repo.git",
        "ssh://git@host:22/x",
        "https://u@/x",
    ] {
        let once = normalize_remote_url(url);
        assert_eq!(normalize_remote_url(&once), once);
    }
}
