use khaslana_core::credentials::{
    CredentialRecord, CredentialRequest, CredentialScope, CredentialTypes, GitCredential,
    StoredCredentialKind, SSH_KEY, USER_PASS_PLAINTEXT,
};
use khaslana_core::git_credential::{
    connection_test_request, credential_plan, keeps_prompted_credential, to_git_credential,
    CredentialPlan,
};

fn request(bits: u32) -> CredentialRequest {
    CredentialRequest {
        url: "git@github.com:o/r.git".into(),
        username_from_url: Some("git".into()),
        allowed_types: CredentialTypes { bits },
        repo_path: None,
        remote_name: None,
        operation_id: None,
    }
}

fn ssh(key: Option<&str>, passphrase: Option<&str>) -> GitCredential {
    GitCredential::SshPassphrase {
        username: "git".into(),
        private_key_path: key.map(str::to_string),
        passphrase: passphrase.map(str::to_string),
        display_name: None,
        save_to_keyring: false,
        scope: CredentialScope::RemoteUrl,
    }
}

#[test]
fn plans_for_each_kind_of_credential() {
    let up = GitCredential::UserPass {
        username: "u".into(),
        secret: "p".into(),
        display_name: None,
        save_to_keyring: true,
        scope: CredentialScope::Host,
    };
    assert_eq!(
        credential_plan(&request(USER_PASS_PLAINTEXT), up),
        CredentialPlan::UserPass { username: "u".into(), password: "p".into() }
    );
    assert_eq!(
        credential_plan(&request(0), ssh(Some("/k/id"), Some("pp"))),
        CredentialPlan::SshKeyFile {
            username: "git".into(),
            private_key_path: "/k/id".into(),
            passphrase: Some("pp".into()),
        }
    );
    assert_eq!(
        credential_plan(&request(SSH_KEY), ssh(None, None)),
        CredentialPlan::SshAgent { username: "git".into() }
    );
    assert_eq!(
        credential_plan(&request(USER_PASS_PLAINTEXT), ssh(None, None)),
        CredentialPlan::Refused("远端不接受 SSH 密钥凭据".into())
    );
}

#[test]
fn refused_plan_is_an_error_for_libgit2() {
    let result = to_git_credential(&request(USER_PASS_PLAINTEXT), ssh(None, None));
    match result {
        Err(err) => assert_eq!(err.message(), "远端不接受 SSH 密钥凭据"),
        Ok(_) => panic!("expected an error"),
    }
    let up = GitCredential::UserPass {
        username: "u".into(),
        secret: "p".into(),
        display_name: None,
        save_to_keyring: true,
        scope: CredentialScope::Host,
    };
    assert!(to_git_credential(&request(USER_PASS_PLAINTEXT), up).is_ok());
}

#[test]
fn prompted_credentials_are_kept_when_asked() {
    assert!(!keeps_prompted_credential(&None));
    assert!(!keeps_prompted_credential(&Some(ssh(None, None))));
    let mut kept = ssh(None, None);
    if let GitCredential::SshPassphrase { save_to_keyring, .. } = &mut kept {
        *save_to_keyring = true;
    }
    assert!(keeps_prompted_credential(&Some(kept)));
}

#[test]
fn connection_test_uses_the_record_kind() {
    let record = CredentialRecord {
        id: "r".into(),
        display_name: None,
        scope: CredentialScope::Host,
        kind: StoredCredentialKind::SshKey,
        host: "ssh://github.com".into(),
        remote_url: "git@github.com:o/r.git".into(),
        username: "git".into(),
        key_path: None,
        created_at: 0,
        updated_at: 0,
        last_used: None,
    };
    let req = connection_test_request(&record);
    assert_eq!(req.url, "git@github.com:o/r.git");
    assert_eq!(req.username_from_url, Some("git".into()));
    assert_eq!(req.allowed_types.bits, SSH_KEY);
    let mut https = record.clone();
    https.kind = StoredCredentialKind::HttpsUserPass;
    assert_eq!(connection_test_request(&https).allowed_types.bits, USER_PASS_PLAINTEXT);
}

#[test]
fn credentials_without_nul_reach_libgit2() {
    assert!(to_git_credential(&request(SSH_KEY), ssh(Some("/home/u/.ssh/id_ed25519"), Some("pw"))).is_ok());
    assert!(to_git_credential(&request(SSH_KEY), ssh(None, None)).is_ok());
    assert!(to_git_credential(&request(SSH_KEY), ssh(Some("/k\0ey"), None)).is_err());
}
