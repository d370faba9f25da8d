use khaslana_core::error::GitError;
use khaslana_core::external_merge::{
    candidate_command_names, check_external_merge_enabled, default_external_merge_enabled,
    external_merge_detection_label, given_command_outcome, intellij_command_source,
    intellij_idea_merge_args, searched_command_outcome, ExternalMergeSettings,
    IdeaCommandSource,
};

fn settings(path: &str) -> ExternalMergeSettings {
    ExternalMergeSettings {
        enabled: true,
        auto_open_intellij: false,
        intellij_path: path.to_string(),
    }
}

fn message_of(err: GitError) -> String {
    err.message()
}

#[test]
fn detection_button_only_shows_result_for_current_settings() {
    let settings = ExternalMergeSettings {
        enabled: true,
        auto_open_intellij: false,
        intellij_path: "idea64.exe".into(),
    };
    let succeeded = (settings.clone(), true);
    assert_eq!(
        external_merge_detection_label(&settings, Some(&succeeded)),
        "✓ IDEA 可用"
    );

    let mut changed = settings.clone();
    changed.intellij_path = "other.exe".into();
    assert_eq!(
        external_merge_detection_label(&changed, Some(&succeeded)),
        "检测 IDEA"
    );
}

#[test]
fn detection_label_reports_failure_and_absence() {
    let current = settings("idea64.exe");
    let failed = (current.clone(), false);
    assert_eq!(
        external_merge_detection_label(&current, Some(&failed)),
        "检测失败 · 重试"
    );
    assert_eq!(external_merge_detection_label(&current, None), "检测 IDEA");
    let mut toggled = current.clone();
    toggled.auto_open_intellij = true;
    assert_eq!(
        external_merge_detection_label(&toggled, Some(&failed)),
        "检测 IDEA"
    );
}

#[test]
fn default_settings_enable_the_tool_without_a_path() {
    let defaults = ExternalMergeSettings::default();
    assert!(defaults.enabled);
    assert!(!defaults.auto_open_intellij);
    assert_eq!(defaults.intellij_path, "");
    assert!(default_external_merge_enabled());
}

#[test]
fn normalized_path_is_trimmed() {
    assert_eq!(
        settings("  C:\\Tools\\idea64.exe \n").normalized_intellij_path(),
        "C:\\Tools\\idea64.exe"
    );
    assert_eq!(settings("\u{3000}\t").normalized_intellij_path(), "");
}

#[test]
fn configured_path_wins_over_environment() {
    assert_eq!(
        intellij_command_source(&settings(" /opt/idea/bin/idea.sh "), Some("/env/idea".into())),
        IdeaCommandSource::Given("/opt/idea/bin/idea.sh".into())
    );
    assert_eq!(
        intellij_command_source(&settings("   "), Some("/env/idea".into())),
        IdeaCommandSource::Given("/env/idea".into())
    );
    assert_eq!(
        intellij_command_source(&settings(""), Some(String::new())),
        IdeaCommandSource::Search
    );
    assert_eq!(intellij_command_source(&settings(""), None), IdeaCommandSource::Search);
}

#[test]
fn given_command_must_be_a_file() {
    assert_eq!(
        given_command_outcome("/opt/idea".into(), true).unwrap(),
        "/opt/idea"
    );
    let err = given_command_outcome("/missing/idea".into(), false).unwrap_err();
    assert_eq!(message_of(err), "IntelliJ IDEA 命令不存在：/missing/idea");
}

#[test]
fn searched_command_prefers_idea64_then_idea_then_installs() {
    assert_eq!(
        searched_command_outcome(Some("a".into()), Some("b".into()), Some("c".into())).unwrap(),
        "a"
    );
    assert_eq!(
        searched_command_outcome(None, Some("b".into()), Some("c".into())).unwrap(),
        "b"
    );
    assert_eq!(searched_command_outcome(None, None, Some("c".into())).unwrap(), "c");
    let err = searched_command_outcome(None, None, None).unwrap_err();
    assert_eq!(
        message_of(err),
        "未找到 IntelliJ IDEA 命令，请确认 idea64 或 idea 已加入 PATH"
    );
}

#[test]
fn candidate_names_depend_on_the_platform() {
    assert_eq!(
        candidate_command_names("idea64", true),
        vec!["idea64.exe", "idea64.bat", "idea64.cmd", "idea64"]
    );
    assert_eq!(candidate_command_names("idea", false), vec!["idea"]);
}

#[test]
fn merge_arguments_follow_idea_order() {
    assert_eq!(
        intellij_idea_merge_args("/t/ours-a.txt", "/t/theirs-a.txt", "/t/base-a.txt", "/t/result-a.txt"),
        vec!["merge", "/t/ours-a.txt", "/t/theirs-a.txt", "/t/base-a.txt", "/t/result-a.txt"]
    );
}

#[test]
fn disabled_tool_refuses_merges() {
    let mut disabled = settings("idea");
    disabled.enabled = false;
    let err = check_external_merge_enabled(&disabled).unwrap_err();
    assert_eq!(message_of(err), "外部合并工具未启用");
    assert!(check_external_merge_enabled(&settings("idea")).is_ok());
}
