//! Settings of the external merge tool (IntelliJ IDEA), where its command is
//! taken from, and how a three-way merge is handed to it.

use vstd::prelude::*;

use crate::error::GitError;
use crate::text::{
    append_chars, chars_of, owned, same_text, string_of, trim, trim_chars, CharClass,
};

verus! {

/// Settings of the external merge tool.
#[derive(Clone, Debug, PartialEq, Eq)]
pub struct ExternalMergeSettings {
    pub enabled: bool,
    pub auto_open_intellij: bool,
    pub intellij_path: String,
}

impl Default for ExternalMergeSettings {
    fn default() -> (r: Self)
        ensures
            r.enabled,
            !r.auto_open_intellij,
            r.intellij_path@.len() == 0,
    {
        ExternalMergeSettings {
            enabled: default_external_merge_enabled(),
            auto_open_intellij: false,
            intellij_path: String::new(),
        }
    }
}

impl ExternalMergeSettings {
    /// The configured IDEA path without surrounding white space.
    pub fn normalized_intellij_path(&self) -> (r: String)
        ensures
            r@ == trim(self.intellij_path@),
    {
        let chars = chars_of(self.intellij_path.as_str());
        let trimmed = trim_chars(&chars, CharClass::WhiteSpace);
        string_of(&trimmed)
    }

    /// Both settings are the same, field by field.
    pub open spec fn same_as(self, other: Self) -> bool {
        &&& self.enabled == other.enabled
        &&& self.auto_open_intellij == other.auto_open_intellij
        &&& self.intellij_path@ == other.intellij_path@
    }
}

/// The external merge tool is enabled unless the settings say otherwise.
pub fn default_external_merge_enabled() -> (r: bool)
    ensures
        r,
{
    true
}

/// The label of the detection button: the last detection's result, but only
/// when it was made for the settings now in the form.
pub fn external_merge_detection_label(
    settings: &ExternalMergeSettings,
    detection: Option<&(ExternalMergeSettings, bool)>,
) -> (r: &'static str)
    ensures
        r@ == (match detection {
            Some(d) => if d.0.same_as(*settings) {
                if d.1 {
                    "✓ IDEA 可用"@
                } else {
                    "检测失败 · 重试"@
                }
            } else {
                "检测 IDEA"@
            },
            None => "检测 IDEA"@,
        }),
{
    match detection {
        Some(d) => {
            let detected = &d.0;
            if detected.enabled == settings.enabled && detected.auto_open_intellij
                == settings.auto_open_intellij && same_text(
                detected.intellij_path.as_str(),
                settings.intellij_path.as_str(),
            ) {
                if d.1 {
                    "✓ IDEA 可用"
                } else {
                    "检测失败 · 重试"
                }
            } else {
                "检测 IDEA"
            }
        },
        None => "检测 IDEA",
    }
}

/// The message when no IDEA command is found anywhere.
pub open spec fn idea_not_found_message() -> Seq<char> {
    "未找到 IntelliJ IDEA 命令，请确认 idea64 或 idea 已加入 PATH"@
}

/// The message for an IDEA command path that is not a file.
pub open spec fn idea_missing_message(path: Seq<char>) -> Seq<char> {
    "IntelliJ IDEA 命令不存在："@ + path
}

/// Where the IDEA command comes from.
#[derive(Clone, Debug, PartialEq, Eq)]
pub enum IdeaCommandSource {
    /// A path given in the settings or in `KHASLANA_IDEA_PATH`; it must be a
    /// file.
    Given(String),
    /// Searched for: `idea64`, then `idea` on `PATH`, then the usual
    /// install locations.
    Search,
}

/// The source of the IDEA command: the configured path (trimmed) when the
/// settings have one, else the environment's path when one is set (and not
/// empty), else a search.
pub fn intellij_command_source(settings: &ExternalMergeSettings, env_path: Option<String>) -> (r:
    IdeaCommandSource)
    ensures
        trim(settings.intellij_path@).len() > 0 ==> (r matches IdeaCommandSource::Given(p) && p@
            == trim(settings.intellij_path@)),
        trim(settings.intellij_path@).len() == 0 ==> match env_path {
            Some(e) => if e@.len() > 0 {
                r matches IdeaCommandSource::Given(p) && p@ == e@
            } else {
                r is Search
            },
            None => r is Search,
        },
{
    let configured = settings.normalized_intellij_path();
    if !configured.as_str().is_empty() {
        return IdeaCommandSource::Given(configured);
    }
    match env_path {
        Some(path) => {
            if path.as_str().is_empty() {
                IdeaCommandSource::Search
            } else {
                IdeaCommandSource::Given(path)
            }
        },
        None => IdeaCommandSource::Search,
    }
}

/// The IDEA command at a given path: the path when it is a file, else the
/// error that names it.
pub fn given_command_outcome(path: String, is_file: bool) -> (r: Result<String, GitError>)
    ensures
        is_file ==> (r matches Ok(p) && p@ == path@),
        !is_file ==> (r matches Err(GitError::Message(m)) && m@ == idea_missing_message(path@)),
{
    if is_file {
        return Ok(path);
    }
    let mut message = chars_of("IntelliJ IDEA 命令不存在：");
    append_chars(&mut message, &chars_of(path.as_str()));
    Err(GitError::Message(string_of(&message)))
}

/// The searched IDEA command: `idea64` on `PATH`, else `idea` on `PATH`,
/// else one in the usual install locations, else the not-found error.
pub fn searched_command_outcome(
    idea64_on_path: Option<String>,
    idea_on_path: Option<String>,
    installed: Option<String>,
) -> (r: Result<String, GitError>)
    ensures
        match (idea64_on_path, idea_on_path, installed) {
            (Some(a), _, _) => r matches Ok(p) && p@ == a@,
            (None, Some(b), _) => r matches Ok(p) && p@ == b@,
            (None, None, Some(c)) => r matches Ok(p) && p@ == c@,
            (None, None, None) => r matches Err(GitError::Message(m)) && m@ == idea_not_found_message(),
        },
{
    if let Some(path) = idea64_on_path {
        return Ok(path);
    }
    if let Some(path) = idea_on_path {
        return Ok(path);
    }
    if let Some(path) = installed {
        return Ok(path);
    }
    Err(GitError::Message(owned("未找到 IntelliJ IDEA 命令，请确认 idea64 或 idea 已加入 PATH")))
}

/// The file names under which a command is looked for in a directory: with
/// the `.exe`, `.bat` and `.cmd` extensions, then bare, on Windows; bare
/// elsewhere.
pub fn candidate_command_names(command: &str, windows: bool) -> (r: Vec<String>)
    ensures
        windows ==> r@.len() == 4 && r@[0]@ == command@ + ".exe"@ && r@[1]@ == command@ + ".bat"@
            && r@[2]@ == command@ + ".cmd"@ && r@[3]@ == command@,
        !windows ==> r@.len() == 1 && r@[0]@ == command@,
{
    let mut names: Vec<String> = Vec::new();
    if windows {
        let base = chars_of(command);
        let mut exe = base.clone();
        append_chars(&mut exe, &chars_of(".exe"));
        let mut bat = base.clone();
        append_chars(&mut bat, &chars_of(".bat"));
        let mut cmd = base.clone();
        append_chars(&mut cmd, &chars_of(".cmd"));
        names.push(string_of(&exe));
        names.push(string_of(&bat));
        names.push(string_of(&cmd));
    }
    names.push(owned(command));
    names
}

/// The arguments of IDEA's three-way merge: `merge ours theirs base result`.
pub fn intellij_idea_merge_args(ours: &str, theirs: &str, base: &str, result: &str) -> (r: Vec<
    String,
>)
    ensures
        r@.len() == 5,
        r@[0]@ == "merge"@,
        r@[1]@ == ours@,
        r@[2]@ == theirs@,
        r@[3]@ == base@,
        r@[4]@ == result@,
{
    let mut args: Vec<String> = Vec::new();
    args.push(owned("merge"));
    args.push(owned(ours));
    args.push(owned(theirs));
    args.push(owned(base));
    args.push(owned(result));
    args
}

/// Refuses a merge when the tool is disabled.
pub fn check_external_merge_enabled(settings: &ExternalMergeSettings) -> (r: Result<(), GitError>)
    ensures
        settings.enabled <==> r is Ok,
        !settings.enabled ==> (r matches Err(GitError::Message(m)) && m@ == "外部合并工具未启用"@),
{
    if !settings.enabled {
        return Err(GitError::Message(owned("外部合并工具未启用")));
    }
    Ok(())
}

} // verus!
