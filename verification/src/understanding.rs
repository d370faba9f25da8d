//! The plain-text form of a code-understanding answer, as the "copy
//! conclusion" action puts it on the clipboard, and the labels it uses.
//! The answer types hold the fields that this form reads.

use vstd::prelude::*;

use crate::text::{append_chars, chars_of, string_of};

verus! {

/// The kind of a data object that the analysed code touches.
#[derive(Clone, Copy, Debug, PartialEq, Eq, Structural)]
pub enum DataObjectCategory {
    DbObject,
    Cache,
    External,
    Message,
    Unknown,
}

/// What the code does to a data object.
#[derive(Clone, Copy, Debug, PartialEq, Eq, Structural)]
pub enum DataOperationKind {
    Read,
    Insert,
    Update,
    Delete,
    Unknown,
}

/// How a statement of the answer is backed.
#[derive(Clone, Copy, Debug, PartialEq, Eq, Structural)]
pub enum AnalysisEvidenceState {
    /// Read in the source.
    Observed,
    /// Inferred.
    Inferred,
    Unknown,
}

/// A business finding, with the condition under which it holds.
#[derive(Clone, Debug)]
pub struct AnalysisFinding {
    pub text: String,
    pub condition: Option<String>,
    pub state: AnalysisEvidenceState,
}

/// A read or write of a data object.
#[derive(Clone, Debug)]
pub struct DataAccess {
    pub object: String,
    pub category: DataObjectCategory,
    pub operations: Vec<DataOperationKind>,
    pub conditions: Vec<String>,
    pub state: AnalysisEvidenceState,
}

/// An answer of the code-understanding page.
#[derive(Clone, Debug)]
pub struct AnalysisResult {
    pub summary: String,
    pub findings: Vec<AnalysisFinding>,
    pub data_accesses: Vec<DataAccess>,
    pub unknowns: Vec<String>,
    pub coverage_note: String,
}

/// The label of a data object category.
pub open spec fn category_label(category: DataObjectCategory) -> Seq<char> {
    match category {
        DataObjectCategory::DbObject => "数据库对象"@,
        DataObjectCategory::Cache => "缓存"@,
        DataObjectCategory::External => "外部调用"@,
        DataObjectCategory::Message => "消息"@,
        DataObjectCategory::Unknown => "未知"@,
    }
}

/// The label of a data operation.
pub open spec fn operation_label(operation: DataOperationKind) -> Seq<char> {
    match operation {
        DataOperationKind::Read => "读"@,
        DataOperationKind::Insert => "增"@,
        DataOperationKind::Update => "改"@,
        DataOperationKind::Delete => "删"@,
        DataOperationKind::Unknown => "未知"@,
    }
}

/// The label of an evidence state.
pub open spec fn evidence_label(state: AnalysisEvidenceState) -> Seq<char> {
    match state {
        AnalysisEvidenceState::Observed => "已读源码"@,
        AnalysisEvidenceState::Inferred => "推断"@,
        AnalysisEvidenceState::Unknown => "未知"@,
    }
}

/// The texts joined with `sep` between them (what `[String]::join` gives).
pub open spec fn joined(parts: Seq<Seq<char>>, sep: Seq<char>) -> Seq<char>
    decreases parts.len(),
{
    if parts.len() == 0 {
        Seq::empty()
    } else if parts.len() == 1 {
        parts[0]
    } else {
        joined(parts.drop_last(), sep) + sep + parts.last()
    }
}

/// The texts of strings.
pub open spec fn texts(v: Seq<String>) -> Seq<Seq<char>> {
    v.map_values(|s: String| s@)
}

/// The label of a list of operations, in the order given: `未知` for none.
pub open spec fn operations_label(operations: Seq<DataOperationKind>) -> Seq<char> {
    if operations.len() == 0 {
        "未知"@
    } else {
        joined(operations.map_values(|o: DataOperationKind| operation_label(o)), "/"@)
    }
}

/// The line of a finding: `- text（condition） [evidence]`.
pub open spec fn finding_line(f: AnalysisFinding) -> Seq<char> {
    let condition = match f.condition {
        Some(c) => "（"@ + c@ + "）"@,
        None => Seq::empty(),
    };
    "- "@ + f.text@ + condition + " ["@ + evidence_label(f.state) + "]"@
}

/// The line of a data access: `- object · category · operations（conditions） [evidence]`.
pub open spec fn access_line(a: DataAccess) -> Seq<char> {
    let conditions = if a.conditions@.len() == 0 {
        Seq::empty()
    } else {
        "（"@ + joined(texts(a.conditions@), "；"@) + "）"@
    };
    "- "@ + a.object@ + " · "@ + category_label(a.category) + " · "@ + operations_label(
        a.operations@,
    ) + conditions + " ["@ + evidence_label(a.state) + "]"@
}

/// The blocks of the plain-text form: the summary, then the findings, the
/// data accesses, the open questions and the scope note, each only when
/// there is something to say.
pub open spec fn plain_text_blocks(r: AnalysisResult) -> Seq<Seq<char>> {
    let b1 = seq![r.summary@];
    let b2 = if r.findings@.len() == 0 {
        b1
    } else {
        b1.push(
            "业务发现：\n"@ + joined(
                r.findings@.map_values(|f: AnalysisFinding| finding_line(f)),
                "\n"@,
            ),
        )
    };
    let b3 = if r.data_accesses@.len() == 0 {
        b2
    } else {
        b2.push(
            "数据读写：\n"@ + joined(r.data_accesses@.map_values(|a: DataAccess| access_line(a)), "\n"@),
        )
    };
    let b4 = if r.unknowns@.len() == 0 {
        b3
    } else {
        b3.push("未确认：\n"@ + joined(texts(r.unknowns@).map_values(|u: Seq<char>| "- "@ + u), "\n"@))
    };
    if r.coverage_note@.len() == 0 {
        b4
    } else {
        b4.push("检索范围："@ + r.coverage_note@)
    }
}

/// The plain-text form: the blocks separated by blank lines.
pub open spec fn plain_text(r: AnalysisResult) -> Seq<char> {
    joined(plain_text_blocks(r), "\n\n"@)
}

/// The label of a data object category.
pub fn data_object_category_label(category: DataObjectCategory) -> (r: &'static str)
    ensures
        r@ == category_label(category),
{
    match category {
        DataObjectCategory::DbObject => "数据库对象",
        DataObjectCategory::Cache => "缓存",
        DataObjectCategory::External => "外部调用",
        DataObjectCategory::Message => "消息",
        DataObjectCategory::Unknown => "未知",
    }
}

/// The label of a data operation.
pub fn data_operation_label(operation: DataOperationKind) -> (r: &'static str)
    ensures
        r@ == operation_label(operation),
{
    match operation {
        DataOperationKind::Read => "读",
        DataOperationKind::Insert => "增",
        DataOperationKind::Update => "改",
        DataOperationKind::Delete => "删",
        DataOperationKind::Unknown => "未知",
    }
}

/// The label of an evidence state.
pub fn evidence_state_label(state: AnalysisEvidenceState) -> (r: &'static str)
    ensures
        r@ == evidence_label(state),
{
    match state {
        AnalysisEvidenceState::Observed => "已读源码",
        AnalysisEvidenceState::Inferred => "推断",
        AnalysisEvidenceState::Unknown => "未知",
    }
}

/// The texts joined with `sep`.
fn join_texts(parts: &Vec<Vec<char>>, sep: &str) -> (r: Vec<char>)
    ensures
        r@ == joined(parts@.map_values(|v: Vec<char>| v@), sep@),
{
    let ghost views = parts@.map_values(|v: Vec<char>| v@);
    let sep_chars = chars_of(sep);
    let mut out: Vec<char> = Vec::new();
    let mut i: usize = 0;
    while i < parts.len()
        invariant
            0 <= i <= parts.len(),
            views == parts@.map_values(|v: Vec<char>| v@),
            sep_chars@ == sep@,
            out@ == joined(views.take(i as int), sep@),
        decreases parts.len() - i,
    {
        proof {
            assert(views.take(i + 1).drop_last() =~= views.take(i as int));
            assert(views.take(i + 1).last() == parts@[i as int]@);
        }
        if i > 0 {
            append_chars(&mut out, &sep_chars);
        } else {
            assert(views.take(0) =~= Seq::<Seq<char>>::empty());
        }
        append_chars(&mut out, &parts[i]);
        proof {
            if i == 0 {
                assert(out@ =~= parts@[0]@);
            }
        }
        i = i + 1;
    }
    assert(views.take(parts@.len() as int) =~= views);
    out
}

/// The label of a list of operations, in the order given.
pub fn data_operations_label(operations: &[DataOperationKind]) -> (r: String)
    ensures
        r@ == operations_label(operations@),
{
    if operations.len() == 0 {
        return string_of(&chars_of("未知"));
    }
    let mut labels: Vec<Vec<char>> = Vec::new();
    let mut i: usize = 0;
    while i < operations.len()
        invariant
            0 <= i <= operations.len(),
            labels@.len() == i,
            forall|j: int| 0 <= j < i ==> (#[trigger] labels@[j])@ == operation_label(operations@[j]),
        decreases operations.len() - i,
    {
        labels.push(chars_of(data_operation_label(operations[i])));
        i = i + 1;
    }
    let r = join_texts(&labels, "/");
    assert(labels@.map_values(|v: Vec<char>| v@) =~= operations@.map_values(
        |o: DataOperationKind| operation_label(o),
    ));
    string_of(&r)
}

/// The line of a finding.
fn finding_text(f: &AnalysisFinding) -> (r: Vec<char>)
    ensures
        r@ == finding_line(*f),
{
    let mut out = chars_of("- ");
    append_chars(&mut out, &chars_of(f.text.as_str()));
    match &f.condition {
        Some(c) => {
            append_chars(&mut out, &chars_of("（"));
            append_chars(&mut out, &chars_of(c.as_str()));
            append_chars(&mut out, &chars_of("）"));
        },
        None => {},
    }
    append_chars(&mut out, &chars_of(" ["));
    append_chars(&mut out, &chars_of(evidence_state_label(f.state)));
    append_chars(&mut out, &chars_of("]"));
    assert(out@ =~= finding_line(*f));
    out
}

/// The line of a data access.
fn access_text(a: &DataAccess) -> (r: Vec<char>)
    ensures
        r@ == access_line(*a),
{
    let mut out = chars_of("- ");
    append_chars(&mut out, &chars_of(a.object.as_str()));
    append_chars(&mut out, &chars_of(" · "));
    append_chars(&mut out, &chars_of(data_object_category_label(a.category)));
    append_chars(&mut out, &chars_of(" · "));
    let ops = data_operations_label(a.operations.as_slice());
    append_chars(&mut out, &chars_of(ops.as_str()));
    if a.conditions.len() > 0 {
        let mut parts: Vec<Vec<char>> = Vec::new();
        let mut i: usize = 0;
        while i < a.conditions.len()
            invariant
                0 <= i <= a.conditions.len(),
                parts@.len() == i,
                forall|j: int| 0 <= j < i ==> (#[trigger] parts@[j])@ == a.conditions@[j]@,
            decreases a.conditions.len() - i,
        {
            parts.push(chars_of(a.conditions[i].as_str()));
            i = i + 1;
        }
        assert(parts@.map_values(|v: Vec<char>| v@) =~= texts(a.conditions@));
        let joined_conditions = join_texts(&parts, "；");
        append_chars(&mut out, &chars_of("（"));
        append_chars(&mut out, &joined_conditions);
        append_chars(&mut out, &chars_of("）"));
    }
    append_chars(&mut out, &chars_of(" ["));
    append_chars(&mut out, &chars_of(evidence_state_label(a.state)));
    append_chars(&mut out, &chars_of("]"));
    assert(out@ =~= access_line(*a));
    out
}

/// The plain-text form of an answer, as "copy conclusion" gives it.
pub fn understanding_plain_text(result: &AnalysisResult) -> (r: String)
    ensures
        r@ == plain_text(*result),
{
    let mut blocks: Vec<Vec<char>> = Vec::new();
    blocks.push(chars_of(result.summary.as_str()));
    let ghost b1 = seq![result.summary@];
    assert(blocks@.map_values(|v: Vec<char>| v@) =~= b1);
    if result.findings.len() > 0 {
        let mut lines: Vec<Vec<char>> = Vec::new();
        let mut i: usize = 0;
        while i < result.findings.len()
            invariant
                0 <= i <= result.findings.len(),
                lines@.len() == i,
                forall|j: int| 0 <= j < i ==> (#[trigger] lines@[j])@ == finding_line(result.findings@[j]),
            decreases result.findings.len() - i,
        {
            lines.push(finding_text(&result.findings[i]));
            i = i + 1;
        }
        assert(lines@.map_values(|v: Vec<char>| v@) =~= result.findings@.map_values(
            |f: AnalysisFinding| finding_line(f),
        ));
        let mut block = chars_of("业务发现：\n");
        append_chars(&mut block, &join_texts(&lines, "\n"));
        blocks.push(block);
        assert(blocks@.map_values(|v: Vec<char>| v@) =~= b1.push(block@));
    }
    let ghost b2 = blocks@.map_values(|v: Vec<char>| v@);
    if result.data_accesses.len() > 0 {
        let mut lines: Vec<Vec<char>> = Vec::new();
        let mut i: usize = 0;
        while i < result.data_accesses.len()
            invariant
                0 <= i <= result.data_accesses.len(),
                lines@.len() == i,
                forall|j: int|
                    0 <= j < i ==> (#[trigger] lines@[j])@ == access_line(result.data_accesses@[j]),
            decreases result.data_accesses.len() - i,
        {
            lines.push(access_text(&result.data_accesses[i]));
            i = i + 1;
        }
        assert(lines@.map_values(|v: Vec<char>| v@) =~= result.data_accesses@.map_values(
            |a: DataAccess| access_line(a),
        ));
        let mut block = chars_of("数据读写：\n");
        append_chars(&mut block, &join_texts(&lines, "\n"));
        blocks.push(block);
        assert(blocks@.map_values(|v: Vec<char>| v@) =~= b2.push(block@));
    }
    let ghost b3 = blocks@.map_values(|v: Vec<char>| v@);
    if result.unknowns.len() > 0 {
        let mut lines: Vec<Vec<char>> = Vec::new();
        let mut i: usize = 0;
        while i < result.unknowns.len()
            invariant
                0 <= i <= result.unknowns.len(),
                lines@.len() == i,
                forall|j: int| 0 <= j < i ==> (#[trigger] lines@[j])@ == "- "@ + result.unknowns@[j]@,
            decreases result.unknowns.len() - i,
        {
            let mut line = chars_of("- ");
            append_chars(&mut line, &chars_of(result.unknowns[i].as_str()));
            lines.push(line);
            i = i + 1;
        }
        assert(lines@.map_values(|v: Vec<char>| v@) =~= texts(result.unknowns@).map_values(
            |u: Seq<char>| "- "@ + u,
        ));
        let mut block = chars_of("未确认：\n");
        append_chars(&mut block, &join_texts(&lines, "\n"));
        blocks.push(block);
        assert(blocks@.map_values(|v: Vec<char>| v@) =~= b3.push(block@));
    }
    let ghost b4 = blocks@.map_values(|v: Vec<char>| v@);
    let note = chars_of(result.coverage_note.as_str());
    if note.len() > 0 {
        let mut block = chars_of("检索范围：");
        append_chars(&mut block, &note);
        blocks.push(block);
        assert(blocks@.map_values(|v: Vec<char>| v@) =~= b4.push(block@));
    }
    assert(blocks@.map_values(|v: Vec<char>| v@) =~= plain_text_blocks(*result));
    string_of(&join_texts(&blocks, "\n\n"))
}

} // verus!
