use khaslana_core::understanding::{
    data_object_category_label, data_operation_label, data_operations_label, evidence_state_label,
    understanding_plain_text, AnalysisEvidenceState, AnalysisFinding, AnalysisResult, DataAccess,
    DataObjectCategory, DataOperationKind,
};

#[test]
fn labels_of_categories_operations_and_evidence() {
    assert_eq!(data_object_category_label(DataObjectCategory::DbObject), "数据库对象");
    assert_eq!(data_object_category_label(DataObjectCategory::Message), "消息");
    assert_eq!(data_operation_label(DataOperationKind::Delete), "删");
    assert_eq!(evidence_state_label(AnalysisEvidenceState::Inferred), "推断");
    assert_eq!(data_operations_label(&[]), "未知");
    assert_eq!(
        data_operations_label(&[DataOperationKind::Read, DataOperationKind::Update]),
        "读/改"
    );
}

#[test]
fn plain_text_of_a_full_answer() {
    let result = AnalysisResult {
        summary: "登录由 AuthService 处理".to_string(),
        findings: vec![
            AnalysisFinding {
                text: "校验密码".to_string(),
                condition: Some("用户存在".to_string()),
                state: AnalysisEvidenceState::Observed,
            },
            AnalysisFinding {
                text: "记录日志".to_string(),
                condition: None,
                state: AnalysisEvidenceState::Inferred,
            },
        ],
        data_accesses: vec![DataAccess {
            object: "t_user".to_string(),
            category: DataObjectCategory::DbObject,
            operations: vec![DataOperationKind::Read, DataOperationKind::Update],
            conditions: vec!["登录成功".to_string(), "首次".to_string()],
            state: AnalysisEvidenceState::Observed,
        }],
        unknowns: vec!["缓存失效策略".to_string()],
        coverage_note: "src/auth".to_string(),
    };
    assert_eq!(
        understanding_plain_text(&result),
        "登录由 AuthService 处理\n\n业务发现：\n- 校验密码（用户存在） [已读源码]\n- 记录日志 [推断]\n\n\
数据读写：\n- t_user · 数据库对象 · 读/改（登录成功；首次） [已读源码]\n\n未确认：\n- 缓存失效策略\n\n检索范围：src/auth"
    );
}

#[test]
fn plain_text_of_a_bare_answer_is_its_summary() {
    let result = AnalysisResult {
        summary: "无结论".to_string(),
        findings: Vec::new(),
        data_accesses: Vec::new(),
        unknowns: Vec::new(),
        coverage_note: String::new(),
    };
    assert_eq!(understanding_plain_text(&result), "无结论");
}
