use khaslana_core::conflict_lines::{
    conflict_byte_range_to_lines, conflict_document_byte_range, conflict_document_line_owners,
    conflict_document_line_ranges, conflict_status_message, uniform_list_line_count,
    ConflictBlockSpan, ConflictDocumentPane,
};

fn span(start: usize, end: usize) -> ConflictBlockSpan {
    ConflictBlockSpan {
        start,
        end,
        ours_start: start + 100,
        ours_end: end + 100,
        theirs_start: 0,
        theirs_end: 0,
    }
}

#[test]
fn line_ranges_split_at_line_breaks() {
    assert_eq!(conflict_document_line_ranges(""), vec![0..0]);
    assert_eq!(conflict_document_line_ranges("a\nbc\n"), vec![0..1, 2..4, 5..5]);
    assert_eq!(conflict_document_line_ranges("中\n文"), vec![0..3, 4..7]);
}

#[test]
fn list_line_counts() {
    assert_eq!(uniform_list_line_count(""), 1);
    assert_eq!(uniform_list_line_count("a\nbc\n"), 3);
    assert_eq!(uniform_list_line_count("one line"), 1);
}

#[test]
fn byte_ranges_cover_at_least_one_line() {
    let content = "a\nbc\n";
    assert_eq!(conflict_byte_range_to_lines(content, 2, 4), 1..2);
    assert_eq!(conflict_byte_range_to_lines(content, 0, 5), 0..2);
    assert_eq!(conflict_byte_range_to_lines(content, 10, 20), 2..3);
}

#[test]
fn later_blocks_own_shared_lines() {
    let content = "a\nbc\n";
    let blocks = vec![span(0, 1), span(2, 5)];
    assert_eq!(
        conflict_document_line_owners(content, ConflictDocumentPane::Result, &blocks, 3),
        vec![Some(0), Some(1), None]
    );
    let overlapping = vec![span(0, 5), span(2, 3)];
    assert_eq!(
        conflict_document_line_owners(content, ConflictDocumentPane::Result, &overlapping, 0),
        vec![Some(0)]
    );
    assert_eq!(
        conflict_document_line_owners(content, ConflictDocumentPane::Result, &overlapping, 4),
        vec![Some(0), Some(1), None, None]
    );
}

#[test]
fn panes_pick_their_byte_range() {
    let block = span(3, 9);
    assert_eq!(conflict_document_byte_range(&block, ConflictDocumentPane::Result), (3, 9));
    assert_eq!(conflict_document_byte_range(&block, ConflictDocumentPane::Ours), (103, 109));
    assert_eq!(conflict_document_byte_range(&block, ConflictDocumentPane::Theirs), (0, 0));
}

#[test]
fn conflict_status_messages() {
    assert_eq!(
        conflict_status_message("合并完成", 3),
        "合并产生冲突，请在工作区使用 IDEA 或进入“冲突处理”解决（3 个文件）"
    );
    assert_eq!(
        conflict_status_message("拉取完成", 2),
        "拉取产生冲突，请在左侧“冲突”区域解决（2 个文件）"
    );
    assert_eq!(
        conflict_status_message("变基", 12),
        "操作产生冲突，请在左侧“冲突”区域解决（12 个文件）"
    );
}
