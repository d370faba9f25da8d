use khaslana_core::diff::{
    build_file_diff, chinese_decode_score, contains_nul, decode_diff_line, delta_side_size,
    detect_diff_encoding, diff_context_lines, encoding_from_guess, guard_full_file_size,
    path_has_binary_extension, resolve_diff_encoding, DiffEncodingChoice, DiffLineKind,
    DiffScope, RawDiffLine, TextEncoding, FULL_FILE_MAX_BYTES,
};

fn raw(origin: char, content: &str) -> RawDiffLine {
    RawDiffLine {
        origin,
        old_lineno: None,
        new_lineno: None,
        content: content.as_bytes().to_vec(),
        delta_binary: false,
    }
}

#[test]
fn context_lines_for_compact_and_full_views() {
    assert_eq!(diff_context_lines(false), 3);
    assert_eq!(diff_context_lines(true), 10_000_000);
}

#[test]
fn full_file_view_refuses_large_files() {
    assert!(guard_full_file_size(false, &[Some(FULL_FILE_MAX_BYTES + 1)]).is_ok());
    assert!(guard_full_file_size(true, &[Some(FULL_FILE_MAX_BYTES), None]).is_ok());
    let err = guard_full_file_size(true, &[None, Some(FULL_FILE_MAX_BYTES + 1)]).unwrap_err();
    assert_eq!(err.message(), "文件过大，无法显示全文视图");
    assert_eq!(FULL_FILE_MAX_BYTES, 3 * 1024 * 1024);
}

#[test]
fn side_sizes_come_from_stat_or_object_header() {
    assert_eq!(delta_side_size(true, 12, Some(99)), 12);
    assert_eq!(delta_side_size(false, 12, Some(99)), 99);
    assert_eq!(delta_side_size(false, 12, Some(-5)), 0);
    assert_eq!(delta_side_size(false, 12, None), 12);
}

#[test]
fn nul_bytes_mark_binary_content() {
    assert!(contains_nul(b"ab\0c"));
    assert!(!contains_nul(b"plain text"));
    assert!(!contains_nul(b""));
}

#[test]
fn binary_extensions_are_case_insensitive() {
    assert!(path_has_binary_extension("docs/Report.DOCX"));
    assert!(path_has_binary_extension("archive.tar.gz"));
    assert!(path_has_binary_extension("fonts/a.woff2"));
    assert!(!path_has_binary_extension("logo.svg"));
    assert!(!path_has_binary_extension("Makefile"));
    assert!(!path_has_binary_extension(".gitignore"));
}

#[test]
fn utf8_and_nul_content_is_read_as_utf8() {
    assert_eq!(
        detect_diff_encoding("héllo 世界".as_bytes()),
        (DiffEncodingChoice::Utf8, TextEncoding::Utf8)
    );
    assert_eq!(
        detect_diff_encoding(&[0xd6, 0x00, 0xce]),
        (DiffEncodingChoice::Utf8, TextEncoding::Utf8)
    );
}

#[test]
fn simplified_chinese_content_is_read_as_gb18030() {
    let text = "这是一个用于测试的中文句子，包含足够多的汉字以便识别编码。我们再写一些内容：提交、分支、合并、冲突。";
    let (bytes, _, _) = encoding_rs::GBK.encode(text);
    assert_eq!(
        detect_diff_encoding(&bytes),
        (DiffEncodingChoice::Gb18030, TextEncoding::Gb18030)
    );
    assert!(chinese_decode_score(&bytes, TextEncoding::Gb18030) > 30);
}

#[test]
fn guess_and_scores_decide_the_encoding() {
    assert_eq!(
        encoding_from_guess("gb18030", 0, 9),
        (DiffEncodingChoice::Gb18030, TextEncoding::Gb18030)
    );
    assert_eq!(encoding_from_guess("Big5", 9, 0), (DiffEncodingChoice::Big5, TextEncoding::Big5));
    assert_eq!(
        encoding_from_guess("windows-1252", 4, 4),
        (DiffEncodingChoice::Gb18030, TextEncoding::Gb18030)
    );
    assert_eq!(
        encoding_from_guess("windows-1252", 3, 4),
        (DiffEncodingChoice::Big5, TextEncoding::Big5)
    );
    assert_eq!(
        encoding_from_guess("GBK", 0, 0),
        (DiffEncodingChoice::Utf8, TextEncoding::Utf8)
    );
}

#[test]
fn requested_encodings_are_used_as_such() {
    assert_eq!(
        resolve_diff_encoding(DiffEncodingChoice::Big5, b"abc"),
        (DiffEncodingChoice::Big5, TextEncoding::Big5)
    );
    assert_eq!(
        resolve_diff_encoding(DiffEncodingChoice::Auto, b"abc"),
        (DiffEncodingChoice::Utf8, TextEncoding::Utf8)
    );
}

#[test]
fn diff_lines_lose_their_line_end() {
    assert_eq!(decode_diff_line(b"abc\r\n", TextEncoding::Utf8), ("abc".to_string(), false));
    assert_eq!(decode_diff_line(b"x\n\n", TextEncoding::Utf8), ("x\n".to_string(), false));
    assert_eq!(decode_diff_line(b"tail\r", TextEncoding::Utf8), ("tail".to_string(), false));
    let (text, lossy) = decode_diff_line(&[0x61, 0xff, 0x0a], TextEncoding::Utf8);
    assert_eq!(text, "a\u{fffd}");
    assert!(lossy);
    let (gbk, _, _) = encoding_rs::GBK.encode("中文\n");
    assert_eq!(decode_diff_line(&gbk, TextEncoding::Gb18030), ("中文".to_string(), false));
}

#[test]
fn file_diff_from_printed_lines() {
    let mut added = raw('+', "new line\n");
    added.new_lineno = Some(2);
    let mut removed = raw('-', "old line\r\n");
    removed.old_lineno = Some(2);
    let lines = vec![
        raw('F', "diff --git a/a.txt b/a.txt\n"),
        raw('H', "@@ -1,2 +1,2 @@\n"),
        raw(' ', "same\n"),
        removed,
        added,
        raw('B', "Binary files differ\n"),
    ];
    let diff = build_file_diff(
        "a.txt".into(),
        DiffScope::Unstaged,
        DiffEncodingChoice::Auto,
        &lines,
        false,
        Some(10),
        Some(11),
    );
    assert!(diff.is_binary);
    assert_eq!(diff.lines.len(), 5);
    assert_eq!(diff.lines[0].kind, DiffLineKind::Header);
    assert_eq!(diff.lines[1].kind, DiffLineKind::Header);
    assert_eq!(diff.lines[2].kind, DiffLineKind::Context);
    assert_eq!(diff.lines[3].kind, DiffLineKind::Removed);
    assert_eq!(diff.lines[3].content, "old line");
    assert_eq!(diff.lines[3].old_lineno, Some(2));
    assert_eq!(diff.lines[4].kind, DiffLineKind::Added);
    assert_eq!(diff.lines[4].content, "new line");
    assert_eq!(diff.lines[4].new_lineno, Some(2));
    assert_eq!(diff.encoding.requested, DiffEncodingChoice::Auto);
    assert_eq!(diff.encoding.resolved, DiffEncodingChoice::Utf8);
    assert!(!diff.encoding.lossy);
    assert_eq!(diff.old_size, Some(10));
    assert_eq!(diff.new_size, Some(11));
}

#[test]
fn file_diff_binary_by_extension_and_lossy_lines() {
    let lines = vec![raw('+', "text"), RawDiffLine { content: vec![0xff], ..raw('+', "") }];
    let diff = build_file_diff(
        "empty.docx".into(),
        DiffScope::Staged,
        DiffEncodingChoice::Utf8,
        &lines,
        false,
        None,
        Some(0),
    );
    assert!(diff.is_binary);
    assert!(diff.encoding.lossy);
    assert_eq!(diff.lines.len(), 2);
    let plain = build_file_diff(
        "notes.md".into(),
        DiffScope::Staged,
        DiffEncodingChoice::Utf8,
        &[raw(' ', "ok\n")],
        false,
        None,
        None,
    );
    assert!(!plain.is_binary);
    let sniffed = build_file_diff(
        "notes.md".into(),
        DiffScope::Unstaged,
        DiffEncodingChoice::Utf8,
        &[],
        true,
        None,
        None,
    );
    assert!(sniffed.is_binary);
}
