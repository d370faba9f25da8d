use khaslana_core::labels::{excerpt_line, understanding_elapsed_label};

#[test]
fn excerpts_are_one_line_and_cut() {
    assert_eq!(excerpt_line("a\nb", 10), "a b");
    assert_eq!(excerpt_line("abcdef", 3), "abc…");
    assert_eq!(excerpt_line("代码理解", 4), "代码理解");
    assert_eq!(excerpt_line("代码理解结果", 2), "代码…");
    assert_eq!(excerpt_line("", 0), "");
}

#[test]
fn elapsed_badges() {
    assert_eq!(understanding_elapsed_label(0), "00:00");
    assert_eq!(understanding_elapsed_label(65), "01:05");
    assert_eq!(understanding_elapsed_label(3599), "59:59");
    assert_eq!(understanding_elapsed_label(3725), "1:02:05");
    assert_eq!(understanding_elapsed_label(36_000), "10:00:00");
}
