//! The line model of the three conflict panes: where lines start and end in
//! a document, which lines a conflict block covers, and which block owns
//! each line.

use vstd::prelude::*;
use vstd::string::StringSliceAdditionalSpecFns;
use vstd::utf8::is_char_boundary;

use crate::text::{
    append_chars, chars_of, decimal, decimal_string, has_prefix, string_of,
};

verus! {

/// The three panes of the conflict view.
#[derive(Clone, Copy, Debug, PartialEq, Eq, Structural)]
pub enum ConflictDocumentPane {
    Ours,
    Result,
    Theirs,
}

/// Where a conflict block lies, in bytes, in each pane's document.
#[derive(Clone, Copy, Debug, PartialEq, Eq, Structural)]
pub struct ConflictBlockSpan {
    /// In the result (the merged file with markers).
    pub start: usize,
    pub end: usize,
    /// In our side.
    pub ours_start: usize,
    pub ours_end: usize,
    /// In their side.
    pub theirs_start: usize,
    pub theirs_end: usize,
}

/// The byte range of the block in a pane's document.
pub open spec fn pane_span(block: ConflictBlockSpan, pane: ConflictDocumentPane) -> (usize, usize) {
    match pane {
        ConflictDocumentPane::Ours => (block.ours_start, block.ours_end),
        ConflictDocumentPane::Result => (block.start, block.end),
        ConflictDocumentPane::Theirs => (block.theirs_start, block.theirs_end),
    }
}

/// The byte range of the block in a pane's document.
pub fn conflict_document_byte_range(block: &ConflictBlockSpan, pane: ConflictDocumentPane) -> (r: (
    usize,
    usize,
))
    ensures
        r == pane_span(*block, pane),
{
    match pane {
        ConflictDocumentPane::Ours => (block.ours_start, block.ours_end),
        ConflictDocumentPane::Result => (block.start, block.end),
        ConflictDocumentPane::Theirs => (block.theirs_start, block.theirs_end),
    }
}

/// The number of `\n` bytes.
pub open spec fn newline_count(b: Seq<u8>) -> nat
    decreases b.len(),
{
    if b.len() == 0 {
        0
    } else {
        newline_count(b.drop_last()) + if b.last() == 10 {
            1nat
        } else {
            0nat
        }
    }
}

proof fn lemma_newline_count_bound(b: Seq<u8>)
    ensures
        newline_count(b) <= b.len(),
    decreases b.len(),
{
    if b.len() > 0 {
        lemma_newline_count_bound(b.drop_last());
    }
}

/// The smaller of two integers.
pub open spec fn at_most(a: int, b: int) -> int {
    if a <= b {
        a
    } else {
        b
    }
}

fn count_newlines(bytes: &[u8], n: usize) -> (r: usize)
    requires
        n <= bytes@.len(),
    ensures
        r == newline_count(bytes@.take(n as int)),
{
    let mut count: usize = 0;
    let mut i: usize = 0;
    while i < n
        invariant
            i <= n <= bytes@.len(),
            count == newline_count(bytes@.take(i as int)),
        decreases n - i,
    {
        proof {
            assert(bytes@.take(i + 1).drop_last() =~= bytes@.take(i as int));
            lemma_newline_count_bound(bytes@.take(i as int));
        }
        if bytes[i] == 10 {
            count = count + 1;
        }
        i = i + 1;
    }
    count
}

/// The lines a byte range covers: from the line of its start to the line of
/// its end, and at least one line.
pub open spec fn covered_lines(bytes: Seq<u8>, start: int, end: int) -> (int, int) {
    let s = newline_count(bytes.take(at_most(start, bytes.len() as int))) as int;
    let e = newline_count(bytes.take(at_most(end, bytes.len() as int))) as int;
    (s, if e == s {
        e + 1
    } else {
        e
    })
}

/// The lines a byte range of the document covers.
pub fn conflict_byte_range_to_lines(content: &str, start: usize, end: usize) -> (r:
    std::ops::Range<usize>)
    requires
        content.spec_bytes().len() < usize::MAX,
        is_char_boundary(content.spec_bytes(), at_most(start as int, content.spec_bytes().len() as int)),
        is_char_boundary(content.spec_bytes(), at_most(end as int, content.spec_bytes().len() as int)),
    ensures
        (r.start as int, r.end as int) == covered_lines(content.spec_bytes(), start as int, end as int),
{
    let bytes = content.as_bytes();
    let start_at = if start < bytes.len() {
        start
    } else {
        bytes.len()
    };
    let end_at = if end < bytes.len() {
        end
    } else {
        bytes.len()
    };
    let start_line = count_newlines(bytes, start_at);
    let mut end_line = count_newlines(bytes, end_at);
    proof {
        lemma_newline_count_bound(bytes@.take(end_at as int));
    }
    if end_line == start_line {
        end_line = end_line + 1;
    }
    start_line..end_line
}

/// The number of rows the pane lists: one for an empty document, else one
/// more than its line breaks.
pub fn uniform_list_line_count(content: &str) -> (r: usize)
    requires
        content.spec_bytes().len() < usize::MAX,
    ensures
        r == (if content.spec_bytes().len() == 0 {
            1
        } else {
            newline_count(content.spec_bytes()) + 1
        }),
{
    let bytes = content.as_bytes();
    if bytes.len() == 0 {
        return 1;
    }
    let count = count_newlines(bytes, bytes.len());
    proof {
        assert(bytes@.take(bytes@.len() as int) =~= bytes@);
        lemma_newline_count_bound(bytes@);
    }
    count + 1
}

/// The positions of the `\n` bytes, in order.
pub open spec fn newline_positions(b: Seq<u8>) -> Seq<int>
    decreases b.len(),
{
    if b.len() == 0 {
        Seq::empty()
    } else if b.last() == 10 {
        newline_positions(b.drop_last()).push(b.len() - 1)
    } else {
        newline_positions(b.drop_last())
    }
}

proof fn lemma_newline_positions_bounds(b: Seq<u8>)
    ensures
        forall|i: int|
            0 <= i < newline_positions(b).len() ==> 0 <= #[trigger] newline_positions(b)[i] < b.len(),
        forall|i: int, j: int|
            0 <= i < j < newline_positions(b).len() ==> newline_positions(b)[i] < newline_positions(
                b,
            )[j],
        newline_positions(b).len() <= b.len(),
    decreases b.len(),
{
    if b.len() > 0 {
        lemma_newline_positions_bounds(b.drop_last());
    }
}

/// `ranges` are the lines of a document of `len` bytes with line breaks at
/// `breaks`: a line before every break and one after the last, each without
/// its break.
pub open spec fn lines_between(ranges: Seq<std::ops::Range<usize>>, breaks: Seq<int>, len: int) -> bool {
    &&& ranges.len() == breaks.len() + 1
    &&& forall|i: int|
        0 <= i < ranges.len() ==> (#[trigger] ranges[i]).start == (if i == 0 {
            0
        } else {
            breaks[i - 1] + 1
        }) && ranges[i].end == (if i < breaks.len() {
            breaks[i]
        } else {
            len
        })
}

/// The byte ranges of the lines of a document, without their line breaks;
/// an empty document has one empty line.
pub fn conflict_document_line_ranges(content: &str) -> (r: Vec<std::ops::Range<usize>>)
    ensures
        lines_between(
            r@,
            newline_positions(content.spec_bytes()),
            content.spec_bytes().len() as int,
        ),
{
    let bytes = content.as_bytes();
    let mut ranges: Vec<std::ops::Range<usize>> = Vec::new();
    let mut start: usize = 0;
    let mut i: usize = 0;
    while i < bytes.len()
        invariant
            i <= bytes@.len(),
            start <= i,
            ({
                let p = newline_positions(bytes@.take(i as int));
                &&& ranges@.len() == p.len()
                &&& start == (if p.len() == 0 {
                    0
                } else {
                    p.last() + 1
                })
                &&& forall|k: int|
                    0 <= k < ranges@.len() ==> (#[trigger] ranges@[k]).start == (if k == 0 {
                        0
                    } else {
                        p[k - 1] + 1
                    }) && ranges@[k].end == p[k]
            }),
        decreases bytes@.len() - i,
    {
        let ghost p = newline_positions(bytes@.take(i as int));
        proof {
            assert(bytes@.take(i + 1).drop_last() =~= bytes@.take(i as int));
            assert(bytes@.take(i + 1).last() == bytes@[i as int]);
        }
        if bytes[i] == 10 {
            let ghost before = ranges@;
            ranges.push(start..i);
            start = i + 1;
            proof {
                let q = newline_positions(bytes@.take(i + 1));
                assert(q == p.push(i as int));
                assert forall|k: int| 0 <= k < ranges@.len() implies (#[trigger] ranges@[k]).start == (if k
                    == 0 {
                    0
                } else {
                    q[k - 1] + 1
                }) && ranges@[k].end == q[k] by {
                    if k < before.len() {
                        assert(ranges@[k] == before[k]);
                    }
                }
            }
        }
        i = i + 1;
    }
    let ghost before = ranges@;
    ranges.push(start..bytes.len());
    proof {
        assert(bytes@.take(bytes@.len() as int) =~= bytes@);
        let p = newline_positions(bytes@);
        assert forall|k: int| 0 <= k < ranges@.len() implies (#[trigger] ranges@[k]).start == (if k
            == 0 {
            0
        } else {
            p[k - 1] + 1
        }) && ranges@[k].end == (if k < p.len() {
            p[k]
        } else {
            bytes@.len() as int
        }) by {
            if k < before.len() {
                assert(ranges@[k] == before[k]);
            }
        }
    }
    ranges
}

/// The block that owns line `l`: the last block whose covered lines hold
/// it.
pub open spec fn line_owner(
    bytes: Seq<u8>,
    pane: ConflictDocumentPane,
    blocks: Seq<ConflictBlockSpan>,
    l: int,
) -> Option<usize>
    decreases blocks.len(),
{
    if blocks.len() == 0 {
        None
    } else {
        let span = pane_span(blocks.last(), pane);
        let lines = covered_lines(bytes, span.0 as int, span.1 as int);
        if lines.0 <= l < lines.1 {
            Some((blocks.len() - 1) as usize)
        } else {
            line_owner(bytes, pane, blocks.drop_last(), l)
        }
    }
}

/// Every block's range in the pane starts and ends on character boundaries
/// of the document (after clamping to its end).
pub open spec fn spans_on_boundaries(
    bytes: Seq<u8>,
    pane: ConflictDocumentPane,
    blocks: Seq<ConflictBlockSpan>,
) -> bool {
    forall|b: int|
        0 <= b < blocks.len() ==> is_char_boundary(
            bytes,
            at_most(pane_span(#[trigger] blocks[b], pane).0 as int, bytes.len() as int),
        ) && is_char_boundary(bytes, at_most(pane_span(blocks[b], pane).1 as int, bytes.len() as int))
}

/// Which block owns each of the pane's rows (at least one row).
pub fn conflict_document_line_owners(
    content: &str,
    pane: ConflictDocumentPane,
    blocks: &[ConflictBlockSpan],
    line_count: usize,
) -> (r: Vec<Option<usize>>)
    requires
        content.spec_bytes().len() < usize::MAX,
        spans_on_boundaries(content.spec_bytes(), pane, blocks@),
    ensures
        r@.len() == (if line_count > 1 {
            line_count as int
        } else {
            1
        }),
        forall|l: int|
            0 <= l < r@.len() ==> #[trigger] r@[l] == line_owner(content.spec_bytes(), pane, blocks@, l),
{
    let rows: usize = if line_count > 1 {
        line_count
    } else {
        1
    };
    let mut owners: Vec<Option<usize>> = Vec::new();
    let mut k: usize = 0;
    while k < rows
        invariant
            k <= rows,
            owners@.len() == k,
            forall|l: int| 0 <= l < k ==> #[trigger] owners@[l] is None,
        decreases rows - k,
    {
        owners.push(None);
        k = k + 1;
    }
    let ghost bytes = content.spec_bytes();
    let mut b: usize = 0;
    proof {
        assert(blocks@.take(0) =~= Seq::<ConflictBlockSpan>::empty());
    }
    while b < blocks.len()
        invariant
            b <= blocks@.len(),
            bytes == content.spec_bytes(),
            bytes.len() < usize::MAX,
            spans_on_boundaries(bytes, pane, blocks@),
            owners@.len() == rows,
            forall|l: int|
                0 <= l < rows ==> #[trigger] owners@[l] == line_owner(bytes, pane, blocks@.take(b as int), l),
        decreases blocks@.len() - b,
    {
        let span = conflict_document_byte_range(&blocks[b], pane);
        let lines = conflict_byte_range_to_lines(content, span.0, span.1);
        proof {
            assert(blocks@.take(b + 1).drop_last() =~= blocks@.take(b as int));
            assert(blocks@.take(b + 1).last() == blocks@[b as int]);
        }
        let ghost before = owners@;
        let mut line = lines.start;
        while line < lines.end && line < owners.len()
            invariant
                lines.start <= line,
                line == lines.start || (line <= lines.end && line <= owners@.len()),
                owners@.len() == before.len(),
                forall|l: int|
                    0 <= l < owners@.len() ==> #[trigger] owners@[l] == (if lines.start <= l < line {
                        Some(b)
                    } else {
                        before[l]
                    }),
            decreases owners@.len() - line,
        {
            owners.set(line, Some(b));
            line = line + 1;
        }
        proof {
            assert forall|l: int| 0 <= l < rows implies #[trigger] owners@[l] == line_owner(
                bytes,
                pane,
                blocks@.take(b + 1),
                l,
            ) by {
                let span_spec = pane_span(blocks@[b as int], pane);
                assert(span == span_spec);
                assert((lines.start as int, lines.end as int) == covered_lines(
                    bytes,
                    span_spec.0 as int,
                    span_spec.1 as int,
                ));
                assert(owners@[l] == (if lines.start <= l < line {
                    Some(b)
                } else {
                    before[l]
                }));
            }
        }
        b = b + 1;
    }
    proof {
        assert(blocks@.take(blocks@.len() as int) =~= blocks@);
    }
    owners
}

/// The status message after an operation that left conflicts: a merge
/// points to IDEA or the conflict view; other operations (named by their
/// label without its trailing "完成") to the conflict list.
pub open spec fn conflict_status_view(label: Seq<char>, count: nat) -> Seq<char> {
    if label.len() >= 2 && label.take(2) == "合并"@ {
        "合并产生冲突，请在工作区使用 IDEA 或进入“冲突处理”解决（"@ + decimal(count) + " 个文件）"@
    } else {
        let operation = if label.len() >= 2 && label.skip(label.len() - 2) == "完成"@ {
            label.take(label.len() - 2)
        } else {
            "操作"@
        };
        operation + "产生冲突，请在左侧“冲突”区域解决（"@ + decimal(count) + " 个文件）"@
    }
}

/// The status message after an operation that left `count` conflicted files.
pub fn conflict_status_message(label: &str, count: usize) -> (r: String)
    ensures
        r@ == conflict_status_view(label@, count as nat),
{
    let chars = chars_of(label);
    let merge = chars_of("合并");
    let done = chars_of("完成");
    proof {
        reveal_strlit("合并");
        reveal_strlit("完成");
    }
    let digits = chars_of(decimal_string(count as u64).as_str());
    if has_prefix(&chars, &merge) {
        assert(chars@.take(2) =~= merge@);
        let mut out = chars_of("合并产生冲突，请在工作区使用 IDEA 或进入“冲突处理”解决（");
        append_chars(&mut out, &digits);
        append_chars(&mut out, &chars_of(" 个文件）"));
        return string_of(&out);
    }
    proof {
        if chars@.len() >= 2 && chars@.take(2) == "合并"@ {
            assert(crate::text::starts_with(chars@, merge@));
        }
    }
    let mut out: Vec<char> = if chars.len() >= 2 && chars[chars.len() - 2] == done[0]
        && chars[chars.len() - 1] == done[1] {
        assert(chars@.skip(chars@.len() - 2) =~= done@);
        crate::text::copy_range(&chars, 0, chars.len() - 2)
    } else {
        proof {
            if chars@.len() >= 2 && chars@.skip(chars@.len() - 2) == "完成"@ {
                assert(chars@.skip(chars@.len() - 2)[0] == chars@[chars@.len() - 2]);
                assert(chars@.skip(chars@.len() - 2)[1] == chars@[chars@.len() - 1]);
            }
        }
        chars_of("操作")
    };
    append_chars(&mut out, &chars_of("产生冲突，请在左侧“冲突”区域解决（"));
    append_chars(&mut out, &digits);
    append_chars(&mut out, &chars_of(" 个文件）"));
    string_of(&out)
}


/// The positions of the line breaks are as many as the line breaks.
proof fn lemma_newline_positions_len(b: Seq<u8>)
    ensures
        newline_positions(b).len() == newline_count(b),
    decreases b.len(),
{
    if b.len() > 0 {
        lemma_newline_positions_len(b.drop_last());
    }
}

/// The pane lists one row per line: the row count that
/// `uniform_list_line_count` gives a document is the number of line ranges
/// that `conflict_document_line_ranges` gives it (an empty document has one
/// empty line, and a trailing newline adds an empty last line).
pub proof fn lemma_row_count_is_line_count(bytes: Seq<u8>, ranges: Seq<std::ops::Range<usize>>)
    requires
        lines_between(ranges, newline_positions(bytes), bytes.len() as int),
    ensures
        ranges.len() == (if bytes.len() == 0 {
            1
        } else {
            newline_count(bytes) + 1
        }),
{
    lemma_newline_positions_len(bytes);
    if bytes.len() == 0 {
        assert(newline_positions(bytes) =~= Seq::<int>::empty());
    }
}

} // verus!
