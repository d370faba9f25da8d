//! Building a file diff for display: telling the text encoding of the
//! changed lines, decoding them, and telling binary files apart.

use vstd::prelude::*;

use crate::error::GitError;
use crate::lookup::kept;
use crate::text::{
    ascii_lower, chars_equal, chars_of, find_last, lower_chars, owned, same_text, CharClass,
};

verus! {

/// Context lines around each change in a normal diff.
pub const DIFF_CONTEXT_LINES: u32 = 3;

/// Context lines for the full-file view: large enough that libgit2 puts the
/// whole file in context (`u32::MAX` would be read as zero).
pub const FULL_FILE_CONTEXT_LINES: u32 = 10_000_000;

/// Largest file, in bytes, shown in the full-file view.
pub const FULL_FILE_MAX_BYTES: u64 = 3 * 1024 * 1024;

/// Bytes of changed lines sampled to guess their encoding.
pub const DIFF_ENCODING_SAMPLE_LIMIT: usize = 256 * 1024;

/// The context lines to ask for.
pub fn diff_context_lines(full_context: bool) -> (r: u32)
    ensures
        r == (if full_context {
            FULL_FILE_CONTEXT_LINES
        } else {
            DIFF_CONTEXT_LINES
        }),
{
    if full_context {
        FULL_FILE_CONTEXT_LINES
    } else {
        DIFF_CONTEXT_LINES
    }
}

/// The message when a file is too large for the full-file view.
pub open spec fn full_file_too_large_message() -> Seq<char> {
    "文件过大，无法显示全文视图"@
}

/// A side of a file larger than the full-file view allows.
pub open spec fn side_too_large(size: Option<u64>) -> bool {
    size matches Some(s) && s > FULL_FILE_MAX_BYTES
}

/// Refuses the full-file view when a side of the file is larger than
/// `FULL_FILE_MAX_BYTES`; sides whose size is unknown are skipped.
pub fn guard_full_file_size(full_context: bool, side_sizes: &[Option<u64>]) -> (r: Result<
    (),
    GitError,
>)
    ensures
        full_context && (exists|i: int|
            0 <= i < side_sizes@.len() && side_too_large(#[trigger] side_sizes@[i])) ==> (r matches Err(
            GitError::Message(m),
        ) && m@ == full_file_too_large_message()),
        !(full_context && (exists|i: int|
            0 <= i < side_sizes@.len() && side_too_large(#[trigger] side_sizes@[i]))) ==> r is Ok,
{
    if !full_context {
        return Ok(());
    }
    let mut i: usize = 0;
    while i < side_sizes.len()
        invariant
            0 <= i <= side_sizes.len(),
            full_context,
            forall|j: int| 0 <= j < i ==> !side_too_large(#[trigger] side_sizes@[j]),
        decreases side_sizes.len() - i,
    {
        if let Some(size) = side_sizes[i] {
            if size > FULL_FILE_MAX_BYTES {
                assert(side_too_large(side_sizes@[i as int]));
                return Err(GitError::Message(owned("文件过大，无法显示全文视图")));
            }
        }
        i = i + 1;
    }
    Ok(())
}

/// The size of one side of a diff: the size libgit2 reports for a work-tree
/// file (zero object id), else the size in the object header (negative
/// sizes read as zero), or the reported size when the header cannot be read.
pub fn delta_side_size(oid_is_zero: bool, reported_size: u64, header_size: Option<i64>) -> (r: u64)
    ensures
        r == (if oid_is_zero {
            reported_size as int
        } else {
            match header_size {
                Some(s) => if s > 0 {
                    s as int
                } else {
                    0
                },
                None => reported_size as int,
            }
        }),
{
    if oid_is_zero {
        return reported_size;
    }
    match header_size {
        Some(s) => if s > 0 {
            s as u64
        } else {
            0
        },
        None => reported_size,
    }
}

/// A NUL byte occurs in the bytes.
pub open spec fn has_nul(bytes: Seq<u8>) -> bool {
    exists|i: int| 0 <= i < bytes.len() && bytes[i] == 0
}

/// Whether the bytes hold a NUL byte (how binary content is told apart).
pub fn contains_nul(bytes: &[u8]) -> (r: bool)
    ensures
        r == has_nul(bytes@),
{
    let mut i: usize = 0;
    while i < bytes.len()
        invariant
            0 <= i <= bytes.len(),
            forall|j: int| 0 <= j < i ==> bytes@[j] != 0,
        decreases bytes.len() - i,
    {
        if bytes[i] == 0 {
            return true;
        }
        i = i + 1;
    }
    false
}

/// The extensions of formats known to be binary.
pub open spec fn is_binary_extension(ext: Seq<char>) -> bool {
    ||| ext == "zip"@ ||| ext == "docx"@ ||| ext == "xlsx"@ ||| ext == "pptx"@ ||| ext == "doc"@
    ||| ext == "xls"@ ||| ext == "ppt"@ ||| ext == "pdf"@ ||| ext == "7z"@ ||| ext == "rar"@
    ||| ext == "gz"@ ||| ext == "jar"@ ||| ext == "png"@ ||| ext == "jpg"@ ||| ext == "jpeg"@
    ||| ext == "gif"@ ||| ext == "bmp"@ ||| ext == "ico"@ ||| ext == "webp"@ ||| ext == "tif"@
    ||| ext == "tiff"@ ||| ext == "mp3"@ ||| ext == "mp4"@ ||| ext == "avi"@ ||| ext == "mov"@
    ||| ext == "wmv"@ ||| ext == "flac"@ ||| ext == "ogg"@ ||| ext == "wav"@ ||| ext == "mkv"@
    ||| ext == "exe"@ ||| ext == "dll"@ ||| ext == "so"@ ||| ext == "dylib"@ ||| ext == "msi"@
    ||| ext == "ttf"@ ||| ext == "otf"@ ||| ext == "woff"@ ||| ext == "woff2"@
}

fn is_binary_extension_chars(ext: &[char]) -> (r: bool)
    ensures
        r == is_binary_extension(ext@),
{
    let names: [&str; 39] = [
        "zip",
        "docx",
        "xlsx",
        "pptx",
        "doc",
        "xls",
        "ppt",
        "pdf",
        "7z",
        "rar",
        "gz",
        "jar",
        "png",
        "jpg",
        "jpeg",
        "gif",
        "bmp",
        "ico",
        "webp",
        "tif",
        "tiff",
        "mp3",
        "mp4",
        "avi",
        "mov",
        "wmv",
        "flac",
        "ogg",
        "wav",
        "mkv",
        "exe",
        "dll",
        "so",
        "dylib",
        "msi",
        "ttf",
        "otf",
        "woff",
        "woff2",
    ];
    let ghost views = names@.map_values(|n: &str| n@);
    assert(views =~= seq![
        "zip"@,
        "docx"@,
        "xlsx"@,
        "pptx"@,
        "doc"@,
        "xls"@,
        "ppt"@,
        "pdf"@,
        "7z"@,
        "rar"@,
        "gz"@,
        "jar"@,
        "png"@,
        "jpg"@,
        "jpeg"@,
        "gif"@,
        "bmp"@,
        "ico"@,
        "webp"@,
        "tif"@,
        "tiff"@,
        "mp3"@,
        "mp4"@,
        "avi"@,
        "mov"@,
        "wmv"@,
        "flac"@,
        "ogg"@,
        "wav"@,
        "mkv"@,
        "exe"@,
        "dll"@,
        "so"@,
        "dylib"@,
        "msi"@,
        "ttf"@,
        "otf"@,
        "woff"@,
        "woff2"@,
    ]);
    assert(is_binary_extension(ext@) <==> views.contains(ext@));
    let mut i: usize = 0;
    while i < 39
        invariant
            0 <= i <= 39,
            views == names@.map_values(|n: &str| n@),
            views.len() == 39,
            is_binary_extension(ext@) <==> views.contains(ext@),
            forall|j: int| 0 <= j < i ==> views[j] != ext@,
        decreases 39 - i,
    {
        let name = chars_of(names[i]);
        if chars_equal(ext, &name) {
            assert(views[i as int] == ext@);
            assert(views.contains(ext@));
            return true;
        }
        i = i + 1;
    }
    false
}

/// The extension of a path: what follows its last `.`, lower-cased; none
/// without a `.`.
pub open spec fn path_extension(path: Seq<char>) -> Option<Seq<char>> {
    let k = crate::text::last_in_class(path, CharClass::Dot);
    if k >= 0 {
        Some(ascii_lower(path.skip(k + 1)))
    } else {
        None
    }
}

/// Whether the path has the extension of a format known to be binary (for
/// empty files, where the content cannot tell).
pub fn path_has_binary_extension(path: &str) -> (r: bool)
    ensures
        r == (path_extension(path@) matches Some(ext) && is_binary_extension(ext)),
{
    let chars = chars_of(path);
    let dot = find_last(&chars, CharClass::Dot);
    proof {
        crate::text::lemma_last_in_class_bounds(chars@, CharClass::Dot);
    }
    match dot {
        None => false,
        Some(k) => {
            let rest = crate::text::copy_range(&chars, k + 1, chars.len());
            assert(rest@ =~= path@.skip(k + 1));
            let lowered = lower_chars(&rest);
            is_binary_extension_chars(&lowered)
        },
    }
}


// ------------------------------------------------------------ encodings

/// The encoding asked for when showing a diff.
#[derive(Clone, Copy, Debug, PartialEq, Eq, Structural)]
pub enum DiffEncodingChoice {
    /// Guess from the content.
    Auto,
    Utf8,
    Gb18030,
    Big5,
}

/// The decoders the client uses.
#[derive(Clone, Copy, Debug, PartialEq, Eq, Structural)]
pub enum TextEncoding {
    Utf8,
    Gb18030,
    Big5,
}

/// The name of the encoding that chardetng guesses for the bytes (fed as
/// complete input, ISO-2022-JP and UTF-8 not allowed as guesses).
pub uninterp spec fn chardetng_guess_name(bytes: Seq<u8>) -> Seq<char>;

/// What encoding_rs's `Encoding::decode` gives for the bytes: the text (a
/// byte order mark switches the encoding and is dropped; malformed sequences
/// become U+FFFD) and whether malformed sequences were met.
pub uninterp spec fn encoding_rs_decode(encoding: TextEncoding, bytes: Seq<u8>) -> (
    Seq<char>,
    bool,
);

/// `std::str::from_utf8(bytes).is_ok()`: the bytes are well-formed UTF-8.
#[verifier::external_body]
fn bytes_are_utf8(bytes: &[u8]) -> (r: bool)
    ensures
        r == vstd::utf8::valid_utf8(bytes@),
{
    std::str::from_utf8(bytes).is_ok()
}

/// chardetng's `EncodingDetector` fed the bytes as complete input, then
/// `guess(None, Utf8Detection::Deny)`: the name of the guessed encoding.
#[verifier::external_body]
fn guessed_encoding_name(bytes: &[u8]) -> (r: String)
    ensures
        r@ == chardetng_guess_name(bytes@),
{
    let mut detector = chardetng::EncodingDetector::new(chardetng::Iso2022JpDetection::Deny);
    detector.feed(bytes, true);
    detector.guess(None, chardetng::Utf8Detection::Deny).name().to_string()
}

/// encoding_rs's `Encoding::decode` of the bytes with the encoding: the
/// text and whether malformed sequences were met.
#[verifier::external_body]
fn decode_bytes(encoding: TextEncoding, bytes: &[u8]) -> (r: (String, bool))
    ensures
        (r.0@, r.1) == encoding_rs_decode(encoding, bytes@),
{
    let decoder = match encoding {
        TextEncoding::Utf8 => encoding_rs::UTF_8,
        TextEncoding::Gb18030 => encoding_rs::GB18030,
        TextEncoding::Big5 => encoding_rs::BIG5,
    };
    let (text, _used, had_errors) = decoder.decode(bytes);
    (text.into_owned(), had_errors)
}

/// A CJK ideograph: CJK Unified Ideographs, their Extension A, or the CJK
/// Compatibility Ideographs.
pub open spec fn is_cjk(c: char) -> bool {
    ||| ('\u{3400}' <= c && c <= '\u{4dbf}')
    ||| ('\u{4e00}' <= c && c <= '\u{9fff}')
    ||| ('\u{f900}' <= c && c <= '\u{faff}')
}

/// The number of CJK ideographs in the text.
pub open spec fn cjk_count(s: Seq<char>) -> nat
    decreases s.len(),
{
    if s.len() == 0 {
        0
    } else {
        cjk_count(s.drop_last()) + if is_cjk(s.last()) {
            1nat
        } else {
            0nat
        }
    }
}

proof fn lemma_cjk_count_bound(s: Seq<char>)
    ensures
        cjk_count(s) <= s.len(),
    decreases s.len(),
{
    if s.len() > 0 {
        lemma_cjk_count_bound(s.drop_last());
    }
}

/// How Chinese a decoding looks: the number of CJK ideographs, zero when
/// the bytes did not decode cleanly.
pub open spec fn decode_score(decoded: (Seq<char>, bool)) -> nat {
    if decoded.1 {
        0
    } else {
        cjk_count(decoded.0)
    }
}

/// The score of a decoded text.
pub fn chinese_score_of(text: &str, had_errors: bool) -> (r: usize)
    ensures
        r == decode_score((text@, had_errors)),
{
    if had_errors {
        return 0;
    }
    let chars = chars_of(text);
    let mut count: usize = 0;
    let mut i: usize = 0;
    while i < chars.len()
        invariant
            0 <= i <= chars.len(),
            count == cjk_count(chars@.take(i as int)),
        decreases chars.len() - i,
    {
        proof {
            assert(chars@.take(i + 1).drop_last() =~= chars@.take(i as int));
            lemma_cjk_count_bound(chars@.take(i as int));
        }
        let c = chars[i];
        if ('\u{3400}' <= c && c <= '\u{4dbf}') || ('\u{4e00}' <= c && c <= '\u{9fff}') || (
        '\u{f900}' <= c && c <= '\u{faff}') {
            count = count + 1;
        }
        i = i + 1;
    }
    assert(chars@.take(chars@.len() as int) =~= chars@);
    count
}

/// How Chinese the bytes look when decoded with the encoding.
pub fn chinese_decode_score(bytes: &[u8], encoding: TextEncoding) -> (r: usize)
    ensures
        r == decode_score(encoding_rs_decode(encoding, bytes@)),
{
    let (text, had_errors) = decode_bytes(encoding, bytes);
    chinese_score_of(text.as_str(), had_errors)
}

/// The encoding chosen from chardetng's guess and the two Chinese scores:
/// the guess when it is GB18030 or Big5, else the better-scoring of the two
/// (GB18030 on a tie), else UTF-8 when neither decodes any ideograph.
pub open spec fn choice_from_guess(guess: Seq<char>, gb18030_score: nat, big5_score: nat) -> (
    DiffEncodingChoice,
    TextEncoding,
) {
    if guess == "gb18030"@ {
        (DiffEncodingChoice::Gb18030, TextEncoding::Gb18030)
    } else if guess == "Big5"@ {
        (DiffEncodingChoice::Big5, TextEncoding::Big5)
    } else if gb18030_score >= big5_score && gb18030_score > 0 {
        (DiffEncodingChoice::Gb18030, TextEncoding::Gb18030)
    } else if big5_score > 0 {
        (DiffEncodingChoice::Big5, TextEncoding::Big5)
    } else {
        (DiffEncodingChoice::Utf8, TextEncoding::Utf8)
    }
}

/// The encoding chosen from chardetng's guess and the two Chinese scores.
pub fn encoding_from_guess(guess_name: &str, gb18030_score: usize, big5_score: usize) -> (r: (
    DiffEncodingChoice,
    TextEncoding,
))
    ensures
        r == choice_from_guess(guess_name@, gb18030_score as nat, big5_score as nat),
{
    if same_text(guess_name, "gb18030") {
        return (DiffEncodingChoice::Gb18030, TextEncoding::Gb18030);
    }
    if same_text(guess_name, "Big5") {
        return (DiffEncodingChoice::Big5, TextEncoding::Big5);
    }
    if gb18030_score >= big5_score && gb18030_score > 0 {
        (DiffEncodingChoice::Gb18030, TextEncoding::Gb18030)
    } else if big5_score > 0 {
        (DiffEncodingChoice::Big5, TextEncoding::Big5)
    } else {
        (DiffEncodingChoice::Utf8, TextEncoding::Utf8)
    }
}

/// The encoding of diff content: UTF-8 for content with a NUL byte or that
/// is well-formed UTF-8, else chosen from chardetng's guess and how Chinese
/// the content looks in GB18030 and in Big5.
pub open spec fn detected_encoding(bytes: Seq<u8>) -> (DiffEncodingChoice, TextEncoding) {
    if has_nul(bytes) || vstd::utf8::valid_utf8(bytes) {
        (DiffEncodingChoice::Utf8, TextEncoding::Utf8)
    } else {
        choice_from_guess(
            chardetng_guess_name(bytes),
            decode_score(encoding_rs_decode(TextEncoding::Gb18030, bytes)),
            decode_score(encoding_rs_decode(TextEncoding::Big5, bytes)),
        )
    }
}

/// Guesses the encoding of diff content.
pub fn detect_diff_encoding(bytes: &[u8]) -> (r: (DiffEncodingChoice, TextEncoding))
    ensures
        r == detected_encoding(bytes@),
{
    if contains_nul(bytes) {
        return (DiffEncodingChoice::Utf8, TextEncoding::Utf8);
    }
    if bytes_are_utf8(bytes) {
        return (DiffEncodingChoice::Utf8, TextEncoding::Utf8);
    }
    let guess = guessed_encoding_name(bytes);
    if same_text(guess.as_str(), "gb18030") {
        return (DiffEncodingChoice::Gb18030, TextEncoding::Gb18030);
    }
    if same_text(guess.as_str(), "Big5") {
        return (DiffEncodingChoice::Big5, TextEncoding::Big5);
    }
    let gb18030_score = chinese_decode_score(bytes, TextEncoding::Gb18030);
    let big5_score = chinese_decode_score(bytes, TextEncoding::Big5);
    encoding_from_guess(guess.as_str(), gb18030_score, big5_score)
}

/// The encoding a diff is shown in: the one asked for, or the detected one
/// for `Auto`.
pub open spec fn resolved_encoding(requested: DiffEncodingChoice, bytes: Seq<u8>) -> (
    DiffEncodingChoice,
    TextEncoding,
) {
    match requested {
        DiffEncodingChoice::Auto => detected_encoding(bytes),
        DiffEncodingChoice::Utf8 => (DiffEncodingChoice::Utf8, TextEncoding::Utf8),
        DiffEncodingChoice::Gb18030 => (DiffEncodingChoice::Gb18030, TextEncoding::Gb18030),
        DiffEncodingChoice::Big5 => (DiffEncodingChoice::Big5, TextEncoding::Big5),
    }
}

/// The decoder that an encoding choice names.
pub open spec fn names_decoder(choice: DiffEncodingChoice, encoding: TextEncoding) -> bool {
    match choice {
        DiffEncodingChoice::Auto => false,
        DiffEncodingChoice::Utf8 => encoding == TextEncoding::Utf8,
        DiffEncodingChoice::Gb18030 => encoding == TextEncoding::Gb18030,
        DiffEncodingChoice::Big5 => encoding == TextEncoding::Big5,
    }
}

/// The diff is decoded with the encoding it is labelled with: the resolved
/// choice is never `Auto` and always names the decoder used; a choice made
/// by hand is kept, and its decoder is the one used; valid UTF-8 without NUL
/// bytes, and any content with a NUL byte, is shown as UTF-8 when the
/// choice is left to detection.
pub proof fn lemma_resolved_encoding_is_used(requested: DiffEncodingChoice, bytes: Seq<u8>)
    ensures
        names_decoder(resolved_encoding(requested, bytes).0, resolved_encoding(requested, bytes).1),
        requested != DiffEncodingChoice::Auto ==> resolved_encoding(requested, bytes).0 == requested,
        requested == DiffEncodingChoice::Auto && (has_nul(bytes) || vstd::utf8::valid_utf8(bytes))
            ==> resolved_encoding(requested, bytes).1 == TextEncoding::Utf8,
{
}

/// The encoding a diff is shown in.
pub fn resolve_diff_encoding(requested: DiffEncodingChoice, bytes: &[u8]) -> (r: (
    DiffEncodingChoice,
    TextEncoding,
))
    ensures
        r == resolved_encoding(requested, bytes@),
{
    match requested {
        DiffEncodingChoice::Auto => detect_diff_encoding(bytes),
        DiffEncodingChoice::Utf8 => (DiffEncodingChoice::Utf8, TextEncoding::Utf8),
        DiffEncodingChoice::Gb18030 => (DiffEncodingChoice::Gb18030, TextEncoding::Gb18030),
        DiffEncodingChoice::Big5 => (DiffEncodingChoice::Big5, TextEncoding::Big5),
    }
}

/// A diff line without its line end: one trailing `\n`, then one trailing
/// `\r`, removed.
pub open spec fn without_line_end(bytes: Seq<u8>) -> Seq<u8> {
    let a = if bytes.len() > 0 && bytes.last() == 10 {
        bytes.drop_last()
    } else {
        bytes
    };
    if a.len() > 0 && a.last() == 13 {
        a.drop_last()
    } else {
        a
    }
}

/// The length of a diff line without its line end.
fn line_body_len(bytes: &[u8]) -> (r: usize)
    ensures
        r <= bytes@.len(),
        bytes@.take(r as int) == without_line_end(bytes@),
{
    let mut n = bytes.len();
    if n > 0 && bytes[n - 1] == 10 {
        n = n - 1;
    }
    proof {
        assert(bytes@.take(n as int) =~= (if bytes@.len() > 0 && bytes@.last() == 10 {
            bytes@.drop_last()
        } else {
            bytes@
        }));
    }
    let m = n;
    if n > 0 && bytes[n - 1] == 13 {
        n = n - 1;
        assert(bytes@.take(n as int) =~= bytes@.take(m as int).drop_last());
    }
    n
}

/// A diff line decoded for display: without its line end, decoded with the
/// encoding; and whether malformed sequences were met.
pub fn decode_diff_line(bytes: &[u8], encoding: TextEncoding) -> (r: (String, bool))
    ensures
        (r.0@, r.1) == encoding_rs_decode(encoding, without_line_end(bytes@)),
{
    let n = line_body_len(bytes);
    let body = vstd::slice::slice_subrange(bytes, 0, n);
    assert(body@ =~= bytes@.take(n as int));
    decode_bytes(encoding, body)
}


// ------------------------------------------------------------ file diffs

/// Which side of the work tree a diff compares.
#[derive(Clone, Copy, Debug, PartialEq, Eq, Structural)]
pub enum DiffScope {
    Staged,
    Unstaged,
}

/// The kind of a line of a diff.
#[derive(Clone, Copy, Debug, PartialEq, Eq, Structural)]
pub enum DiffLineKind {
    Added,
    Removed,
    Header,
    Context,
}

/// A line as libgit2 prints a patch: its origin character, line numbers,
/// raw content, and whether its delta is flagged binary.
#[derive(Clone, Debug)]
pub struct RawDiffLine {
    pub origin: char,
    pub old_lineno: Option<u32>,
    pub new_lineno: Option<u32>,
    pub content: Vec<u8>,
    pub delta_binary: bool,
}

/// A decoded line of a diff.
#[derive(Clone, Debug, PartialEq, Eq)]
pub struct DiffLine {
    pub kind: DiffLineKind,
    pub old_lineno: Option<u32>,
    pub new_lineno: Option<u32>,
    pub content: String,
}

/// The encoding asked for, the one used, and whether decoding met
/// malformed sequences.
#[derive(Clone, Copy, Debug, PartialEq, Eq)]
pub struct DiffEncodingInfo {
    pub requested: DiffEncodingChoice,
    pub resolved: DiffEncodingChoice,
    pub lossy: bool,
}

/// The diff of one file, ready for display.
#[derive(Clone, Debug, PartialEq, Eq)]
pub struct FileDiff {
    pub path: String,
    pub scope: DiffScope,
    pub is_binary: bool,
    pub old_size: Option<u64>,
    pub new_size: Option<u64>,
    pub encoding: DiffEncodingInfo,
    pub lines: Vec<DiffLine>,
}

/// The kind of a line from its origin: `+` added, `-` removed, `F` and `H`
/// headers, all else context.
pub open spec fn line_kind(origin: char) -> DiffLineKind {
    if origin == '+' {
        DiffLineKind::Added
    } else if origin == '-' {
        DiffLineKind::Removed
    } else if origin == 'F' || origin == 'H' {
        DiffLineKind::Header
    } else {
        DiffLineKind::Context
    }
}

fn kind_of_origin(origin: char) -> (r: DiffLineKind)
    ensures
        r == line_kind(origin),
{
    if origin == '+' {
        DiffLineKind::Added
    } else if origin == '-' {
        DiffLineKind::Removed
    } else if origin == 'F' || origin == 'H' {
        DiffLineKind::Header
    } else {
        DiffLineKind::Context
    }
}

/// The lines shown: all but the `B` lines ("Binary files differ").
pub open spec fn shown_lines(raw: Seq<RawDiffLine>) -> Seq<RawDiffLine> {
    kept(raw, |l: RawDiffLine| l.origin != 'B')
}

/// The contents of the non-header lines, one after the other.
pub open spec fn sample_source(lines: Seq<RawDiffLine>) -> Seq<u8>
    decreases lines.len(),
{
    if lines.len() == 0 {
        Seq::empty()
    } else if line_kind(lines.last().origin) == DiffLineKind::Header {
        sample_source(lines.drop_last())
    } else {
        sample_source(lines.drop_last()) + lines.last().content@
    }
}

/// The bytes on which the encoding is guessed: the first
/// `DIFF_ENCODING_SAMPLE_LIMIT` bytes of the shown non-header lines.
pub open spec fn encoding_sample(raw: Seq<RawDiffLine>) -> Seq<u8> {
    let source = sample_source(shown_lines(raw));
    if source.len() <= DIFF_ENCODING_SAMPLE_LIMIT {
        source
    } else {
        source.take(DIFF_ENCODING_SAMPLE_LIMIT as int)
    }
}

/// The line says its file is binary: its delta is flagged so, or it is a
/// `B` line.
pub open spec fn says_binary(line: RawDiffLine) -> bool {
    line.delta_binary || line.origin == 'B'
}

/// The file is binary: a delta or a `B` line says so.
pub open spec fn marked_binary(raw: Seq<RawDiffLine>) -> bool {
    exists|i: int| 0 <= i < raw.len() && says_binary(#[trigger] raw[i])
}

/// `line` is `raw` decoded with the encoding.
pub open spec fn decoded_line(line: DiffLine, raw: RawDiffLine, encoding: TextEncoding) -> bool {
    &&& line.kind == line_kind(raw.origin)
    &&& line.old_lineno == raw.old_lineno
    &&& line.new_lineno == raw.new_lineno
    &&& line.content@ == encoding_rs_decode(encoding, without_line_end(raw.content@)).0
}

/// The diff of a file from the lines libgit2 printed: the encoding is the
/// one asked for or guessed from a sample of the changed lines; every line
/// but the `B` lines is decoded with it; the diff is lossy when a line did
/// not decode cleanly; the file is binary when libgit2 or the caller
/// (`sniffed_binary`) found it so, or by its extension.
pub fn build_file_diff(
    path: String,
    scope: DiffScope,
    requested: DiffEncodingChoice,
    raw: &[RawDiffLine],
    sniffed_binary: bool,
    old_size: Option<u64>,
    new_size: Option<u64>,
) -> (r: FileDiff)
    ensures
        r.path == path,
        r.scope == scope,
        r.old_size == old_size,
        r.new_size == new_size,
        r.is_binary == (sniffed_binary || marked_binary(raw@) || (path_extension(path@) matches Some(
            ext,
        ) && is_binary_extension(ext))),
        ({
            let resolved = resolved_encoding(requested, encoding_sample(raw@));
            let shown = shown_lines(raw@);
            &&& r.encoding.requested == requested
            &&& r.encoding.resolved == resolved.0
            &&& r.lines@.len() == shown.len()
            &&& forall|i: int|
                0 <= i < shown.len() ==> decoded_line(#[trigger] r.lines@[i], shown[i], resolved.1)
            &&& r.encoding.lossy == exists|i: int|
                0 <= i < shown.len() && encoding_rs_decode(
                    resolved.1,
                    without_line_end(#[trigger] shown[i].content@),
                ).1
        }),
{
    let ghost keep = |l: RawDiffLine| l.origin != 'B';
    let mut sample: Vec<u8> = Vec::new();
    let mut binary = false;
    let mut i: usize = 0;
    while i < raw.len()
        invariant
            0 <= i <= raw.len(),
            keep == (|l: RawDiffLine| l.origin != 'B'),
            binary == exists|j: int| 0 <= j < i && says_binary(#[trigger] raw@[j]),
            ({
                let source = sample_source(kept(raw@.take(i as int), keep));
                sample@ == if source.len() <= DIFF_ENCODING_SAMPLE_LIMIT {
                    source
                } else {
                    source.take(DIFF_ENCODING_SAMPLE_LIMIT as int)
                }
            }),
        decreases raw.len() - i,
    {
        let line = &raw[i];
        let ghost prev = kept(raw@.take(i as int), keep);
        let ghost next = kept(raw@.take(i + 1), keep);
        proof {
            assert(raw@.take(i + 1).drop_last() =~= raw@.take(i as int));
            assert(raw@.take(i + 1).last() == raw@[i as int]);
            if line.origin != 'B' {
                assert(next == prev.push(raw@[i as int]));
                assert(prev.push(raw@[i as int]).drop_last() =~= prev);
                assert(prev.push(raw@[i as int]).last() == raw@[i as int]);
            } else {
                assert(next == prev);
            }
        }
        if line.delta_binary || line.origin == 'B' {
            binary = true;
            assert(says_binary(raw@[i as int]));
        } else {
            assert(!says_binary(raw@[i as int]));
        }
        if line.origin != 'B' && kind_of_origin(line.origin) != DiffLineKind::Header
            && sample.len() < DIFF_ENCODING_SAMPLE_LIMIT {
            let room = DIFF_ENCODING_SAMPLE_LIMIT - sample.len();
            let take = if line.content.len() < room {
                line.content.len()
            } else {
                room
            };
            let ghost before = sample@;
            let mut k: usize = 0;
            while k < take
                invariant
                    k <= take,
                    take <= line.content@.len(),
                    sample@ == before + line.content@.take(k as int),
                decreases take - k,
            {
                sample.push(line.content[k]);
                proof {
                    assert(line.content@.take(k + 1) =~= line.content@.take(k as int).push(
                        line.content@[k as int],
                    ));
                }
                k = k + 1;
            }
            proof {
                let source = sample_source(prev);
                let grown = source + line.content@;
                assert(sample_source(next) == grown);
                assert(grown.take((before.len() + take) as int) =~= before + line.content@.take(
                    take as int,
                ));
                if grown.len() <= DIFF_ENCODING_SAMPLE_LIMIT {
                    assert(line.content@.take(take as int) =~= line.content@);
                    assert(grown.take((before.len() + take) as int) =~= grown);
                }
            }
        } else {
            proof {
                let source = sample_source(prev);
                if line.origin != 'B' {
                    if line_kind(line.origin) != DiffLineKind::Header {
                        let grown = source + line.content@;
                        assert(sample_source(next) == grown);
                        assert(grown.take(DIFF_ENCODING_SAMPLE_LIMIT as int) =~= source.take(
                            DIFF_ENCODING_SAMPLE_LIMIT as int,
                        ));
                        if source.len() == DIFF_ENCODING_SAMPLE_LIMIT {
                            assert(source.take(DIFF_ENCODING_SAMPLE_LIMIT as int) =~= source);
                        }
                    } else {
                        assert(sample_source(next) == source);
                    }
                }
            }
        }
        i = i + 1;
    }
    proof {
        assert(raw@.take(raw@.len() as int) =~= raw@);
    }
    let resolved = resolve_diff_encoding(requested, sample.as_slice());
    let mut lines: Vec<DiffLine> = Vec::new();
    let mut lossy = false;
    let mut i: usize = 0;
    while i < raw.len()
        invariant
            0 <= i <= raw.len(),
            keep == (|l: RawDiffLine| l.origin != 'B'),
            lines@.len() == kept(raw@.take(i as int), keep).len(),
            forall|j: int|
                0 <= j < lines@.len() ==> decoded_line(
                    #[trigger] lines@[j],
                    kept(raw@.take(i as int), keep)[j],
                    resolved.1,
                ),
            lossy == exists|j: int|
                0 <= j < lines@.len() && encoding_rs_decode(
                    resolved.1,
                    without_line_end(#[trigger] kept(raw@.take(i as int), keep)[j].content@),
                ).1,
        decreases raw.len() - i,
    {
        let line = &raw[i];
        proof {
            assert(raw@.take(i + 1).drop_last() =~= raw@.take(i as int));
            assert(raw@.take(i + 1).last() == raw@[i as int]);
        }
        if line.origin != 'B' {
            let (content, had_errors) = decode_diff_line(line.content.as_slice(), resolved.1);
            let ghost prev = kept(raw@.take(i as int), keep);
            lines.push(
                DiffLine {
                    kind: kind_of_origin(line.origin),
                    old_lineno: line.old_lineno,
                    new_lineno: line.new_lineno,
                    content,
                },
            );
            proof {
                let next = kept(raw@.take(i + 1), keep);
                assert(next == prev.push(raw@[i as int]));
                assert forall|j: int| 0 <= j < lines@.len() implies decoded_line(
                    #[trigger] lines@[j],
                    next[j],
                    resolved.1,
                ) by {
                    if j < prev.len() {
                        assert(next[j] == prev[j]);
                    }
                }
                if had_errors {
                    assert(encoding_rs_decode(
                        resolved.1,
                        without_line_end(next[prev.len() as int].content@),
                    ).1);
                }
                if lossy {
                    let j = choose|j: int|
                        0 <= j < prev.len() && encoding_rs_decode(
                            resolved.1,
                            without_line_end(#[trigger] prev[j].content@),
                        ).1;
                    assert(next[j] == prev[j]);
                }
                if !lossy && !had_errors {
                    assert forall|j: int| 0 <= j < lines@.len() implies !encoding_rs_decode(
                        resolved.1,
                        without_line_end(#[trigger] next[j].content@),
                    ).1 by {
                        if j < prev.len() {
                            assert(next[j] == prev[j]);
                        }
                    }
                }
            }
            lossy = lossy || had_errors;
        }
        i = i + 1;
    }
    proof {
        assert(raw@.take(raw@.len() as int) =~= raw@);
    }
    let extension_binary = path_has_binary_extension(path.as_str());
    FileDiff {
        path,
        scope,
        is_binary: sniffed_binary || binary || extension_binary,
        old_size,
        new_size,
        encoding: DiffEncodingInfo { requested, resolved: resolved.0, lossy },
        lines,
    }
}

} // verus!
