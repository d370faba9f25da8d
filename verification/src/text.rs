//! Character-sequence helpers shared by the URL, credential and diff logic.
//!
//! Text is handled as sequences of `char`: the specifications below say what
//! `str::trim`, `to_ascii_lowercase`, `starts_with` and friends compute, and the
//! executable functions are proved against them.

use vstd::prelude::*;

verus! {

/// Classes of characters that the parsers split or trim on.
#[derive(Clone, Copy, PartialEq, Eq, Debug)]
pub enum CharClass {
    /// Unicode `White_Space` characters (what `char::is_whitespace` accepts).
    WhiteSpace,
    /// `/`
    Slash,
    /// `[` or `]`
    Bracket,
    /// `/`, `?` or `#`: the end of a URL authority.
    UrlDelimiter,
    /// `@`
    At,
    /// `:`
    Colon,
    /// `\n`
    LineFeed,
    /// `.`
    Dot,
    /// `\\`
    Backslash,
}

/// Unicode `White_Space`: the characters `char::is_whitespace` accepts.
pub open spec fn is_white_space(c: char) -> bool {
    ||| ('\u{9}' <= c && c <= '\u{d}')
    ||| c == ' '
    ||| c == '\u{85}'
    ||| c == '\u{a0}'
    ||| c == '\u{1680}'
    ||| ('\u{2000}' <= c && c <= '\u{200a}')
    ||| c == '\u{2028}'
    ||| c == '\u{2029}'
    ||| c == '\u{202f}'
    ||| c == '\u{205f}'
    ||| c == '\u{3000}'
}

pub open spec fn in_class(cls: CharClass, c: char) -> bool {
    match cls {
        CharClass::WhiteSpace => is_white_space(c),
        CharClass::Slash => c == '/',
        CharClass::Bracket => c == '[' || c == ']',
        CharClass::UrlDelimiter => c == '/' || c == '?' || c == '#',
        CharClass::At => c == '@',
        CharClass::Colon => c == ':',
        CharClass::LineFeed => c == '\n',
        CharClass::Dot => c == '.',
        CharClass::Backslash => c == '\\',
    }
}

/// `char::to_ascii_lowercase`: `A`..=`Z` become `a`..=`z`, all else is kept.
pub open spec fn ascii_lower_char(c: char) -> char {
    if 'A' <= c && c <= 'Z' {
        ((c as u32) + 32) as char
    } else {
        c
    }
}

/// `str::to_ascii_lowercase`.
pub open spec fn ascii_lower(s: Seq<char>) -> Seq<char> {
    s.map_values(|c: char| ascii_lower_char(c))
}

/// What remains after dropping the leading characters of the class.
pub open spec fn trim_start_class(s: Seq<char>, cls: CharClass) -> Seq<char>
    decreases s.len(),
{
    if s.len() > 0 && in_class(cls, s[0]) {
        trim_start_class(s.drop_first(), cls)
    } else {
        s
    }
}

/// What remains after dropping the trailing characters of the class.
pub open spec fn trim_end_class(s: Seq<char>, cls: CharClass) -> Seq<char>
    decreases s.len(),
{
    if s.len() > 0 && in_class(cls, s.last()) {
        trim_end_class(s.drop_last(), cls)
    } else {
        s
    }
}

/// Dropping the characters of the class at both ends (`str::trim`,
/// `str::trim_matches`).
pub open spec fn trim_class(s: Seq<char>, cls: CharClass) -> Seq<char> {
    trim_end_class(trim_start_class(s, cls), cls)
}

/// `str::trim`.
pub open spec fn trim(s: Seq<char>) -> Seq<char> {
    trim_class(s, CharClass::WhiteSpace)
}

/// Index of the first character of the class, or the length when there is none.
pub open spec fn first_in_class(s: Seq<char>, cls: CharClass) -> int
    decreases s.len(),
{
    if s.len() == 0 {
        0
    } else if in_class(cls, s[0]) {
        0
    } else {
        1 + first_in_class(s.drop_first(), cls)
    }
}

/// Index of the last character of the class, or -1 when there is none.
pub open spec fn last_in_class(s: Seq<char>, cls: CharClass) -> int
    decreases s.len(),
{
    if s.len() == 0 {
        -1
    } else if in_class(cls, s.last()) {
        s.len() - 1
    } else {
        last_in_class(s.drop_last(), cls)
    }
}

/// Whether some character of `s` belongs to the class.
pub open spec fn has_class(s: Seq<char>, cls: CharClass) -> bool {
    exists|i: int| 0 <= i < s.len() && in_class(cls, #[trigger] s[i])
}

/// The part of `s` after its last character of the class (all of `s` when
/// there is none): what `rsplit(c).next()` yields.
pub open spec fn after_last(s: Seq<char>, cls: CharClass) -> Seq<char> {
    s.skip(last_in_class(s, cls) + 1)
}

/// The part of `s` before its first character of the class (all of `s` when
/// there is none): what `split(c).next()` yields.
pub open spec fn before_first(s: Seq<char>, cls: CharClass) -> Seq<char> {
    s.take(first_in_class(s, cls))
}

pub open spec fn starts_with(s: Seq<char>, prefix: Seq<char>) -> bool {
    prefix.len() <= s.len() && s.take(prefix.len() as int) == prefix
}

// ---------------------------------------------------------------- lemmas

pub proof fn lemma_first_in_class_bounds(s: Seq<char>, cls: CharClass)
    ensures
        0 <= first_in_class(s, cls) <= s.len(),
        forall|j: int| 0 <= j < first_in_class(s, cls) ==> !in_class(cls, #[trigger] s[j]),
        first_in_class(s, cls) < s.len() ==> in_class(cls, s[first_in_class(s, cls)]),
    decreases s.len(),
{
    if s.len() > 0 && !in_class(cls, s[0]) {
        lemma_first_in_class_bounds(s.drop_first(), cls);
        assert forall|j: int| 0 <= j < first_in_class(s, cls) implies !in_class(cls, #[trigger] s[j]) by {
            if j > 0 {
                assert(s[j] == s.drop_first()[j - 1]);
            }
        }
    }
}

/// The first index is determined by a scan that stopped at `i`.
pub proof fn lemma_first_in_class_is(s: Seq<char>, cls: CharClass, i: int)
    requires
        0 <= i <= s.len(),
        forall|j: int| 0 <= j < i ==> !in_class(cls, #[trigger] s[j]),
        i < s.len() ==> in_class(cls, s[i]),
    ensures
        first_in_class(s, cls) == i,
    decreases i,
{
    if i > 0 {
        assert(!in_class(cls, s[0]));
        assert forall|j: int| 0 <= j < i - 1 implies !in_class(cls, #[trigger] s.drop_first()[j]) by {
            assert(s.drop_first()[j] == s[j + 1]);
        }
        lemma_first_in_class_is(s.drop_first(), cls, i - 1);
    }
}

pub proof fn lemma_last_in_class_bounds(s: Seq<char>, cls: CharClass)
    ensures
        -1 <= last_in_class(s, cls) < s.len(),
        forall|j: int| last_in_class(s, cls) < j < s.len() ==> !in_class(cls, #[trigger] s[j]),
        last_in_class(s, cls) >= 0 ==> in_class(cls, s[last_in_class(s, cls)]),
    decreases s.len(),
{
    if s.len() > 0 && !in_class(cls, s.last()) {
        lemma_last_in_class_bounds(s.drop_last(), cls);
        assert forall|j: int| last_in_class(s, cls) < j < s.len() implies !in_class(cls, #[trigger] s[j]) by {
            if j < s.len() - 1 {
                assert(s[j] == s.drop_last()[j]);
            }
        }
    }
}

/// The last index is determined by a backwards scan that stopped at `i`.
pub proof fn lemma_last_in_class_is(s: Seq<char>, cls: CharClass, i: int)
    requires
        -1 <= i < s.len(),
        forall|j: int| i < j < s.len() ==> !in_class(cls, #[trigger] s[j]),
        i >= 0 ==> in_class(cls, s[i]),
    ensures
        last_in_class(s, cls) == i,
    decreases s.len(),
{
    if s.len() > 0 && i < s.len() - 1 {
        assert(!in_class(cls, s.last()));
        assert forall|j: int| i < j < s.drop_last().len() implies !in_class(cls, #[trigger] s.drop_last()[j]) by {
            assert(s.drop_last()[j] == s[j]);
        }
        lemma_last_in_class_is(s.drop_last(), cls, i);
    }
}

pub proof fn lemma_has_class_first(s: Seq<char>, cls: CharClass)
    ensures
        has_class(s, cls) <==> first_in_class(s, cls) < s.len(),
{
    lemma_first_in_class_bounds(s, cls);
    if has_class(s, cls) {
        let i = choose|i: int| 0 <= i < s.len() && in_class(cls, #[trigger] s[i]);
        assert(first_in_class(s, cls) <= i);
    }
}

/// `trim_start_class` drops exactly the prefix before the first character
/// outside the class.
pub proof fn lemma_trim_start_class_is(s: Seq<char>, cls: CharClass, i: int)
    requires
        0 <= i <= s.len(),
        forall|j: int| 0 <= j < i ==> in_class(cls, #[trigger] s[j]),
        i < s.len() ==> !in_class(cls, s[i]),
    ensures
        trim_start_class(s, cls) == s.skip(i),
    decreases i,
{
    if i == 0 {
        assert(s.skip(0) =~= s);
    } else {
        assert(in_class(cls, s[0]));
        assert forall|j: int| 0 <= j < i - 1 implies in_class(cls, #[trigger] s.drop_first()[j]) by {
            assert(s.drop_first()[j] == s[j + 1]);
        }
        lemma_trim_start_class_is(s.drop_first(), cls, i - 1);
        assert(s.drop_first().skip(i - 1) =~= s.skip(i));
    }
}

/// `trim_end_class` keeps exactly the prefix up to the last character
/// outside the class.
pub proof fn lemma_trim_end_class_is(s: Seq<char>, cls: CharClass, k: int)
    requires
        0 <= k <= s.len(),
        forall|j: int| k <= j < s.len() ==> in_class(cls, #[trigger] s[j]),
        k > 0 ==> !in_class(cls, s[k - 1]),
    ensures
        trim_end_class(s, cls) == s.take(k),
    decreases s.len(),
{
    if k == s.len() {
        assert(s.take(k) =~= s);
    } else {
        assert(in_class(cls, s.last()));
        assert forall|j: int| k <= j < s.drop_last().len() implies in_class(cls, #[trigger] s.drop_last()[j]) by {
            assert(s.drop_last()[j] == s[j]);
        }
        lemma_trim_end_class_is(s.drop_last(), cls, k);
        assert(s.drop_last().take(k) =~= s.take(k));
    }
}

// ---------------------------------------------------------------- executable

/// Whether `c` belongs to the class.
pub fn char_in_class(cls: CharClass, c: char) -> (r: bool)
    ensures
        r == in_class(cls, c),
{
    match cls {
        CharClass::WhiteSpace => {
            ('\u{9}' <= c && c <= '\u{d}') || c == ' ' || c == '\u{85}' || c == '\u{a0}'
                || c == '\u{1680}' || ('\u{2000}' <= c && c <= '\u{200a}') || c == '\u{2028}'
                || c == '\u{2029}' || c == '\u{202f}' || c == '\u{205f}' || c == '\u{3000}'
        },
        CharClass::Slash => c == '/',
        CharClass::Bracket => c == '[' || c == ']',
        CharClass::UrlDelimiter => c == '/' || c == '?' || c == '#',
        CharClass::At => c == '@',
        CharClass::Colon => c == ':',
        CharClass::LineFeed => c == '\n',
        CharClass::Dot => c == '.',
        CharClass::Backslash => c == '\\',
    }
}

/// `char::to_ascii_lowercase`.
pub fn lower_char(c: char) -> (r: char)
    ensures
        r == ascii_lower_char(c),
{
    if 'A' <= c && c <= 'Z' {
        let b: u8 = c as u8;
        let lowered: u8 = b + 32;
        lowered as char
    } else {
        c
    }
}

/// The characters of a string slice.
pub fn chars_of(s: &str) -> (v: Vec<char>)
    ensures
        v@ == s@,
{
    let mut v: Vec<char> = Vec::new();
    for c in it: s.chars()
        invariant
            v@ == s@.take(it.index() as int),
            it.seq() == s@,
    {
        v.push(c);
        assert(s@.take(it.index() as int + 1) =~= v@);
    }
    assert(v@ =~= s@);
    v
}

/// `String::push`.
#[verifier::external_body]
pub fn push_char(s: &mut String, c: char)
    ensures
        final(s)@ == old(s)@.push(c),
{
    s.push(c);
}

/// A `String` holding the given characters.
pub fn string_of(v: &[char]) -> (s: String)
    ensures
        s@ == v@,
{
    let mut s = String::new();
    let mut i: usize = 0;
    while i < v.len()
        invariant
            i <= v@.len(),
            s@ == v@.take(i as int),
        decreases v@.len() - i,
    {
        push_char(&mut s, v[i]);
        assert(v@.take(i as int + 1) =~= s@);
        i = i + 1;
    }
    assert(v@.take(v@.len() as int) =~= v@);
    s
}

/// The characters `v[from..to]`.
pub fn copy_range(v: &[char], from: usize, to: usize) -> (r: Vec<char>)
    requires
        from <= to <= v@.len(),
    ensures
        r@ == v@.subrange(from as int, to as int),
{
    let mut r: Vec<char> = Vec::new();
    let mut i = from;
    while i < to
        invariant
            from <= i <= to,
            to <= v@.len(),
            r@ == v@.subrange(from as int, i as int),
        decreases to - i,
    {
        r.push(v[i]);
        assert(v@.subrange(from as int, i as int + 1) =~= r@);
        i = i + 1;
    }
    r
}

/// Appends `src` to `dst`.
pub fn append_chars(dst: &mut Vec<char>, src: &[char])
    ensures
        final(dst)@ == old(dst)@ + src@,
{
    let mut i: usize = 0;
    while i < src.len()
        invariant
            i <= src@.len(),
            dst@ == old(dst)@ + src@.take(i as int),
        decreases src@.len() - i,
    {
        dst.push(src[i]);
        assert(old(dst)@ + src@.take(i as int + 1) =~= dst@);
        i = i + 1;
    }
    assert(src@.take(src@.len() as int) =~= src@);
}

/// `to_ascii_lowercase` on characters.
pub fn lower_chars(v: &[char]) -> (r: Vec<char>)
    ensures
        r@ == ascii_lower(v@),
{
    let mut r: Vec<char> = Vec::new();
    let mut i: usize = 0;
    while i < v.len()
        invariant
            i <= v@.len(),
            r@ == ascii_lower(v@.take(i as int)),
        decreases v@.len() - i,
    {
        let c = lower_char(v[i]);
        r.push(c);
        assert(ascii_lower(v@.take(i as int + 1)) =~= r@);
        i = i + 1;
    }
    assert(v@.take(v@.len() as int) =~= v@);
    r
}

/// Index of the first character of the class (the length when there is none).
pub fn find_first(v: &[char], cls: CharClass) -> (r: usize)
    ensures
        r as int == first_in_class(v@, cls),
        r <= v@.len(),
{
    let mut i: usize = 0;
    while i < v.len()
        invariant
            i <= v@.len(),
            forall|j: int| 0 <= j < i ==> !in_class(cls, #[trigger] v@[j]),
        decreases v@.len() - i,
    {
        if char_in_class(cls, v[i]) {
            proof {
                lemma_first_in_class_is(v@, cls, i as int);
            }
            return i;
        }
        i = i + 1;
    }
    proof {
        lemma_first_in_class_is(v@, cls, i as int);
    }
    i
}

/// Index of the last character of the class, if any.
pub fn find_last(v: &[char], cls: CharClass) -> (r: Option<usize>)
    ensures
        match r {
            Some(i) => i as int == last_in_class(v@, cls),
            None => last_in_class(v@, cls) == -1,
        },
{
    let mut k: usize = v.len();
    while k > 0
        invariant
            k <= v@.len(),
            forall|j: int| k <= j < v@.len() ==> !in_class(cls, #[trigger] v@[j]),
        decreases k,
    {
        if char_in_class(cls, v[k - 1]) {
            proof {
                lemma_last_in_class_is(v@, cls, k - 1);
            }
            return Some(k - 1);
        }
        k = k - 1;
    }
    proof {
        lemma_last_in_class_is(v@, cls, -1);
    }
    None
}

/// Whether some character belongs to the class.
pub fn contains_class(v: &[char], cls: CharClass) -> (r: bool)
    ensures
        r == has_class(v@, cls),
{
    let i = find_first(v, cls);
    proof {
        lemma_has_class_first(v@, cls);
    }
    i < v.len()
}

/// Drops the characters of the class at both ends.
pub fn trim_chars(v: &[char], cls: CharClass) -> (r: Vec<char>)
    ensures
        r@ == trim_class(v@, cls),
{
    let mut i: usize = 0;
    while i < v.len() && char_in_class(cls, v[i])
        invariant
            i <= v@.len(),
            forall|j: int| 0 <= j < i ==> in_class(cls, #[trigger] v@[j]),
        decreases v@.len() - i,
    {
        i = i + 1;
    }
    proof {
        lemma_trim_start_class_is(v@, cls, i as int);
    }
    let ghost start = v@.skip(i as int);
    let mut k: usize = v.len();
    while k > i && char_in_class(cls, v[k - 1])
        invariant
            i <= k <= v@.len(),
            forall|j: int| k <= j < v@.len() ==> in_class(cls, #[trigger] v@[j]),
        decreases k,
    {
        k = k - 1;
    }
    proof {
        assert forall|j: int| k - i <= j < start.len() implies in_class(cls, #[trigger] start[j]) by {
            assert(start[j] == v@[j + i]);
        }
        if k > i {
            assert(start[k - i - 1] == v@[k - 1]);
        }
        lemma_trim_end_class_is(start, cls, k - i);
        assert(start.take(k - i) =~= v@.subrange(i as int, k as int));
    }
    copy_range(v, i, k)
}

/// Drops the trailing characters of the class.
pub fn trim_end_chars(v: &[char], cls: CharClass) -> (r: Vec<char>)
    ensures
        r@ == trim_end_class(v@, cls),
{
    let mut k: usize = v.len();
    while k > 0 && char_in_class(cls, v[k - 1])
        invariant
            k <= v@.len(),
            forall|j: int| k <= j < v@.len() ==> in_class(cls, #[trigger] v@[j]),
        decreases k,
    {
        k = k - 1;
    }
    proof {
        lemma_trim_end_class_is(v@, cls, k as int);
        assert(v@.take(k as int) =~= v@.subrange(0, k as int));
    }
    copy_range(v, 0, k)
}

/// Whether `v` starts with `prefix`.
pub fn has_prefix(v: &[char], prefix: &[char]) -> (r: bool)
    ensures
        r == starts_with(v@, prefix@),
{
    if prefix.len() > v.len() {
        return false;
    }
    let mut i: usize = 0;
    while i < prefix.len()
        invariant
            prefix@.len() <= v@.len(),
            i <= prefix@.len(),
            forall|j: int| 0 <= j < i ==> v@[j] == prefix@[j],
        decreases prefix@.len() - i,
    {
        if v[i] != prefix[i] {
            assert(v@.take(prefix@.len() as int)[i as int] != prefix@[i as int]);
            return false;
        }
        i = i + 1;
    }
    assert(v@.take(prefix@.len() as int) =~= prefix@);
    true
}

/// Whether two character sequences are equal.
pub fn chars_equal(a: &[char], b: &[char]) -> (r: bool)
    ensures
        r == (a@ == b@),
{
    if a.len() != b.len() {
        return false;
    }
    let mut i: usize = 0;
    while i < a.len()
        invariant
            a@.len() == b@.len(),
            i <= a@.len(),
            forall|j: int| 0 <= j < i ==> a@[j] == b@[j],
        decreases a@.len() - i,
    {
        if a[i] != b[i] {
            return false;
        }
        i = i + 1;
    }
    assert(a@ =~= b@);
    true
}

/// An owned copy of a string slice.
pub fn owned(s: &str) -> (r: String)
    ensures
        r@ == s@,
{
    s.to_owned()
}

/// Whether two string slices hold the same text.
pub fn same_text(a: &str, b: &str) -> (r: bool)
    ensures
        r == (a@ == b@),
{
    let va = chars_of(a);
    let vb = chars_of(b);
    chars_equal(&va, &vb)
}

/// The view of an optional owned string.
pub open spec fn opt_view(o: Option<String>) -> Option<Seq<char>> {
    match o {
        Some(s) => Some(s@),
        None => None,
    }
}

/// The view of an optional string slice.
pub open spec fn opt_str_view(o: Option<&str>) -> Option<Seq<char>> {
    match o {
        Some(s) => Some(s@),
        None => None,
    }
}

/// A copy of an optional string.
pub fn clone_opt_string(o: &Option<String>) -> (r: Option<String>)
    ensures
        r == *o,
{
    match o {
        Some(s) => Some(s.clone()),
        None => None,
    }
}


/// Lexicographic order of character sequences: `a` comes strictly before `b`
/// (the order in which `String`s compare).
pub open spec fn seq_less(a: Seq<char>, b: Seq<char>) -> bool
    decreases a.len(),
{
    if a.len() == 0 {
        b.len() > 0
    } else if b.len() == 0 {
        false
    } else if a[0] != b[0] {
        (a[0] as int) < (b[0] as int)
    } else {
        seq_less(a.drop_first(), b.drop_first())
    }
}

/// No sequence comes before itself.
pub proof fn lemma_seq_less_irreflexive(a: Seq<char>)
    ensures
        !seq_less(a, a),
    decreases a.len(),
{
    if a.len() > 0 {
        lemma_seq_less_irreflexive(a.drop_first());
    }
}

/// The lexicographic order is transitive.
pub proof fn lemma_seq_less_transitive(a: Seq<char>, b: Seq<char>, z: Seq<char>)
    ensures
        seq_less(a, b) && seq_less(b, z) ==> seq_less(a, z),
    decreases a.len(),
{
    if a.len() != 0 && b.len() != 0 && z.len() != 0 {
        lemma_seq_less_transitive(a.drop_first(), b.drop_first(), z.drop_first());
    }
}

/// Whether `a` comes strictly before `b` in lexicographic order.
pub fn chars_less(a: &[char], b: &[char]) -> (r: bool)
    ensures
        r == seq_less(a@, b@),
{
    let mut i: usize = 0;
    proof {
        assert(a@.skip(0) =~= a@);
        assert(b@.skip(0) =~= b@);
    }
    while i < a.len() && i < b.len()
        invariant
            i <= a.len(),
            i <= b.len(),
            seq_less(a@, b@) == seq_less(a@.skip(i as int), b@.skip(i as int)),
        decreases a.len() - i,
    {
        if a[i] != b[i] {
            proof {
                assert(a@.skip(i as int)[0] == a@[i as int]);
                assert(b@.skip(i as int)[0] == b@[i as int]);
            }
            let before: bool = a[i] < b[i];
            return before;
        }
        proof {
            assert(a@.skip(i as int).drop_first() =~= a@.skip(i + 1));
            assert(b@.skip(i as int).drop_first() =~= b@.skip(i + 1));
            assert(a@.skip(i as int)[0] == a@[i as int]);
            assert(b@.skip(i as int)[0] == b@[i as int]);
        }
        i = i + 1;
    }
    i == a.len() && i < b.len()
}

/// Whether `a` comes strictly before `b` in the order of `String`s.
pub fn text_less(a: &str, b: &str) -> (r: bool)
    ensures
        r == seq_less(a@, b@),
{
    let va = chars_of(a);
    let vb = chars_of(b);
    chars_less(&va, &vb)
}


/// Two different character sequences are ordered one way or the other.
pub proof fn lemma_seq_less_total(a: Seq<char>, b: Seq<char>)
    ensures
        a != b ==> seq_less(a, b) || seq_less(b, a),
    decreases a.len(),
{
    if a.len() == 0 && b.len() == 0 {
        assert(a =~= b);
    } else if a.len() > 0 && b.len() > 0 && a[0] == b[0] {
        lemma_seq_less_total(a.drop_first(), b.drop_first());
        if a.drop_first() == b.drop_first() {
            assert(a =~= seq![a[0]] + a.drop_first());
            assert(b =~= seq![b[0]] + b.drop_first());
        }
    }
}

/// The text holds no NUL character, so it passes to C as a string.
pub open spec fn no_nul(s: Seq<char>) -> bool {
    !s.contains('\0')
}

/// `needle` occurs in `hay` at position `i`.
pub open spec fn occurs_at(hay: Seq<char>, needle: Seq<char>, i: int) -> bool {
    0 <= i && i + needle.len() <= hay.len() && hay.subrange(i, i + needle.len()) == needle
}

/// `needle` occurs somewhere in `hay` (what `str::contains` answers for a
/// string pattern).
pub open spec fn contains_seq(hay: Seq<char>, needle: Seq<char>) -> bool {
    exists|i: int| occurs_at(hay, needle, i)
}

fn matches_at(hay: &[char], needle: &[char], i: usize) -> (r: bool)
    requires
        i + needle.len() <= hay.len(),
    ensures
        r == occurs_at(hay@, needle@, i as int),
{
    let mut k: usize = 0;
    while k < needle.len()
        invariant
            i + needle.len() <= hay.len(),
            k <= needle.len(),
            forall|j: int| 0 <= j < k ==> hay@[i + j] == needle@[j],
        decreases needle.len() - k,
    {
        if hay[i + k] != needle[k] {
            assert(hay@.subrange(i as int, i + needle.len())[k as int] != needle@[k as int]);
            return false;
        }
        k = k + 1;
    }
    assert(hay@.subrange(i as int, i + needle.len()) =~= needle@);
    true
}

/// Whether `needle` occurs in `hay`.
pub fn chars_contain(hay: &[char], needle: &[char]) -> (r: bool)
    ensures
        r == contains_seq(hay@, needle@),
{
    if needle.len() > hay.len() {
        return false;
    }
    let last = hay.len() - needle.len();
    let mut i: usize = 0;
    loop
        invariant
            last + needle.len() == hay.len(),
            i <= last,
            forall|j: int| 0 <= j < i ==> !occurs_at(hay@, needle@, j),
        decreases last - i,
    {
        if matches_at(hay, needle, i) {
            return true;
        }
        if i == last {
            return false;
        }
        i = i + 1;
    }
}

/// Whether `needle` occurs in `hay` (`str::contains` with a string pattern).
pub fn text_contains(hay: &str, needle: &str) -> (r: bool)
    ensures
        r == contains_seq(hay@, needle@),
{
    let h = chars_of(hay);
    let n = chars_of(needle);
    chars_contain(&h, &n)
}


/// The decimal digits of `n`, without leading zeros (how `{}` prints it).
pub open spec fn decimal(n: nat) -> Seq<char>
    decreases n,
{
    if n < 10 {
        seq![((n + 48) as u8) as char]
    } else {
        decimal(n / 10).push((((n % 10) + 48) as u8) as char)
    }
}

/// `n` written in decimal.
pub fn decimal_string(n: u64) -> (r: String)
    ensures
        r@ == decimal(n as nat),
{
    let mut reversed: Vec<char> = Vec::new();
    let mut rest: u64 = n;
    while rest >= 10
        invariant
            decimal(n as nat) == decimal(rest as nat) + reversed@.reverse(),
        decreases rest,
    {
        let d: u8 = (rest % 10) as u8;
        let c = (d + 48) as char;
        proof {
            assert(decimal(rest as nat) == decimal((rest / 10) as nat).push(c));
            assert(decimal(rest as nat) + reversed@.reverse() =~= decimal((rest / 10) as nat)
                + reversed@.push(c).reverse());
        }
        reversed.push(c);
        rest = rest / 10;
    }
    let last = ((rest as u8) + 48) as char;
    reversed.push(last);
    proof {
        assert(decimal(rest as nat) =~= seq![last]);
        assert(reversed@.reverse() =~= seq![last] + reversed@.drop_last().reverse());
    }
    let mut out: Vec<char> = Vec::new();
    let mut i: usize = reversed.len();
    while i > 0
        invariant
            i <= reversed.len(),
            out@ =~= reversed@.subrange(i as int, reversed@.len() as int).reverse(),
            decimal(n as nat) == reversed@.reverse(),
        decreases i,
    {
        i = i - 1;
        out.push(reversed[i]);
        proof {
            assert(reversed@.subrange(i as int, reversed@.len() as int).reverse() =~= reversed@.subrange(
                (i + 1) as int,
                reversed@.len() as int,
            ).reverse().push(reversed@[i as int]));
        }
    }
    proof {
        assert(reversed@.subrange(0, reversed@.len() as int) =~= reversed@);
    }
    string_of(&out)
}

} // verus!
