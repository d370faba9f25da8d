//! Remote URL analysis: which host a credential belongs to, which protocol
//! family a remote speaks, and the normal form in which remote URLs are
//! compared.

use vstd::prelude::*;

use crate::text::{
    after_last, append_chars, ascii_lower, ascii_lower_char, before_first, chars_of,
    contains_class, copy_range, find_first, find_last, first_in_class, has_class, has_prefix,
    in_class, last_in_class, lemma_first_in_class_bounds, lemma_first_in_class_is,
    lemma_has_class_first, lemma_last_in_class_bounds, lemma_last_in_class_is,
    lemma_trim_end_class_is, lemma_trim_start_class_is, lower_chars, starts_with, string_of, trim,
    trim_start_class,
    trim_chars, trim_class, trim_end_chars, trim_end_class, CharClass,
};

verus! {

/// The transport family of a remote URL.
#[derive(Clone, Copy, PartialEq, Eq, Debug, Structural)]
pub enum ProtocolFamily {
    Https,
    Ssh,
}

/// Host key and protocol family of a remote URL.
#[derive(Clone, PartialEq, Eq, Debug)]
pub struct RemoteMetadata {
    /// `https://host[:port]` or `ssh://host`, lower-cased.
    pub host_key: String,
    pub protocol_family: ProtocolFamily,
}

pub open spec fn http_scheme_prefix() -> Seq<char> {
    seq!['h', 't', 't', 'p', ':', '/', '/']
}

pub open spec fn https_scheme_prefix() -> Seq<char> {
    seq!['h', 't', 't', 'p', 's', ':', '/', '/']
}

pub open spec fn ssh_scheme_prefix() -> Seq<char> {
    seq!['s', 's', 'h', ':', '/', '/']
}

/// Whether the (lower-cased) text starts with `http://` or `https://`.
pub open spec fn is_http_like(lower: Seq<char>) -> bool {
    starts_with(lower, http_scheme_prefix()) || starts_with(lower, https_scheme_prefix())
}

/// Length of the scheme name of an `http://` / `https://` URL.
pub open spec fn http_scheme_len(lower: Seq<char>) -> int {
    if starts_with(lower, http_scheme_prefix()) {
        4
    } else {
        5
    }
}

/// The authority of a URL whose scheme part (`scheme://`) has been removed:
/// everything up to the first `/`, `?` or `#`, trimmed, with any
/// `userinfo@` removed.
pub open spec fn url_authority(rest: Seq<char>) -> Seq<char> {
    after_last(trim(before_first(rest, CharClass::UrlDelimiter)), CharClass::At)
}

/// Host key and protocol family of a remote URL, or `None` when the URL
/// names no host.
///
/// - `http(s)://[user@]host[:port]/...` gives `https://host[:port]`
///   (brackets of an IPv6 literal removed);
/// - `ssh://[user@]host/...` gives `ssh://host`;
/// - scp-like `[user@]host:path` (no `/` before the first `:`) gives `ssh://host`.
pub open spec fn remote_metadata_of(url: Seq<char>) -> Option<(Seq<char>, ProtocolFamily)> {
    let t = trim(url);
    let lower = ascii_lower(t);
    if is_http_like(lower) {
        let rest = t.skip(http_scheme_len(lower) + 3);
        let host_port = trim_class(url_authority(rest), CharClass::Bracket);
        if host_port.len() == 0 {
            None
        } else {
            Some((https_scheme_prefix() + ascii_lower(host_port), ProtocolFamily::Https))
        }
    } else if starts_with(lower, ssh_scheme_prefix()) {
        let authority = url_authority(t.skip(6));
        if authority.len() == 0 {
            None
        } else {
            Some((ssh_scheme_prefix() + ascii_lower(authority), ProtocolFamily::Ssh))
        }
    } else if has_class(t, CharClass::Colon) && !has_class(
        before_first(t, CharClass::Colon),
        CharClass::Slash,
    ) {
        let host = after_last(before_first(t, CharClass::Colon), CharClass::At);
        if host.len() == 0 {
            None
        } else {
            Some((ssh_scheme_prefix() + ascii_lower(host), ProtocolFamily::Ssh))
        }
    } else {
        None
    }
}

/// The form in which remote URLs are compared: trimmed, trailing `/`
/// removed, lower-cased, and for `http(s)` URLs without `userinfo@`.
pub open spec fn normalized_remote_url(url: Seq<char>) -> Seq<char> {
    let t = trim_end_class(trim(url), CharClass::Slash);
    let lower = ascii_lower(t);
    if is_http_like(lower) {
        let scheme_len = http_scheme_len(lower);
        let rest = t.skip(scheme_len + 3);
        let cut = first_in_class(rest, CharClass::UrlDelimiter);
        let authority = after_last(rest.take(cut), CharClass::At);
        lower.take(scheme_len + 3) + ascii_lower(authority) + ascii_lower(rest.skip(cut))
    } else {
        lower
    }
}

// ---------------------------------------------------------------- laws

proof fn lemma_lower_char(c: char, cls: CharClass)
    ensures
        in_class(cls, ascii_lower_char(c)) == in_class(cls, c),
        ascii_lower_char(ascii_lower_char(c)) == ascii_lower_char(c),
{
    if 'A' <= c && c <= 'Z' {
        let d = ascii_lower_char(c);
        assert(d as u32 == c as u32 + 32);
        assert('a' <= d && d <= 'z');
    }
}

/// Lower-casing keeps which characters belong to a class, and lower-cased
/// text stays as it is when lower-cased again.
proof fn lemma_lower_seq(s: Seq<char>, cls: CharClass)
    ensures
        ascii_lower(s).len() == s.len(),
        has_class(ascii_lower(s), cls) == has_class(s, cls),
        ascii_lower(ascii_lower(s)) == ascii_lower(s),
{
    let l = ascii_lower(s);
    assert forall|i: int| 0 <= i < s.len() implies in_class(cls, #[trigger] l[i]) == in_class(cls, s[i])
        && ascii_lower_char(l[i]) == l[i] by {
        lemma_lower_char(s[i], cls);
    }
    if has_class(s, cls) {
        let i = choose|i: int| 0 <= i < s.len() && in_class(cls, #[trigger] s[i]);
        assert(in_class(cls, l[i]));
    }
    if has_class(l, cls) {
        let i = choose|i: int| 0 <= i < l.len() && in_class(cls, #[trigger] l[i]);
        assert(in_class(cls, s[i]));
    }
    assert(ascii_lower(l) =~= l);
}

proof fn lemma_no_class_subrange(s: Seq<char>, cls: CharClass, i: int, j: int)
    requires
        0 <= i <= j <= s.len(),
        !has_class(s, cls),
    ensures
        !has_class(s.subrange(i, j), cls),
{
    if has_class(s.subrange(i, j), cls) {
        let k = choose|k: int| 0 <= k < j - i && in_class(cls, #[trigger] s.subrange(i, j)[k]);
        assert(s.subrange(i, j)[k] == s[i + k]);
    }
}

proof fn lemma_no_class_concat(a: Seq<char>, b: Seq<char>, cls: CharClass)
    requires
        !has_class(a, cls),
        !has_class(b, cls),
    ensures
        !has_class(a + b, cls),
{
    if has_class(a + b, cls) {
        let k = choose|k: int| 0 <= k < (a + b).len() && in_class(cls, #[trigger] (a + b)[k]);
        if k < a.len() {
            assert((a + b)[k] == a[k]);
        } else {
            assert((a + b)[k] == b[k - a.len()]);
        }
    }
}

proof fn lemma_trim_end_prefix(s: Seq<char>, cls: CharClass)
    ensures
        trim_end_class(s, cls).len() <= s.len(),
        trim_end_class(s, cls) == s.take(trim_end_class(s, cls).len() as int),
        forall|j: int| trim_end_class(s, cls).len() <= j < s.len() ==> in_class(cls, #[trigger] s[j]),
        trim_end_class(s, cls).len() > 0 ==> !in_class(cls, s[trim_end_class(s, cls).len() - 1]),
    decreases s.len(),
{
    if s.len() > 0 && in_class(cls, s.last()) {
        lemma_trim_end_prefix(s.drop_last(), cls);
        let t = trim_end_class(s.drop_last(), cls);
        assert(s.drop_last().take(t.len() as int) =~= s.take(t.len() as int));
        assert forall|j: int| t.len() <= j < s.len() implies in_class(cls, #[trigger] s[j]) by {
            if j < s.len() - 1 {
                assert(s[j] == s.drop_last()[j]);
            }
        }
        if t.len() > 0 {
            assert(s[t.len() - 1] == s.drop_last()[t.len() - 1]);
        }
    } else {
        assert(s.take(s.len() as int) =~= s);
    }
}

/// The normal form of a URL with a host and no white space does not end in
/// `/`.
#[verifier::spinoff_prover]
#[verifier::rlimit(80)]
proof fn lemma_host_normal_form_end(url: Seq<char>)
    requires
        !has_class(url, CharClass::WhiteSpace),
        remote_metadata_of(url) is Some,
    ensures
        normalized_remote_url(url).len() == 0 || normalized_remote_url(url).last() != '/',
{
    let ws = CharClass::WhiteSpace;
    let d = CharClass::UrlDelimiter;
    lemma_trim_start_class_is(url, ws, 0);
    assert(url.skip(0) =~= url);
    lemma_trim_end_class_is(url, ws, url.len() as int);
    assert(url.take(url.len() as int) =~= url);
    assert(trim(url) == url);
    let t = trim_end_class(url, CharClass::Slash);
    lemma_trim_end_prefix(url, CharClass::Slash);
    let l = t.len() as int;
    let lower0 = ascii_lower(url);
    let lower = ascii_lower(t);
    assert(lower =~= lower0.take(l));
    let n = normalized_remote_url(url);
    if l > 0 {
        lemma_lower_char(url[l - 1], CharClass::Slash);
        assert(t[l - 1] == url[l - 1]);
    }
    if !is_http_like(lower0) {
        if starts_with(lower, http_scheme_prefix()) {
            assert(lower0.take(7) =~= lower.take(7));
        }
        if starts_with(lower, https_scheme_prefix()) {
            assert(lower0.take(8) =~= lower.take(8));
        }
        assert(n == lower);
    } else {
        let k = http_scheme_len(lower0) + 3;
        let rest0 = url.skip(k);
        let head0 = before_first(rest0, d);
        lemma_first_in_class_bounds(rest0, d);
        assert(url_authority(rest0).len() > 0) by {
            let a = url_authority(rest0);
            if a.len() == 0 {
                assert(trim_start_class(a, CharClass::Bracket) == a);
                assert(trim_end_class(a, CharClass::Bracket) == a);
            }
        }
        assert(head0.len() > 0) by {
            if head0.len() == 0 {
                assert(trim_start_class(head0, ws) == head0);
                assert(trim_end_class(head0, ws) == head0);
                lemma_last_in_class_bounds(head0, CharClass::At);
            }
        }
        // The first character after the scheme is no `/`, so the trimmed text reaches it.
        assert(!in_class(d, rest0[0]));
        assert(rest0[0] == url[k]);
        assert(l > k);
        assert(lower.take(7) =~= lower0.take(7));
        assert(lower.take(8) =~= lower0.take(8));
        assert(is_http_like(lower));
        assert(http_scheme_len(lower) == http_scheme_len(lower0));
        let rest = t.skip(k);
        let cut = first_in_class(rest, d);
        lemma_first_in_class_bounds(rest, d);
        let head = rest.take(cut);
        lemma_last_in_class_bounds(head, CharClass::At);
        let authority = after_last(head, CharClass::At);
        let path = rest.skip(cut);
        assert(n == lower.take(k) + ascii_lower(authority) + ascii_lower(path));
        lemma_lower_seq(authority, ws);
        lemma_lower_seq(path, ws);
        if path.len() > 0 {
            assert(path.last() == url[l - 1]);
            assert(n.last() == ascii_lower(path).last());
        } else {
            // No delimiter in what follows the scheme, but for trailing `/`.
            assert forall|j: int| 0 <= j < rest.len() implies !in_class(d, #[trigger] rest0[j]) by {
                assert(rest0[j] == rest[j]);
            }
            if rest.len() < rest0.len() {
                assert(rest0[rest.len() as int] == url[l]);
            }
            lemma_first_in_class_is(rest0, d, rest.len() as int);
            assert(head0 =~= rest);
            assert(head =~= rest);
            lemma_no_class_subrange(url, ws, k, l);
            assert(rest =~= url.subrange(k, l));
            lemma_trim_start_class_is(rest, ws, 0);
            assert(rest.skip(0) =~= rest);
            lemma_trim_end_class_is(rest, ws, rest.len() as int);
            assert(rest.take(rest.len() as int) =~= rest);
            assert(url_authority(rest0) == authority);
            assert(authority.last() == rest[rest.len() - 1]);
            assert(rest[rest.len() - 1] == url[l - 1]);
            assert(n.last() == ascii_lower(authority).last());
        }
    }
}

/// Normalizing a remote URL twice gives its normal form: for a URL without
/// white space that names a host, the normal form of the normal form is the
/// normal form.
pub proof fn lemma_normalize_remote_idempotent(url: Seq<char>)
    requires
        !has_class(url, CharClass::WhiteSpace),
        remote_metadata_of(url) is Some,
    ensures
        normalized_remote_url(normalized_remote_url(url)) == normalized_remote_url(url),
{
    lemma_host_normal_form_end(url);
    lemma_normalize_idempotent(url);
}

/// Normalizing a normal form changes nothing: for a URL without white space
/// whose normal form does not end in `/`, the normal form of the normal
/// form is the normal form. (A normal form that ends in `/`, as that of
/// `https://user@`, loses that `/` when normalized again.)
#[verifier::spinoff_prover]
#[verifier::rlimit(80)]
pub proof fn lemma_normalize_idempotent(url: Seq<char>)
    requires
        !has_class(url, CharClass::WhiteSpace),
        normalized_remote_url(url).len() == 0 || normalized_remote_url(url).last() != '/',
    ensures
        normalized_remote_url(normalized_remote_url(url)) == normalized_remote_url(url),
{
    let ws = CharClass::WhiteSpace;
    let n = normalized_remote_url(url);
    lemma_trim_start_class_is(url, ws, 0);
    assert(url.skip(0) =~= url);
    lemma_trim_end_class_is(url, ws, url.len() as int);
    assert(trim(url) == url);
    let t = trim_end_class(url, CharClass::Slash);
    lemma_trim_end_prefix(url, CharClass::Slash);
    lemma_no_class_subrange(url, ws, 0, t.len() as int);
    assert(t =~= url.subrange(0, t.len() as int));
    let lower = ascii_lower(t);
    lemma_lower_seq(t, ws);
    // The normal form is lower-cased text without white space.
    let m: Seq<char> = if is_http_like(lower) {
        let scheme_len = http_scheme_len(lower);
        let rest = t.skip(scheme_len + 3);
        let cut = first_in_class(rest, CharClass::UrlDelimiter);
        let authority = after_last(rest.take(cut), CharClass::At);
        t.take(scheme_len + 3) + authority + rest.skip(cut)
    } else {
        t
    };
    if is_http_like(lower) {
        let k = http_scheme_len(lower) + 3;
        let rest = t.skip(k);
        let cut = first_in_class(rest, CharClass::UrlDelimiter);
        lemma_first_in_class_bounds(rest, CharClass::UrlDelimiter);
        let head = rest.take(cut);
        lemma_last_in_class_bounds(head, CharClass::At);
        let authority = after_last(head, CharClass::At);
        let path = rest.skip(cut);
        assert(lower.take(k) =~= ascii_lower(t.take(k)));
        assert(n =~= ascii_lower(m));
        lemma_no_class_subrange(t, ws, 0, k);
        lemma_no_class_subrange(t, ws, k, t.len() as int);
        assert(t.take(k) =~= t.subrange(0, k));
        assert(rest =~= t.subrange(k, t.len() as int));
        lemma_no_class_subrange(rest, ws, 0, cut);
        assert(head =~= rest.subrange(0, cut));
        lemma_no_class_subrange(head, ws, last_in_class(head, CharClass::At) + 1, head.len() as int);
        assert(authority =~= head.subrange(last_in_class(head, CharClass::At) + 1, head.len() as int));
        lemma_no_class_subrange(rest, ws, cut, rest.len() as int);
        assert(path =~= rest.subrange(cut, rest.len() as int));
        lemma_no_class_concat(t.take(k), authority, ws);
        lemma_no_class_concat(t.take(k) + authority, path, ws);
        assert(m == t.take(k) + authority + path);
    } else {
        assert(n == ascii_lower(m));
    }
    lemma_lower_seq(m, ws);
    assert(!has_class(n, ws));
    // Second pass: trimming and lower-casing change nothing.
    lemma_trim_start_class_is(n, ws, 0);
    assert(n.skip(0) =~= n);
    lemma_trim_end_class_is(n, ws, n.len() as int);
    lemma_trim_end_class_is(n, CharClass::Slash, n.len() as int);
    assert(n.take(n.len() as int) =~= n);
    assert(trim_end_class(trim(n), CharClass::Slash) == n);
    assert(ascii_lower(n) == n);
    if is_http_like(lower) {
        let k = http_scheme_len(lower) + 3;
        let rest = t.skip(k);
        let cut = first_in_class(rest, CharClass::UrlDelimiter);
        lemma_first_in_class_bounds(rest, CharClass::UrlDelimiter);
        let head = rest.take(cut);
        lemma_last_in_class_bounds(head, CharClass::At);
        let authority = after_last(head, CharClass::At);
        let path = rest.skip(cut);
        let a = ascii_lower(authority);
        let p = ascii_lower(path);
        assert(n == lower.take(k) + a + p);
        assert(lower.len() == t.len());
        assert(n.take(k) =~= lower.take(k));
        assert(n.take(7) =~= lower.take(7));
        if !starts_with(lower, http_scheme_prefix()) {
            assert(n.take(8) =~= lower.take(8));
        }
        assert(http_scheme_len(n) == http_scheme_len(lower));
        assert(is_http_like(n));
        let rest2 = n.skip(k);
        assert(rest2 =~= a + p);
        // The authority holds no delimiter and no `@`; the path starts at a
        // delimiter.
        assert forall|j: int| 0 <= j < a.len() implies !in_class(CharClass::UrlDelimiter, #[trigger] a[j])
            && !in_class(CharClass::At, a[j]) by {
            let i0 = last_in_class(head, CharClass::At) + 1;
            assert(authority[j] == head[i0 + j]);
            assert(head[i0 + j] == rest[i0 + j]);
            lemma_lower_char(authority[j], CharClass::UrlDelimiter);
            lemma_lower_char(authority[j], CharClass::At);
        }
        if p.len() > 0 {
            assert(path[0] == rest[cut]);
            lemma_lower_char(path[0], CharClass::UrlDelimiter);
            assert((a + p)[a.len() as int] == p[0]);
        }
        assert forall|j: int| 0 <= j < a.len() implies !in_class(
            CharClass::UrlDelimiter,
            #[trigger] (a + p)[j],
        ) by {
            assert((a + p)[j] == a[j]);
        }
        lemma_first_in_class_is(a + p, CharClass::UrlDelimiter, a.len() as int);
        assert((a + p).take(a.len() as int) =~= a);
        lemma_last_in_class_is(a, CharClass::At, -1);
        assert(a.skip(0) =~= a);
        assert((a + p).skip(a.len() as int) =~= p);
        lemma_lower_seq(authority, ws);
        lemma_lower_seq(path, ws);
        assert(normalized_remote_url(n) =~= n.take(k) + ascii_lower(a) + ascii_lower(p));
    } else {
        lemma_lower_seq(t, ws);
        assert(!is_http_like(n));
    }
}

/// An scp-like remote `[user@]host:path`: no scheme, a `:`, no `/` before
/// it, and no white space.
pub open spec fn scp_like(url: Seq<char>) -> bool {
    &&& !has_class(url, CharClass::WhiteSpace)
    &&& !is_http_like(ascii_lower(url))
    &&& !starts_with(ascii_lower(url), ssh_scheme_prefix())
    &&& has_class(url, CharClass::Colon)
    &&& !has_class(before_first(url, CharClass::Colon), CharClass::Slash)
}

proof fn lemma_no_ws_trim(url: Seq<char>)
    requires
        !has_class(url, CharClass::WhiteSpace),
    ensures
        trim(url) == url,
{
    lemma_trim_start_class_is(url, CharClass::WhiteSpace, 0);
    assert(url.skip(0) =~= url);
    lemma_trim_end_class_is(url, CharClass::WhiteSpace, url.len() as int);
    assert(url.take(url.len() as int) =~= url);
}

/// An scp-like remote without a user part names the host before its `:`,
/// over SSH: `host:path` has the host key `ssh://host` (lower-cased).
pub proof fn lemma_scp_host(url: Seq<char>)
    requires
        scp_like(url),
        !has_class(before_first(url, CharClass::Colon), CharClass::At),
        before_first(url, CharClass::Colon).len() > 0,
    ensures
        remote_metadata_of(url) == Some(
            (
                ssh_scheme_prefix() + ascii_lower(before_first(url, CharClass::Colon)),
                ProtocolFamily::Ssh,
            ),
        ),
{
    lemma_no_ws_trim(url);
    let head = before_first(url, CharClass::Colon);
    assert forall|j: int| -1 < j < head.len() implies !in_class(CharClass::At, #[trigger] head[j]) by {
        if in_class(CharClass::At, head[j]) {
            assert(has_class(head, CharClass::At));
        }
    }
    lemma_last_in_class_is(head, CharClass::At, -1);
    assert(head.skip(0) =~= head);
}

/// The user part of an scp-like remote does not change its host: `user@`
/// before `host:path` (a user with no `@`, `:`, `/` or white space) gives
/// the same host key and family as `host:path`.
pub proof fn lemma_scp_user_ignored(user: Seq<char>, url: Seq<char>)
    requires
        scp_like(url),
        !has_class(before_first(url, CharClass::Colon), CharClass::At),
        !has_class(user, CharClass::At),
        !has_class(user, CharClass::Colon),
        !has_class(user, CharClass::Slash),
        !has_class(user, CharClass::WhiteSpace),
    ensures
        remote_metadata_of(user + "@"@ + url) == remote_metadata_of(url),
{
    reveal_strlit("@");
    let full = user + "@"@ + url;
    let n = user.len() as int;
    lemma_no_ws_trim(url);
    assert(!has_class(full, CharClass::WhiteSpace)) by {
        if has_class(full, CharClass::WhiteSpace) {
            let k = choose|k: int| 0 <= k < full.len() && in_class(CharClass::WhiteSpace, #[trigger] full[k]);
            if k < n {
                assert(full[k] == user[k]);
                assert(has_class(user, CharClass::WhiteSpace));
            } else if k > n {
                assert(full[k] == url[k - n - 1]);
                assert(has_class(url, CharClass::WhiteSpace));
            }
        }
    }
    lemma_no_ws_trim(full);
    // The scheme prefixes hold a `:` and no `@`, so the full text has none.
    let lower = ascii_lower(full);
    lemma_lower_seq(full, CharClass::WhiteSpace);
    assert forall|q: int| 0 <= q <= n implies lower[q] != ':' by {
        lemma_lower_char(full[q], CharClass::Colon);
        if q < n {
            assert(full[q] == user[q]);
            if full[q] == ':' {
                assert(has_class(user, CharClass::Colon));
            }
        } else {
            assert(full[q] == '@');
        }
    }
    assert forall|q: int| 0 <= q <= n implies lower[q] != '/' by {
        lemma_lower_char(full[q], CharClass::Slash);
        if q < n {
            assert(full[q] == user[q]);
            if full[q] == '/' {
                assert(has_class(user, CharClass::Slash));
            }
        } else {
            assert(full[q] == '@');
        }
    }
    assert(!is_http_like(lower)) by {
        if starts_with(lower, http_scheme_prefix()) {
            if n >= 4 {
                assert(lower[4] == http_scheme_prefix()[4]);
            } else {
                assert(lower[n] == http_scheme_prefix()[n]);
            }
        }
        if starts_with(lower, https_scheme_prefix()) {
            if n >= 5 {
                assert(lower[5] == https_scheme_prefix()[5]);
            } else {
                assert(lower[n] == https_scheme_prefix()[n]);
            }
        }
    }
    assert(!starts_with(lower, ssh_scheme_prefix())) by {
        if starts_with(lower, ssh_scheme_prefix()) {
            if n >= 3 {
                assert(lower[3] == ssh_scheme_prefix()[3]);
            } else {
                assert(lower[n] == ssh_scheme_prefix()[n]);
            }
        }
    }
    // The first `:` of the full text is the first `:` of `url`.
    let c = first_in_class(url, CharClass::Colon);
    lemma_first_in_class_bounds(url, CharClass::Colon);
    lemma_has_class_first(url, CharClass::Colon);
    assert forall|j: int| 0 <= j < n + 1 + c implies !in_class(CharClass::Colon, #[trigger] full[j]) by {
        if j < n {
            assert(full[j] == user[j]);
            if in_class(CharClass::Colon, full[j]) {
                assert(has_class(user, CharClass::Colon));
            }
        } else if j > n {
            assert(full[j] == url[j - n - 1]);
        }
    }
    assert(full[n + 1 + c] == url[c]);
    lemma_first_in_class_is(full, CharClass::Colon, n + 1 + c);
    let head = before_first(full, CharClass::Colon);
    let uhead = before_first(url, CharClass::Colon);
    assert(head =~= user + "@"@ + uhead);
    assert(has_class(full, CharClass::Colon)) by {
        assert(in_class(CharClass::Colon, full[n + 1 + c]));
    }
    assert(!has_class(head, CharClass::Slash)) by {
        if has_class(head, CharClass::Slash) {
            let k = choose|k: int| 0 <= k < head.len() && in_class(CharClass::Slash, #[trigger] head[k]);
            if k < n {
                assert(head[k] == user[k]);
                assert(has_class(user, CharClass::Slash));
            } else if k > n {
                assert(head[k] == uhead[k - n - 1]);
                assert(has_class(uhead, CharClass::Slash));
            }
        }
    }
    // The host is what follows the `@` of the user part.
    assert forall|j: int| n < j < head.len() implies !in_class(CharClass::At, #[trigger] head[j]) by {
        assert(head[j] == uhead[j - n - 1]);
        if in_class(CharClass::At, head[j]) {
            assert(has_class(uhead, CharClass::At));
        }
    }
    lemma_last_in_class_is(head, CharClass::At, n);
    assert(head.skip(n + 1) =~= uhead);
    assert forall|j: int| -1 < j < uhead.len() implies !in_class(CharClass::At, #[trigger] uhead[j]) by {
        if in_class(CharClass::At, uhead[j]) {
            assert(has_class(uhead, CharClass::At));
        }
    }
    lemma_last_in_class_is(uhead, CharClass::At, -1);
    assert(uhead.skip(0) =~= uhead);
}

// ---------------------------------------------------------------- executable

fn http_prefix_chars() -> (v: Vec<char>)
    ensures
        v@ == http_scheme_prefix(),
{
    let v = chars_of("http://");
    proof {
        reveal_strlit("http://");
        assert(v@ =~= http_scheme_prefix());
    }
    v
}

fn https_prefix_chars() -> (v: Vec<char>)
    ensures
        v@ == https_scheme_prefix(),
{
    let v = chars_of("https://");
    proof {
        reveal_strlit("https://");
        assert(v@ =~= https_scheme_prefix());
    }
    v
}

fn ssh_prefix_chars() -> (v: Vec<char>)
    ensures
        v@ == ssh_scheme_prefix(),
{
    let v = chars_of("ssh://");
    proof {
        reveal_strlit("ssh://");
        assert(v@ =~= ssh_scheme_prefix());
    }
    v
}

/// `url_authority` of `rest`.
fn authority_of(rest: &[char]) -> (r: Vec<char>)
    ensures
        r@ == url_authority(rest@),
{
    let cut = find_first(rest, CharClass::UrlDelimiter);
    let head = copy_range(rest, 0, cut);
    assert(head@ =~= before_first(rest@, CharClass::UrlDelimiter));
    let trimmed = trim_chars(&head, CharClass::WhiteSpace);
    let at = find_last(&trimmed, CharClass::At);
    proof {
        lemma_last_in_class_bounds(trimmed@, CharClass::At);
    }
    let start = match at {
        Some(i) => i + 1,
        None => 0,
    };
    let r = copy_range(&trimmed, start, trimmed.len());
    assert(r@ =~= trimmed@.skip(start as int));
    r
}

/// Prefix followed by the lower-cased characters, as a `String`.
fn prefixed_lower(prefix: &[char], body: &[char]) -> (r: String)
    ensures
        r@ == prefix@ + ascii_lower(body@),
{
    let mut out = copy_range(prefix, 0, prefix.len());
    assert(out@ =~= prefix@);
    let lowered = lower_chars(body);
    append_chars(&mut out, &lowered);
    string_of(&out)
}

/// Host key and protocol family of a remote URL.
pub fn remote_metadata(url: &str) -> (r: Option<RemoteMetadata>)
    ensures
        match r {
            Some(m) => remote_metadata_of(url@) == Some((m.host_key@, m.protocol_family)),
            None => remote_metadata_of(url@) is None,
        },
{
    let all = chars_of(url);
    let t = trim_chars(&all, CharClass::WhiteSpace);
    let lower = lower_chars(&t);
    let http = http_prefix_chars();
    let https = https_prefix_chars();
    let ssh = ssh_prefix_chars();
    let is_http = has_prefix(&lower, &http);
    if is_http || has_prefix(&lower, &https) {
        let scheme_len: usize = if is_http { 4 } else { 5 };
        let rest = copy_range(&t, scheme_len + 3, t.len());
        assert(rest@ =~= t@.skip(scheme_len + 3));
        let authority = authority_of(&rest);
        let host_port = trim_chars(&authority, CharClass::Bracket);
        if host_port.len() == 0 {
            return None;
        }
        let host_key = prefixed_lower(&https, &host_port);
        return Some(RemoteMetadata { host_key, protocol_family: ProtocolFamily::Https });
    }
    if has_prefix(&lower, &ssh) {
        let rest = copy_range(&t, 6, t.len());
        assert(rest@ =~= t@.skip(6));
        let authority = authority_of(&rest);
        if authority.len() == 0 {
            return None;
        }
        let host_key = prefixed_lower(&ssh, &authority);
        return Some(RemoteMetadata { host_key, protocol_family: ProtocolFamily::Ssh });
    }
    let colon = find_first(&t, CharClass::Colon);
    proof {
        lemma_has_class_first(t@, CharClass::Colon);
    }
    if colon < t.len() {
        let left = copy_range(&t, 0, colon);
        assert(left@ =~= before_first(t@, CharClass::Colon));
        if !contains_class(&left, CharClass::Slash) {
            let at = find_last(&left, CharClass::At);
            proof {
                lemma_last_in_class_bounds(left@, CharClass::At);
            }
            let start = match at {
                Some(i) => i + 1,
                None => 0,
            };
            let host = copy_range(&left, start, left.len());
            assert(host@ =~= after_last(left@, CharClass::At));
            if host.len() > 0 {
                let host_key = prefixed_lower(&ssh, &host);
                return Some(RemoteMetadata { host_key, protocol_family: ProtocolFamily::Ssh });
            }
        }
    }
    None
}

/// The normal form in which remote URLs are compared.
pub fn normalize_remote_url(url: &str) -> (r: String)
    ensures
        r@ == normalized_remote_url(url@),
{
    let all = chars_of(url);
    let trimmed = trim_chars(&all, CharClass::WhiteSpace);
    let t = trim_end_chars(&trimmed, CharClass::Slash);
    let lower = lower_chars(&t);
    let http = http_prefix_chars();
    let https = https_prefix_chars();
    let is_http = has_prefix(&lower, &http);
    if is_http || has_prefix(&lower, &https) {
        let scheme_len: usize = if is_http { 4 } else { 5 };
        let rest = copy_range(&t, scheme_len + 3, t.len());
        assert(rest@ =~= t@.skip(scheme_len + 3));
        let cut = find_first(&rest, CharClass::UrlDelimiter);
        let head = copy_range(&rest, 0, cut);
        let path = copy_range(&rest, cut, rest.len());
        assert(head@ =~= rest@.take(cut as int));
        assert(path@ =~= rest@.skip(cut as int));
        let at = find_last(&head, CharClass::At);
        proof {
            lemma_last_in_class_bounds(head@, CharClass::At);
        }
        let start = match at {
            Some(i) => i + 1,
            None => 0,
        };
        let authority = copy_range(&head, start, head.len());
        assert(authority@ =~= after_last(head@, CharClass::At));
        let mut out = copy_range(&lower, 0, scheme_len + 3);
        let lowered_authority = lower_chars(&authority);
        let lowered_path = lower_chars(&path);
        append_chars(&mut out, &lowered_authority);
        append_chars(&mut out, &lowered_path);
        assert(out@ =~= lower@.take(scheme_len + 3) + ascii_lower(authority@) + ascii_lower(
            path@,
        ));
        return string_of(&out);
    }
    string_of(&lower)
}

} // verus!
