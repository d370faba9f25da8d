//! The credential index: picking the record for a request, ordering records,
//! record time stamps and ids, and the in-memory credential store.

use vstd::prelude::*;

use crate::credentials::{
    is_credential_from, normalize_display_name, normalized_display_name, requested_kind, scope_rank, spec_requested_kind, spec_scope_rank,
    CredentialRecord, CredentialRequest, CredentialScope, CredentialTypes, GitCredential,
    StoredCredential, StoredCredentialKind,
};
use crate::lookup::{first_match, is_first_match, kept, lemma_first_match_is};
use crate::remote_url::{normalize_remote_url, normalized_remote_url, remote_metadata, remote_metadata_of};
use crate::error::GitError;
use crate::text::{
    opt_view, owned,
    lemma_seq_less_irreflexive, lemma_seq_less_transitive, same_text,
    seq_less, text_less,
};

verus! {

/// Nanoseconds since the Unix epoch, read from the system clock
/// (`std::time::SystemTime::now` and `duration_since(UNIX_EPOCH)`); zero
/// when the clock stands before the epoch. The value depends on the clock,
/// so nothing is stated of it.
#[verifier::external_body]
fn unix_time_nanos() -> u128 {
    std::time::SystemTime::now().duration_since(std::time::UNIX_EPOCH).map(
        |duration| duration.as_nanos(),
    ).unwrap_or_default()
}

/// The whole seconds in `nanos` nanoseconds, cast to a signed number as
/// `as i64` casts (keeping the low 64 bits).
pub fn seconds_from_nanos(nanos: u128) -> (r: i64)
    ensures
        r == (nanos / 1_000_000_000) as i64,
{
    let seconds: u128 = nanos / 1_000_000_000;
    #[verifier::truncate]
    (seconds as i64)
}

/// Whole seconds since the Unix epoch, as a signed number. The value comes
/// from the system clock, so no clause states it; `seconds_from_nanos`
/// states how the clock reading becomes seconds.
pub fn now_seconds() -> i64 {
    let nanos = unix_time_nanos();
    seconds_from_nanos(nanos)
}

/// The lower-case hexadecimal digit of a value below 16.
pub open spec fn hex_digit(d: nat) -> char {
    if d < 10 {
        ((d + 48) as u8) as char
    } else {
        ((d + 87) as u8) as char
    }
}

/// The lower-case hexadecimal digits of `n`, without leading zeros.
pub open spec fn hex_lower(n: nat) -> Seq<char>
    decreases n,
{
    if n < 16 {
        seq![hex_digit(n)]
    } else {
        hex_lower(n / 16).push(hex_digit(n % 16))
    }
}

fn hex_digit_char(d: u128) -> (c: char)
    requires
        d < 16,
    ensures
        c == hex_digit(d as nat),
{
    let b: u8 = if d < 10 {
        (d as u8) + 48
    } else {
        (d as u8) + 87
    };
    b as char
}

/// `n` written in lower-case hexadecimal.
pub fn hex_string(n: u128) -> (r: String)
    ensures
        r@ == hex_lower(n as nat),
{
    let mut digits: Vec<char> = Vec::new();
    let mut rest: u128 = n;
    // digits of `n` below the current position, least significant first
    while rest >= 16
        invariant
            hex_lower(n as nat) == hex_lower(rest as nat) + digits@.reverse(),
        decreases rest,
    {
        let d = hex_digit_char(rest % 16);
        proof {
            assert(hex_lower(rest as nat) == hex_lower((rest / 16) as nat).push(d));
            assert(hex_lower(rest as nat) + digits@.reverse() =~= hex_lower((rest / 16) as nat)
                + digits@.push(d).reverse());
        }
        digits.push(d);
        rest = rest / 16;
    }
    let last = hex_digit_char(rest);
    digits.push(last);
    proof {
        assert(hex_lower(rest as nat) =~= seq![last]);
        assert(digits@.reverse() =~= seq![last] + digits@.drop_last().reverse());
    }
    let mut out: Vec<char> = Vec::new();
    let mut i: usize = digits.len();
    while i > 0
        invariant
            i <= digits.len(),
            out@ =~= digits@.subrange(i as int, digits@.len() as int).reverse(),
            hex_lower(n as nat) == digits@.reverse(),
        decreases i,
    {
        i = i - 1;
        out.push(digits[i]);
        proof {
            assert(digits@.subrange(i as int, digits@.len() as int).reverse() =~= digits@.subrange(
                (i + 1) as int,
                digits@.len() as int,
            ).reverse().push(digits@[i as int]));
        }
    }
    proof {
        assert(digits@.subrange(0, digits@.len() as int) =~= digits@);
    }
    crate::text::string_of(&out)
}

/// The id of a new record: the current time in nanoseconds, in lower-case
/// hexadecimal.
pub fn new_record_id() -> (r: String)
    ensures
        exists|n: u128| r@ == hex_lower(n as nat),
{
    hex_string(unix_time_nanos())
}

/// The later of two integers.
pub open spec fn later(a: int, b: int) -> int {
    if a >= b {
        a
    } else {
        b
    }
}

/// The latest time stamp of a non-empty list of records.
pub open spec fn latest_of(s: Seq<CredentialRecord>) -> int
    recommends
        s.len() > 0,
    decreases s.len(),
{
    if s.len() <= 1 {
        s[0].latest_time()
    } else {
        later(latest_of(s.drop_last()), s.last().latest_time())
    }
}

/// The time stamp for the next change of the index: `now`, but later than
/// every time stamp already in it.
pub open spec fn next_timestamp(s: Seq<CredentialRecord>, now: int) -> int {
    if s.len() == 0 {
        now
    } else {
        later(now, latest_of(s) + 1)
    }
}

/// No time stamp in the index is the largest `i64`, so a later one exists.
pub open spec fn timestamps_below_max(s: Seq<CredentialRecord>) -> bool {
    forall|i: int| 0 <= i < s.len() ==> #[trigger] s[i].latest_time() < i64::MAX
}

/// `latest_of` is an upper bound that some record reaches.
pub proof fn lemma_latest_of_bounds(s: Seq<CredentialRecord>)
    requires
        s.len() > 0,
    ensures
        forall|i: int| 0 <= i < s.len() ==> #[trigger] s[i].latest_time() <= latest_of(s),
        exists|i: int| 0 <= i < s.len() && s[i].latest_time() == latest_of(s),
    decreases s.len(),
{
    if s.len() > 1 {
        let t = s.drop_last();
        lemma_latest_of_bounds(t);
        assert forall|i: int| 0 <= i < s.len() implies #[trigger] s[i].latest_time() <= latest_of(
            s,
        ) by {
            if i < s.len() - 1 {
                assert(s[i] == t[i]);
            }
        }
        if latest_of(s) == s.last().latest_time() {
            assert(s[s.len() - 1].latest_time() == latest_of(s));
        } else {
            let k = choose|k: int| 0 <= k < t.len() && t[k].latest_time() == latest_of(t);
            assert(s[k] == t[k]);
        }
    } else {
        assert(s[0].latest_time() == latest_of(s));
    }
}

/// The time stamp for the next change: the later of `now` and one past the
/// latest time stamp (update or use) of any record.
pub fn next_record_timestamp(records: &[CredentialRecord], now: i64) -> (r: i64)
    requires
        timestamps_below_max(records@),
    ensures
        r == next_timestamp(records@, now as int),
        r >= now,
        forall|i: int| 0 <= i < records@.len() ==> #[trigger] records@[i].latest_time() < r,
{
    if records.len() == 0 {
        return now;
    }
    let mut latest: i64 = 0;
    let mut i: usize = 0;
    while i < records.len()
        invariant
            0 <= i <= records.len(),
            records@.len() > 0,
            timestamps_below_max(records@),
            i > 0 ==> latest == latest_of(records@.take(i as int)),
        decreases records.len() - i,
    {
        let record = &records[i];
        let used: i64 = match record.last_used {
            Some(t) => t,
            None => 0,
        };
        let this: i64 = if record.updated_at >= used {
            record.updated_at
        } else {
            used
        };
        assert(this == records@[i as int].latest_time());
        proof {
            assert(records@.take(i + 1).drop_last() =~= records@.take(i as int));
            assert(records@.take(i + 1).last() == records@[i as int]);
        }
        if i == 0 || this > latest {
            latest = this;
        }
        i = i + 1;
    }
    proof {
        assert(records@.take(records@.len() as int) =~= records@);
        lemma_latest_of_bounds(records@);
        let k = choose|k: int| 0 <= k < records@.len() && records@[k].latest_time() == latest_of(
            records@,
        );
        assert(records@[k].latest_time() < i64::MAX);
    }
    let next = latest + 1;
    if now >= next {
        now
    } else {
        next
    }
}


/// The id is among the listed ids.
pub open spec fn id_listed(rejected: Seq<String>, id: Seq<char>) -> bool {
    exists|k: int| 0 <= k < rejected.len() && #[trigger] rejected[k]@ == id
}

/// Whether a record may answer a request for `url`: not rejected, of the
/// requested kind, for the same host, and (for remote-scoped records) for
/// the same normalized remote URL.
pub open spec fn is_candidate(
    record: CredentialRecord,
    url: Seq<char>,
    kind: StoredCredentialKind,
    host: Seq<char>,
    rejected: Seq<String>,
) -> bool {
    &&& !id_listed(rejected, record.id@)
    &&& record.kind == kind
    &&& record.host@ == host
    &&& match record.scope {
        CredentialScope::RemoteUrl => normalized_remote_url(record.remote_url@)
            == normalized_remote_url(url),
        CredentialScope::Host => true,
    }
}

/// The last use of a record, zero when it was never used.
pub open spec fn last_used_or_zero(record: CredentialRecord) -> int {
    match record.last_used {
        Some(t) => t as int,
        None => 0,
    }
}

/// Preference between candidates: remote-scoped before host-wide, then the
/// most recently used, then the most recently updated.
pub open spec fn ranks_before(a: CredentialRecord, b: CredentialRecord) -> bool {
    let ra = spec_scope_rank(a.scope);
    let rb = spec_scope_rank(b.scope);
    ||| ra < rb
    ||| ra == rb && last_used_or_zero(a) > last_used_or_zero(b)
    ||| ra == rb && last_used_or_zero(a) == last_used_or_zero(b) && a.updated_at > b.updated_at
}

/// Among the first `n` records, `i` is the candidate that a stable sort by
/// preference puts first: no candidate ranks before it, and it ranks before
/// every earlier candidate.
pub open spec fn is_selected_within(
    s: Seq<CredentialRecord>,
    cand: spec_fn(CredentialRecord) -> bool,
    i: int,
    n: int,
) -> bool {
    &&& 0 <= i < n <= s.len()
    &&& cand(s[i])
    &&& forall|j: int|
        0 <= j < n && #[trigger] cand(s[j]) ==> !ranks_before(s[j], s[i]) && (j < i ==> ranks_before(
            s[i],
            s[j],
        ))
}

/// The position of the preferred candidate, or `-1` when there is none.
pub open spec fn preferred_position(
    s: Seq<CredentialRecord>,
    cand: spec_fn(CredentialRecord) -> bool,
) -> int {
    if exists|i: int| is_selected_within(s, cand, i, s.len() as int) {
        choose|i: int| is_selected_within(s, cand, i, s.len() as int)
    } else {
        -1
    }
}

/// The position of the record that answers a request for `url` that
/// accepts `allowed`, or `-1`.
pub open spec fn selection(
    records: Seq<CredentialRecord>,
    url: Seq<char>,
    allowed: crate::credentials::CredentialTypes,
    rejected: Seq<String>,
) -> int {
    match remote_metadata_of(url) {
        None => -1,
        Some(m) => match spec_requested_kind(allowed, m.1) {
            None => -1,
            Some(kind) => preferred_position(
                records,
                |r: CredentialRecord| is_candidate(r, url, kind, m.0, rejected),
            ),
        },
    }
}

proof fn lemma_selected_unique(
    s: Seq<CredentialRecord>,
    cand: spec_fn(CredentialRecord) -> bool,
    i: int,
    k: int,
)
    requires
        is_selected_within(s, cand, i, s.len() as int),
        is_selected_within(s, cand, k, s.len() as int),
    ensures
        i == k,
{
    if i < k {
        assert(cand(s[i]));
    } else if k < i {
        assert(cand(s[k]));
    }
}

fn id_is_listed(rejected: &[String], id: &String) -> (r: bool)
    ensures
        r == id_listed(rejected@, id@),
{
    let mut k: usize = 0;
    while k < rejected.len()
        invariant
            0 <= k <= rejected.len(),
            forall|j: int| 0 <= j < k ==> #[trigger] rejected@[j]@ != id@,
        decreases rejected.len() - k,
    {
        if same_text(rejected[k].as_str(), id.as_str()) {
            return true;
        }
        k = k + 1;
    }
    false
}

fn record_ranks_before(a: &CredentialRecord, b: &CredentialRecord) -> (r: bool)
    ensures
        r == ranks_before(*a, *b),
{
    let ra = scope_rank(a.scope);
    let rb = scope_rank(b.scope);
    let ua: i64 = match a.last_used {
        Some(t) => t,
        None => 0,
    };
    let ub: i64 = match b.last_used {
        Some(t) => t,
        None => 0,
    };
    ra < rb || (ra == rb && ua > ub) || (ra == rb && ua == ub && a.updated_at > b.updated_at)
}

/// The position of the record that answers the request, skipping rejected
/// record ids.
pub fn select_record_position(
    records: &[CredentialRecord],
    request: &CredentialRequest,
    rejected: &[String],
) -> (r: Option<usize>)
    ensures
        match r {
            Some(i) => i == selection(records@, request.url@, request.allowed_types, rejected@)
                && i < records@.len(),
            None => selection(records@, request.url@, request.allowed_types, rejected@) == -1,
        },
{
    let metadata = match remote_metadata(request.url.as_str()) {
        Some(m) => m,
        None => return None,
    };
    let kind = match requested_kind(request, metadata.protocol_family) {
        Some(k) => k,
        None => return None,
    };
    let ghost url = request.url@;
    let ghost cand = |r: CredentialRecord| is_candidate(r, url, kind, metadata.host_key@, rejected@);
    let wanted_url = normalize_remote_url(request.url.as_str());
    let mut best: Option<usize> = None;
    let mut j: usize = 0;
    while j < records.len()
        invariant
            0 <= j <= records.len(),
            cand == (|r: CredentialRecord| is_candidate(r, url, kind, metadata.host_key@, rejected@)),
            wanted_url@ == normalized_remote_url(url),
            match best {
                None => forall|k: int| 0 <= k < j ==> !cand(#[trigger] records@[k]),
                Some(b) => is_selected_within(records@, cand, b as int, j as int),
            },
        decreases records.len() - j,
    {
        let record = &records[j];
        let matches_url = match record.scope {
            CredentialScope::RemoteUrl => normalize_remote_url(record.remote_url.as_str())
                == wanted_url,
            CredentialScope::Host => true,
        };
        let is_cand = !id_is_listed(rejected, &record.id) && record.kind == kind && record.host
            == metadata.host_key && matches_url;
        assert(is_cand == cand(records@[j as int]));
        if is_cand {
            match best {
                None => {
                    best = Some(j);
                },
                Some(b) => {
                    if record_ranks_before(record, &records[b]) {
                        best = Some(j);
                    }
                },
            }
        }
        j = j + 1;
    }
    match best {
        None => {
            proof {
                if exists|i: int| is_selected_within(records@, cand, i, records@.len() as int) {
                    let i = choose|i: int|
                        is_selected_within(records@, cand, i, records@.len() as int);
                    assert(cand(records@[i]));
                }
            }
            None
        },
        Some(b) => {
            proof {
                let i = choose|i: int| is_selected_within(records@, cand, i, records@.len() as int);
                lemma_selected_unique(records@, cand, b as int, i);
            }
            Some(b)
        },
    }
}

/// The record that answers the request, skipping rejected record ids.
pub fn select_matching_record(
    records: &[CredentialRecord],
    request: &CredentialRequest,
    rejected: &[String],
) -> (r: Option<CredentialRecord>)
    ensures
        match r {
            Some(record) => {
                let i = selection(records@, request.url@, request.allowed_types, rejected@);
                0 <= i < records@.len() && record == records@[i]
            },
            None => selection(records@, request.url@, request.allowed_types, rejected@) == -1,
        },
{
    match select_record_position(records, request, rejected) {
        Some(i) => Some(records[i].duplicate()),
        None => None,
    }
}


/// The order of the record list: most recently updated first, then by
/// host, remote URL and user name.
pub open spec fn listed_before(a: CredentialRecord, b: CredentialRecord) -> bool {
    ||| a.updated_at > b.updated_at
    ||| a.updated_at == b.updated_at && seq_less(a.host@, b.host@)
    ||| a.updated_at == b.updated_at && a.host@ == b.host@ && seq_less(
        a.remote_url@,
        b.remote_url@,
    )
    ||| a.updated_at == b.updated_at && a.host@ == b.host@ && a.remote_url@ == b.remote_url@
        && seq_less(a.username@, b.username@)
}

/// Where a stable sort puts `x` after the already sorted `sorted`: before
/// the first record that `x` is listed before.
pub open spec fn insertion_point(sorted: Seq<CredentialRecord>, x: CredentialRecord) -> int {
    let p = first_match(sorted, |e: CredentialRecord| listed_before(x, e));
    if p < 0 {
        sorted.len() as int
    } else {
        p
    }
}

/// The records in list order; records that compare equal keep their order.
pub open spec fn sorted_records(s: Seq<CredentialRecord>) -> Seq<CredentialRecord>
    decreases s.len(),
{
    if s.len() == 0 {
        s
    } else {
        let rest = sorted_records(s.drop_last());
        rest.insert(insertion_point(rest, s.last()), s.last())
    }
}

/// The list order is a strict order.
pub proof fn lemma_listed_before_strict(a: CredentialRecord, b: CredentialRecord, c: CredentialRecord)
    ensures
        !listed_before(a, a),
        listed_before(a, b) && listed_before(b, c) ==> listed_before(a, c),
        listed_before(a, b) ==> !listed_before(b, a),
{
    lemma_seq_less_irreflexive(a.host@);
    lemma_seq_less_irreflexive(a.remote_url@);
    lemma_seq_less_irreflexive(a.username@);
    lemma_seq_less_transitive(a.host@, b.host@, c.host@);
    lemma_seq_less_transitive(a.remote_url@, b.remote_url@, c.remote_url@);
    lemma_seq_less_transitive(a.username@, b.username@, c.username@);
    lemma_seq_less_transitive(a.host@, b.host@, a.host@);
    lemma_seq_less_transitive(a.remote_url@, b.remote_url@, a.remote_url@);
    lemma_seq_less_transitive(a.username@, b.username@, a.username@);
}

fn record_listed_before(a: &CredentialRecord, b: &CredentialRecord) -> (r: bool)
    ensures
        r == listed_before(*a, *b),
{
    proof {
        lemma_seq_less_irreflexive(a.host@);
        lemma_seq_less_irreflexive(a.remote_url@);
    }
    if a.updated_at != b.updated_at {
        return a.updated_at > b.updated_at;
    }
    if !same_text(a.host.as_str(), b.host.as_str()) {
        return text_less(a.host.as_str(), b.host.as_str());
    }
    if !same_text(a.remote_url.as_str(), b.remote_url.as_str()) {
        return text_less(a.remote_url.as_str(), b.remote_url.as_str());
    }
    text_less(a.username.as_str(), b.username.as_str())
}

/// Sorts the records into list order (a stable sort).
pub fn sort_records(records: &mut Vec<CredentialRecord>)
    ensures
        final(records)@ == sorted_records(old(records)@),
{
    let mut sorted: Vec<CredentialRecord> = Vec::new();
    let mut i: usize = 0;
    while i < records.len()
        invariant
            0 <= i <= records.len(),
            records@ == old(records)@,
            sorted@ == sorted_records(records@.take(i as int)),
        decreases records.len() - i,
    {
        let x = records[i].duplicate();
        let ghost p_spec = insertion_point(sorted@, x);
        let mut p: usize = 0;
        while p < sorted.len() && !record_listed_before(&x, &sorted[p])
            invariant
                0 <= p <= sorted.len(),
                forall|j: int| 0 <= j < p ==> !listed_before(x, #[trigger] sorted@[j]),
            decreases sorted.len() - p,
        {
            p = p + 1;
        }
        proof {
            let pred = |e: CredentialRecord| listed_before(x, e);
            if p < sorted.len() {
                assert(is_first_match(sorted@, pred, p as int));
                lemma_first_match_is(sorted@, pred, p as int);
            } else {
                crate::lookup::lemma_first_match_none(sorted@, pred);
            }
            assert(records@.take(i + 1).drop_last() =~= records@.take(i as int));
            assert(records@.take(i + 1).last() == records@[i as int]);
        }
        sorted.insert(p, x);
        i = i + 1;
    }
    proof {
        assert(records@.take(records@.len() as int) =~= records@);
    }
    *records = sorted;
}


/// The order of a sequence of records is the list order: no record is
/// listed before one that precedes it.
pub open spec fn in_list_order(s: Seq<CredentialRecord>) -> bool {
    forall|i: int, j: int| 0 <= i < j < s.len() ==> !listed_before(#[trigger] s[j], #[trigger] s[i])
}

/// The record list is in list order: sorting puts no record after one that
/// should follow it.
pub proof fn lemma_sorted_records_in_order(s: Seq<CredentialRecord>)
    ensures
        in_list_order(sorted_records(s)),
    decreases s.len(),
{
    if s.len() > 0 {
        let rest = sorted_records(s.drop_last());
        lemma_sorted_records_in_order(s.drop_last());
        let x = s.last();
        let pred = |e: CredentialRecord| listed_before(x, e);
        let p = insertion_point(rest, x);
        crate::lookup::lemma_first_match_cases(rest, pred);
        let out = rest.insert(p, x);
        assert(out == sorted_records(s));
        assert forall|i: int, j: int| 0 <= i < j < out.len() implies !listed_before(
            #[trigger] out[j],
            #[trigger] out[i],
        ) by {
            if j < p {
                assert(out[i] == rest[i] && out[j] == rest[j]);
            } else if j == p {
                assert(out[i] == rest[i]);
                assert(!pred(rest[i]));
            } else if i > p {
                assert(out[i] == rest[i - 1] && out[j] == rest[j - 1]);
            } else if i == p {
                assert(out[j] == rest[j - 1]);
                assert(pred(rest[p]));
                lemma_listed_before_strict(rest[j - 1], x, rest[p]);
                lemma_listed_before_strict(x, rest[p], rest[p]);
            } else {
                assert(out[i] == rest[i] && out[j] == rest[j - 1]);
            }
        }
    }
}

/// Sorting keeps every record and adds none.
pub proof fn lemma_sorted_records_permutation(s: Seq<CredentialRecord>)
    ensures
        sorted_records(s).to_multiset() == s.to_multiset(),
    decreases s.len(),
{
    broadcast use vstd::seq_lib::group_to_multiset_ensures;

    if s.len() > 0 {
        let rest = sorted_records(s.drop_last());
        lemma_sorted_records_permutation(s.drop_last());
        let x = s.last();
        let pred = |e: CredentialRecord| listed_before(x, e);
        crate::lookup::lemma_first_match_cases(rest, pred);
        assert(s.drop_last().push(x) =~= s);
    } else {
        assert(sorted_records(s) == s);
    }
}


/// The position of the first record with the id, or `-1`.
pub open spec fn id_position(s: Seq<CredentialRecord>, id: Seq<char>) -> int {
    first_match(s, |r: CredentialRecord| r.id@ == id)
}

/// The position of the first record with the id.
pub fn find_record(records: &[CredentialRecord], id: &str) -> (r: Option<usize>)
    ensures
        match r {
            Some(i) => i == id_position(records@, id@) && i < records@.len(),
            None => id_position(records@, id@) == -1,
        },
{
    let ghost pred = |r: CredentialRecord| r.id@ == id@;
    let mut i: usize = 0;
    while i < records.len()
        invariant
            0 <= i <= records.len(),
            pred == (|r: CredentialRecord| r.id@ == id@),
            forall|j: int| 0 <= j < i ==> !pred(#[trigger] records@[j]),
        decreases records.len() - i,
    {
        if same_text(records[i].id.as_str(), id) {
            proof {
                assert(is_first_match(records@, pred, i as int));
                lemma_first_match_is(records@, pred, i as int);
            }
            return Some(i);
        }
        i = i + 1;
    }
    proof {
        crate::lookup::lemma_first_match_none(records@, pred);
    }
    None
}

/// The record stamped as used and updated at `t`.
pub open spec fn stamped(record: CredentialRecord, t: i64) -> CredentialRecord {
    CredentialRecord { last_used: Some(t), updated_at: t, ..record }
}

/// `b` is `a` bound to another remote URL and host, stamped at `t`.
pub open spec fn rebound(
    a: CredentialRecord,
    b: CredentialRecord,
    url: Seq<char>,
    host: Seq<char>,
    t: i64,
) -> bool {
    &&& b.id == a.id
    &&& b.display_name == a.display_name
    &&& b.scope == a.scope
    &&& b.kind == a.kind
    &&& b.host@ == host
    &&& b.remote_url@ == url
    &&& b.username == a.username
    &&& b.key_path == a.key_path
    &&& b.created_at == a.created_at
    &&& b.updated_at == t
    &&& b.last_used == Some(t)
}

/// Whether `m` is a `GitError::Credential` with the message `text`.
pub open spec fn is_credential_error(e: GitError, text: Seq<char>) -> bool {
    e matches GitError::Credential(m) && m@ == text
}


/// The record that saving `c` for `url` (of host `host`) updates rather
/// than adds: same scope, kind, host, normalized remote URL, user name and
/// key path.
pub open spec fn same_identity(
    record: CredentialRecord,
    c: GitCredential,
    host: Seq<char>,
    url: Seq<char>,
) -> bool {
    &&& record.scope == c.spec_scope()
    &&& record.kind == c.spec_kind()
    &&& record.host@ == host
    &&& normalized_remote_url(record.remote_url@) == normalized_remote_url(url)
    &&& record.username@ == c.spec_username()
    &&& opt_view(record.key_path) == c.spec_key_path()
}

/// The display name kept when saving a credential: its own, trimmed, and
/// none when blank or absent.
pub open spec fn saved_display_name(c: GitCredential) -> Option<Seq<char>> {
    match c.spec_display_name() {
        Some(d) => normalized_display_name(d),
        None => None,
    }
}

/// `b` is `a` saved again at `t`: the display name is replaced only by a
/// non-blank new one.
pub open spec fn resaved(
    a: CredentialRecord,
    b: CredentialRecord,
    display_name: Option<Seq<char>>,
    t: i64,
) -> bool {
    &&& b.id == a.id
    &&& opt_view(b.display_name) == (if display_name is Some {
        display_name
    } else {
        opt_view(a.display_name)
    })
    &&& b.scope == a.scope
    &&& b.kind == a.kind
    &&& b.host == a.host
    &&& b.remote_url == a.remote_url
    &&& b.username == a.username
    &&& b.key_path == a.key_path
    &&& b.created_at == a.created_at
    &&& b.updated_at == t
    &&& b.last_used == Some(t)
}

/// `b` is the record created when `c` is first saved for `url`, with the
/// id `id`, at `t`.
pub open spec fn created_for(
    b: CredentialRecord,
    c: GitCredential,
    id: Seq<char>,
    host: Seq<char>,
    url: Seq<char>,
    t: i64,
) -> bool {
    &&& b.id@ == id
    &&& opt_view(b.display_name) == saved_display_name(c)
    &&& b.scope == c.spec_scope()
    &&& b.kind == c.spec_kind()
    &&& b.host@ == host
    &&& b.remote_url@ == url
    &&& b.username@ == c.spec_username()
    &&& opt_view(b.key_path) == c.spec_key_path()
    &&& b.created_at == t
    &&& b.updated_at == t
    &&& b.last_used == Some(t)
}

/// The position of the first record with the same identity as the
/// credential saved for the request's URL (host `host_key`), or the number
/// of records when there is none.
pub(crate) fn identity_position(
    records: &[CredentialRecord],
    request: &CredentialRequest,
    credential: &GitCredential,
    host_key: &String,
) -> (r: usize)
    ensures
        r <= records@.len(),
        ({
            let p = first_match(
                records@,
                |record: CredentialRecord| same_identity(record, *credential, host_key@, request.url@),
            );
            if r < records@.len() {
                p == r
            } else {
                p == -1
            }
        }),
{
    let ghost pred = |record: CredentialRecord| same_identity(record, *credential, host_key@, request.url@);
    let wanted_url = normalize_remote_url(request.url.as_str());
    let scope = credential.scope();
    let kind = credential.kind();
    let username = credential.username();
    let key_path = credential.key_path();
    let mut p: usize = 0;
    while p < records.len()
        invariant
            0 <= p <= records.len(),
            pred == (|record: CredentialRecord| same_identity(record, *credential, host_key@, request.url@)),
            forall|j: int| 0 <= j < p ==> !pred(#[trigger] records@[j]),
            username@ == credential.spec_username(),
            crate::text::opt_str_view(key_path) == credential.spec_key_path(),
            scope == credential.spec_scope(),
            kind == credential.spec_kind(),
            wanted_url@ == normalized_remote_url(request.url@),
        decreases records.len() - p,
    {
        let record = &records[p];
        let same_key = match (&record.key_path, key_path) {
            (Some(a), Some(b)) => same_text(a.as_str(), b),
            (None, None) => true,
            _ => false,
        };
        let same = record.scope == scope && record.kind == kind && record.host == *host_key
            && normalize_remote_url(record.remote_url.as_str()) == wanted_url && same_text(
            record.username.as_str(),
            username,
        ) && same_key;
        assert(same == pred(records@[p as int]));
        if same {
            proof {
                assert(is_first_match(records@, pred, p as int));
                lemma_first_match_is(records@, pred, p as int);
            }
            return p;
        }
        p = p + 1;
    }
    proof {
        crate::lookup::lemma_first_match_none(records@, pred);
    }
    p
}

/// The record a save writes: the existing record stamped at `t` (taking the
/// credential's display name when it has a non-blank one), or a new record
/// for the credential with the id `new_id`.
pub(crate) fn record_for_save(
    existing: Option<&CredentialRecord>,
    request: &CredentialRequest,
    credential: &GitCredential,
    host_key: String,
    t: i64,
    new_id: String,
) -> (r: CredentialRecord)
    ensures
        match existing {
            Some(a) => resaved(*a, r, saved_display_name(*credential), t),
            None => created_for(r, *credential, new_id@, host_key@, request.url@, t),
        },
{
    let display_name = match credential.display_name() {
        Some(d) => normalize_display_name(d),
        None => None,
    };
    match existing {
        Some(a) => {
            let mut record = a.duplicate();
            record.updated_at = t;
            record.last_used = Some(t);
            if display_name.is_some() {
                record.display_name = display_name;
            }
            record
        },
        None => CredentialRecord {
            id: new_id,
            display_name,
            scope: credential.scope(),
            kind: credential.kind(),
            host: host_key,
            remote_url: request.url.clone(),
            username: owned(credential.username()),
            key_path: match credential.key_path() {
                Some(k) => Some(owned(k)),
                None => None,
            },
            created_at: t,
            updated_at: t,
            last_used: Some(t),
        },
    }
}

/// Credentials kept in memory for the life of the process: the record
/// index, and for each record the secret kept for its id.
pub struct MemoryCredentialStore {
    entries: Vec<(CredentialRecord, String)>,
}

impl MemoryCredentialStore {
    /// The record index, in the order records were added.
    pub closed spec fn records(self) -> Seq<CredentialRecord> {
        self.entries@.map_values(|e: (CredentialRecord, String)| e.0)
    }

    /// The secret kept for a record id, if any.
    pub closed spec fn secret_for(self, id: Seq<char>) -> Option<Seq<char>> {
        if exists|i: int| 0 <= i < self.entries@.len() && #[trigger] self.entries@[i].0.id@ == id {
            Some(
                self.entries@[choose|i: int|
                    0 <= i < self.entries@.len() && #[trigger] self.entries@[i].0.id@ == id].1@,
            )
        } else {
            None
        }
    }

    /// One secret per record id, and a secret for every record.
    pub closed spec fn wf(self) -> bool {
        forall|i: int, j: int|
            0 <= i < self.entries@.len() && 0 <= j < self.entries@.len()
                && #[trigger] self.entries@[i].0.id@ == #[trigger] self.entries@[j].0.id@
                ==> self.entries@[i].1@ == self.entries@[j].1@
    }

    /// Every record has its secret; ids without a record have none.
    pub proof fn lemma_secret_for_records(self, id: Seq<char>)
        requires
            self.wf(),
        ensures
            self.secret_for(id) is Some <==> exists|i: int|
                0 <= i < self.records().len() && #[trigger] self.records()[i].id@ == id,
    {
        if self.secret_for(id) is Some {
            let i = choose|i: int| 0 <= i < self.entries@.len() && #[trigger] self.entries@[i].0.id@ == id;
            assert(self.records()[i] == self.entries@[i].0);
        }
        if exists|i: int| 0 <= i < self.records().len() && #[trigger] self.records()[i].id@ == id {
            let i = choose|i: int| 0 <= i < self.records().len() && #[trigger] self.records()[i].id@ == id;
            assert(self.records()[i] == self.entries@[i].0);
        }
    }

    proof fn lemma_secret_at(self, id: Seq<char>, i: int)
        requires
            self.wf(),
            0 <= i < self.entries@.len(),
            self.entries@[i].0.id@ == id,
        ensures
            self.secret_for(id) == Some(self.entries@[i].1@),
    {
        let k = choose|k: int| 0 <= k < self.entries@.len() && #[trigger] self.entries@[k].0.id@ == id;
        assert(self.entries@[k].0.id@ == self.entries@[i].0.id@);
    }

    /// An empty store.
    pub fn new() -> (r: Self)
        ensures
            r.wf(),
            r.records() == Seq::<CredentialRecord>::empty(),
            forall|id: Seq<char>| r.secret_for(id) is None,
    {
        let r = MemoryCredentialStore { entries: Vec::new() };
        assert(r.records() =~= Seq::<CredentialRecord>::empty());
        r
    }

    /// Whether a later time stamp than every one in the index exists, which
    /// the operations that stamp a record need.
    pub fn timestamps_can_advance(&self) -> (r: bool)
        ensures
            r == timestamps_below_max(self.records()),
    {
        let mut i: usize = 0;
        while i < self.entries.len()
            invariant
                0 <= i <= self.entries.len(),
                forall|j: int| 0 <= j < i ==> #[trigger] self.records()[j].latest_time() < i64::MAX,
            decreases self.entries.len() - i,
        {
            let record = &self.entries[i].0;
            assert(self.records()[i as int] == *record);
            let used: i64 = match record.last_used {
                Some(t) => t,
                None => 0,
            };
            if record.updated_at == i64::MAX || used == i64::MAX {
                assert(self.records()[i as int].latest_time() == i64::MAX);
                return false;
            }
            i = i + 1;
        }
        true
    }

    fn record_list(&self) -> (r: Vec<CredentialRecord>)
        ensures
            r@ == self.records(),
    {
        let mut out: Vec<CredentialRecord> = Vec::new();
        let mut i: usize = 0;
        while i < self.entries.len()
            invariant
                0 <= i <= self.entries.len(),
                out@ == self.records().take(i as int),
            decreases self.entries.len() - i,
        {
            out.push(self.entries[i].0.duplicate());
            proof {
                assert(self.records().take(i + 1) =~= self.records().take(i as int).push(
                    self.entries@[i as int].0,
                ));
            }
            i = i + 1;
        }
        proof {
            assert(self.records().take(self.entries@.len() as int) =~= self.records());
        }
        out
    }

    proof fn lemma_secrets_kept(self, other: Self)
        requires
            self.wf(),
            other.entries@.len() == self.entries@.len(),
            forall|i: int|
                0 <= i < self.entries@.len() ==> (#[trigger] other.entries@[i]).0.id@
                    == self.entries@[i].0.id@ && other.entries@[i].1@ == self.entries@[i].1@,
        ensures
            other.wf(),
            forall|id: Seq<char>| #[trigger] other.secret_for(id) == self.secret_for(id),
    {
        assert forall|i: int, j: int|
            0 <= i < other.entries@.len() && 0 <= j < other.entries@.len()
                && #[trigger] other.entries@[i].0.id@ == #[trigger] other.entries@[j].0.id@
                implies other.entries@[i].1@ == other.entries@[j].1@ by {
            assert(self.entries@[i].0.id@ == self.entries@[j].0.id@);
        }
        assert forall|id: Seq<char>| #[trigger] other.secret_for(id) == self.secret_for(id) by {
            if exists|i: int| 0 <= i < self.entries@.len() && #[trigger] self.entries@[i].0.id@ == id {
                let i = choose|i: int|
                    0 <= i < self.entries@.len() && #[trigger] self.entries@[i].0.id@ == id;
                self.lemma_secret_at(id, i);
                assert(other.entries@[i].0.id@ == id);
                other.lemma_secret_at(id, i);
            } else {
                assert forall|i: int| 0 <= i < other.entries@.len() implies #[trigger] other.entries@[i].0.id@ != id by {
                    assert(other.entries@[i].0.id@ == self.entries@[i].0.id@);
                }
            }
        }
    }

    /// Replaces the record at `i`, keeping its id and secret.
    fn replace_record(&mut self, i: usize, record: CredentialRecord)
        requires
            old(self).wf(),
            i < old(self).entries@.len(),
            record.id@ == old(self).entries@[i as int].0.id@,
        ensures
            final(self).wf(),
            final(self).records() == old(self).records().update(i as int, record),
            forall|id: Seq<char>| #[trigger] final(self).secret_for(id) == old(self).secret_for(id),
    {
        let secret = self.entries[i].1.clone();
        let ghost before = *self;
        self.entries.set(i, (record, secret));
        proof {
            assert(self.records() =~= before.records().update(i as int, record));
            before.lemma_secrets_kept(*self);
        }
    }

    /// What stamping a record does: the first record with the id is stamped
    /// as used and updated at the next time stamp; without such a record,
    /// nothing changes.
    pub open spec fn touch_outcome(
        before: Self,
        after: Self,
        record_id: Seq<char>,
        now: i64,
        r: Option<CredentialRecord>,
    ) -> bool {
        let p = id_position(before.records(), record_id);
        let t = next_timestamp(before.records(), now as int) as i64;
        if p < 0 {
            r is None && after.records() == before.records()
        } else {
            r == Some(stamped(before.records()[p], t)) && after.records()
                == before.records().update(p, stamped(before.records()[p], t))
        }
    }

    /// Stamps the first record with the id as used now, at a time stamp
    /// later than every other in the index; `None` when no record has the id.
    pub fn touch_record_at(&mut self, record_id: &str, now: i64) -> (r: Option<CredentialRecord>)
        requires
            old(self).wf(),
            timestamps_below_max(old(self).records()),
        ensures
            final(self).wf(),
            forall|id: Seq<char>| #[trigger] final(self).secret_for(id) == old(self).secret_for(id),
            Self::touch_outcome(*old(self), *final(self), record_id@, now, r),
    {
        let records = self.record_list();
        let t = next_record_timestamp(&records, now);
        match find_record(&records, record_id) {
            None => None,
            Some(i) => {
                let mut record = records[i].duplicate();
                record.last_used = Some(t);
                record.updated_at = t;
                assert(record == stamped(records@[i as int], t));
                let result = record.duplicate();
                self.replace_record(i, record);
                Some(result)
            },
        }
    }

    /// What binding a record to another remote does: an error when the URL
    /// has no host or no record has the id; else the first record with the
    /// id takes the URL and its host and is stamped at the next time stamp.
    pub open spec fn rebind_outcome(
        before: Self,
        after: Self,
        record_id: Seq<char>,
        remote_url: Seq<char>,
        now: i64,
        r: Result<CredentialRecord, GitError>,
    ) -> bool {
        match remote_metadata_of(remote_url) {
            None => r matches Err(e) && is_credential_error(e, "无法解析远端地址，不能绑定凭据"@)
                && after.records() == before.records(),
            Some(m) => {
                let p = id_position(before.records(), record_id);
                let t = next_timestamp(before.records(), now as int) as i64;
                if p < 0 {
                    r matches Err(e) && is_credential_error(e, "凭据记录不存在"@) && after.records()
                        == before.records()
                } else {
                    r matches Ok(b) && rebound(before.records()[p], b, remote_url, m.0, t)
                        && after.records() == before.records().update(p, b)
                }
            },
        }
    }

    /// Binds the first record with the id to another remote URL (and its
    /// host), stamped later than every other time stamp in the index.
    pub fn update_record_remote_url_at(&mut self, record_id: &str, remote_url: &str, now: i64) -> (r:
        Result<CredentialRecord, GitError>)
        requires
            old(self).wf(),
            remote_metadata_of(remote_url@) is Some ==> timestamps_below_max(old(self).records()),
        ensures
            final(self).wf(),
            forall|id: Seq<char>| #[trigger] final(self).secret_for(id) == old(self).secret_for(id),
            Self::rebind_outcome(*old(self), *final(self), record_id@, remote_url@, now, r),
    {
        let metadata = match remote_metadata(remote_url) {
            Some(m) => m,
            None => {
                return Err(GitError::Credential(crate::text::owned("无法解析远端地址，不能绑定凭据")));
            },
        };
        let records = self.record_list();
        let t = next_record_timestamp(&records, now);
        match find_record(&records, record_id) {
            None => Err(GitError::Credential(crate::text::owned("凭据记录不存在"))),
            Some(i) => {
                let mut record = records[i].duplicate();
                record.remote_url = crate::text::owned(remote_url);
                record.host = metadata.host_key;
                record.last_used = Some(t);
                record.updated_at = t;
                let result = record.duplicate();
                self.replace_record(i, record);
                Ok(result)
            },
        }
    }

    /// What looking a credential up does: the preferred matching record
    /// (see `selection`) with its secret gives the credential; the record is
    /// stamped as used at `now`, in the index too (at the first record with
    /// its id). Without such a record, or without its secret, nothing is
    /// found and the index is left as it was.
    pub open spec fn stored_outcome(
        before: Self,
        after: Self,
        url: Seq<char>,
        allowed: CredentialTypes,
        rejected: Seq<String>,
        now: i64,
        r: Option<StoredCredential>,
    ) -> bool {
        let sel = selection(before.records(), url, allowed, rejected);
        if sel < 0 {
            r is None && after.records() == before.records()
        } else {
            let record = before.records()[sel];
            match before.secret_for(record.id@) {
                None => r is None && after.records() == before.records(),
                Some(secret) => r matches Some(st) && st.record == stamped(record, now)
                    && is_credential_from(st.credential, record, secret) && after.records()
                    == before.records().update(
                    id_position(before.records(), record.id@),
                    stamped(record, now),
                ),
            }
        }
    }

    /// The credential for a request, from the preferred matching record
    /// whose id is not rejected; the record is stamped as used at `now`.
    pub fn get_stored_at(
        &mut self,
        request: &CredentialRequest,
        rejected_record_ids: &[String],
        now: i64,
    ) -> (r: Option<StoredCredential>)
        requires
            old(self).wf(),
        ensures
            final(self).wf(),
            forall|id: Seq<char>| #[trigger] final(self).secret_for(id) == old(self).secret_for(id),
            Self::stored_outcome(
                *old(self),
                *final(self),
                request.url@,
                request.allowed_types,
                rejected_record_ids@,
                now,
                r,
            ),
    {
        let records = self.record_list();
        let i = match select_record_position(&records, request, rejected_record_ids) {
            Some(i) => i,
            None => return None,
        };
        let record = records[i].duplicate();
        let k = match find_record(&records, record.id.as_str()) {
            Some(k) => k,
            None => {
                proof {
                    crate::lookup::lemma_first_match_cases(
                        records@,
                        |r: CredentialRecord| r.id@ == record.id@,
                    );
                    assert(records@[i as int].id@ == record.id@);
                }
                return None;
            },
        };
        proof {
            crate::lookup::lemma_first_match_cases(
                records@,
                |r: CredentialRecord| r.id@ == record.id@,
            );
            assert(self.records()[k as int] == self.entries@[k as int].0);
            self.lemma_secret_at(record.id@, k as int);
        }
        let secret = self.entries[k].1.clone();
        let credential = match GitCredential::from_record(&record, secret) {
            Some(c) => c,
            None => return None,
        };
        let mut updated = record.duplicate();
        updated.last_used = Some(now);
        updated.updated_at = now;
        assert(updated == stamped(record, now));
        self.replace_record(k, updated.duplicate());
        Some(StoredCredential { record: updated, credential })
    }

    /// The credential for a request, from the preferred matching record; the
    /// record is stamped as used at `now`.
    pub fn get_at(&mut self, request: &CredentialRequest, now: i64) -> (r: Option<GitCredential>)
        requires
            old(self).wf(),
        ensures
            final(self).wf(),
            forall|id: Seq<char>| #[trigger] final(self).secret_for(id) == old(self).secret_for(id),
            exists|found: Option<StoredCredential>|
                Self::stored_outcome(
                    *old(self),
                    *final(self),
                    request.url@,
                    request.allowed_types,
                    Seq::empty(),
                    now,
                    found,
                ) && match found {
                    Some(st) => r == Some(st.credential),
                    None => r is None,
                },
    {
        let rejected: Vec<String> = Vec::new();
        assert(rejected@ =~= Seq::<String>::empty());
        let found = self.get_stored_at(request, rejected.as_slice(), now);
        match found {
            Some(st) => Some(st.credential),
            None => None,
        }
    }

    /// One secret per record id, except perhaps for `id`.
    closed spec fn wf_except(self, id: Seq<char>) -> bool {
        forall|i: int, j: int|
            0 <= i < self.entries@.len() && 0 <= j < self.entries@.len()
                && #[trigger] self.entries@[i].0.id@ == #[trigger] self.entries@[j].0.id@
                && self.entries@[i].0.id@ != id ==> self.entries@[i].1@ == self.entries@[j].1@
    }

    proof fn lemma_push_keeps_secrets(self, pushed: Self, id: Seq<char>)
        requires
            self.wf(),
            pushed.entries@.len() == self.entries@.len() + 1,
            forall|i: int| 0 <= i < self.entries@.len() ==> #[trigger] pushed.entries@[i] == self.entries@[i],
            pushed.entries@[self.entries@.len() as int].0.id@ == id,
        ensures
            pushed.wf_except(id),
            forall|other: Seq<char>|
                other != id ==> #[trigger] pushed.secret_for(other) == self.secret_for(other),
    {
        let n = self.entries@.len() as int;
        assert forall|i: int, j: int|
            0 <= i < pushed.entries@.len() && 0 <= j < pushed.entries@.len()
                && #[trigger] pushed.entries@[i].0.id@ == #[trigger] pushed.entries@[j].0.id@
                && pushed.entries@[i].0.id@ != id implies pushed.entries@[i].1@ == pushed.entries@[j].1@ by {
            assert(i < n && j < n);
            assert(self.entries@[i].0.id@ == self.entries@[j].0.id@);
        }
        assert forall|other: Seq<char>| other != id implies #[trigger] pushed.secret_for(other)
            == self.secret_for(other) by {
            if exists|i: int| 0 <= i < pushed.entries@.len() && #[trigger] pushed.entries@[i].0.id@ == other {
                let i = choose|i: int| 0 <= i < pushed.entries@.len() && #[trigger] pushed.entries@[i].0.id@ == other;
                let j = choose|j: int| 0 <= j < pushed.entries@.len() && #[trigger] pushed.entries@[j].0.id@ == other;
                assert(i < n && j < n);
                assert(self.entries@[i].0.id@ == other);
                self.lemma_secret_at(other, i);
                assert(self.entries@[i].0.id@ == self.entries@[j].0.id@);
                assert(pushed.secret_for(other) == Some(pushed.entries@[j].1@));
            } else {
                assert forall|j: int| 0 <= j < self.entries@.len() implies #[trigger] self.entries@[j].0.id@ != other by {
                    assert(pushed.entries@[j] == self.entries@[j]);
                }
            }
        }
    }

    /// Keeps `secret` for every record with the id.
    fn set_secret(&mut self, id: &String, secret: &String)
        requires
            old(self).wf_except(id@),
        ensures
            final(self).wf(),
            final(self).records() == old(self).records(),
            (exists|i: int| 0 <= i < old(self).records().len() && #[trigger] old(self).records()[i].id@ == id@)
                ==> final(self).secret_for(id@) == Some(secret@),
            forall|other: Seq<char>|
                other != id@ ==> #[trigger] final(self).secret_for(other) == old(self).secret_for(other),
    {
        let ghost before = *self;
        let mut k: usize = 0;
        while k < self.entries.len()
            invariant
                0 <= k <= self.entries.len(),
                self.entries@.len() == before.entries@.len(),
                forall|j: int| 0 <= j < self.entries@.len() ==> (#[trigger] self.entries@[j]).0 == before.entries@[j].0,
                forall|j: int| 0 <= j < self.entries@.len() ==> (#[trigger] self.entries@[j]).1@ == (if j < k && before.entries@[j].0.id@ == id@ {
                    secret@
                } else {
                    before.entries@[j].1@
                }),
            decreases self.entries.len() - k,
        {
            if same_text(self.entries[k].0.id.as_str(), id.as_str()) {
                let record = self.entries[k].0.duplicate();
                self.entries.set(k, (record, secret.clone()));
            }
            k = k + 1;
        }
        proof {
            assert(self.records() =~= before.records());
            assert forall|i: int, j: int|
                0 <= i < self.entries@.len() && 0 <= j < self.entries@.len()
                    && #[trigger] self.entries@[i].0.id@ == #[trigger] self.entries@[j].0.id@
                    implies self.entries@[i].1@ == self.entries@[j].1@ by {
                assert(before.entries@[i].0.id@ == before.entries@[j].0.id@);
            }
            if exists|i: int| 0 <= i < before.records().len() && #[trigger] before.records()[i].id@ == id@ {
                let i = choose|i: int| 0 <= i < before.records().len() && #[trigger] before.records()[i].id@ == id@;
                assert(before.records()[i] == before.entries@[i].0);
                self.lemma_secret_at(id@, i);
            }
            assert forall|other: Seq<char>| other != id@ implies #[trigger] self.secret_for(other)
                == before.secret_for(other) by {
                if exists|i: int| 0 <= i < self.entries@.len() && #[trigger] self.entries@[i].0.id@ == other {
                    let i = choose|i: int| 0 <= i < self.entries@.len() && #[trigger] self.entries@[i].0.id@ == other;
                    self.lemma_secret_at(other, i);
                    assert(before.entries@[i].0.id@ == other);
                    let j = choose|j: int| 0 <= j < before.entries@.len() && #[trigger] before.entries@[j].0.id@ == other;
                    assert(before.secret_for(other) == Some(before.entries@[j].1@));
                    assert(before.entries@[i].0.id@ == before.entries@[j].0.id@);
                    assert(before.entries@[i].1@ == before.entries@[j].1@);
                } else {
                    assert forall|j: int| 0 <= j < before.entries@.len() implies #[trigger] before.entries@[j].0.id@ != other by {
                        assert(self.entries@[j].0 == before.entries@[j].0);
                    }
                }
            }
        }
    }

    /// What saving does: when the URL has no host, an error; else the
    /// record for the same identity (see `same_identity`) is stamped at the
    /// next time stamp and takes the new display name when there is one, or
    /// a new record with id `new_id` is added; the credential's secret is
    /// kept for the record's id.
    pub open spec fn save_outcome(
        before: Self,
        after: Self,
        url: Seq<char>,
        c: GitCredential,
        now: i64,
        new_id: Seq<char>,
        r: Result<CredentialRecord, GitError>,
    ) -> bool {
        match remote_metadata_of(url) {
            None => r matches Err(e) && is_credential_error(e, "无法解析远端地址，不能保存凭据"@)
                && after.records() == before.records() && forall|id: Seq<char>| #[trigger] after.secret_for(id) == before.secret_for(id),
            Some(m) => {
                let t = next_timestamp(before.records(), now as int) as i64;
                let p = first_match(
                    before.records(),
                    |record: CredentialRecord| same_identity(record, c, m.0, url),
                );
                &&& r matches Ok(rec)
                &&& after.secret_for(r->Ok_0.id@) == Some(c.spec_secret())
                &&& forall|id: Seq<char>| id != r->Ok_0.id@ ==> #[trigger] after.secret_for(id) == before.secret_for(id)
                &&& if p >= 0 {
                    resaved(before.records()[p], r->Ok_0, saved_display_name(c), t)
                        && after.records() == before.records().update(p, r->Ok_0)
                } else {
                    created_for(r->Ok_0, c, new_id, m.0, url, t) && after.records()
                        == before.records().push(r->Ok_0)
                }
            },
        }
    }

    /// Saves a credential for the request's remote URL at `now`, under the
    /// id `new_id` when it needs a new record.
    pub fn save_record_at(
        &mut self,
        request: &CredentialRequest,
        credential: &GitCredential,
        now: i64,
        new_id: String,
    ) -> (r: Result<CredentialRecord, GitError>)
        requires
            old(self).wf(),
            remote_metadata_of(request.url@) is Some ==> timestamps_below_max(old(self).records()),
        ensures
            final(self).wf(),
            Self::save_outcome(*old(self), *final(self), request.url@, *credential, now, new_id@, r),
    {
        let metadata = match remote_metadata(request.url.as_str()) {
            Some(m) => m,
            None => {
                return Err(GitError::Credential(owned("无法解析远端地址，不能保存凭据")));
            },
        };
        let records = self.record_list();
        let t = next_record_timestamp(&records, now);
        let p = identity_position(&records, request, credential, &metadata.host_key);
        let secret = credential.secret_for_keyring();
        if p < records.len() {
            let record = record_for_save(
                Some(&records[p]),
                request,
                credential,
                metadata.host_key,
                t,
                new_id,
            );
            let result = record.duplicate();
            self.replace_record(p, record);
            assert(self.records()[p as int].id@ == result.id@);
            self.set_secret(&result.id, &secret);
            Ok(result)
        } else {
            let record = record_for_save(None, request, credential, metadata.host_key, t, new_id);
            let result = record.duplicate();
            let ghost mid = *self;
            self.entries.push((record, secret.clone()));
            proof {
                assert(self.records() =~= mid.records().push(result));
                assert(self.records()[self.records().len() - 1].id@ == result.id@);
                mid.lemma_push_keeps_secrets(*self, result.id@);
            }
            self.set_secret(&result.id, &secret);
            Ok(result)
        }
    }

    /// Drops every record whose id is listed, with its secret.
    fn remove_ids(&mut self, ids: &[String])
        requires
            old(self).wf(),
        ensures
            final(self).wf(),
            final(self).records() == kept(
                old(self).records(),
                |r: CredentialRecord| !id_listed(ids@, r.id@),
            ),
            forall|id: Seq<char>| id_listed(ids@, id) ==> #[trigger] final(self).secret_for(id) is None,
            forall|id: Seq<char>|
                !id_listed(ids@, id) ==> #[trigger] final(self).secret_for(id) == old(self).secret_for(id),
    {
        let ghost before = *self;
        let ghost keep = |e: (CredentialRecord, String)| !id_listed(ids@, e.0.id@);
        let mut out: Vec<(CredentialRecord, String)> = Vec::new();
        let mut k: usize = 0;
        while k < self.entries.len()
            invariant
                0 <= k <= self.entries.len(),
                *self == before,
                keep == (|e: (CredentialRecord, String)| !id_listed(ids@, e.0.id@)),
                out@ == kept(self.entries@.take(k as int), keep),
            decreases self.entries.len() - k,
        {
            let listed = id_is_listed(ids, &self.entries[k].0.id);
            proof {
                assert(self.entries@.take(k + 1).drop_last() =~= self.entries@.take(k as int));
                assert(self.entries@.take(k + 1).last() == self.entries@[k as int]);
            }
            if !listed {
                let entry = (self.entries[k].0.duplicate(), self.entries[k].1.clone());
                out.push(entry);
            }
            k = k + 1;
        }
        proof {
            assert(self.entries@.take(self.entries@.len() as int) =~= self.entries@);
        }
        self.entries = out;
        proof {
            let fst = |e: (CredentialRecord, String)| e.0;
            let keep_record = |r: CredentialRecord| !id_listed(ids@, r.id@);
            crate::lookup::lemma_kept_map(before.entries@, fst, keep_record);
            assert(keep == (|a: (CredentialRecord, String)| keep_record(fst(a))));
            assert forall|i: int, j: int|
                0 <= i < self.entries@.len() && 0 <= j < self.entries@.len()
                    && #[trigger] self.entries@[i].0.id@ == #[trigger] self.entries@[j].0.id@
                    implies self.entries@[i].1@ == self.entries@[j].1@ by {
                crate::lookup::lemma_kept_from(before.entries@, keep, i);
                crate::lookup::lemma_kept_from(before.entries@, keep, j);
                let a = choose|a: int| 0 <= a < before.entries@.len() && before.entries@[a] == self.entries@[i] && keep(before.entries@[a]);
                let b = choose|b: int| 0 <= b < before.entries@.len() && before.entries@[b] == self.entries@[j] && keep(before.entries@[b]);
                assert(before.entries@[a].0.id@ == before.entries@[b].0.id@);
            }
            assert forall|id: Seq<char>| id_listed(ids@, id) implies #[trigger] self.secret_for(id) is None by {
                assert forall|i: int| 0 <= i < self.entries@.len() implies #[trigger] self.entries@[i].0.id@ != id by {
                    crate::lookup::lemma_kept_from(before.entries@, keep, i);
                }
            }
            assert forall|id: Seq<char>| !id_listed(ids@, id) implies #[trigger] self.secret_for(id) == before.secret_for(id) by {
                if exists|i: int| 0 <= i < before.entries@.len() && #[trigger] before.entries@[i].0.id@ == id {
                    let i = choose|i: int| 0 <= i < before.entries@.len() && #[trigger] before.entries@[i].0.id@ == id;
                    before.lemma_secret_at(id, i);
                    crate::lookup::lemma_kept_has(before.entries@, keep, i);
                    let j = choose|j: int| 0 <= j < self.entries@.len() && self.entries@[j] == before.entries@[i];
                    self.lemma_secret_at(id, j);
                } else {
                    assert forall|j: int| 0 <= j < self.entries@.len() implies #[trigger] self.entries@[j].0.id@ != id by {
                        crate::lookup::lemma_kept_from(before.entries@, keep, j);
                    }
                }
            }
        }
    }

    /// Drops the records with the id, and their secret.
    pub fn delete_record(&mut self, record_id: &str)
        requires
            old(self).wf(),
        ensures
            final(self).wf(),
            final(self).records() == kept(
                old(self).records(),
                |r: CredentialRecord| r.id@ != record_id@,
            ),
            final(self).secret_for(record_id@) is None,
            forall|id: Seq<char>|
                id != record_id@ ==> #[trigger] final(self).secret_for(id) == old(self).secret_for(id),
    {
        let mut ids: Vec<String> = Vec::new();
        ids.push(owned(record_id));
        proof {
            assert(id_listed(ids@, record_id@)) by {
                assert(ids@[0]@ == record_id@);
            }
            assert forall|id: Seq<char>| id_listed(ids@, id) <==> id == record_id@ by {
                if id_listed(ids@, id) {
                    let k = choose|k: int| 0 <= k < ids@.len() && #[trigger] ids@[k]@ == id;
                    assert(k == 0);
                }
            }
            assert((|r: CredentialRecord| !id_listed(ids@, r.id@)) =~= (|r: CredentialRecord| r.id@
                != record_id@));
        }
        self.remove_ids(ids.as_slice());
    }

    /// The records that `delete` drops: those for the remote URL (compared
    /// normalized) with the user name.
    pub open spec fn deleted_by(record: CredentialRecord, url: Seq<char>, username: Seq<char>) -> bool {
        normalized_remote_url(record.remote_url@) == normalized_remote_url(url) && record.username@
            == username
    }

    /// Drops the records for the request's remote URL and the user name,
    /// with every record sharing an id with one of them, and their secrets.
    pub fn delete(&mut self, request: &CredentialRequest, username: &str)
        requires
            old(self).wf(),
        ensures
            final(self).wf(),
            final(self).records() == kept(
                old(self).records(),
                |r: CredentialRecord|
                    !(exists|i: int|
                        0 <= i < old(self).records().len() && Self::deleted_by(
                            #[trigger] old(self).records()[i],
                            request.url@,
                            username@,
                        ) && old(self).records()[i].id@ == r.id@),
            ),
            forall|i: int|
                0 <= i < old(self).records().len() && Self::deleted_by(
                    #[trigger] old(self).records()[i],
                    request.url@,
                    username@,
                ) ==> final(self).secret_for(old(self).records()[i].id@) is None,
            forall|id: Seq<char>|
                !(exists|i: int|
                    0 <= i < old(self).records().len() && Self::deleted_by(
                        #[trigger] old(self).records()[i],
                        request.url@,
                        username@,
                    ) && old(self).records()[i].id@ == id) ==> #[trigger] final(self).secret_for(id)
                    == old(self).secret_for(id),
    {
        let records = self.record_list();
        let wanted_url = normalize_remote_url(request.url.as_str());
        let mut ids: Vec<String> = Vec::new();
        let mut i: usize = 0;
        while i < records.len()
            invariant
                0 <= i <= records.len(),
                records@ == self.records(),
                wanted_url@ == normalized_remote_url(request.url@),
                forall|id: Seq<char>| id_listed(ids@, id) <==> exists|j: int|
                    0 <= j < i && Self::deleted_by(#[trigger] records@[j], request.url@, username@)
                        && records@[j].id@ == id,
            decreases records.len() - i,
        {
            let record = &records[i];
            if normalize_remote_url(record.remote_url.as_str()) == wanted_url && same_text(
                record.username.as_str(),
                username,
            ) {
                let ghost old_ids = ids@;
                ids.push(record.id.clone());
                proof {
                    assert forall|id: Seq<char>| id_listed(ids@, id) <==> exists|j: int|
                        0 <= j < i + 1 && Self::deleted_by(#[trigger] records@[j], request.url@, username@)
                            && records@[j].id@ == id by {
                        if id_listed(ids@, id) {
                            let k = choose|k: int| 0 <= k < ids@.len() && #[trigger] ids@[k]@ == id;
                            if k < old_ids.len() {
                                assert(old_ids[k]@ == id);
                                assert(id_listed(old_ids, id));
                            } else {
                                assert(records@[i as int].id@ == id);
                            }
                        }
                        if exists|j: int| 0 <= j < i + 1 && Self::deleted_by(#[trigger] records@[j], request.url@, username@)
                            && records@[j].id@ == id {
                            let j = choose|j: int| 0 <= j < i + 1 && Self::deleted_by(#[trigger] records@[j], request.url@, username@)
                                && records@[j].id@ == id;
                            if j < i {
                                assert(id_listed(old_ids, id));
                                let k = choose|k: int| 0 <= k < old_ids.len() && #[trigger] old_ids[k]@ == id;
                                assert(ids@[k] == old_ids[k]);
                            } else {
                                assert(ids@[old_ids.len() as int]@ == id);
                            }
                        }
                    }
                }
            } else {
                proof {
                    assert forall|id: Seq<char>| id_listed(ids@, id) <==> exists|j: int|
                        0 <= j < i + 1 && Self::deleted_by(#[trigger] records@[j], request.url@, username@)
                            && records@[j].id@ == id by {
                        if exists|j: int| 0 <= j < i + 1 && Self::deleted_by(#[trigger] records@[j], request.url@, username@)
                            && records@[j].id@ == id {
                            let j = choose|j: int| 0 <= j < i + 1 && Self::deleted_by(#[trigger] records@[j], request.url@, username@)
                                && records@[j].id@ == id;
                            assert(j < i);
                        }
                    }
                }
            }
            i = i + 1;
        }
        proof {
            assert((|r: CredentialRecord| !id_listed(ids@, r.id@)) =~= (|r: CredentialRecord|
                !(exists|j: int|
                    0 <= j < self.records().len() && Self::deleted_by(
                        #[trigger] self.records()[j],
                        request.url@,
                        username@,
                    ) && self.records()[j].id@ == r.id@)));
        }
        self.remove_ids(ids.as_slice());
    }

    /// The credential for a request, from the preferred matching record
    /// whose id is not rejected; the record is stamped as used now.
    pub fn get_stored(&mut self, request: &CredentialRequest, rejected_record_ids: &[String]) -> (r:
        Option<StoredCredential>)
        requires
            old(self).wf(),
        ensures
            final(self).wf(),
            forall|id: Seq<char>| #[trigger] final(self).secret_for(id) == old(self).secret_for(id),
            exists|now: i64|
                Self::stored_outcome(
                    *old(self),
                    *final(self),
                    request.url@,
                    request.allowed_types,
                    rejected_record_ids@,
                    now,
                    r,
                ),
    {
        let now = now_seconds();
        self.get_stored_at(request, rejected_record_ids, now)
    }

    /// The credential for a request, from the preferred matching record; the
    /// record is stamped as used now.
    pub fn get(&mut self, request: &CredentialRequest) -> (r: Option<GitCredential>)
        requires
            old(self).wf(),
        ensures
            final(self).wf(),
            forall|id: Seq<char>| #[trigger] final(self).secret_for(id) == old(self).secret_for(id),
            exists|now: i64, found: Option<StoredCredential>|
                Self::stored_outcome(
                    *old(self),
                    *final(self),
                    request.url@,
                    request.allowed_types,
                    Seq::empty(),
                    now,
                    found,
                ) && match found {
                    Some(st) => r == Some(st.credential),
                    None => r is None,
                },
    {
        let now = now_seconds();
        self.get_at(request, now)
    }

    /// Saves a credential for the request's remote URL, stamped now; a new
    /// record takes an id made from the current time.
    pub fn save_record(&mut self, request: &CredentialRequest, credential: &GitCredential) -> (r:
        Result<CredentialRecord, GitError>)
        requires
            old(self).wf(),
            remote_metadata_of(request.url@) is Some ==> timestamps_below_max(old(self).records()),
        ensures
            final(self).wf(),
            exists|now: i64, new_id: Seq<char>|
                Self::save_outcome(*old(self), *final(self), request.url@, *credential, now, new_id, r),
    {
        let now = now_seconds();
        let new_id = new_record_id();
        self.save_record_at(request, credential, now, new_id)
    }

    /// Saves a credential for the request's remote URL, as `save_record`
    /// does, without handing the record back.
    pub fn save(&mut self, request: &CredentialRequest, credential: &GitCredential) -> (r: Result<
        (),
        GitError,
    >)
        requires
            old(self).wf(),
            remote_metadata_of(request.url@) is Some ==> timestamps_below_max(old(self).records()),
        ensures
            final(self).wf(),
            exists|now: i64, new_id: Seq<char>, saved: Result<CredentialRecord, GitError>|
                Self::save_outcome(*old(self), *final(self), request.url@, *credential, now, new_id, saved)
                    && match saved {
                    Ok(_) => r is Ok,
                    Err(e) => r == Err::<(), GitError>(e),
                },
    {
        match self.save_record(request, credential) {
            Ok(_) => Ok(()),
            Err(e) => Err(e),
        }
    }

    /// Stamps the first record with the id as used now (later than every
    /// other time stamp in the index).
    pub fn touch_record(&mut self, record_id: &str) -> (r: Option<CredentialRecord>)
        requires
            old(self).wf(),
            timestamps_below_max(old(self).records()),
        ensures
            final(self).wf(),
            forall|id: Seq<char>| #[trigger] final(self).secret_for(id) == old(self).secret_for(id),
            exists|now: i64| Self::touch_outcome(*old(self), *final(self), record_id@, now, r),
    {
        let now = now_seconds();
        self.touch_record_at(record_id, now)
    }

    /// Binds the first record with the id to another remote URL, stamped
    /// now (later than every other time stamp in the index).
    pub fn update_record_remote_url(&mut self, record_id: &str, remote_url: &str) -> (r: Result<
        CredentialRecord,
        GitError,
    >)
        requires
            old(self).wf(),
            remote_metadata_of(remote_url@) is Some ==> timestamps_below_max(old(self).records()),
        ensures
            final(self).wf(),
            forall|id: Seq<char>| #[trigger] final(self).secret_for(id) == old(self).secret_for(id),
            exists|now: i64| Self::rebind_outcome(*old(self), *final(self), record_id@, remote_url@, now, r),
    {
        let now = now_seconds();
        self.update_record_remote_url_at(record_id, remote_url, now)
    }

    /// The records in list order.
    pub fn list_records(&self) -> (r: Vec<CredentialRecord>)
        ensures
            r@ == sorted_records(self.records()),
    {
        let mut records = self.record_list();
        sort_records(&mut records);
        records
    }

    /// What `credential_for_record` gives for an id: nothing when no record
    /// has the id or no secret is kept for it, else the credential of the
    /// first record with the id and its secret.
    pub open spec fn credential_read(self, record_id: Seq<char>, r: Option<GitCredential>) -> bool {
        let p = id_position(self.records(), record_id);
        if p < 0 {
            r is None
        } else {
            match self.secret_for(record_id) {
                Some(secret) => r matches Some(c) && is_credential_from(c, self.records()[p], secret),
                None => r is None,
            }
        }
    }

    /// The credential of the first record with the id, from its secret.
    pub fn credential_for_record(&self, record_id: &str) -> (r: Option<GitCredential>)
        requires
            self.wf(),
        ensures
            Self::credential_read(*self, record_id@, r),
    {
        let records = self.record_list();
        let found = find_record(&records, record_id);
        match found {
            None => None,
            Some(i) => {
                assert(self.records()[i as int] == self.entries@[i as int].0);
                proof {
                    self.lemma_secret_at(record_id@, i as int);
                }
                let secret = self.entries[i].1.clone();
                GitCredential::from_record(&self.entries[i].0, secret)
            },
        }
    }
}

impl Default for MemoryCredentialStore {
    fn default() -> (r: Self)
        ensures
            r.wf(),
            r.records() == Seq::<CredentialRecord>::empty(),
    {
        MemoryCredentialStore::new()
    }
}


/// A later time stamp: the next time stamp is not before `now` and is
/// after every time stamp (update or use) already in the index.
pub proof fn lemma_next_timestamp_is_later(s: Seq<CredentialRecord>, now: int)
    ensures
        next_timestamp(s, now) >= now,
        forall|i: int| 0 <= i < s.len() ==> #[trigger] s[i].latest_time() < next_timestamp(s, now),
{
    if s.len() > 0 {
        lemma_latest_of_bounds(s);
    }
}

/// Where a save puts its record: at the first record of the same identity,
/// else after all records.
pub open spec fn save_position(records: Seq<CredentialRecord>, url: Seq<char>, c: GitCredential) -> int {
    let m = remote_metadata_of(url)->0;
    let host = m.0;
    let p = first_match(records, |record: CredentialRecord| same_identity(record, c, host, url));
    if p >= 0 {
        p
    } else {
        records.len() as int
    }
}

/// The host key of a URL that names a host.
pub open spec fn host_key_of(url: Seq<char>) -> Seq<char> {
    let m = remote_metadata_of(url)->0;
    m.0
}

/// A save binds its record to the request: the record handed back is for
/// the request's remote URL (the same once normalized) and host, with the
/// credential's kind, scope, user name and key path, and it stands in the
/// store after the save. A save never updates a record of another remote.
pub proof fn lemma_save_binds_request(
    before: MemoryCredentialStore,
    after: MemoryCredentialStore,
    url: Seq<char>,
    c: GitCredential,
    now: i64,
    new_id: Seq<char>,
    r: Result<CredentialRecord, GitError>,
)
    requires
        MemoryCredentialStore::save_outcome(before, after, url, c, now, new_id, r),
        r is Ok,
    ensures
        ({
            let rec = r->Ok_0;
            &&& remote_metadata_of(url) is Some
            &&& normalized_remote_url(rec.remote_url@) == normalized_remote_url(url)
            &&& rec.host@ == host_key_of(url)
            &&& rec.kind == c.spec_kind()
            &&& rec.scope == c.spec_scope()
            &&& rec.username@ == c.spec_username()
            &&& opt_view(rec.key_path) == c.spec_key_path()
            &&& after.records().contains(rec)
        }),
{
    let m = remote_metadata_of(url)->0;
    let same = |record: CredentialRecord| same_identity(record, c, m.0, url);
    let p = first_match(before.records(), same);
    crate::lookup::lemma_first_match_cases(before.records(), same);
    if p >= 0 {
        assert(same(before.records()[p]));
        assert(after.records()[p] == r->Ok_0);
    } else {
        assert(after.records()[before.records().len() as int] == r->Ok_0);
    }
}

/// Reading a saved record gives its credential back: after a successful
/// save, `credential_for_record` with the saved record's id gives a
/// credential of the saved one's kind, user name, scope, key path and
/// secret, provided no record before the saved one has its id (such a
/// record would shadow it).
pub proof fn lemma_saved_credential_is_read_back(
    before: MemoryCredentialStore,
    after: MemoryCredentialStore,
    url: Seq<char>,
    c: GitCredential,
    now: i64,
    new_id: Seq<char>,
    r: Result<CredentialRecord, GitError>,
    read: Option<GitCredential>,
)
    requires
        before.wf(),
        MemoryCredentialStore::save_outcome(before, after, url, c, now, new_id, r),
        r is Ok,
        forall|i: int|
            0 <= i < save_position(before.records(), url, c) ==> #[trigger] before.records()[i].id@
                != r->Ok_0.id@,
        MemoryCredentialStore::credential_read(after, r->Ok_0.id@, read),
    ensures
        read matches Some(got) && got.spec_kind() == c.spec_kind() && got.spec_username()
            == c.spec_username() && got.spec_scope() == c.spec_scope() && got.spec_key_path()
            == c.spec_key_path() && got.spec_secret() == c.spec_secret(),
{
    lemma_saved_credential_is_found(before, after, url, c, now, new_id, r);
}

/// What is saved is found again: after a successful save, the first record
/// with the saved record's id is the saved record, it has the credential's
/// kind, user name, scope and key path, and the credential's secret is kept
/// for its id (so `credential_for_record` gives the credential back). No
/// record before the saved one may have its id: it would shadow it.
pub proof fn lemma_saved_credential_is_found(
    before: MemoryCredentialStore,
    after: MemoryCredentialStore,
    url: Seq<char>,
    c: GitCredential,
    now: i64,
    new_id: Seq<char>,
    r: Result<CredentialRecord, GitError>,
)
    requires
        before.wf(),
        MemoryCredentialStore::save_outcome(before, after, url, c, now, new_id, r),
        r is Ok,
        forall|i: int|
            0 <= i < save_position(before.records(), url, c) ==> #[trigger] before.records()[i].id@
                != r->Ok_0.id@,
    ensures
        ({
            let rec = r->Ok_0;
            let p = id_position(after.records(), rec.id@);
            &&& 0 <= p < after.records().len()
            &&& after.records()[p] == rec
            &&& after.secret_for(rec.id@) == Some(c.spec_secret())
            &&& rec.kind == c.spec_kind()
            &&& rec.username@ == c.spec_username()
            &&& rec.scope == c.spec_scope()
            &&& opt_view(rec.key_path) == c.spec_key_path()
        }),
{
    let m = remote_metadata_of(url)->0;
    let rec = r->Ok_0;
    let old_records = before.records();
    let same = |record: CredentialRecord| same_identity(record, c, m.0, url);
    let has_id = |record: CredentialRecord| record.id@ == rec.id@;
    let p0 = first_match(old_records, same);
    crate::lookup::lemma_first_match_cases(old_records, same);
    if p0 >= 0 {
        assert(same(old_records[p0]));
        assert forall|j: int| 0 <= j < p0 implies !has_id(#[trigger] after.records()[j]) by {
            assert(after.records()[j] == old_records[j]);
        }
        assert(is_first_match(after.records(), has_id, p0));
        lemma_first_match_is(after.records(), has_id, p0);
    } else {
        let n = old_records.len() as int;
        assert forall|j: int| 0 <= j < n implies !has_id(#[trigger] after.records()[j]) by {
            assert(after.records()[j] == old_records[j]);
        }
        assert(is_first_match(after.records(), has_id, n));
        lemma_first_match_is(after.records(), has_id, n);
    }
}

/// A deleted id is gone: once the records with an id are dropped, no record
/// has it (so `credential_for_record` finds nothing for it).
pub proof fn lemma_deleted_id_is_gone(s: Seq<CredentialRecord>, id: Seq<char>)
    ensures
        id_position(kept(s, |r: CredentialRecord| r.id@ != id), id) == -1,
{
    let keep = |r: CredentialRecord| r.id@ != id;
    let rest = kept(s, keep);
    assert forall|j: int| 0 <= j < rest.len() implies !(|r: CredentialRecord| r.id@ == id)(
        #[trigger] rest[j],
    ) by {
        crate::lookup::lemma_kept_from(s, keep, j);
    }
    crate::lookup::lemma_first_match_none(rest, |r: CredentialRecord| r.id@ == id);
}


/// The record chosen for a request serves its URL: it is of the kind the
/// request asks for, for the URL's host, and, when scoped to one remote, for
/// the same normalized remote URL; its id is not rejected; and no other
/// such record is preferred to it.
pub proof fn lemma_selected_record_serves_url(
    records: Seq<CredentialRecord>,
    url: Seq<char>,
    allowed: CredentialTypes,
    rejected: Seq<String>,
)
    requires
        selection(records, url, allowed, rejected) >= 0,
    ensures
        ({
            let i = selection(records, url, allowed, rejected);
            let m = remote_metadata_of(url)->0;
            let kind = spec_requested_kind(allowed, m.1)->0;
            &&& 0 <= i < records.len()
            &&& is_candidate(records[i], url, kind, m.0, rejected)
            &&& records[i].kind == kind
            &&& records[i].host@ == m.0
            &&& !id_listed(rejected, records[i].id@)
            &&& (records[i].scope == CredentialScope::RemoteUrl ==> normalized_remote_url(
                records[i].remote_url@,
            ) == normalized_remote_url(url))
            &&& forall|j: int|
                0 <= j < records.len() && is_candidate(#[trigger] records[j], url, kind, m.0, rejected)
                    ==> !ranks_before(records[j], records[i])
        }),
{
    let m = remote_metadata_of(url)->0;
    let kind = spec_requested_kind(allowed, m.1)->0;
    let cand = |r: CredentialRecord| is_candidate(r, url, kind, m.0, rejected);
    let i = selection(records, url, allowed, rejected);
    assert(is_selected_within(records, cand, i, records.len() as int));
    assert forall|j: int|
        0 <= j < records.len() && is_candidate(#[trigger] records[j], url, kind, m.0, rejected)
            implies !ranks_before(records[j], records[i]) by {
        assert(cand(records[j]));
    }
}

} // verus!
