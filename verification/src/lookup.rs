//! The first element of a sequence with a property, stated once for all the
//! searches of the library.

use vstd::prelude::*;

verus! {

/// `i` is the position of the first element of `s` that satisfies `p`.
pub open spec fn is_first_match<T>(s: Seq<T>, p: spec_fn(T) -> bool, i: int) -> bool {
    &&& 0 <= i < s.len()
    &&& p(s[i])
    &&& forall|j: int| 0 <= j < i ==> !p(#[trigger] s[j])
}

/// The position of the first element of `s` that satisfies `p`, or `-1`.
pub open spec fn first_match<T>(s: Seq<T>, p: spec_fn(T) -> bool) -> int {
    if exists|i: int| is_first_match(s, p, i) {
        choose|i: int| is_first_match(s, p, i)
    } else {
        -1
    }
}

/// There is at most one first match.
pub proof fn lemma_first_match_unique<T>(s: Seq<T>, p: spec_fn(T) -> bool, i: int, k: int)
    requires
        is_first_match(s, p, i),
        is_first_match(s, p, k),
    ensures
        i == k,
{
    if i < k {
        assert(!p(s[i]));
    } else if k < i {
        assert(!p(s[k]));
    }
}

/// A found first match is the one `first_match` names.
pub proof fn lemma_first_match_is<T>(s: Seq<T>, p: spec_fn(T) -> bool, i: int)
    requires
        is_first_match(s, p, i),
    ensures
        first_match(s, p) == i,
{
    let k = choose|k: int| is_first_match(s, p, k);
    lemma_first_match_unique(s, p, i, k);
}

/// Without any match, `first_match` is `-1`.
pub proof fn lemma_first_match_none<T>(s: Seq<T>, p: spec_fn(T) -> bool)
    requires
        forall|j: int| 0 <= j < s.len() ==> !p(#[trigger] s[j]),
    ensures
        first_match(s, p) == -1,
{
    if exists|i: int| is_first_match(s, p, i) {
        let k = choose|k: int| is_first_match(s, p, k);
        assert(p(s[k]));
    }
}

/// A match at `j` means a first match exists.
pub proof fn lemma_first_match_exists<T>(s: Seq<T>, p: spec_fn(T) -> bool, j: int)
    requires
        0 <= j < s.len(),
        p(s[j]),
    ensures
        exists|w: int| is_first_match(s, p, w),
    decreases j,
{
    if exists|v: int| 0 <= v < j && p(s[v]) {
        let v = choose|v: int| 0 <= v < j && p(s[v]);
        lemma_first_match_exists(s, p, v);
    } else {
        assert(is_first_match(s, p, j));
    }
}

/// `first_match` is `-1` exactly when nothing matches, and a first match
/// otherwise.
pub proof fn lemma_first_match_cases<T>(s: Seq<T>, p: spec_fn(T) -> bool)
    ensures
        first_match(s, p) == -1 || is_first_match(s, p, first_match(s, p)),
        first_match(s, p) == -1 <==> forall|j: int| 0 <= j < s.len() ==> !p(#[trigger] s[j]),
{
    if first_match(s, p) == -1 {
        assert forall|j: int| 0 <= j < s.len() implies !p(#[trigger] s[j]) by {
            if p(s[j]) {
                lemma_first_match_exists(s, p, j);
            }
        }
    } else {
        let i = first_match(s, p);
        assert(is_first_match(s, p, i));
        assert(p(s[i]));
    }
}

/// The elements of `s` that satisfy `keep`, in order.
pub open spec fn kept<T>(s: Seq<T>, keep: spec_fn(T) -> bool) -> Seq<T>
    decreases s.len(),
{
    if s.len() == 0 {
        s
    } else {
        let rest = kept(s.drop_last(), keep);
        if keep(s.last()) {
            rest.push(s.last())
        } else {
            rest
        }
    }
}

/// Every kept element satisfies `keep` and comes from `s`.
pub proof fn lemma_kept_from<T>(s: Seq<T>, keep: spec_fn(T) -> bool, j: int)
    requires
        0 <= j < kept(s, keep).len(),
    ensures
        exists|i: int| 0 <= i < s.len() && s[i] == kept(s, keep)[j] && keep(s[i]),
    decreases s.len(),
{
    let rest = kept(s.drop_last(), keep);
    if s.len() > 0 {
        if j < rest.len() {
            lemma_kept_from(s.drop_last(), keep, j);
            let i = choose|i: int| 0 <= i < s.drop_last().len() && s.drop_last()[i] == rest[j] && keep(
                s.drop_last()[i],
            );
            assert(s[i] == s.drop_last()[i]);
        } else {
            assert(s[s.len() - 1] == kept(s, keep)[j]);
        }
    }
}

/// Every element of `s` that satisfies `keep` is kept.
pub proof fn lemma_kept_has<T>(s: Seq<T>, keep: spec_fn(T) -> bool, i: int)
    requires
        0 <= i < s.len(),
        keep(s[i]),
    ensures
        exists|j: int| 0 <= j < kept(s, keep).len() && kept(s, keep)[j] == s[i],
    decreases s.len(),
{
    let rest = kept(s.drop_last(), keep);
    if i < s.len() - 1 {
        lemma_kept_has(s.drop_last(), keep, i);
        let j = choose|j: int| 0 <= j < rest.len() && rest[j] == s.drop_last()[i];
        assert(kept(s, keep)[j] == rest[j]);
    } else {
        assert(kept(s, keep)[rest.len() as int] == s[i]);
    }
}

/// Keeping by a property of an image, then taking images, is taking
/// images, then keeping.
pub proof fn lemma_kept_map<A, B>(s: Seq<A>, f: spec_fn(A) -> B, keep: spec_fn(B) -> bool)
    ensures
        kept(s, |a: A| keep(f(a))).map_values(f) == kept(s.map_values(f), keep),
    decreases s.len(),
{
    if s.len() > 0 {
        lemma_kept_map(s.drop_last(), f, keep);
        assert(s.map_values(f).drop_last() =~= s.drop_last().map_values(f));
        assert(s.map_values(f).last() == f(s.last()));
        let rest = kept(s.drop_last(), |a: A| keep(f(a)));
        assert(rest.push(s.last()).map_values(f) =~= rest.map_values(f).push(f(s.last())));
    } else {
        assert(s.map_values(f) =~= Seq::<B>::empty());
    }
}

} // verus!
