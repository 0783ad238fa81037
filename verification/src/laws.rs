//! The library's laws, each proved against the query contract `query_post`:
//! whatever list of ranked pairs a query returns obeys these statements.

use vstd::prelude::*;

use crate::occur::MAX_TOKEN_WIDTH;
use crate::occur::contains_token;
use crate::occur::freq_of;
use crate::occur::hit_count;
use crate::occur::is_hit;
use crate::occur::lemma_freq_pos_iff_contains;
use crate::occur::lemma_hit_count_zero;
use crate::query::precedes;
use crate::query::query_post;
use crate::query::result_has_item;

verus! {

/// Exact-substring law: when the folded keyword is a contiguous substring of
/// an item's folded name, of an indexed width, and the hits all fit within
/// the limit, that item is among the results.
pub proof fn lemma_exact_substring(
    names: Seq<Seq<char>>,
    kw: Seq<char>,
    limit: int,
    r: Seq<(usize, usize)>,
    i: usize,
)
    requires
        query_post(names, kw, limit, r),
        (i as int) < names.len(),
        1 <= kw.len() <= MAX_TOKEN_WIDTH,
        contains_token(names[i as int], kw),
        hit_count(names, kw) as int <= limit,
    ensures
        result_has_item(r, i),
{
    lemma_freq_pos_iff_contains(names[i as int], kw);
    assert(is_hit(names, kw, i as int));
}

/// Length-boundary law: a keyword whose folded length exceeds the indexed
/// token width matches nothing, whatever its content.
pub proof fn lemma_length_boundary(
    names: Seq<Seq<char>>,
    kw: Seq<char>,
    limit: int,
    r: Seq<(usize, usize)>,
)
    requires
        query_post(names, kw, limit, r),
        kw.len() > MAX_TOKEN_WIDTH,
        0 <= limit,
    ensures
        r.len() == 0,
{
    assert forall|i: int| 0 <= i < names.len() implies !is_hit(names, kw, i) by {}
    lemma_hit_count_zero(names, kw, names.len() as int);
}

/// Empty-keyword law: an empty keyword returns an empty result set.
pub proof fn lemma_empty_keyword(
    names: Seq<Seq<char>>,
    kw: Seq<char>,
    limit: int,
    r: Seq<(usize, usize)>,
)
    requires
        query_post(names, kw, limit, r),
        kw.len() == 0,
        0 <= limit,
    ensures
        r.len() == 0,
{
    assert forall|i: int| 0 <= i < names.len() implies !is_hit(names, kw, i) by {}
    lemma_hit_count_zero(names, kw, names.len() as int);
}

/// One direction of the determinism argument: differing entries at the same
/// position would each have to outrank the other.
proof fn lemma_det_half(
    names: Seq<Seq<char>>,
    kw: Seq<char>,
    limit: int,
    r1: Seq<(usize, usize)>,
    r2: Seq<(usize, usize)>,
    m: int,
)
    requires
        query_post(names, kw, limit, r1),
        query_post(names, kw, limit, r2),
        r1.len() == r2.len(),
        0 <= m < r1.len(),
        forall|q: int| 0 <= q < m ==> r1[q] == r2[q],
        r1[m] != r2[m],
    ensures
        precedes(r1[m], r2[m]),
{
    let b = r2[m];
    assert(is_hit(names, kw, b.0 as int));
    assert(b.1 == freq_of(names[b.0 as int], kw));
    if result_has_item(r1, b.0) {
        let k = choose|k: int| 0 <= k < r1.len() && (#[trigger] r1[k]).0 == b.0;
        assert(r1[k].1 == freq_of(names[b.0 as int], kw));
        assert(r1[k] == b);
        if k < m {
            assert(r1[k] == r2[k]);
            assert(precedes(r2[k], r2[m]));
            assert(false);
        }
        if k == m {
            assert(false);
        }
        assert(precedes(r1[m], r1[k]));
    } else {
        assert(precedes(r1[m], (b.0, freq_of(names[b.0 as int], kw) as usize)));
        assert(b.1 as int == freq_of(names[b.0 as int], kw) as usize as int);
        assert((b.0, freq_of(names[b.0 as int], kw) as usize) == b);
    }
}

/// Entries at one position agree once all earlier positions agree.
proof fn lemma_det_at(
    names: Seq<Seq<char>>,
    kw: Seq<char>,
    limit: int,
    r1: Seq<(usize, usize)>,
    r2: Seq<(usize, usize)>,
    m: int,
)
    requires
        query_post(names, kw, limit, r1),
        query_post(names, kw, limit, r2),
        r1.len() == r2.len(),
        0 <= m < r1.len(),
        forall|q: int| 0 <= q < m ==> r1[q] == r2[q],
    ensures
        r1[m] == r2[m],
{
    if r1[m] != r2[m] {
        lemma_det_half(names, kw, limit, r1, r2, m);
        lemma_det_half(names, kw, limit, r2, r1, m);
        assert(precedes(r1[m], r2[m]) && precedes(r2[m], r1[m]));
        assert(false);
    }
}

/// The agreement extends position by position.
proof fn lemma_det_upto(
    names: Seq<Seq<char>>,
    kw: Seq<char>,
    limit: int,
    r1: Seq<(usize, usize)>,
    r2: Seq<(usize, usize)>,
    m: int,
)
    requires
        query_post(names, kw, limit, r1),
        query_post(names, kw, limit, r2),
        r1.len() == r2.len(),
        0 <= m <= r1.len(),
    ensures
        forall|q: int| 0 <= q < m ==> r1[q] == r2[q],
    decreases m,
{
    if m > 0 {
        lemma_det_upto(names, kw, limit, r1, r2, m - 1);
        lemma_det_at(names, kw, limit, r1, r2, m - 1);
    }
}

/// Determinism law: the query contract pins the result list completely, so
/// two result lists for the same names, keyword and limit are equal.
pub proof fn lemma_determinism(
    names: Seq<Seq<char>>,
    kw: Seq<char>,
    limit: int,
    r1: Seq<(usize, usize)>,
    r2: Seq<(usize, usize)>,
)
    requires
        query_post(names, kw, limit, r1),
        query_post(names, kw, limit, r2),
    ensures
        r1 == r2,
{
    assert(r1.len() == r2.len());
    lemma_det_upto(names, kw, limit, r1, r2, r1.len() as int);
    assert(r1 =~= r2);
}

/// Monotonic-ranking law: when item `a`'s name contains the keyword more
/// often than item `b`'s and `b` was returned, `a` stands strictly earlier
/// in the result list.
pub proof fn lemma_monotonic_ranking(
    names: Seq<Seq<char>>,
    kw: Seq<char>,
    limit: int,
    r: Seq<(usize, usize)>,
    a: usize,
    b: usize,
    kb: int,
)
    requires
        query_post(names, kw, limit, r),
        is_hit(names, kw, a as int),
        is_hit(names, kw, b as int),
        freq_of(names[a as int], kw) > freq_of(names[b as int], kw),
        freq_of(names[a as int], kw) <= usize::MAX,
        0 <= kb < r.len(),
        r[kb].0 == b,
    ensures
        exists|ka: int| 0 <= ka < kb && (#[trigger] r[ka]).0 == a,
{
    let fa = freq_of(names[a as int], kw);
    assert(r[kb].1 == freq_of(names[b as int], kw));
    if result_has_item(r, a) {
        let ka = choose|k: int| 0 <= k < r.len() && (#[trigger] r[k]).0 == a;
        assert(r[ka].1 == fa);
        if ka == kb {
            assert(false);
        }
        if ka > kb {
            assert(precedes(r[kb], r[ka]));
            assert(false);
        }
        assert(0 <= ka < kb && r[ka].0 == a);
    } else {
        assert(precedes(r[kb], (a, fa as usize)));
        assert(false);
    }
}

/// Limit-respected law: no more than `limit` results come back, and every
/// hit that was left out is outranked by every returned pair: the returned
/// list is exactly the top of the full candidate set.
pub proof fn lemma_limit_respected(
    names: Seq<Seq<char>>,
    kw: Seq<char>,
    limit: int,
    r: Seq<(usize, usize)>,
)
    requires
        query_post(names, kw, limit, r),
        0 <= limit,
    ensures
        r.len() <= limit,
        forall|i: usize|
            #![trigger is_hit(names, kw, i as int)]
            is_hit(names, kw, i as int) && !result_has_item(r, i) ==> forall|k: int|
                0 <= k < r.len() ==> precedes(
                    #[trigger] r[k],
                    (i, freq_of(names[i as int], kw) as usize),
                ),
{
}

} // verus!
