//! The mathematical model of tokenization: where a token occurs in a name,
//! the ordered list of its occurrence positions, term frequency, and how many
//! items of a list a keyword hits.

use vstd::prelude::*;

verus! {

/// The widest substring token that is indexed, in characters. A keyword
/// longer than this can never match anything.
pub const MAX_TOKEN_WIDTH: usize = 8;

/// Token `tok` occurs in `name` starting at character position `p`.
pub open spec fn is_occurrence(name: Seq<char>, tok: Seq<char>, p: int) -> bool {
    &&& 0 <= p
    &&& p + tok.len() <= name.len()
    &&& name.subrange(p, p + tok.len() as int) == tok
}

/// The ascending list of positions `p < end` at which `tok` occurs in `name`.
pub open spec fn occ_upto(name: Seq<char>, tok: Seq<char>, end: int) -> Seq<int>
    decreases end,
{
    if end <= 0 {
        Seq::empty()
    } else if is_occurrence(name, tok, end - 1) {
        occ_upto(name, tok, end - 1).push(end - 1)
    } else {
        occ_upto(name, tok, end - 1)
    }
}

/// The ascending list of all positions at which `tok` occurs in `name`.
pub open spec fn occurrences(name: Seq<char>, tok: Seq<char>) -> Seq<int> {
    occ_upto(name, tok, name.len() - tok.len() + 1)
}

/// Term frequency: how often `tok` occurs in `name`.
pub open spec fn freq_of(name: Seq<char>, tok: Seq<char>) -> nat {
    occurrences(name, tok).len()
}

/// `tok` is a contiguous substring of `name`.
pub open spec fn contains_token(name: Seq<char>, tok: Seq<char>) -> bool {
    exists|p: int| is_occurrence(name, tok, p)
}

/// Item `i` of the folded name list `names` is hit by the folded keyword
/// `kw`: the keyword's width is within the indexed bound and it occurs in the
/// item's name.
pub open spec fn is_hit(names: Seq<Seq<char>>, kw: Seq<char>, i: int) -> bool {
    &&& 0 <= i < names.len()
    &&& 1 <= kw.len() <= MAX_TOKEN_WIDTH
    &&& freq_of(names[i], kw) > 0
}

/// How many items with index below `upto` are hit by `kw`.
pub open spec fn hit_count_upto(names: Seq<Seq<char>>, kw: Seq<char>, upto: int) -> nat
    decreases upto,
{
    if upto <= 0 {
        0
    } else {
        hit_count_upto(names, kw, upto - 1) + (if is_hit(names, kw, upto - 1) {
            1nat
        } else {
            0nat
        })
    }
}

/// How many items of the list are hit by `kw`.
pub open spec fn hit_count(names: Seq<Seq<char>>, kw: Seq<char>) -> nat {
    hit_count_upto(names, kw, names.len() as int)
}

/// `occ_upto` lists exactly the occurrence positions below `end`, in
/// strictly ascending order, each within bounds.
pub proof fn lemma_occ_upto_elems(name: Seq<char>, tok: Seq<char>, end: int)
    ensures
        forall|q: int| occ_upto(name, tok, end).contains(q) <==> (q < end && is_occurrence(
            name,
            tok,
            q,
        )),
        forall|a: int, b: int|
            0 <= a < b < occ_upto(name, tok, end).len() ==> occ_upto(name, tok, end)[a] < occ_upto(
                name,
                tok,
                end,
            )[b],
        forall|a: int| 0 <= a < occ_upto(name, tok, end).len() ==> occ_upto(name, tok, end)[a]
            < end,
    decreases end,
{
    if end <= 0 {
    } else {
        lemma_occ_upto_elems(name, tok, end - 1);
        let prev = occ_upto(name, tok, end - 1);
        let cur = occ_upto(name, tok, end);
        if is_occurrence(name, tok, end - 1) {
            assert forall|q: int|
                cur.contains(q) <==> (q < end && is_occurrence(name, tok, q)) by {
                if q < end && is_occurrence(name, tok, q) {
                    if q == end - 1 {
                        assert(cur[cur.len() - 1] == q);
                    } else {
                        assert(prev.contains(q));
                        let a = choose|a: int| 0 <= a < prev.len() && prev[a] == q;
                        assert(cur[a] == q);
                    }
                }
                if cur.contains(q) {
                    let a = choose|a: int| 0 <= a < cur.len() && cur[a] == q;
                    if a < prev.len() {
                        assert(prev.contains(q));
                    } else {
                        assert(q == end - 1);
                    }
                }
            }
        } else {
            assert forall|q: int|
                cur.contains(q) <==> (q < end && is_occurrence(name, tok, q)) by {
                if q < end && is_occurrence(name, tok, q) {
                    assert(q < end - 1);
                    assert(prev.contains(q));
                }
            }
        }
    }
}

/// A keyword occurs somewhere in a name exactly when its term frequency in
/// that name is positive.
pub proof fn lemma_freq_pos_iff_contains(name: Seq<char>, tok: Seq<char>)
    ensures
        freq_of(name, tok) > 0 <==> contains_token(name, tok),
{
    let bound = name.len() - tok.len() + 1;
    lemma_occ_upto_elems(name, tok, bound);
    let occ = occurrences(name, tok);
    if occ.len() > 0 {
        assert(occ.contains(occ[0]));
        assert(is_occurrence(name, tok, occ[0]));
        assert(contains_token(name, tok));
    }
    if contains_token(name, tok) {
        let p = choose|p: int| is_occurrence(name, tok, p);
        assert(p < bound);
        assert(occ.contains(p));
        assert(occ.len() > 0);
    }
}

/// When nothing below `upto` is hit, the hit count below `upto` is zero.
pub proof fn lemma_hit_count_zero(names: Seq<Seq<char>>, kw: Seq<char>, upto: int)
    requires
        forall|i: int| 0 <= i < upto ==> !is_hit(names, kw, i),
    ensures
        hit_count_upto(names, kw, upto) == 0,
    decreases upto,
{
    if upto > 0 {
        lemma_hit_count_zero(names, kw, upto - 1);
    }
}

/// A strictly ascending list of item indices below `upto` that contains
/// exactly the hit items below `upto` has the hit count as its length.
pub proof fn lemma_hit_count_matches(
    names: Seq<Seq<char>>,
    kw: Seq<char>,
    items: Seq<int>,
    upto: int,
)
    requires
        forall|a: int, b: int| 0 <= a < b < items.len() ==> #[trigger] items[a] < #[trigger] items[b],
        forall|k: int| 0 <= k < items.len() ==> 0 <= #[trigger] items[k] < upto,
        forall|i: int| 0 <= i < upto ==> (is_hit(names, kw, i) <==> items.contains(i)),
    ensures
        hit_count_upto(names, kw, upto) == items.len(),
    decreases upto,
{
    if upto <= 0 {
        if items.len() > 0 {
            assert(0 <= items[0] < upto);
        }
    } else if is_hit(names, kw, upto - 1) {
        assert(items.contains(upto - 1));
        let k = choose|k: int| 0 <= k < items.len() && items[k] == upto - 1;
        assert(k == items.len() - 1) by {
            if k < items.len() - 1 {
                assert(items[k] < items[items.len() - 1]);
                assert(items[items.len() - 1] < upto);
            }
        }
        let rest = items.drop_last();
        assert forall|i: int| 0 <= i < upto - 1 implies (is_hit(names, kw, i) <==> rest.contains(
            i,
        )) by {
            if is_hit(names, kw, i) {
                assert(items.contains(i));
                let a = choose|a: int| 0 <= a < items.len() && items[a] == i;
                assert(a != items.len() - 1);
                assert(rest[a] == i);
                assert(rest.contains(i));
            }
            if rest.contains(i) {
                let a = choose|a: int| 0 <= a < rest.len() && rest[a] == i;
                assert(items[a] == i);
                assert(items.contains(i));
            }
        }
        lemma_hit_count_matches(names, kw, rest, upto - 1);
    } else {
        assert(!items.contains(upto - 1));
        assert forall|k: int| 0 <= k < items.len() implies 0 <= #[trigger] items[k] < upto - 1 by {
            assert(items[k] != upto - 1);
        }
        lemma_hit_count_matches(names, kw, items, upto - 1);
    }
}

} // verus!
