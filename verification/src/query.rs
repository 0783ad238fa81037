//! The query engine: one exact-token lookup against an index, scored by
//! term frequency and ranked descending, ties broken by first-seen order,
//! truncated to a limit only after the full candidate set was ranked.

use vstd::prelude::*;

use crate::fold::fold_chars;
use crate::fold::fold_of;
use crate::index::SearchIndex;
use crate::index::entry_at;
use crate::index::find_posting;
use crate::index::has_entry;
use crate::index::stage_occ;
use crate::occur::MAX_TOKEN_WIDTH;
use crate::occur::freq_of;
use crate::occur::hit_count;
use crate::occur::is_hit;
use crate::occur::lemma_hit_count_matches;
use crate::occur::lemma_hit_count_zero;
use crate::occur::occurrences;

verus! {

/// The ranking order: `a` is ranked strictly before `b` when its score is
/// higher, or equal with an earlier first-seen item.
pub open spec fn precedes(a: (usize, usize), b: (usize, usize)) -> bool {
    a.1 > b.1 || (a.1 == b.1 && a.0 < b.0)
}

/// The result list holds an entry for item `i`.
pub open spec fn result_has_item(r: Seq<(usize, usize)>, i: usize) -> bool {
    exists|k: int| 0 <= k < r.len() && (#[trigger] r[k]).0 == i
}

/// What a query returns, as `(item, score)` pairs over the folded names
/// `names` and the folded keyword `kw`:
/// every returned pair is a hit scored by its exact term frequency; the list
/// is strictly ordered by rank; every hit left out is outranked by every
/// returned pair; the length is the full hit count, truncated to `limit`;
/// and when the hits all fit within `limit`, every hit is returned.
pub open spec fn query_post(
    names: Seq<Seq<char>>,
    kw: Seq<char>,
    limit: int,
    r: Seq<(usize, usize)>,
) -> bool {
    &&& forall|k: int|
        #![trigger r[k]]
        0 <= k < r.len() ==> is_hit(names, kw, r[k].0 as int) && r[k].1 == freq_of(
            names[r[k].0 as int],
            kw,
        )
    &&& forall|k1: int, k2: int|
        #![trigger r[k1], r[k2]]
        0 <= k1 < k2 < r.len() ==> precedes(r[k1], r[k2])
    &&& forall|i: usize|
        #![trigger is_hit(names, kw, i as int)]
        is_hit(names, kw, i as int) && !result_has_item(r, i) ==> forall|k: int|
            0 <= k < r.len() ==> precedes(#[trigger] r[k], (i, freq_of(names[i as int], kw) as usize))
    &&& r.len() == (if limit <= hit_count(names, kw) as int {
        limit
    } else {
        hit_count(names, kw) as int
    })
    &&& hit_count(names, kw) as int <= limit ==> forall|i: usize|
        #![trigger is_hit(names, kw, i as int)]
        is_hit(names, kw, i as int) ==> result_has_item(r, i)
}

/// Everything placed in `s` is one of the first `q` candidates.
#[verifier::opaque]
spec fn placed_from(s: Seq<(usize, usize)>, cands: Seq<(usize, usize)>, q: int) -> bool {
    forall|m: int| 0 <= m < s.len() ==> exists|x: int| 0 <= x < q && cands[x] == #[trigger] s[m]
}

/// Each of the first `q` candidates was placed somewhere in `s`.
#[verifier::opaque]
spec fn places_all(s: Seq<(usize, usize)>, cands: Seq<(usize, usize)>, q: int) -> bool {
    forall|x: int| 0 <= x < q ==> exists|m: int| 0 <= m < s.len() && s[m] == #[trigger] cands[x]
}

/// One step of the ranking sort: inserting the next candidate at the first
/// position whose score drops below the candidate's keeps the list strictly
/// ordered, and keeps it holding exactly the candidates placed so far.
#[verifier::rlimit(100)]
#[verifier::spinoff_prover]
proof fn lemma_insert_step(
    prev: Seq<(usize, usize)>,
    s: Seq<(usize, usize)>,
    cands: Seq<(usize, usize)>,
    q: int,
    pos: int,
    c: (usize, usize),
)
    requires
        0 <= q < cands.len(),
        c == cands[q],
        0 <= pos <= prev.len(),
        s == prev.insert(pos, c),
        forall|x1: int, x2: int|
            #![trigger cands[x1], cands[x2]]
            0 <= x1 < x2 < cands.len() ==> cands[x1].0 < cands[x2].0,
        forall|a: int, b: int|
            #![trigger prev[a], prev[b]]
            0 <= a < b < prev.len() ==> precedes(prev[a], prev[b]),
        placed_from(prev, cands, q),
        places_all(prev, cands, q),
        forall|m: int| 0 <= m < pos ==> (#[trigger] prev[m]).1 >= c.1,
        pos < prev.len() ==> prev[pos].1 < c.1,
    ensures
        forall|a: int, b: int| #![trigger s[a], s[b]] 0 <= a < b < s.len() ==> precedes(s[a], s[b]),
        placed_from(s, cands, q + 1),
        places_all(s, cands, q + 1),
{
    reveal(placed_from);
    reveal(places_all);
    assert(s.len() == prev.len() + 1);
    assert forall|m: int| 0 <= m < pos implies s[m] == prev[m] by {}
    assert(s[pos] == c);
    assert forall|m: int| pos < m < s.len() implies s[m] == prev[m - 1] by {}
    assert forall|m: int| 0 <= m < prev.len() implies (#[trigger] prev[m]).0 < c.0 by {
        let x = choose|x: int| 0 <= x < q && cands[x] == prev[m];
        assert(cands[x].0 < cands[q].0);
    }
    assert forall|m: int| 0 <= m < pos implies precedes(#[trigger] prev[m], c) by {
        assert(prev[m].1 >= c.1);
        assert(prev[m].0 < c.0);
    }
    assert forall|m: int| pos <= m < prev.len() implies precedes(c, #[trigger] prev[m]) by {
        assert(prev[pos].1 < c.1);
        if m > pos {
            assert(precedes(prev[pos], prev[m]));
        }
        assert(prev[m].1 < c.1);
    }
    assert forall|a: int, b: int| #![trigger s[a], s[b]] 0 <= a < b < s.len() implies precedes(
        s[a],
        s[b],
    ) by {
        if a < pos && b < pos {
            assert(s[a] == prev[a] && s[b] == prev[b]);
        } else if a < pos && b == pos {
            assert(s[a] == prev[a] && s[b] == c);
        } else if a < pos && b > pos {
            assert(s[a] == prev[a] && s[b] == prev[b - 1]);
            if a == b - 1 {
                assert(precedes(prev[a], c) && precedes(c, prev[a]));
                assert(false);
            }
        } else if a == pos {
            assert(s[a] == c && s[b] == prev[b - 1]);
        } else {
            assert(s[a] == prev[a - 1] && s[b] == prev[b - 1]);
        }
    }
    assert forall|m: int| 0 <= m < s.len() implies exists|x: int|
        0 <= x < q + 1 && cands[x] == #[trigger] s[m] by {
        if m < pos {
            assert(s[m] == prev[m]);
            let x = choose|x: int| 0 <= x < q && cands[x] == prev[m];
            assert(cands[x] == s[m]);
        } else if m == pos {
            assert(cands[q] == s[m]);
        } else {
            assert(s[m] == prev[m - 1]);
            let x = choose|x: int| 0 <= x < q && cands[x] == prev[m - 1];
            assert(cands[x] == s[m]);
        }
    }
    assert forall|x: int| 0 <= x < q + 1 implies exists|m: int|
        0 <= m < s.len() && s[m] == #[trigger] cands[x] by {
        if x < q {
            let m = choose|m: int| 0 <= m < prev.len() && prev[m] == cands[x];
            if m < pos {
                assert(s[m] == cands[x]);
            } else {
                assert(s[m + 1] == cands[x]);
            }
        } else {
            assert(s[pos] == cands[x]);
        }
    }
}

/// Rank the full candidate set: sort by score descending with first-seen
/// tie-break, then truncate to `limit`.
#[verifier::rlimit(60)]
fn rank(
    cands: Vec<(usize, usize)>,
    limit: usize,
    Ghost(names): Ghost<Seq<Seq<char>>>,
    Ghost(kw): Ghost<Seq<char>>,
) -> (r: Vec<(usize, usize)>)
    requires
        forall|q: int|
            #![trigger cands@[q]]
            0 <= q < cands@.len() ==> is_hit(names, kw, cands@[q].0 as int) && cands@[q].1
                == freq_of(names[cands@[q].0 as int], kw),
        forall|q1: int, q2: int|
            #![trigger cands@[q1], cands@[q2]]
            0 <= q1 < q2 < cands@.len() ==> cands@[q1].0 < cands@[q2].0,
        forall|i: usize|
            #![trigger is_hit(names, kw, i as int)]
            is_hit(names, kw, i as int) ==> result_has_item(cands@, i),
        cands@.len() == hit_count(names, kw),
    ensures
        query_post(names, kw, limit as int, r@),
{
    let mut sorted: Vec<(usize, usize)> = Vec::new();
    let n = cands.len();
    proof {
        reveal(placed_from);
        reveal(places_all);
        assert(placed_from(sorted@, cands@, 0));
        assert(places_all(sorted@, cands@, 0));
    }
    for q in 0..n
        invariant
            n == cands@.len(),
            forall|x: int|
                #![trigger cands@[x]]
                0 <= x < cands@.len() ==> is_hit(names, kw, cands@[x].0 as int) && cands@[x].1
                    == freq_of(names[cands@[x].0 as int], kw),
            forall|x1: int, x2: int|
                #![trigger cands@[x1], cands@[x2]]
                0 <= x1 < x2 < cands@.len() ==> cands@[x1].0 < cands@[x2].0,
            sorted@.len() == q,
            forall|a: int, b: int|
                #![trigger sorted@[a], sorted@[b]]
                0 <= a < b < sorted@.len() ==> precedes(sorted@[a], sorted@[b]),
            placed_from(sorted@, cands@, q as int),
            places_all(sorted@, cands@, q as int),
    {
        let c = cands[q];
        let mut pos: usize = 0;
        while pos < sorted.len() && sorted[pos].1 >= c.1
            invariant
                pos <= sorted@.len(),
                forall|m: int| 0 <= m < pos ==> (#[trigger] sorted@[m]).1 >= c.1,
            decreases sorted@.len() - pos,
        {
            pos = pos + 1;
        }
        let ghost prev = sorted@;
        sorted.insert(pos, c);
        proof {
            lemma_insert_step(prev, sorted@, cands@, q as int, pos as int, c);
        }
    }
    let ghost full = sorted@;
    if sorted.len() > limit {
        sorted.truncate(limit);
    }
    proof {
        lemma_rank_post(names, kw, limit as int, cands@, full, sorted@);
    }
    sorted
}

/// A fully sorted copy of the candidate set, truncated to `limit`, answers
/// the query exactly as `query_post` states.
#[verifier::rlimit(100)]
#[verifier::spinoff_prover]
proof fn lemma_rank_post(
    names: Seq<Seq<char>>,
    kw: Seq<char>,
    limit: int,
    cands: Seq<(usize, usize)>,
    full: Seq<(usize, usize)>,
    r: Seq<(usize, usize)>,
)
    requires
        0 <= limit,
        forall|q: int|
            #![trigger cands[q]]
            0 <= q < cands.len() ==> is_hit(names, kw, cands[q].0 as int) && cands[q].1 == freq_of(
                names[cands[q].0 as int],
                kw,
            ),
        forall|i: usize|
            #![trigger is_hit(names, kw, i as int)]
            is_hit(names, kw, i as int) ==> result_has_item(cands, i),
        cands.len() == hit_count(names, kw),
        forall|a: int, b: int|
            #![trigger full[a], full[b]]
            0 <= a < b < full.len() ==> precedes(full[a], full[b]),
        placed_from(full, cands, cands.len() as int),
        places_all(full, cands, cands.len() as int),
        full.len() == cands.len(),
        full.len() > limit ==> r == full.subrange(0, limit),
        full.len() <= limit ==> r == full,
    ensures
        query_post(names, kw, limit, r),
{
    reveal(placed_from);
    reveal(places_all);
    let hc = hit_count(names, kw) as int;
    assert(full.len() == hc);
    assert(r.len() == (if limit <= hc {
        limit
    } else {
        hc
    }));
    assert forall|k: int| 0 <= k < r.len() implies #[trigger] r[k] == full[k] by {}
    assert forall|k: int|
        0 <= k < r.len() implies is_hit(names, kw, (#[trigger] r[k]).0 as int) && r[k].1 == freq_of(
        names[r[k].0 as int],
        kw,
    ) by {
        let x = choose|x: int| 0 <= x < cands.len() && cands[x] == full[k];
        assert(cands[x] == r[k]);
    }
    assert forall|i: usize|
        is_hit(names, kw, i as int) && !result_has_item(r, i) implies forall|k: int|
        0 <= k < r.len() ==> precedes(#[trigger] r[k], (i, freq_of(names[i as int], kw) as usize)) by {
        assert(result_has_item(cands, i));
        let x = choose|x: int| 0 <= x < cands.len() && (#[trigger] cands[x]).0 == i;
        let c = cands[x];
        assert(c.1 == freq_of(names[i as int], kw));
        assert(c == (i, freq_of(names[i as int], kw) as usize));
        let m = choose|m: int| 0 <= m < full.len() && full[m] == c;
        assert(m >= r.len()) by {
            if m < r.len() {
                assert(r[m] == full[m]);
                assert(result_has_item(r, i));
            }
        }
        assert forall|k: int| 0 <= k < r.len() implies precedes(
            #[trigger] r[k],
            (i, freq_of(names[i as int], kw) as usize),
        ) by {
            assert(r[k] == full[k]);
            assert(precedes(full[k], full[m]));
        }
    }
    if hc <= limit {
        assert forall|i: usize| is_hit(names, kw, i as int) implies result_has_item(r, i) by {
            assert(result_has_item(cands, i));
            let x = choose|x: int| 0 <= x < cands.len() && (#[trigger] cands[x]).0 == i;
            let m = choose|m: int| 0 <= m < full.len() && full[m] == cands[x];
            assert(r[m] == full[m]);
            assert(r[m].0 == i);
        }
    }
}

/// Answer one keyword query against a built index: the keyword is folded as
/// a whole and treated as one exact token. An empty keyword, or one wider
/// than the indexed bound, hits nothing; otherwise the hits are exactly the
/// items whose folded name contains the folded keyword, scored by term
/// frequency and ranked as `query_post` states.
pub fn query(index: &SearchIndex, keyword: &str, limit: usize) -> (r: Vec<(usize, usize)>)
    requires
        index.wf(),
    ensures
        query_post(index.names@, fold_of(keyword@), limit as int, r@),
{
    let ghost names = index.names@;
    let ghost kw = fold_of(keyword@);
    let kwv = fold_chars(keyword);
    if kwv.len() == 0 || kwv.len() > MAX_TOKEN_WIDTH {
        proof {
            assert forall|i: int| 0 <= i < names.len() implies !is_hit(names, kw, i) by {}
            lemma_hit_count_zero(names, kw, names.len() as int);
        }
        let r: Vec<(usize, usize)> = Vec::new();
        return r;
    }
    let found = find_posting(&index.postings, &kwv);
    match found {
        None => {
            proof {
                assert forall|i: int| 0 <= i < names.len() implies !is_hit(names, kw, i) by {
                    if is_hit(names, kw, i) {
                        assert(stage_occ(names, names.len() as int, 1, 0, i, kw) == occurrences(
                            names[i],
                            kw,
                        ));
                        assert(stage_occ(names, names.len() as int, 1, 0, i, kw).len() > 0);
                        assert(has_entry(index.postings@, kw, i));
                        let (j2, k2): (int, int) = choose|j2: int, k2: int|
                            entry_at(index.postings@, kw, i, j2, k2);
                        assert(index.postings@[j2].token@ == kw);
                        assert(false);
                    }
                }
                lemma_hit_count_zero(names, kw, names.len() as int);
            }
            let r: Vec<(usize, usize)> = Vec::new();
            r
        },
        Some(j) => {
            let ghost jj = j as int;
            let entries = &index.postings[j].entries;
            let m = entries.len();
            let mut cands: Vec<(usize, usize)> = Vec::new();
            for q in 0..m
                invariant
                    m == entries@.len(),
                    entries@ == index.postings@[jj].entries@,
                    jj == j as int,
                    0 <= jj < index.postings@.len(),
                    index.postings@[jj].token@ == kw,
                    index.wf(),
                    names == index.names@,
                    cands@.len() == q,
                    forall|x: int|
                        0 <= x < q ==> #[trigger] cands@[x] == (entries@[x].item, entries@[x].freq),
            {
                cands.push((entries[q].item, entries[q].freq));
            }
            proof {
                let ix = index.postings@;
                let nn = names.len() as int;
                // each entry carries the exact occurrence positions
                assert forall|x: int|
                    0 <= x < cands@.len() implies is_hit(names, kw, (#[trigger] cands@[x]).0 as int)
                    && cands@[x].1 == freq_of(names[cands@[x].0 as int], kw) by {
                    let e = ix[jj].entries@[x];
                    assert(cands@[x] == (e.item, e.freq));
                    assert(crate::index::positions_match(
                        e.positions@,
                        stage_occ(names, nn, 1, 0, e.item as int, kw),
                    ));
                    assert(e.item < names.len() && e.freq == e.positions@.len() && e.freq > 0);
                    assert(stage_occ(names, nn, 1, 0, e.item as int, kw) == occurrences(
                        names[e.item as int],
                        kw,
                    ));
                    assert(1 <= kw.len() <= MAX_TOKEN_WIDTH);
                }
                assert forall|x1: int, x2: int|
                    0 <= x1 < x2 < cands@.len() implies (#[trigger] cands@[x1]).0 < (
                #[trigger] cands@[x2]).0 by {
                    assert(ix[jj].entries@[x1].item < ix[jj].entries@[x2].item);
                }
                // every hit item has an entry in this posting
                assert forall|i: usize| is_hit(names, kw, i as int) implies result_has_item(
                    cands@,
                    i,
                ) by {
                    assert(stage_occ(names, nn, 1, 0, i as int, kw) == occurrences(
                        names[i as int],
                        kw,
                    ));
                    assert(stage_occ(names, nn, 1, 0, i as int, kw).len() > 0);
                    assert(has_entry(ix, kw, i as int));
                    let (j2, k2): (int, int) = choose|j2: int, k2: int|
                        entry_at(ix, kw, i as int, j2, k2);
                    if j2 != jj {
                        if j2 < jj {
                            assert(ix[j2].token@ != ix[jj].token@);
                        } else {
                            assert(ix[jj].token@ != ix[j2].token@);
                        }
                        assert(false);
                    }
                    assert(cands@[k2] == (ix[jj].entries@[k2].item, ix[jj].entries@[k2].freq));
                    assert((#[trigger] cands@[k2]).0 == i);
                }
                // the candidate list counts the hits exactly
                let items = Seq::new(cands@.len(), |x: int| cands@[x].0 as int);
                assert forall|i: int| 0 <= i < nn implies (is_hit(names, kw, i) <==> items.contains(
                    i,
                )) by {
                    if is_hit(names, kw, i) {
                        assert(stage_occ(names, nn, 1, 0, i, kw) == occurrences(names[i], kw));
                        assert(stage_occ(names, nn, 1, 0, i, kw).len() > 0);
                        assert(has_entry(ix, kw, i));
                        let (j2, k2): (int, int) = choose|j2: int, k2: int|
                            entry_at(ix, kw, i, j2, k2);
                        if j2 != jj {
                            if j2 < jj {
                                assert(ix[j2].token@ != ix[jj].token@);
                            } else {
                                assert(ix[jj].token@ != ix[j2].token@);
                            }
                            assert(false);
                        }
                        assert(cands@[k2] == (ix[jj].entries@[k2].item, ix[jj].entries@[k2].freq));
                        assert(cands@[k2].0 as int == i);
                        assert(items[k2] == i);
                        assert(items.contains(i));
                    }
                    if items.contains(i) {
                        let k = choose|k: int| 0 <= k < items.len() && items[k] == i;
                        assert(cands@[k].0 as int == i);
                        assert(is_hit(names, kw, cands@[k].0 as int));
                    }
                }
                assert forall|a: int, b: int|
                    0 <= a < b < items.len() implies #[trigger] items[a] < #[trigger] items[b] by {
                    assert(cands@[a].0 < cands@[b].0);
                }
                lemma_hit_count_matches(names, kw, items, nn);
            }
            rank(cands, limit, Ghost(names), Ghost(kw))
        },
    }
}

} // verus!
