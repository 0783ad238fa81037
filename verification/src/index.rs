//! The ephemeral inverted index: a mapping from case-folded substring tokens
//! of bounded width to postings, where a posting records, per item, the term
//! frequency of the token in the item's name and the list of its starting
//! positions.
//!
//! `build_index` is proved to produce an index that reflects the occurrence
//! model of `crate::occur` exactly: every stored entry carries precisely the
//! occurrence positions of its token in its item's name, and every token of
//! an indexed width that occurs in some item's name has an entry for it.

use vstd::prelude::*;

use crate::fold::fold_chars;
use crate::fold::fold_of;
use crate::items::App;
use crate::occur::MAX_TOKEN_WIDTH;
use crate::occur::is_occurrence;
use crate::occur::occ_upto;
use crate::occur::occurrences;

verus! {

/// One entry of a posting: the token occurs in the name of item number
/// `item` (an index into the item list of one build), `freq` times, starting
/// at the character positions in `positions`, in ascending order.
pub struct PostingEntry {
    pub item: usize,
    pub freq: usize,
    pub positions: Vec<usize>,
}

/// A token together with its entries, in ascending item order.
pub struct Posting {
    pub token: Vec<char>,
    pub entries: Vec<PostingEntry>,
}

/// The in-memory index over one item list: built once per query batch,
/// read-only afterward, discarded when the query completes. The case-folded
/// names it was built over are carried as a ghost field, so that contracts
/// can speak about what the index reflects.
pub struct SearchIndex {
    pub postings: Vec<Posting>,
    pub names: Ghost<Seq<Seq<char>>>,
}

/// The stored position list `ps` is exactly the position sequence `occ`.
pub open spec fn positions_match(ps: Seq<usize>, occ: Seq<int>) -> bool {
    &&& ps.len() == occ.len()
    &&& forall|m: int| 0 <= m < ps.len() ==> ps[m] as int == #[trigger] occ[m]
}

/// The occurrence positions of `tok` in item `item`'s name that an index
/// under construction holds, when items before `i` are fully indexed and,
/// for item `i`, widths below `w` are fully indexed and width `w` is indexed
/// for starting positions below `p`.
pub open spec fn stage_occ(
    names: Seq<Seq<char>>,
    i: int,
    w: int,
    p: int,
    item: int,
    tok: Seq<char>,
) -> Seq<int> {
    if item < i {
        occurrences(names[item], tok)
    } else if item > i {
        Seq::empty()
    } else if tok.len() < w {
        occurrences(names[i], tok)
    } else if tok.len() > w {
        Seq::empty()
    } else {
        occ_upto(names[i], tok, p)
    }
}

/// Structural well-formedness of a posting's entries: item numbers strictly
/// ascending and in range, frequency equal to the number of stored positions
/// and positive.
pub open spec fn entries_structural(es: Seq<PostingEntry>, names: Seq<Seq<char>>) -> bool {
    &&& forall|k1: int, k2: int|
        #![trigger es[k1], es[k2]]
        0 <= k1 < k2 < es.len() ==> es[k1].item < es[k2].item
    &&& forall|k: int|
        #![trigger es[k]]
        0 <= k < es.len() ==> es[k].item < names.len() && es[k].freq == es[k].positions@.len()
            && es[k].freq > 0
}

/// Structural well-formedness of the posting list: tokens pairwise distinct
/// and of an indexed width, entries well-formed.
pub open spec fn postings_structural(ix: Seq<Posting>, names: Seq<Seq<char>>) -> bool {
    &&& forall|j1: int, j2: int|
        #![trigger ix[j1], ix[j2]]
        0 <= j1 < j2 < ix.len() ==> ix[j1].token@ != ix[j2].token@
    &&& forall|j: int|
        #![trigger ix[j]]
        0 <= j < ix.len() ==> 1 <= ix[j].token@.len() <= MAX_TOKEN_WIDTH && entries_structural(
            ix[j].entries@,
            names,
        )
}

/// Posting `j` holds token `tok` and its entry `k` belongs to item `item`.
pub open spec fn entry_at(ix: Seq<Posting>, tok: Seq<char>, item: int, j: int, k: int) -> bool {
    &&& 0 <= j < ix.len()
    &&& ix[j].token@ == tok
    &&& 0 <= k < ix[j].entries@.len()
    &&& ix[j].entries@[k].item == item
}

/// The index holds an entry associating token `tok` with item `item`.
pub open spec fn has_entry(ix: Seq<Posting>, tok: Seq<char>, item: int) -> bool {
    exists|j: int, k: int| entry_at(ix, tok, item, j, k)
}

/// The index reflects the construction stage `(i, w, p)` exactly: every
/// stored entry carries precisely the stage's occurrence positions of its
/// token in its item's name, and every token of an indexed width with an
/// occurrence at this stage has an entry.
pub open spec fn postings_reflect(
    ix: Seq<Posting>,
    names: Seq<Seq<char>>,
    i: int,
    w: int,
    p: int,
) -> bool {
    &&& forall|j: int, k: int|
        #![trigger ix[j].entries@[k]]
        0 <= j < ix.len() && 0 <= k < ix[j].entries@.len() ==> positions_match(
            ix[j].entries@[k].positions@,
            stage_occ(names, i, w, p, ix[j].entries@[k].item as int, ix[j].token@),
        )
    &&& forall|item: int, tok: Seq<char>|
        #![trigger stage_occ(names, i, w, p, item, tok)]
        0 <= item < names.len() && 1 <= tok.len() <= MAX_TOKEN_WIDTH && stage_occ(
            names,
            i,
            w,
            p,
            item,
            tok,
        ).len() > 0 ==> has_entry(ix, tok, item)
}

impl SearchIndex {
    /// A finished index reflects the full occurrence model of its names.
    pub open spec fn wf(self) -> bool {
        &&& postings_structural(self.postings@, self.names@)
        &&& postings_reflect(self.postings@, self.names@, self.names@.len() as int, 1, 0)
    }
}

/// Advancing one starting position appends exactly one occurrence, of the
/// one token that starts there, and changes nothing else.
proof fn lemma_stage_occ_step(names: Seq<Seq<char>>, i: int, w: int, p: int, tok: Seq<char>)
    requires
        0 <= i < names.len(),
        tok.len() == w,
        0 <= p,
        is_occurrence(names[i], tok, p),
    ensures
        stage_occ(names, i, w, p + 1, i, tok) == stage_occ(names, i, w, p, i, tok).push(p),
        forall|item: int, tok2: Seq<char>|
            #![trigger stage_occ(names, i, w, p + 1, item, tok2)]
            !(item == i && tok2 == tok) ==> stage_occ(names, i, w, p + 1, item, tok2) == stage_occ(
                names,
                i,
                w,
                p,
                item,
                tok2,
            ),
{
    assert(occ_upto(names[i], tok, p + 1) == occ_upto(names[i], tok, p).push(p));
    assert forall|item: int, tok2: Seq<char>| !(item == i && tok2 == tok) implies stage_occ(
        names,
        i,
        w,
        p + 1,
        item,
        tok2,
    ) == stage_occ(names, i, w, p, item, tok2) by {
        if item == i && tok2.len() == w {
            if is_occurrence(names[i], tok2, p) {
                assert(names[i].subrange(p, p + w) == tok2);
                assert(names[i].subrange(p, p + w) == tok);
                assert(tok2 == tok);
            }
            assert(occ_upto(names[i], tok2, p + 1) == occ_upto(names[i], tok2, p));
        }
    }
}

/// Beyond the last possible starting position nothing more occurs.
proof fn lemma_occ_upto_full(name: Seq<char>, tok: Seq<char>, end: int)
    requires
        end >= name.len() - tok.len() + 1,
        end >= 0,
    ensures
        occ_upto(name, tok, end) == occurrences(name, tok),
    decreases end,
{
    let bound = name.len() - tok.len() + 1;
    if end > bound && end > 0 {
        assert(!is_occurrence(name, tok, end - 1));
        lemma_occ_upto_full(name, tok, end - 1);
    } else if end <= 0 {
        assert(bound <= 0);
        assert(occ_upto(name, tok, bound) == Seq::<int>::empty());
    }
}

/// An index that reflects one stage also reflects another whose occurrence
/// view agrees on every in-range item and token.
proof fn lemma_reflect_shift(
    ix: Seq<Posting>,
    names: Seq<Seq<char>>,
    i1: int,
    w1: int,
    p1: int,
    i2: int,
    w2: int,
    p2: int,
)
    requires
        postings_structural(ix, names),
        postings_reflect(ix, names, i1, w1, p1),
        forall|item: int, tok: Seq<char>|
            #![trigger stage_occ(names, i2, w2, p2, item, tok)]
            0 <= item < names.len() && 1 <= tok.len() <= MAX_TOKEN_WIDTH ==> stage_occ(
                names,
                i1,
                w1,
                p1,
                item,
                tok,
            ) == stage_occ(names, i2, w2, p2, item, tok),
    ensures
        postings_reflect(ix, names, i2, w2, p2),
{
    assert forall|j: int, k: int|
        0 <= j < ix.len() && 0 <= k < ix[j].entries@.len() implies positions_match(
        (#[trigger] ix[j].entries@[k]).positions@,
        stage_occ(names, i2, w2, p2, ix[j].entries@[k].item as int, ix[j].token@),
    ) by {
        let e = ix[j].entries@[k];
        assert(1 <= ix[j].token@.len() <= MAX_TOKEN_WIDTH && entries_structural(
            ix[j].entries@,
            names,
        ));
        assert(e.item < names.len());
        assert(stage_occ(names, i2, w2, p2, e.item as int, ix[j].token@) == stage_occ(
            names,
            i1,
            w1,
            p1,
            e.item as int,
            ix[j].token@,
        ));
        assert(positions_match(
            e.positions@,
            stage_occ(names, i1, w1, p1, e.item as int, ix[j].token@),
        ));
    }
    assert forall|item: int, tok: Seq<char>|
        0 <= item < names.len() && 1 <= tok.len() <= MAX_TOKEN_WIDTH && (#[trigger] stage_occ(
            names,
            i2,
            w2,
            p2,
            item,
            tok,
        )).len() > 0 implies has_entry(ix, tok, item) by {
        assert(stage_occ(names, i1, w1, p1, item, tok) == stage_occ(names, i2, w2, p2, item, tok));
    }
}

/// After the last starting position of width `w`, the stage equals the
/// starting stage of width `w + 1`.
proof fn lemma_stage_next_width(names: Seq<Seq<char>>, i: int, w: int, p1: int)
    requires
        0 <= i < names.len(),
        1 <= w,
        0 <= p1,
        p1 >= names[i].len() - w + 1,
    ensures
        forall|item: int, tok: Seq<char>|
            #![trigger stage_occ(names, i, w + 1, 0, item, tok)]
            stage_occ(names, i, w, p1, item, tok) == stage_occ(names, i, w + 1, 0, item, tok),
{
    assert forall|item: int, tok: Seq<char>|
        stage_occ(names, i, w, p1, item, tok) == #[trigger] stage_occ(
            names,
            i,
            w + 1,
            0,
            item,
            tok,
        ) by {
        if item == i {
            if tok.len() == w {
                lemma_occ_upto_full(names[i], tok, p1);
            } else if tok.len() == w + 1 {
                assert(occ_upto(names[i], tok, 0) == Seq::<int>::empty());
            }
        }
    }
}

/// After the widest width of item `i`, the stage equals the starting stage
/// of item `i + 1`, for every token of an indexed width.
proof fn lemma_stage_next_item(names: Seq<Seq<char>>, i: int)
    requires
        0 <= i < names.len(),
    ensures
        forall|item: int, tok: Seq<char>|
            #![trigger stage_occ(names, i + 1, 1, 0, item, tok)]
            1 <= tok.len() <= MAX_TOKEN_WIDTH ==> stage_occ(
                names,
                i,
                MAX_TOKEN_WIDTH as int + 1,
                0,
                item,
                tok,
            ) == stage_occ(names, i + 1, 1, 0, item, tok),
{
    assert forall|item: int, tok: Seq<char>|
        1 <= tok.len() <= MAX_TOKEN_WIDTH implies stage_occ(
        names,
        i,
        MAX_TOKEN_WIDTH as int + 1,
        0,
        item,
        tok,
    ) == #[trigger] stage_occ(names, i + 1, 1, 0, item, tok) by {
        if item == i + 1 {
            assert(occ_upto(names[item], tok, 0) == Seq::<int>::empty());
        }
    }
}

/// Character-sequence equality of two tokens.
fn token_eq(a: &Vec<char>, b: &Vec<char>) -> (r: bool)
    ensures
        r == (a@ == b@),
{
    if a.len() != b.len() {
        return false;
    }
    let n = a.len();
    for q in 0..n
        invariant
            n == a@.len(),
            n == b@.len(),
            forall|m: int| 0 <= m < q ==> a@[m] == b@[m],
    {
        if a[q] != b[q] {
            return false;
        }
    }
    proof {
        assert(a@ =~= b@);
    }
    true
}

/// A copy of a token.
fn clone_token(t: &Vec<char>) -> (r: Vec<char>)
    ensures
        r@ == t@,
{
    let mut r: Vec<char> = Vec::new();
    let n = t.len();
    for q in 0..n
        invariant
            n == t@.len(),
            r@.len() == q,
            forall|m: int| 0 <= m < q ==> r@[m] == t@[m],
    {
        r.push(t[q]);
    }
    proof {
        assert(r@ =~= t@);
    }
    r
}

/// The width-`w` token of `name` starting at position `p`.
fn token_at(name: &Vec<char>, p: usize, w: usize) -> (t: Vec<char>)
    requires
        p + w <= name@.len(),
    ensures
        t@ == name@.subrange(p as int, p as int + w as int),
{
    let mut t: Vec<char> = Vec::new();
    let full = name.len();
    for q in 0..w
        invariant
            p + w <= full,
            full == name@.len(),
            t@.len() == q,
            forall|m: int| 0 <= m < q ==> t@[m] == name@[p + m],
    {
        t.push(name[p + q]);
    }
    proof {
        assert(t@ =~= name@.subrange(p as int, p as int + w as int));
    }
    t
}

/// The posting holding exactly this token, if any.
pub(crate) fn find_posting(postings: &Vec<Posting>, tok: &Vec<char>) -> (r: Option<usize>)
    ensures
        match r {
            Some(j) => j < postings@.len() && postings@[j as int].token@ == tok@,
            None => forall|j: int|
                0 <= j < postings@.len() ==> (#[trigger] postings@[j]).token@ != tok@,
        },
{
    let n = postings.len();
    for j in 0..n
        invariant
            n == postings@.len(),
            forall|m: int| 0 <= m < j ==> (#[trigger] postings@[m]).token@ != tok@,
    {
        if token_eq(&postings[j].token, tok) {
            return Some(j);
        }
    }
    None
}

/// Record one occurrence: token `tok` of item `item` starting at position
/// `pos`. The index moves from reflecting stage `(item, w, pos)` to
/// reflecting stage `(item, w, pos + 1)`.
fn insert_occurrence(
    postings: &mut Vec<Posting>,
    tok: &Vec<char>,
    item: usize,
    pos: usize,
    Ghost(names): Ghost<Seq<Seq<char>>>,
    Ghost(w): Ghost<int>,
)
    requires
        postings_structural(old(postings)@, names),
        postings_reflect(old(postings)@, names, item as int, w, pos as int),
        (item as int) < names.len(),
        1 <= w <= MAX_TOKEN_WIDTH,
        tok@.len() == w,
        is_occurrence(names[item as int], tok@, pos as int),
    ensures
        postings_structural(final(postings)@, names),
        postings_reflect(final(postings)@, names, item as int, w, pos as int + 1),
{
    let ghost old_ix = postings@;
    let ghost ii = item as int;
    let ghost pp = pos as int;
    proof {
        lemma_stage_occ_step(names, ii, w, pp, tok@);
    }
    let found = find_posting(postings, tok);
    match found {
        None => {
            proof {
                // no posting holds the token, so its stage is empty
                if stage_occ(names, ii, w, pp, ii, tok@).len() > 0 {
                    assert(has_entry(old_ix, tok@, ii));
                    let (j2, k2): (int, int) = choose|j2: int, k2: int|
                        entry_at(old_ix, tok@, ii, j2, k2);
                    assert(old_ix[j2].token@ == tok@);
                    assert(false);
                }
            }
            let mut ps: Vec<usize> = Vec::new();
            ps.push(pos);
            let mut es: Vec<PostingEntry> = Vec::new();
            es.push(PostingEntry { item, freq: 1, positions: ps });
            let tok_copy = clone_token(tok);
            postings.push(Posting { token: tok_copy, entries: es });
            proof {
                let new_ix = postings@;
                let nj = old_ix.len() as int;
                assert(new_ix[nj].token@ == tok@);
                assert(new_ix[nj].entries@.len() == 1);
                assert(new_ix[nj].entries@[0].item == item);
                assert(new_ix[nj].entries@[0].freq == 1);
                assert(new_ix[nj].entries@[0].positions@.len() == 1);
                assert(new_ix[nj].entries@[0].positions@[0] == pos);
                let stage1 = stage_occ(names, ii, w, pp + 1, ii, tok@);
                assert(stage1 == stage_occ(names, ii, w, pp, ii, tok@).push(pp));
                assert(stage1.len() == 1 && stage1[0] == pp);
                // structural
                assert forall|j1: int, j2: int|
                    #![trigger new_ix[j1], new_ix[j2]]
                    0 <= j1 < j2 < new_ix.len() implies new_ix[j1].token@ != new_ix[j2].token@ by {
                    if j2 == nj {
                        assert(old_ix[j1].token@ != tok@);
                    } else {
                        assert(old_ix[j1].token@ != old_ix[j2].token@);
                    }
                }
                assert forall|j1: int| 0 <= j1 < new_ix.len() implies 1 <= (
                #[trigger] new_ix[j1]).token@.len() <= MAX_TOKEN_WIDTH && entries_structural(
                    new_ix[j1].entries@,
                    names,
                ) by {
                    if j1 < nj {
                        assert(new_ix[j1] == old_ix[j1]);
                        assert(1 <= old_ix[j1].token@.len() <= MAX_TOKEN_WIDTH
                            && entries_structural(old_ix[j1].entries@, names));
                    } else {
                        assert(entries_structural(new_ix[nj].entries@, names));
                    }
                }
                // reflection: stored entries
                assert forall|j1: int, k: int|
                    0 <= j1 < new_ix.len() && 0 <= k < new_ix[j1].entries@.len()
                    implies positions_match(
                    (#[trigger] new_ix[j1].entries@[k]).positions@,
                    stage_occ(
                        names,
                        ii,
                        w,
                        pp + 1,
                        new_ix[j1].entries@[k].item as int,
                        new_ix[j1].token@,
                    ),
                ) by {
                    if j1 < nj {
                        assert(new_ix[j1] == old_ix[j1]);
                        let e = old_ix[j1].entries@[k];
                        assert(positions_match(
                            e.positions@,
                            stage_occ(names, ii, w, pp, e.item as int, old_ix[j1].token@),
                        ));
                        assert(old_ix[j1].token@ != tok@);
                        assert(stage_occ(names, ii, w, pp + 1, e.item as int, old_ix[j1].token@)
                            == stage_occ(names, ii, w, pp, e.item as int, old_ix[j1].token@));
                    } else {
                        assert(positions_match(new_ix[nj].entries@[0].positions@, stage1));
                    }
                }
                // reflection: completeness
                assert forall|item2: int, tok2: Seq<char>|
                    0 <= item2 < names.len() && 1 <= tok2.len() <= MAX_TOKEN_WIDTH && (
                #[trigger] stage_occ(names, ii, w, pp + 1, item2, tok2)).len() > 0
                    implies has_entry(new_ix, tok2, item2) by {
                    if item2 == ii && tok2 == tok@ {
                        assert(entry_at(new_ix, tok2, item2, nj, 0));
                    } else {
                        assert(stage_occ(names, ii, w, pp + 1, item2, tok2) == stage_occ(
                            names,
                            ii,
                            w,
                            pp,
                            item2,
                            tok2,
                        ));
                        assert(has_entry(old_ix, tok2, item2));
                        let (j2, k2): (int, int) = choose|j2: int, k2: int|
                            entry_at(old_ix, tok2, item2, j2, k2);
                        assert(new_ix[j2] == old_ix[j2]);
                        assert(entry_at(new_ix, tok2, item2, j2, k2));
                    }
                }
            }
        },
        Some(j) => {
            let ghost jj = j as int;
            let mut posting = postings.remove(j);
            let ghost old_posting = posting;
            proof {
                assert(old_posting == old_ix[jj]);
            }
            let n = posting.entries.len();
            let mut updated_last = false;
            if n > 0 && posting.entries[n - 1].item == item {
                let mut e = posting.entries.pop().unwrap();
                e.positions.push(pos);
                let f = e.positions.len();
                e.freq = f;
                posting.entries.push(e);
                updated_last = true;
            }
            if !updated_last {
                proof {
                    // every existing entry of this posting belongs to an
                    // earlier item
                    let oes = old_posting.entries@;
                    assert forall|k: int| 0 <= k < oes.len() implies (#[trigger] oes[k]).item
                        < item by {
                        let e = oes[k];
                        assert(old_ix[jj].entries@[k] == e);
                        assert(positions_match(
                            e.positions@,
                            stage_occ(names, ii, w, pp, e.item as int, tok@),
                        ));
                        assert(entries_structural(old_ix[jj].entries@, names));
                        assert(e.freq > 0 && e.freq == e.positions@.len());
                        assert(stage_occ(names, ii, w, pp, e.item as int, tok@).len() > 0);
                        if e.item as int > ii {
                            assert(stage_occ(names, ii, w, pp, e.item as int, tok@)
                                == Seq::<int>::empty());
                            assert(false);
                        }
                        if e.item == item {
                            assert(k < n - 1 || k == n - 1);
                            if k < n - 1 {
                                let e2 = oes[n - 1];
                                assert(old_ix[jj].entries@[n - 1] == e2);
                                assert(oes[k].item < oes[n - 1].item);
                                assert(positions_match(
                                    e2.positions@,
                                    stage_occ(names, ii, w, pp, e2.item as int, tok@),
                                ));
                                assert(e2.freq > 0 && e2.freq == e2.positions@.len());
                                assert(stage_occ(names, ii, w, pp, e2.item as int, tok@).len() > 0);
                                if e2.item as int > ii {
                                    assert(stage_occ(names, ii, w, pp, e2.item as int, tok@)
                                        == Seq::<int>::empty());
                                    assert(false);
                                }
                                assert(false);
                            } else {
                                assert(false);
                            }
                        }
                    }
                }
                let mut ps: Vec<usize> = Vec::new();
                ps.push(pos);
                posting.entries.push(PostingEntry { item, freq: 1, positions: ps });
            }
            let ghost new_posting = posting;
            postings.insert(j, posting);
            proof {
                let new_ix = postings@;
                assert(new_ix =~= old_ix.update(jj, new_posting));
                assert(new_ix[jj] == new_posting);
                assert(new_posting.token@ == tok@);
                let oes = old_posting.entries@;
                let nes = new_posting.entries@;
                let stage1 = stage_occ(names, ii, w, pp + 1, ii, tok@);
                assert(stage1 == stage_occ(names, ii, w, pp, ii, tok@).push(pp));
                let ne = nes[nes.len() - 1];
                if updated_last {
                    assert(nes =~= oes.update(oes.len() - 1, ne));
                    assert(ne.item == item);
                    let oe = oes[oes.len() - 1];
                    assert(ne.positions@ == oe.positions@.push(pos));
                    assert(ne.freq == ne.positions@.len());
                    assert(old_ix[jj].entries@[oes.len() - 1] == oe);
                    assert(positions_match(oe.positions@, stage_occ(names, ii, w, pp, ii, tok@)));
                    assert forall|m: int| 0 <= m < ne.positions@.len() implies ne.positions@[m] as int
                        == #[trigger] stage1[m] by {
                        if m < oe.positions@.len() {
                            assert(oe.positions@[m] as int == stage_occ(
                                names,
                                ii,
                                w,
                                pp,
                                ii,
                                tok@,
                            )[m]);
                        }
                    }
                    assert(positions_match(ne.positions@, stage1));
                } else {
                    assert(nes =~= oes.push(ne));
                    assert(ne.item == item);
                    assert(ne.positions@.len() == 1 && ne.positions@[0] == pos);
                    assert(ne.freq == 1);
                    // the item had no entry anywhere, so its stage was empty
                    if stage_occ(names, ii, w, pp, ii, tok@).len() > 0 {
                        assert(has_entry(old_ix, tok@, ii));
                        let (j2, k2): (int, int) = choose|j2: int, k2: int|
                            entry_at(old_ix, tok@, ii, j2, k2);
                        if j2 != jj {
                            if j2 < jj {
                                assert(old_ix[j2].token@ != old_ix[jj].token@);
                            } else {
                                assert(old_ix[jj].token@ != old_ix[j2].token@);
                            }
                            assert(false);
                        }
                        assert(oes[k2].item == item);
                        assert(oes[k2].item < item);
                        assert(false);
                    }
                    assert(stage1.len() == 1 && stage1[0] == pp);
                    assert(positions_match(ne.positions@, stage1));
                }
                // structural
                assert forall|j1: int, j2: int|
                    #![trigger new_ix[j1], new_ix[j2]]
                    0 <= j1 < j2 < new_ix.len() implies new_ix[j1].token@ != new_ix[j2].token@ by {
                    assert(old_ix[j1].token@ != old_ix[j2].token@);
                    if j1 == jj {
                        assert(new_ix[j1].token@ == old_ix[jj].token@);
                    }
                    if j2 == jj {
                        assert(new_ix[j2].token@ == old_ix[jj].token@);
                    }
                }
                assert forall|j1: int| 0 <= j1 < new_ix.len() implies 1 <= (
                #[trigger] new_ix[j1]).token@.len() <= MAX_TOKEN_WIDTH && entries_structural(
                    new_ix[j1].entries@,
                    names,
                ) by {
                    assert(1 <= old_ix[j1].token@.len() <= MAX_TOKEN_WIDTH && entries_structural(
                        old_ix[j1].entries@,
                        names,
                    ));
                    if j1 == jj {
                        assert forall|k1: int, k2: int|
                            #![trigger nes[k1], nes[k2]]
                            0 <= k1 < k2 < nes.len() implies nes[k1].item < nes[k2].item by {
                            if k2 < nes.len() - 1 {
                                assert(oes[k1].item < oes[k2].item);
                            } else if updated_last {
                                assert(nes[k2].item == oes[k2].item);
                                assert(oes[k1].item < oes[k2].item);
                            } else {
                                assert(oes[k1].item < item);
                            }
                        }
                        assert forall|k: int| 0 <= k < nes.len() implies (#[trigger] nes[k]).item
                            < names.len() && nes[k].freq == nes[k].positions@.len() && nes[k].freq
                            > 0 by {
                            if k < nes.len() - 1 {
                                assert(nes[k] == oes[k]);
                                assert(oes[k].item < names.len() && oes[k].freq
                                    == oes[k].positions@.len() && oes[k].freq > 0);
                            }
                        }
                        assert(entries_structural(nes, names));
                    }
                }
                // reflection: stored entries
                assert forall|j1: int, k: int|
                    0 <= j1 < new_ix.len() && 0 <= k < new_ix[j1].entries@.len()
                    implies positions_match(
                    (#[trigger] new_ix[j1].entries@[k]).positions@,
                    stage_occ(
                        names,
                        ii,
                        w,
                        pp + 1,
                        new_ix[j1].entries@[k].item as int,
                        new_ix[j1].token@,
                    ),
                ) by {
                    if j1 != jj {
                        assert(new_ix[j1] == old_ix[j1]);
                        let e = old_ix[j1].entries@[k];
                        assert(positions_match(
                            e.positions@,
                            stage_occ(names, ii, w, pp, e.item as int, old_ix[j1].token@),
                        ));
                        if j1 < jj {
                            assert(old_ix[j1].token@ != old_ix[jj].token@);
                        } else {
                            assert(old_ix[jj].token@ != old_ix[j1].token@);
                        }
                        assert(stage_occ(names, ii, w, pp + 1, e.item as int, old_ix[j1].token@)
                            == stage_occ(names, ii, w, pp, e.item as int, old_ix[j1].token@));
                    } else {
                        if k < nes.len() - 1 {
                            assert(nes[k] == oes[k]);
                            let e = oes[k];
                            assert(old_ix[jj].entries@[k] == e);
                            assert(positions_match(
                                e.positions@,
                                stage_occ(names, ii, w, pp, e.item as int, tok@),
                            ));
                            assert(entries_structural(old_ix[jj].entries@, names));
                            if e.item == item {
                                if updated_last {
                                    assert(oes[k].item < oes[oes.len() - 1].item);
                                    assert(oes[oes.len() - 1].item == item);
                                    assert(false);
                                } else {
                                    assert(oes[k].item < item);
                                    assert(false);
                                }
                            }
                            assert(stage_occ(names, ii, w, pp + 1, e.item as int, tok@)
                                == stage_occ(names, ii, w, pp, e.item as int, tok@));
                        } else {
                            assert(positions_match(ne.positions@, stage1));
                        }
                    }
                }
                // reflection: completeness
                assert forall|item2: int, tok2: Seq<char>|
                    0 <= item2 < names.len() && 1 <= tok2.len() <= MAX_TOKEN_WIDTH && (
                #[trigger] stage_occ(names, ii, w, pp + 1, item2, tok2)).len() > 0
                    implies has_entry(new_ix, tok2, item2) by {
                    if item2 == ii && tok2 == tok@ {
                        assert(entry_at(new_ix, tok2, item2, jj, nes.len() - 1));
                    } else {
                        assert(stage_occ(names, ii, w, pp + 1, item2, tok2) == stage_occ(
                            names,
                            ii,
                            w,
                            pp,
                            item2,
                            tok2,
                        ));
                        assert(has_entry(old_ix, tok2, item2));
                        let (j2, k2): (int, int) = choose|j2: int, k2: int|
                            entry_at(old_ix, tok2, item2, j2, k2);
                        if j2 != jj {
                            assert(new_ix[j2] == old_ix[j2]);
                            assert(entry_at(new_ix, tok2, item2, j2, k2));
                        } else {
                            assert(oes[k2].item == item2);
                            if updated_last && k2 == oes.len() - 1 {
                                assert(oes[k2].item == item);
                                assert(false);
                            }
                            assert(nes[k2] == oes[k2]);
                            assert(entry_at(new_ix, tok2, item2, jj, k2));
                        }
                    }
                }
            }
        },
    }
}

/// Build the inverted index over the case-folded names of the items, exactly
/// as the occurrence model defines it: for every item, every contiguous
/// substring token of width one through `MAX_TOKEN_WIDTH` of its folded name
/// is recorded with its term frequency and its starting positions. An item
/// with an empty name simply contributes no tokens.
pub fn build_index(apps: &Vec<App>) -> (ix: SearchIndex)
    ensures
        ix.wf(),
        ix.names@.len() == apps@.len(),
        forall|i: int| 0 <= i < apps@.len() ==> ix.names@[i] == fold_of((#[trigger] apps@[i]).name@),
{
    let ghost names = apps@.map_values(|a: App| fold_of(a.name@));
    let mut postings: Vec<Posting> = Vec::new();
    let n = apps.len();
    proof {
        assert forall|item: int, tok: Seq<char>|
            0 <= item < names.len() && 1 <= tok.len() <= MAX_TOKEN_WIDTH implies (
        #[trigger] stage_occ(names, 0, 1, 0, item, tok)).len() == 0 by {
            if item == 0 && tok.len() == 1 {
                assert(occ_upto(names[0], tok, 0) == Seq::<int>::empty());
            }
        }
        assert(postings_structural(postings@, names));
        assert(postings_reflect(postings@, names, 0, 1, 0));
    }
    for i in 0..n
        invariant
            n == apps@.len(),
            names == apps@.map_values(|a: App| fold_of(a.name@)),
            names.len() == n,
            postings_structural(postings@, names),
            postings_reflect(postings@, names, i as int, 1, 0),
    {
        let folded = fold_chars(apps[i].name.as_str());
        proof {
            assert(folded@ == names[i as int]);
        }
        let len = folded.len();
        let mut w: usize = 1;
        while w <= MAX_TOKEN_WIDTH
            invariant
                n == apps@.len(),
                names.len() == n,
                i < n,
                folded@ == names[i as int],
                len == folded@.len(),
                1 <= w <= MAX_TOKEN_WIDTH + 1,
                postings_structural(postings@, names),
                postings_reflect(postings@, names, i as int, w as int, 0),
            decreases MAX_TOKEN_WIDTH + 1 - w,
        {
            if w <= len {
                let last_start = len - w;
                for p in 0..(last_start + 1)
                    invariant
                        n == apps@.len(),
                        names.len() == n,
                        i < n,
                        folded@ == names[i as int],
                        len == folded@.len(),
                        1 <= w <= MAX_TOKEN_WIDTH,
                        w <= len,
                        last_start == len - w,
                        postings_structural(postings@, names),
                        postings_reflect(postings@, names, i as int, w as int, p as int),
                {
                    let tok = token_at(&folded, p, w);
                    proof {
                        assert(is_occurrence(names[i as int], tok@, p as int));
                    }
                    insert_occurrence(&mut postings, &tok, i, p, Ghost(names), Ghost(w as int));
                }
                proof {
                    lemma_stage_next_width(names, i as int, w as int, last_start as int + 1);
                    lemma_reflect_shift(
                        postings@,
                        names,
                        i as int,
                        w as int,
                        last_start as int + 1,
                        i as int,
                        w as int + 1,
                        0,
                    );
                }
            } else {
                proof {
                    lemma_stage_next_width(names, i as int, w as int, 0);
                    lemma_reflect_shift(
                        postings@,
                        names,
                        i as int,
                        w as int,
                        0,
                        i as int,
                        w as int + 1,
                        0,
                    );
                }
            }
            w = w + 1;
        }
        proof {
            lemma_stage_next_item(names, i as int);
            lemma_reflect_shift(
                postings@,
                names,
                i as int,
                MAX_TOKEN_WIDTH as int + 1,
                0,
                i as int + 1,
                1,
                0,
            );
        }
    }
    SearchIndex { postings, names: Ghost(names) }
}

} // verus!
